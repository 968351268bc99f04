//! Dotted-decimal IPv4 literals: four octets in decimal, without leading
//! zeros, separated by dots.
use crate::network::{address_of, bucket_key_of, lemma_bucket_key_of_octets};
use vstd::arithmetic::div_mod::lemma_fundamental_div_mod_converse;
use vstd::prelude::*;

verus! {

/// The character of a decimal digit.
pub open spec fn digit_char(d: int) -> char {
    ((d + 48) as u8) as char
}

/// The decimal text of an octet, without leading zeros.
pub open spec fn decimal_text(x: u8) -> Seq<char> {
    if x < 10 {
        seq![digit_char(x as int)]
    } else if x < 100 {
        seq![digit_char(x as int / 10), digit_char(x as int % 10)]
    } else {
        seq![digit_char(x as int / 100), digit_char(x as int / 10 % 10), digit_char(x as int % 10)]
    }
}

/// The literal `o0.o1.o2.o3`.
pub open spec fn dotted_text(o0: u8, o1: u8, o2: u8, o3: u8) -> Seq<char> {
    decimal_text(o0) + seq!['.'] + decimal_text(o1) + seq!['.'] + decimal_text(o2) + seq!['.']
        + decimal_text(o3)
}

/// The dotted-decimal literal of an address, most significant octet first.
pub open spec fn address_text(a: u32) -> Seq<char> {
    dotted_text(
        (a as int / 16777216) as u8,
        (a as int / 65536 % 256) as u8,
        (a as int / 256 % 256) as u8,
        (a as int % 256) as u8,
    )
}

/// The address whose literal `s` is, if any.
pub open spec fn address_of_text(s: Seq<char>) -> Option<u32> {
    if exists|a: u32| address_text(a) == s {
        Some(choose|a: u32| address_text(a) == s)
    } else {
        None
    }
}

/// Which of the 81 ways to lay out four octets of one to three digits each
/// a literal uses, numbered in base 3.
spec fn layout_code(o0: u8, o1: u8, o2: u8, o3: u8) -> int {
    (decimal_text(o0).len() - 1) * 27 + (decimal_text(o1).len() - 1) * 9 + (decimal_text(o2).len()
        - 1) * 3 + (decimal_text(o3).len() - 1)
}

/// The octets of `address_of(o0, o1, o2, o3)` are `o0`, `o1`, `o2`, `o3`.
proof fn lemma_octets_of_address(o0: u8, o1: u8, o2: u8, o3: u8)
    ensures
        address_text(address_of(o0, o1, o2, o3)) == dotted_text(o0, o1, o2, o3),
{
    let x = o0 as int * 16777216 + o1 as int * 65536 + o2 as int * 256 + o3 as int;
    let h = o0 as int * 256 + o1 as int;
    let m = h * 256 + o2 as int;
    assert(x == m * 256 + o3 && m == o0 as int * 65536 + (o1 as int * 256 + o2 as int) && x
        == h * 65536 + (o2 as int * 256 + o3 as int) && x == o0 as int * 16777216 + (o1 as int
        * 65536 + o2 as int * 256 + o3 as int)) by (nonlinear_arith)
        requires
            x == o0 as int * 16777216 + o1 as int * 65536 + o2 as int * 256 + o3 as int,
            h == o0 as int * 256 + o1 as int,
            m == h * 256 + o2 as int,
    ;
    assert(0 <= x < 0x1_0000_0000) by (nonlinear_arith)
        requires
            x == m * 256 + o3,
            m == o0 as int * 65536 + (o1 as int * 256 + o2 as int),
            0 <= o0 < 256,
            0 <= o1 < 256,
            0 <= o2 < 256,
            0 <= o3 < 256,
    ;
    assert((o1 as int * 65536 + o2 as int * 256 + o3 as int) < 16777216) by (nonlinear_arith)
        requires
            0 <= o1 < 256,
            0 <= o2 < 256,
            0 <= o3 < 256,
    ;
    lemma_fundamental_div_mod_converse(x, 16777216, o0 as int, o1 as int * 65536 + o2 as int * 256 + o3 as int);
    lemma_fundamental_div_mod_converse(x, 65536, h, o2 as int * 256 + o3 as int);
    lemma_fundamental_div_mod_converse(h, 256, o0 as int, o1 as int);
    lemma_fundamental_div_mod_converse(x, 256, m, o3 as int);
    lemma_fundamental_div_mod_converse(m, 256, h, o2 as int);
}

/// The characters of an octet's decimal text, as numbers.
proof fn lemma_decimal_text_chars(x: u8)
    ensures
        ({
            let t = decimal_text(x);
            &&& 1 <= t.len() <= 3
            &&& t.len() == 1 <==> x < 10
            &&& t.len() == 2 <==> 10 <= x < 100
            &&& forall|i: int| 0 <= i < t.len() ==> 48 <= #[trigger] (t[i] as u32) <= 57
            &&& t.len() > 1 ==> t[0] as u32 != 48
            &&& t.len() == 1 ==> t[0] as u32 == x + 48
            &&& t.len() == 2 ==> t[0] as u32 == x / 10 + 48 && t[1] as u32 == x % 10 + 48
            &&& t.len() == 3 ==> t[0] as u32 == x / 100 + 48 && t[1] as u32 == x / 10 % 10 + 48
                && t[2] as u32 == x % 10 + 48
        }),
{
}

/// Characters with the same code are the same character.
proof fn lemma_same_code_same_char(c: char, e: char)
    requires
        c as u32 == e as u32,
    ensures
        c == e,
{
}

/// The decimal digits of `100 * a + 10 * b + c`, for digits `a`, `b`, `c`.
proof fn lemma_decimal_digits(a: int, b: int, c: int)
    requires
        0 <= a < 10,
        0 <= b < 10,
        0 <= c < 10,
    ensures
        (10 * a + b) / 10 == a,
        (10 * a + b) % 10 == b,
        (100 * a + 10 * b + c) / 100 == a,
        (100 * a + 10 * b + c) / 10 % 10 == b,
        (100 * a + 10 * b + c) % 10 == c,
{
    lemma_fundamental_div_mod_converse(10 * a + b, 10, a, b);
    lemma_fundamental_div_mod_converse(100 * a + 10 * b + c, 100, a, 10 * b + c);
    lemma_fundamental_div_mod_converse(100 * a + 10 * b + c, 10, 10 * a + b, c);
}

/// The octet whose decimal text is `v[start..start + len]`, if there is one.
fn octet_at(v: &Vec<char>, start: usize, len: usize) -> (r: Option<u8>)
    requires
        1 <= len <= 3,
        start + len <= v.len(),
    ensures
        match r {
            Some(x) => v@.subrange(start as int, start + len) == decimal_text(x),
            None => forall|x: u8| v@.subrange(start as int, start + len) != decimal_text(x),
        },
{
    let ghost t = v@.subrange(start as int, start + len);
    let mut ok = true;
    let mut value: u32 = 0;
    let mut i: usize = 0;
    while i < len
        invariant
            1 <= len <= 3,
            start + len <= v.len(),
            t == v@.subrange(start as int, start + len),
            i <= len,
            i == 0 ==> value == 0,
            ok ==> forall|j: int| 0 <= j < i ==> 48 <= #[trigger] (t[j] as u32) <= 57,
            ok && i == 1 ==> value == t[0] as u32 - 48,
            ok && i == 2 ==> value == (t[0] as u32 - 48) * 10 + (t[1] as u32 - 48),
            ok && i == 3 ==> value == (t[0] as u32 - 48) * 100 + (t[1] as u32 - 48) * 10 + (
            t[2] as u32 - 48),
            !ok ==> exists|j: int| 0 <= j < len && !(48 <= #[trigger] (t[j] as u32) <= 57),
        decreases len - i,
    {
        let u = v[start + i] as u32;
        assert(u == t[i as int] as u32);
        if ok {
            if 48 <= u && u <= 57 {
                value = value * 10 + (u - 48);
            } else {
                ok = false;
            }
        }
        i = i + 1;
    }
    let first = v[start] as u32;
    assert(first == t[0] as u32);
    if !ok || (len > 1 && first == 48) || value > 255 {
        proof {
            assert forall|x: u8| t != decimal_text(x) by {
                lemma_decimal_text_chars(x);
            }
        }
        return None;
    }
    let x = value as u8;
    proof {
        lemma_decimal_text_chars(x);
        let d = decimal_text(x);
        if len == 2 {
            lemma_decimal_digits(t[0] as u32 - 48, t[1] as u32 - 48, 0);
        } else if len == 3 {
            lemma_decimal_digits(t[0] as u32 - 48, t[1] as u32 - 48, t[2] as u32 - 48);
        }
        assert(d.len() == t.len());
        assert(t[0] as u32 == d[0] as u32);
        lemma_same_code_same_char(t[0], d[0]);
        if len >= 2 {
            assert(t[1] as u32 == d[1] as u32);
            lemma_same_code_same_char(t[1], d[1]);
        }
        if len == 3 {
            assert(t[2] as u32 == d[2] as u32);
            lemma_same_code_same_char(t[2], d[2]);
        }
        assert forall|j: int| 0 <= j < t.len() implies t[j] == d[j] by {
            assert(j == 0 || j == 1 || j == 2);
        }
        assert(t =~= d);
    }
    Some(x)
}

/// Where the parts of `o0.o1.o2.o3` stand in its text.
proof fn lemma_dotted_text_parts(o0: u8, o1: u8, o2: u8, o3: u8)
    ensures
        ({
            let t = dotted_text(o0, o1, o2, o3);
            let l0 = decimal_text(o0).len() as int;
            let l1 = decimal_text(o1).len() as int;
            let l2 = decimal_text(o2).len() as int;
            let l3 = decimal_text(o3).len() as int;
            let p1 = l0;
            let p2 = p1 + 1 + l1;
            let p3 = p2 + 1 + l2;
            &&& 1 <= l0 <= 3 && 1 <= l1 <= 3 && 1 <= l2 <= 3 && 1 <= l3 <= 3
            &&& t.len() == p3 + 1 + l3
            &&& t[p1] == '.' && t[p2] == '.' && t[p3] == '.'
            &&& t.subrange(0, p1) == decimal_text(o0)
            &&& t.subrange(p1 + 1, p2) == decimal_text(o1)
            &&& t.subrange(p2 + 1, p3) == decimal_text(o2)
            &&& t.subrange(p3 + 1, t.len() as int) == decimal_text(o3)
        }),
{
    let t = dotted_text(o0, o1, o2, o3);
    let l0 = decimal_text(o0).len() as int;
    let l1 = decimal_text(o1).len() as int;
    let l2 = decimal_text(o2).len() as int;
    let p1 = l0;
    let p2 = p1 + 1 + l1;
    let p3 = p2 + 1 + l2;
    assert(t.subrange(0, p1) =~= decimal_text(o0));
    assert(t.subrange(p1 + 1, p2) =~= decimal_text(o1));
    assert(t.subrange(p2 + 1, p3) =~= decimal_text(o2));
    assert(t.subrange(p3 + 1, t.len() as int) =~= decimal_text(o3));
}

/// The octet lengths of a layout are the base-3 digits of its number, plus one.
proof fn lemma_layout_digits(o0: u8, o1: u8, o2: u8, o3: u8, c: int)
    requires
        layout_code(o0, o1, o2, o3) == c,
    ensures
        decimal_text(o0).len() == c / 27 + 1,
        decimal_text(o1).len() == c / 9 % 3 + 1,
        decimal_text(o2).len() == c / 3 % 3 + 1,
        decimal_text(o3).len() == c % 3 + 1,
{
    let t0 = decimal_text(o0).len() - 1;
    let t1 = decimal_text(o1).len() - 1;
    let t2 = decimal_text(o2).len() - 1;
    let t3 = decimal_text(o3).len() - 1;
    lemma_fundamental_div_mod_converse(c, 27, t0, t1 * 9 + t2 * 3 + t3);
    lemma_fundamental_div_mod_converse(c, 9, t0 * 3 + t1, t2 * 3 + t3);
    lemma_fundamental_div_mod_converse(t0 * 3 + t1, 3, t0, t1);
    lemma_fundamental_div_mod_converse(c, 3, t0 * 9 + t1 * 3 + t2, t3);
    lemma_fundamental_div_mod_converse(t0 * 9 + t1 * 3 + t2, 3, t0 * 3 + t1, t2);
}

/// What a literal with the octet lengths of layout `c` has at each place.
proof fn lemma_layout_places(v: Seq<char>, c: int, o0: u8, o1: u8, o2: u8, o3: u8)
    requires
        layout_code(o0, o1, o2, o3) == c,
        dotted_text(o0, o1, o2, o3) == v,
    ensures
        ({
            let p1 = c / 27 + 1;
            let p2 = p1 + 1 + (c / 9 % 3 + 1);
            let p3 = p2 + 1 + (c / 3 % 3 + 1);
            &&& v.len() == p3 + 1 + (c % 3 + 1)
            &&& v[p1] == '.' && v[p2] == '.' && v[p3] == '.'
            &&& v.subrange(0, p1) == decimal_text(o0)
            &&& v.subrange(p1 + 1, p2) == decimal_text(o1)
            &&& v.subrange(p2 + 1, p3) == decimal_text(o2)
            &&& v.subrange(p3 + 1, v.len() as int) == decimal_text(o3)
        }),
{
    lemma_layout_digits(o0, o1, o2, o3, c);
    lemma_dotted_text_parts(o0, o1, o2, o3);
}

/// Text made of four octets' decimal texts with dots between them is their literal.
proof fn lemma_spelled_layout(
    v: Seq<char>,
    p1: int,
    p2: int,
    p3: int,
    o0: u8,
    o1: u8,
    o2: u8,
    o3: u8,
)
    requires
        0 < p1 < p2 < p3 < v.len(),
        v[p1] == '.' && v[p2] == '.' && v[p3] == '.',
        v.subrange(0, p1) == decimal_text(o0),
        v.subrange(p1 + 1, p2) == decimal_text(o1),
        v.subrange(p2 + 1, p3) == decimal_text(o2),
        v.subrange(p3 + 1, v.len() as int) == decimal_text(o3),
    ensures
        v == dotted_text(o0, o1, o2, o3),
{
    assert(v =~= v.subrange(0, p1) + seq!['.'] + v.subrange(p1 + 1, p2) + seq!['.'] + v.subrange(
        p2 + 1,
        p3,
    ) + seq!['.'] + v.subrange(p3 + 1, v.len() as int));
}

/// The address `v` spells when read with the octet lengths of layout `c`, if it
/// spells one that way.
fn read_layout(v: &Vec<char>, c: usize) -> (r: Option<u32>)
    requires
        c < 81,
    ensures
        match r {
            Some(a) => v@ == address_text(a),
            None => forall|o0: u8, o1: u8, o2: u8, o3: u8|
                layout_code(o0, o1, o2, o3) == c ==> #[trigger] dotted_text(o0, o1, o2, o3) != v@,
        },
{
    let l0 = c / 27 + 1;
    let l1 = c / 9 % 3 + 1;
    let l2 = c / 3 % 3 + 1;
    let l3 = c % 3 + 1;
    let p1 = l0;
    let p2 = p1 + 1 + l1;
    let p3 = p2 + 1 + l2;
    if !(p3 + 1 + l3 == v.len() && v[p1] == '.' && v[p2] == '.' && v[p3] == '.') {
        proof {
            assert forall|o0: u8, o1: u8, o2: u8, o3: u8|
                layout_code(o0, o1, o2, o3) == c implies #[trigger] dotted_text(o0, o1, o2, o3)
                != v@ by {
                if dotted_text(o0, o1, o2, o3) == v@ {
                    lemma_layout_places(v@, c as int, o0, o1, o2, o3);
                }
            }
        }
        return None;
    }
    let r0 = octet_at(v, 0, l0);
    let r1 = octet_at(v, p1 + 1, l1);
    let r2 = octet_at(v, p2 + 1, l2);
    let r3 = octet_at(v, p3 + 1, l3);
    if let (Some(o0), Some(o1), Some(o2), Some(o3)) = (r0, r1, r2, r3) {
        proof {
            lemma_spelled_layout(v@, p1 as int, p2 as int, p3 as int, o0, o1, o2, o3);
            lemma_octets_of_address(o0, o1, o2, o3);
        }
        return Some(
            (o0 as u32) * 16777216 + (o1 as u32) * 65536 + (o2 as u32) * 256 + (o3 as u32),
        );
    }
    proof {
        assert forall|o0: u8, o1: u8, o2: u8, o3: u8|
            layout_code(o0, o1, o2, o3) == c implies #[trigger] dotted_text(o0, o1, o2, o3)
            != v@ by {
            if dotted_text(o0, o1, o2, o3) == v@ {
                lemma_layout_places(v@, c as int, o0, o1, o2, o3);
            }
        }
    }
    None
}

/// Distinct octets have distinct texts.
proof fn lemma_decimal_text_injective(x: u8, y: u8)
    requires
        decimal_text(x) == decimal_text(y),
    ensures
        x == y,
{
    lemma_decimal_text_chars(x);
    lemma_decimal_text_chars(y);
    let t = decimal_text(x);
    assert(t[0] as u32 == decimal_text(y)[0] as u32);
    if t.len() >= 2 {
        assert(t[1] as u32 == decimal_text(y)[1] as u32);
    }
    if t.len() == 3 {
        assert(t[2] as u32 == decimal_text(y)[2] as u32);
    }
}

/// Where an octet's text stands in a longer text, that stretch holds no dot.
proof fn lemma_no_dot_in_octet(x: u8, t: Seq<char>, from: int)
    requires
        0 <= from,
        from + decimal_text(x).len() <= t.len(),
        t.subrange(from, from + decimal_text(x).len()) == decimal_text(x),
    ensures
        forall|i: int| from <= i < from + decimal_text(x).len() ==> t[i] != '.',
{
    lemma_decimal_text_chars(x);
    assert forall|i: int| from <= i < from + decimal_text(x).len() implies t[i] != '.' by {
        assert(t[i] == decimal_text(x)[i - from]);
    }
}

/// Distinct addresses have distinct literals.
pub proof fn lemma_address_text_injective(a: u32, b: u32)
    requires
        address_text(a) == address_text(b),
    ensures
        a == b,
{
    let (a0, a1, a2, a3) = (
        (a as int / 16777216) as u8,
        (a as int / 65536 % 256) as u8,
        (a as int / 256 % 256) as u8,
        (a as int % 256) as u8,
    );
    let (b0, b1, b2, b3) = (
        (b as int / 16777216) as u8,
        (b as int / 65536 % 256) as u8,
        (b as int / 256 % 256) as u8,
        (b as int % 256) as u8,
    );
    let t = address_text(a);
    lemma_dotted_text_parts(a0, a1, a2, a3);
    lemma_dotted_text_parts(b0, b1, b2, b3);
    let la0 = decimal_text(a0).len() as int;
    let lb0 = decimal_text(b0).len() as int;
    lemma_no_dot_in_octet(a0, t, 0);
    lemma_no_dot_in_octet(b0, t, 0);
    assert(la0 == lb0);
    lemma_decimal_text_injective(a0, b0);
    let la1 = decimal_text(a1).len() as int;
    let lb1 = decimal_text(b1).len() as int;
    lemma_no_dot_in_octet(a1, t, la0 + 1);
    lemma_no_dot_in_octet(b1, t, la0 + 1);
    assert(la1 == lb1);
    lemma_decimal_text_injective(a1, b1);
    let la2 = decimal_text(a2).len() as int;
    let lb2 = decimal_text(b2).len() as int;
    lemma_no_dot_in_octet(a2, t, la0 + la1 + 2);
    lemma_no_dot_in_octet(b2, t, la0 + la1 + 2);
    assert(la2 == lb2);
    lemma_decimal_text_injective(a2, b2);
    lemma_decimal_text_injective(a3, b3);
    lemma_octets_determine(a);
    lemma_octets_determine(b);
}

/// An address is the sum of its octets at their places.
proof fn lemma_octets_determine(a: u32)
    ensures
        a as int == (a as int / 16777216) * 16777216 + (a as int / 65536 % 256) * 65536 + (a as int
            / 256 % 256) * 256 + a as int % 256,
{
    let x = a as int;
    vstd::arithmetic::div_mod::lemma_fundamental_div_mod(x, 256);
    vstd::arithmetic::div_mod::lemma_fundamental_div_mod(x / 256, 256);
    vstd::arithmetic::div_mod::lemma_fundamental_div_mod(x / 65536, 256);
    vstd::arithmetic::div_mod::lemma_div_denominator(x, 256, 256);
    vstd::arithmetic::div_mod::lemma_div_denominator(x, 65536, 256);
}

/// The literal `o0.o1.o2.o3` spells the address of those octets, and that
/// address has bucket key `1000 * o0 + o1`.
pub proof fn lemma_literal_bucket_key(o0: u8, o1: u8, o2: u8, o3: u8)
    ensures
        address_of_text(dotted_text(o0, o1, o2, o3)) == Some(address_of(o0, o1, o2, o3)),
        bucket_key_of(address_of(o0, o1, o2, o3)) == 1000 * o0 + o1,
{
    let a = address_of(o0, o1, o2, o3);
    lemma_octets_of_address(o0, o1, o2, o3);
    let b = choose|b: u32| address_text(b) == dotted_text(o0, o1, o2, o3);
    lemma_address_text_injective(a, b);
    lemma_bucket_key_of_octets(o0, o1, o2, o3);
}

/// Reads a dotted-decimal IPv4 literal: the address whose literal `s` is, or
/// `None` when `s` is the literal of no address.
pub fn parse_ipv4(s: &str) -> (r: Option<u32>)
    ensures
        r == address_of_text(s@),
        match r {
            Some(a) => s@ == address_text(a),
            None => forall|a: u32| s@ != address_text(a),
        },
{
    let r = parse_literal(s);
    proof {
        if let Some(a) = r {
            let b = choose|b: u32| address_text(b) == s@;
            lemma_address_text_injective(a, b);
        }
    }
    r
}

/// The address whose literal `s` is, found by trying each layout of octet lengths.
fn parse_literal(s: &str) -> (r: Option<u32>)
    ensures
        match r {
            Some(a) => s@ == address_text(a),
            None => forall|a: u32| s@ != address_text(a),
        },
{
    let n = s.unicode_len();
    if n > 15 {
        proof {
            assert forall|a: u32| s@ != address_text(a) by {
                lemma_dotted_text_parts(
                    (a as int / 16777216) as u8,
                    (a as int / 65536 % 256) as u8,
                    (a as int / 256 % 256) as u8,
                    (a as int % 256) as u8,
                );
            }
        }
        return None;
    }
    let mut v: Vec<char> = Vec::new();
    let mut i: usize = 0;
    while i < n
        invariant
            n == s@.len(),
            i <= n,
            v@ =~= s@.subrange(0, i as int),
        decreases n - i,
    {
        v.push(s.get_char(i));
        i = i + 1;
    }
    assert(v@ =~= s@);
    let mut c: usize = 0;
    while c < 81
        invariant
            c <= 81,
            v@ == s@,
            forall|o0: u8, o1: u8, o2: u8, o3: u8| #[trigger]
                dotted_text(o0, o1, o2, o3) == v@ ==> layout_code(o0, o1, o2, o3) >= c,
        decreases 81 - c,
    {
        match read_layout(&v, c) {
            Some(a) => {
                return Some(a);
            },
            None => {},
        }
        c = c + 1;
    }
    proof {
        assert forall|a: u32| s@ != address_text(a) by {
            lemma_dotted_text_parts(
                (a as int / 16777216) as u8,
                (a as int / 65536 % 256) as u8,
                (a as int / 256 % 256) as u8,
                (a as int % 256) as u8,
            );
        }
    }
    None
}

} // verus!
