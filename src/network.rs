//! IPv4 networks, their containment test, and the coarse bucket keys that
//! partition the address space by /16.
use vstd::arithmetic::div_mod::{lemma_div_denominator, lemma_fundamental_div_mod_converse};
use vstd::arithmetic::power2::{lemma2_to64, lemma_pow2_adds, lemma_pow2_pos, lemma_pow2_unfold, pow2};
use vstd::prelude::*;

verus! {

/// The 16-bit prefix of an address: its first two octets as one number.
pub open spec fn slash16_of(a: u32) -> int {
    a as int / 65536
}

/// The bucket key of the /16 network whose 16-bit prefix is `h`:
/// 1000 times its first octet plus its second octet.
pub open spec fn slash16_key(h: int) -> u32 {
    (1000 * (h / 256) + h % 256) as u32
}

/// The bucket key of an address.
pub open spec fn bucket_key_of(a: u32) -> u32 {
    slash16_key(slash16_of(a))
}

/// The address written `o0.o1.o2.o3`.
pub open spec fn address_of(o0: u8, o1: u8, o2: u8, o3: u8) -> u32 {
    (o0 as int * 16777216 + o1 as int * 65536 + o2 as int * 256 + o3 as int) as u32
}

/// An IPv4 network: an address and the number of its leading bits that the
/// network fixes. The address may carry bits past the prefix; they are ignored.
#[derive(Clone, Copy, Debug, PartialEq, Eq, Structural)]
pub struct Ipv4Network {
    addr: u32,
    prefix_len: u8,
}

impl Ipv4Network {
    #[verifier::type_invariant]
    spec fn inv(&self) -> bool {
        self.prefix_len <= 32
    }

    pub closed spec fn spec_addr(&self) -> u32 {
        self.addr
    }

    pub closed spec fn spec_prefix_len(&self) -> u8 {
        self.prefix_len
    }

    /// The network of the first `prefix_len` bits of `addr`; `None` when the
    /// prefix is longer than an address.
    pub fn new(addr: u32, prefix_len: u8) -> (r: Option<Ipv4Network>)
        ensures
            match r {
                Some(n) => prefix_len <= 32 && n.spec_addr() == addr && n.spec_prefix_len()
                    == prefix_len,
                None => prefix_len > 32,
            },
    {
        if prefix_len <= 32 {
            Some(Ipv4Network { addr, prefix_len })
        } else {
            None
        }
    }

    pub fn addr(&self) -> (r: u32)
        ensures
            r == self.spec_addr(),
    {
        self.addr
    }

    pub fn prefix_len(&self) -> (r: u8)
        ensures
            r == self.spec_prefix_len(),
            r <= 32,
    {
        proof {
            use_type_invariant(self);
        }
        self.prefix_len
    }
}

/// The number of trailing address bits that a network leaves free.
pub open spec fn host_bits(n: Ipv4Network) -> nat {
    if n.spec_prefix_len() <= 32 {
        (32 - n.spec_prefix_len()) as nat
    } else {
        0
    }
}

/// CIDR containment: `a` agrees with the network's address on every prefix bit.
pub open spec fn contains_spec(n: Ipv4Network, a: u32) -> bool {
    a as int / pow2(host_bits(n)) as int == n.spec_addr() as int / pow2(host_bits(n)) as int
}

/// For a network broader than /16, the number of /16 networks it spans.
pub open spec fn slash16_count(n: Ipv4Network) -> nat {
    pow2((16 - n.spec_prefix_len()) as nat)
}

/// For a network broader than /16, the 16-bit prefix of the first /16 network it spans.
pub open spec fn first_slash16(n: Ipv4Network) -> int {
    slash16_of(n.spec_addr()) / slash16_count(n) as int * slash16_count(n) as int
}

/// The bucket keys of a network: the one key of its address when it is /16 or
/// narrower, else the key of each /16 network it spans, in ascending order.
pub open spec fn expand_spec(n: Ipv4Network) -> Seq<u32> {
    if n.spec_prefix_len() >= 16 {
        seq![bucket_key_of(n.spec_addr())]
    } else {
        Seq::new(slash16_count(n), |i: int| slash16_key(first_slash16(n) + i))
    }
}

/// Distinct /16 networks have distinct bucket keys.
pub proof fn lemma_slash16_key_injective(h1: int, h2: int)
    requires
        0 <= h1 < 65536,
        0 <= h2 < 65536,
        slash16_key(h1) == slash16_key(h2),
    ensures
        h1 == h2,
{
    let k1 = 1000 * (h1 / 256) + h1 % 256;
    let k2 = 1000 * (h2 / 256) + h2 % 256;
    assert(k1 == k2);
    lemma_fundamental_div_mod_converse(k1, 1000, h1 / 256, h1 % 256);
    lemma_fundamental_div_mod_converse(k2, 1000, h2 / 256, h2 % 256);
}

/// The bucket key of `o0.o1.o2.o3` is `1000 * o0 + o1`.
pub proof fn lemma_bucket_key_of_octets(o0: u8, o1: u8, o2: u8, o3: u8)
    ensures
        bucket_key_of(address_of(o0, o1, o2, o3)) == 1000 * o0 + o1,
{
    let h = o0 as int * 256 + o1 as int;
    let low = o2 as int * 256 + o3 as int;
    let x = o0 as int * 16777216 + o1 as int * 65536 + o2 as int * 256 + o3 as int;
    assert(x == h * 65536 + low) by (nonlinear_arith)
        requires
            h == o0 as int * 256 + o1 as int,
            low == o2 as int * 256 + o3 as int,
            x == o0 as int * 16777216 + o1 as int * 65536 + o2 as int * 256 + o3 as int,
    ;
    assert(0 <= x < 0x1_0000_0000) by (nonlinear_arith)
        requires
            x == h * 65536 + low,
            0 <= h < 65536,
            0 <= low < 65536,
    ;
    lemma_fundamental_div_mod_converse(x, 65536, h, low);
    lemma_fundamental_div_mod_converse(h, 256, o0 as int, o1 as int);
}

/// A network broader than /16 spans whole /16 networks that end within the address space.
proof fn lemma_slash16_span(n: Ipv4Network)
    requires
        n.spec_prefix_len() < 16,
    ensures
        slash16_count(n) > 0,
        0 <= first_slash16(n),
        first_slash16(n) + slash16_count(n) <= 65536,
        pow2(host_bits(n)) == 65536 * slash16_count(n),
        first_slash16(n) <= slash16_of(n.spec_addr()) < first_slash16(n) + slash16_count(n),
{
    let p = n.spec_prefix_len() as nat;
    let w = slash16_count(n) as int;
    let big = pow2(p) as int;
    lemma_pow2_pos((16 - p) as nat);
    lemma_pow2_pos(p);
    lemma_pow2_adds(p, (16 - p) as nat);
    lemma_pow2_adds(16, (16 - p) as nat);
    lemma2_to64();
    assert(big * w == 65536);
    let h = slash16_of(n.spec_addr());
    let q = h / w;
    let r = h % w;
    assert(h == q * w + r && 0 <= r < w) by {
        vstd::arithmetic::div_mod::lemma_fundamental_div_mod(h, w);
    }
    assert(0 <= q) by {
        vstd::arithmetic::div_mod::lemma_div_pos_is_pos(h, w);
    }
    assert(q < big) by (nonlinear_arith)
        requires
            h == q * w + r,
            0 <= r,
            w > 0,
            h < 65536,
            big * w == 65536,
    ;
    assert((q + 1) * w <= big * w) by (nonlinear_arith)
        requires
            q + 1 <= big,
            w > 0,
    ;
    assert(0 <= q * w && (q + 1) * w == q * w + w) by (nonlinear_arith)
        requires
            0 <= q,
            w > 0,
    ;
    assert(first_slash16(n) == q * w);
}

/// The bucket keys of a network, counted: one for a network of /16 or narrower,
/// all of whose addresses share that key; else one for each /16 network it
/// spans, all distinct, each the key of a /16 network that lies wholly inside it.
pub proof fn lemma_expand_shape(n: Ipv4Network)
    ensures
        n.spec_prefix_len() >= 16 ==> {
            &&& expand_spec(n).len() == 1
            &&& forall|a: u32| #[trigger]
                contains_spec(n, a) ==> bucket_key_of(a) == expand_spec(n)[0]
        },
        n.spec_prefix_len() < 16 ==> {
            &&& expand_spec(n).len() == pow2((16 - n.spec_prefix_len()) as nat)
            &&& expand_spec(n).no_duplicates()
            &&& forall|a: u32|
                first_slash16(n) <= slash16_of(a) < first_slash16(n) + expand_spec(n).len()
                    ==> #[trigger] contains_spec(n, a)
            &&& forall|i: int, a: u32|
                0 <= i < expand_spec(n).len() && slash16_of(a) == first_slash16(n) + i
                    ==> #[trigger] bucket_key_of(a) == #[trigger] expand_spec(n)[i]
        },
{
    if n.spec_prefix_len() >= 16 {
        assert forall|a: u32| #[trigger] contains_spec(n, a) implies bucket_key_of(a)
            == expand_spec(n)[0] by {
            lemma_contained_key(n, a);
        }
    } else {
        lemma_slash16_span(n);
        let s = expand_spec(n);
        let w = slash16_count(n) as int;
        let h0 = first_slash16(n);
        assert forall|i: int, j: int| 0 <= i < s.len() && 0 <= j < s.len() && i != j implies s[i]
            != s[j] by {
            if s[i] == s[j] {
                lemma_slash16_key_injective(h0 + i, h0 + j);
            }
        }
        assert forall|a: u32|
            h0 <= slash16_of(a) < h0 + w implies #[trigger] contains_spec(n, a) by {
            let q = slash16_of(n.spec_addr()) / w;
            let i = slash16_of(a) - h0;
            assert(h0 == q * w);
            lemma_div_denominator(a as int, 65536, w);
            lemma_div_denominator(n.spec_addr() as int, 65536, w);
            lemma_fundamental_div_mod_converse(h0 + i, w, q, i);
        }
        assert forall|i: int, a: u32|
            0 <= i < s.len() && slash16_of(a) == h0 + i implies #[trigger] bucket_key_of(a)
            == #[trigger] s[i] by {}
    }
}

/// Every address of a network has its bucket key among the network's keys.
pub proof fn lemma_contained_key(n: Ipv4Network, a: u32)
    requires
        contains_spec(n, a),
    ensures
        expand_spec(n).contains(bucket_key_of(a)),
{
    let p = n.spec_prefix_len();
    if p >= 16 {
        let hb = host_bits(n);
        let rest = (16 - hb) as nat;
        lemma_pow2_adds(hb, rest);
        lemma_pow2_pos(hb);
        lemma_pow2_pos(rest);
        lemma2_to64();
        lemma_div_denominator(a as int, pow2(hb) as int, pow2(rest) as int);
        lemma_div_denominator(n.spec_addr() as int, pow2(hb) as int, pow2(rest) as int);
        assert(slash16_of(a) == slash16_of(n.spec_addr()));
        assert(expand_spec(n)[0] == bucket_key_of(a));
    } else {
        lemma_slash16_span(n);
        let w = slash16_count(n) as int;
        let h0 = first_slash16(n);
        let ha = slash16_of(a);
        lemma_div_denominator(a as int, 65536, w);
        lemma_div_denominator(n.spec_addr() as int, 65536, w);
        let q = slash16_of(n.spec_addr()) / w;
        assert(a as int / pow2(host_bits(n)) as int == a as int / (65536 * w));
        assert(ha / w == q);
        vstd::arithmetic::div_mod::lemma_fundamental_div_mod(ha, w);
        let i = ha % w;
        assert(h0 == q * w);
        assert(ha == w * q + i);
        assert(ha == h0 + i) by (nonlinear_arith)
            requires
                ha == w * q + i,
                h0 == q * w,
        ;
        assert(expand_spec(n)[i] == bucket_key_of(a));
    }
}

/// `2` to the power `e`, for exponents up to the width of an address.
fn pow2_u64(e: u8) -> (r: u64)
    requires
        e <= 32,
    ensures
        r == pow2(e as nat),
{
    let mut r: u64 = 1;
    let mut i: u8 = 0;
    proof {
        vstd::arithmetic::power2::lemma_pow2(0);
        vstd::arithmetic::power::lemma_pow0(2);
    }
    while i < e
        invariant
            i <= e <= 32,
            r == pow2(i as nat),
        decreases e - i,
    {
        proof {
            lemma_pow2_unfold((i + 1) as nat);
            vstd::arithmetic::power2::lemma_pow2_strictly_increases((i + 1) as nat, 33);
            lemma2_to64();
        }
        r = r * 2;
        i = i + 1;
    }
    r
}

/// The bucket key of an address: 1000 times its first octet plus its second.
pub fn ipaddr_to_map_key(a: u32) -> (r: u32)
    ensures
        r == bucket_key_of(a),
{
    let h = a / 65536;
    h / 256 * 1000 + h % 256
}

/// The bucket key of a network's address.
pub fn ipnet_to_map_key(n: &Ipv4Network) -> (r: u32)
    ensures
        r == bucket_key_of(n.spec_addr()),
{
    ipaddr_to_map_key(n.addr())
}

impl Ipv4Network {
    /// Whether `a` lies in this network.
    pub fn contains(&self, a: u32) -> (r: bool)
        ensures
            r == contains_spec(*self, a),
    {
        let p = self.prefix_len();
        let d = pow2_u64(32 - p);
        proof {
            lemma_pow2_pos((32 - p) as nat);
        }
        (a as u64) / d == (self.addr as u64) / d
    }
}

/// The bucket keys under which a block of network `n` is filed.
pub fn expand_network(n: &Ipv4Network) -> (r: Vec<u32>)
    ensures
        r@ == expand_spec(*n),
{
    let p = n.prefix_len();
    if p >= 16 {
        return vec![ipnet_to_map_key(n)];
    }
    proof {
        lemma_slash16_span(*n);
    }
    let w = pow2_u64(16 - p) as u32;
    let h = n.addr / 65536;
    let h0 = h / w * w;
    let mut keys: Vec<u32> = Vec::new();
    let mut i: u32 = 0;
    while i < w
        invariant
            0 < w,
            w == slash16_count(*n),
            h0 == first_slash16(*n),
            h0 + w <= 65536,
            i <= w,
            keys@ =~= Seq::new(i as nat, |j: int| slash16_key(h0 + j)),
        decreases w - i,
    {
        let g = h0 + i;
        keys.push(g / 256 * 1000 + g % 256);
        i = i + 1;
    }
    keys
}

/// The network that ipnet reads from CIDR text, as its address and prefix length.
pub uninterp spec fn cidr_of(s: Seq<char>) -> Option<(u32, u8)>;

/// The CIDR text that ipnet writes for a network.
pub uninterp spec fn cidr_text(addr: u32, prefix_len: u8) -> Seq<char>;

/// Relies on ipnet's `FromStr for Ipv4Net`: reads `a.b.c.d/p` text. A network it
/// returns was built by `Ipv4Net::new`, which refuses prefixes longer than 32 bits.
#[verifier::external_body]
fn read_cidr(s: &str) -> (r: Option<(u32, u8)>)
    ensures
        r == cidr_of(s@),
        r matches Some((_, p)) ==> p <= 32,
{
    s.parse::<ipnet::Ipv4Net>().ok().map(|n| (u32::from(n.addr()), n.prefix_len()))
}

/// Relies on ipnet's `Display for Ipv4Net`: the text `a.b.c.d/p` of a network.
#[verifier::external_body]
fn write_cidr(addr: u32, prefix_len: u8) -> (r: String)
    requires
        prefix_len <= 32,
    ensures
        r@ == cidr_text(addr, prefix_len),
{
    ipnet::Ipv4Net::new(addr.into(), prefix_len).map(|n| n.to_string()).unwrap_or_default()
}

impl Ipv4Network {
    /// Reads a network from its CIDR text; `None` when ipnet reads no network there.
    pub fn parse(s: &str) -> (r: Option<Ipv4Network>)
        ensures
            match cidr_of(s@) {
                Some((a, p)) => r matches Some(n) && n.spec_addr() == a && n.spec_prefix_len() == p,
                None => r is None,
            },
    {
        match read_cidr(s) {
            Some((a, p)) => Ipv4Network::new(a, p),
            None => None,
        }
    }

    /// The CIDR text of this network.
    pub fn to_string(&self) -> (r: String)
        ensures
            r@ == cidr_text(self.spec_addr(), self.spec_prefix_len()),
    {
        let p = self.prefix_len();
        write_cidr(self.addr, p)
    }
}

} // verus!
