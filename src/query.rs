//! The parameters of a lookup request: which address to resolve, and in which
//! language to name places.
use crate::ipv4::{address_of_text, parse_ipv4};
use vstd::prelude::*;
use vstd::string::StringExecFns;

verus! {

/// The query string of a lookup request.
#[derive(Debug)]
pub struct QueryParams {
    pub ip: Option<String>,
    pub lang: Option<String>,
    pub callback: Option<String>,
}

/// The language of the names to answer with: the `lang` parameter, English when
/// it is absent.
pub fn get_language(query: &QueryParams) -> (r: String)
    ensures
        r@ == match query.lang {
            Some(l) => l@,
            None => "en"@,
        },
{
    match &query.lang {
        Some(l) => l.clone(),
        None => "en".to_owned(),
    }
}

/// The text of `s` before its first colon; all of `s` when it has none.
pub open spec fn host_part(s: Seq<char>) -> Seq<char>
    decreases s.len(),
{
    if s.len() == 0 || s[0] == ':' {
        Seq::empty()
    } else {
        seq![s[0]] + host_part(s.drop_first())
    }
}

/// The text before place `i` is the host part when no colon comes before `i` and
/// `i` is the end or a colon.
proof fn lemma_host_part_at(s: Seq<char>, i: int)
    requires
        0 <= i <= s.len(),
        forall|j: int| 0 <= j < i ==> s[j] != ':',
        i == s.len() || s[i] == ':',
    ensures
        host_part(s) == s.take(i),
    decreases s.len(),
{
    if i > 0 {
        lemma_host_part_at(s.drop_first(), i - 1);
        assert(s.take(i) =~= seq![s[0]] + s.drop_first().take(i - 1));
    } else {
        assert(s.take(i) =~= Seq::<char>::empty());
    }
}

/// Whether the `ip` parameter names an address to resolve: an IPv4 literal, or an
/// IPv6 one as `ip_is_ipv6` says.
pub open spec fn names_address(ip: Seq<char>, ip_is_ipv6: bool) -> bool {
    address_of_text(ip) is Some || ip_is_ipv6
}

/// The address to resolve: the `ip` parameter when it names an address; else the
/// `X-Real-IP` header; else the host of the peer's address. `None` when none of
/// them is there. `ip_is_ipv6` says whether the `ip` parameter is an IPv6 literal.
pub fn ip_address_to_resolve(
    query: &QueryParams,
    ip_is_ipv6: bool,
    real_ip: Option<String>,
    remote_addr: Option<&str>,
) -> (r: Option<String>)
    ensures
        match query.ip {
            Some(ip) if names_address(ip@, ip_is_ipv6) => r matches Some(x) && x@ == ip@,
            _ => match real_ip {
                Some(h) => r == Some(h),
                None => match remote_addr {
                    Some(peer) => r matches Some(x) && x@ == host_part(peer@),
                    None => r is None,
                },
            },
        },
{
    if let Some(ip) = &query.ip {
        if parse_ipv4(ip.as_str()).is_some() || ip_is_ipv6 {
            return Some(ip.clone());
        }
    }
    if let Some(h) = real_ip {
        return Some(h);
    }
    match remote_addr {
        Some(peer) => {
            let n = peer.unicode_len();
            let mut i: usize = 0;
            while i < n && peer.get_char(i) != ':'
                invariant
                    n == peer@.len(),
                    i <= n,
                    forall|j: int| 0 <= j < i ==> peer@[j] != ':',
                decreases n - i,
            {
                i = i + 1;
            }
            proof {
                lemma_host_part_at(peer@, i as int);
            }
            Some(peer.substring_char(0, i).to_owned())
        },
        None => None,
    }
}

/// The content type and body of a lookup answer: the JSON as it is, or, when the
/// request names a callback, a JSONP call of that callback on it.
pub fn answer_body(callback: Option<&str>, json: &str) -> (r: (String, String))
    ensures
        match callback {
            Some(c) => r.0@ == "application/javascript; charset=utf-8"@ && r.1@ == ";"@ + c@ + "("@
                + json@ + ");"@,
            None => r.0@ == "application/json; charset=utf-8"@ && r.1@ == json@,
        },
{
    match callback {
        Some(c) => {
            let mut body = ";".to_owned();
            body.append(c);
            body.append("(");
            body.append(json);
            body.append(");");
            ("application/javascript; charset=utf-8".to_owned(), body)
        },
        None => ("application/json; charset=utf-8".to_owned(), json.to_owned()),
    }
}

} // verus!
