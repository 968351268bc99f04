use geoip_rs::query::{answer_body, get_language, ip_address_to_resolve, QueryParams};

fn query(ip: Option<&str>, lang: Option<&str>) -> QueryParams {
    QueryParams { ip: ip.map(String::from), lang: lang.map(String::from), callback: None }
}

#[test]
fn language_defaults_to_english() {
    assert_eq!("en", get_language(&query(None, None)));
    assert_eq!("de", get_language(&query(None, Some("de"))));
}

#[test]
fn a_literal_ip_parameter_is_resolved() {
    let q = query(Some("81.30.9.30"), None);
    assert_eq!(Some("81.30.9.30".to_string()), ip_address_to_resolve(&q, false, Some("9.9.9.9".to_string()), Some("1.1.1.1:80")));
    let q = query(Some("::1"), None);
    assert_eq!(Some("::1".to_string()), ip_address_to_resolve(&q, true, None, None));
}

#[test]
fn a_bad_ip_parameter_falls_back_to_the_header() {
    let q = query(Some("nonsense"), None);
    assert_eq!(Some("9.9.9.9".to_string()), ip_address_to_resolve(&q, false, Some("9.9.9.9".to_string()), Some("1.1.1.1:80")));
}

#[test]
fn without_parameter_or_header_the_peer_host_is_used() {
    let q = query(None, None);
    assert_eq!(Some("1.1.1.1".to_string()), ip_address_to_resolve(&q, false, None, Some("1.1.1.1:8080")));
    assert_eq!(Some("1.1.1.1".to_string()), ip_address_to_resolve(&q, false, None, Some("1.1.1.1")));
    assert_eq!(None, ip_address_to_resolve(&q, false, None, None));
}

#[test]
fn answers_are_json_or_jsonp() {
    let (kind, body) = answer_body(None, "{}");
    assert_eq!("application/json; charset=utf-8", kind);
    assert_eq!("{}", body);
    let (kind, body) = answer_body(Some("cb"), "{\"a\":1}");
    assert_eq!("application/javascript; charset=utf-8", kind);
    assert_eq!(";cb({\"a\":1});", body);
}
