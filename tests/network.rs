use geoip_rs::ipv4::parse_ipv4;
use geoip_rs::network::{expand_network, ipaddr_to_map_key, ipnet_to_map_key, Ipv4Network};

fn net(text: &str) -> Ipv4Network {
    Ipv4Network::parse(text).unwrap()
}

#[test]
fn ip_to_number() {
    assert_eq!(255255, ipnet_to_map_key(&net("255.255.255.0/24")));
    assert_eq!(255255, ipaddr_to_map_key(parse_ipv4("255.255.255.12").unwrap()));
    assert_eq!(1000, ipaddr_to_map_key(parse_ipv4("1.0.0.1").unwrap()));
    assert_eq!(81030, ipaddr_to_map_key(parse_ipv4("81.30.9.30").unwrap()));
}

#[test]
fn bucket_key_of_extremes() {
    assert_eq!(0, ipaddr_to_map_key(0));
    assert_eq!(255255, ipaddr_to_map_key(u32::MAX));
    assert_eq!(1003, ipaddr_to_map_key(parse_ipv4("1.3.255.255").unwrap()));
    assert_eq!(1004, ipaddr_to_map_key(parse_ipv4("1.4.0.0").unwrap()));
}

#[test]
fn narrow_networks_expand_to_one_key() {
    assert_eq!(vec![172016], expand_network(&net("172.16.0.0/26")));
    assert_eq!(vec![172016], expand_network(&net("172.16.0.128/26")));
    assert_eq!(vec![1003], expand_network(&net("1.3.0.0/16")));
    assert_eq!(vec![10020], expand_network(&net("10.20.30.40/32")));
}

#[test]
fn broad_networks_expand_to_each_slash16() {
    let keys = expand_network(&net("172.16.0.0/12"));
    assert_eq!(16, keys.len());
    let expected: Vec<u32> = (16..32).map(|b| 172000 + b).collect();
    assert_eq!(expected, keys);

    let keys = expand_network(&net("10.0.0.0/8"));
    assert_eq!(256, keys.len());
    assert_eq!(10000, keys[0]);
    assert_eq!(10255, keys[255]);

    let keys = expand_network(&net("1.2.0.0/15"));
    assert_eq!(vec![1002, 1003], keys);
}

#[test]
fn broad_network_address_bits_past_prefix_are_ignored() {
    assert_eq!(vec![1002, 1003], expand_network(&net("1.3.7.9/15")));
}

#[test]
fn whole_space_expands_to_every_slash16() {
    let keys = expand_network(&net("0.0.0.0/0"));
    assert_eq!(65536, keys.len());
    assert_eq!(0, keys[0]);
    assert_eq!(255255, keys[65535]);
}

#[test]
fn containment_follows_the_prefix() {
    let n = net("1.3.0.0/16");
    assert!(n.contains(parse_ipv4("1.3.0.0").unwrap()));
    assert!(n.contains(parse_ipv4("1.3.255.255").unwrap()));
    assert!(!n.contains(parse_ipv4("1.4.0.0").unwrap()));
    assert!(!n.contains(parse_ipv4("1.2.255.255").unwrap()));
    let all = net("0.0.0.0/0");
    assert!(all.contains(u32::MAX));
    let one = net("9.9.9.9/32");
    assert!(one.contains(parse_ipv4("9.9.9.9").unwrap()));
    assert!(!one.contains(parse_ipv4("9.9.9.8").unwrap()));
}

#[test]
fn cidr_text_is_read_and_written() {
    let n = net("1.3.0.0/16");
    assert_eq!(parse_ipv4("1.3.0.0").unwrap(), n.addr());
    assert_eq!(16, n.prefix_len());
    assert_eq!("1.3.0.0/16", n.to_string());
    assert_eq!("172.16.0.128/26", net("172.16.0.128/26").to_string());
}

#[test]
fn malformed_cidr_text_is_refused() {
    assert!(Ipv4Network::parse("1.3.0.0/33").is_none());
    assert!(Ipv4Network::parse("1.3.0.0").is_none());
    assert!(Ipv4Network::parse("not a network").is_none());
}

#[test]
fn network_new_bounds_the_prefix() {
    assert!(Ipv4Network::new(0, 33).is_none());
    let n = Ipv4Network::new(7, 32).unwrap();
    assert_eq!(7, n.addr());
    assert_eq!(32, n.prefix_len());
}
