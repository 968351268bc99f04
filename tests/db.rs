use geoip_rs::datasets::{Block, Location};
use geoip_rs::db::GeoIPDB;
use geoip_rs::error::GeoError;
use geoip_rs::network::Ipv4Network;

fn block(network: &str, geoname_id: u32, latitude: f32, longitude: f32) -> Block {
    Block {
        network: Ipv4Network::parse(network).unwrap(),
        geoname_id,
        postal_code: String::new(),
        latitude_bits: latitude.to_bits(),
        longitude_bits: longitude.to_bits(),
    }
}

fn location(geoname_id: u32, names: [&str; 10]) -> Location {
    Location {
        geoname_id,
        continent_code: names[0].to_string(),
        continent_name: names[1].to_string(),
        country_code: names[2].to_string(),
        country_name: names[3].to_string(),
        region_code: names[4].to_string(),
        region_name: names[5].to_string(),
        province_code: names[6].to_string(),
        province_name: names[7].to_string(),
        city_name: names[8].to_string(),
        timezone: names[9].to_string(),
    }
}

fn sample_blocks() -> Vec<Block> {
    vec![
        block("1.0.0.0/24", 2077456, -33.4940, 143.2104),
        block("1.0.1.0/24", 1811017, 24.4798, 118.0819),
        block("1.3.0.0/16", 1809935, 23.1167, 113.2500),
    ]
}

fn sample_locations() -> Vec<Location> {
    vec![
        location(1809935, ["AS", "Asia", "CN", "China", "GD", "Guangdong", "", "", "", "Asia/Shanghai"]),
        location(49518, ["AF", "Africa", "RW", "Rwanda", "", "", "", "", "", "Africa/Kigali"]),
    ]
}

fn resolved_id(db: &GeoIPDB, ip: &str) -> Option<u32> {
    db.resolve(ip).unwrap().map(|b| b.geoname_id)
}

#[test]
fn can_resolve_ip() {
    let geoip_db = GeoIPDB::new(sample_blocks(), sample_locations());

    let block = geoip_db.resolve("1.3.4.2").unwrap().unwrap();
    assert_eq!("1.3.0.0/16", block.network.to_string());
    assert_eq!(1809935, block.geoname_id);
    assert_eq!("", block.postal_code);
    assert_eq!(23.1167, f32::from_bits(block.latitude_bits));
    assert_eq!(113.25, f32::from_bits(block.longitude_bits));

    let location = geoip_db.get_location(block.geoname_id).unwrap();
    assert_eq!(1809935, location.geoname_id);
    assert_eq!("AS", location.continent_code);
    assert_eq!("Asia", location.continent_name);
    assert_eq!("CN", location.country_code);
    assert_eq!("China", location.country_name);
    assert_eq!("GD", location.region_code);
    assert_eq!("Guangdong", location.region_name);
    assert_eq!("", location.province_code);
    assert_eq!("", location.province_name);
    assert_eq!("", location.city_name);
    assert_eq!("Asia/Shanghai", location.timezone);
}

#[test]
fn cannot_resolve_ip() {
    let geoip_db = GeoIPDB::new(Vec::new(), Vec::new());
    assert_eq!(true, geoip_db.resolve("1.2.3.4").unwrap().is_none());
}

#[test]
fn empty_database_resolves_no_address() {
    let db = GeoIPDB::new(Vec::new(), Vec::new());
    for ip in ["0.0.0.0", "1.3.4.2", "255.255.255.255"] {
        assert!(db.resolve(ip).unwrap().is_none());
    }
}

#[test]
fn invalid_address_is_an_error_not_a_miss() {
    let db = GeoIPDB::new(sample_blocks(), sample_locations());
    assert_eq!(GeoError::InvalidAddress, db.resolve("not-an-ip").unwrap_err());
    assert_eq!(GeoError::InvalidAddress, db.resolve("1.3.4").unwrap_err());
    assert_eq!(GeoError::InvalidAddress, db.resolve("1.3.4.256").unwrap_err());
    let empty = GeoIPDB::new(Vec::new(), Vec::new());
    assert_eq!(GeoError::InvalidAddress, empty.resolve("not-an-ip").unwrap_err());
}

#[test]
fn resolution_stops_at_the_network_boundary() {
    let db = GeoIPDB::new(sample_blocks(), sample_locations());
    assert_eq!(Some(1809935), resolved_id(&db, "1.3.0.0"));
    assert_eq!(Some(1809935), resolved_id(&db, "1.3.255.255"));
    assert_eq!(None, resolved_id(&db, "1.4.0.0"));
    assert_eq!(None, resolved_id(&db, "1.2.255.255"));
    assert_eq!(Some(2077456), resolved_id(&db, "1.0.0.255"));
    assert_eq!(Some(1811017), resolved_id(&db, "1.0.1.0"));
    assert_eq!(None, resolved_id(&db, "1.0.2.0"));
}

#[test]
fn same_bucket_is_not_enough_to_match() {
    let db = GeoIPDB::new(vec![block("1.3.0.0/24", 7, 0.0, 0.0)], Vec::new());
    assert_eq!(Some(7), resolved_id(&db, "1.3.0.200"));
    assert_eq!(None, resolved_id(&db, "1.3.1.0"));
}

#[test]
fn broad_blocks_resolve_in_every_covered_slash16() {
    let db = GeoIPDB::new(vec![block("10.0.0.0/8", 5, 1.0, 2.0)], Vec::new());
    assert_eq!(Some(5), resolved_id(&db, "10.0.0.1"));
    assert_eq!(Some(5), resolved_id(&db, "10.128.7.7"));
    assert_eq!(Some(5), resolved_id(&db, "10.255.255.255"));
    assert_eq!(None, resolved_id(&db, "11.0.0.0"));
    assert_eq!(None, resolved_id(&db, "9.255.255.255"));
}

#[test]
fn the_first_of_overlapping_blocks_wins() {
    let broad_first = GeoIPDB::new(
        vec![block("1.0.0.0/8", 1, 0.0, 0.0), block("1.2.3.0/24", 2, 0.0, 0.0)],
        Vec::new(),
    );
    assert_eq!(Some(1), resolved_id(&broad_first, "1.2.3.4"));
    let narrow_first = GeoIPDB::new(
        vec![block("1.2.3.0/24", 2, 0.0, 0.0), block("1.0.0.0/8", 1, 0.0, 0.0)],
        Vec::new(),
    );
    assert_eq!(Some(2), resolved_id(&narrow_first, "1.2.3.4"));
    assert_eq!(Some(1), resolved_id(&narrow_first, "1.2.4.4"));
}

#[test]
fn building_twice_gives_the_same_answers() {
    let first = GeoIPDB::new(sample_blocks(), sample_locations());
    let second = GeoIPDB::new(sample_blocks(), sample_locations());
    for ip in ["1.0.0.1", "1.0.1.9", "1.3.4.2", "1.3.255.255", "1.4.0.0", "8.8.8.8"] {
        assert_eq!(resolved_id(&first, ip), resolved_id(&second, ip));
    }
}

#[test]
fn unknown_location_is_an_error() {
    let db = GeoIPDB::new(sample_blocks(), sample_locations());
    assert_eq!(GeoError::UnknownGeonameId, db.get_location(2077456).unwrap_err());
    assert_eq!("Rwanda", db.get_location(49518).unwrap().country_name);
}

#[test]
fn a_later_location_row_replaces_an_earlier_one() {
    let db = GeoIPDB::new(
        Vec::new(),
        vec![
            location(7, ["EU", "Europe", "", "", "", "", "", "", "Old", ""]),
            location(8, ["EU", "Europe", "", "", "", "", "", "", "Other", ""]),
            location(7, ["EU", "Europe", "", "", "", "", "", "", "New", ""]),
        ],
    );
    assert_eq!("New", db.get_location(7).unwrap().city_name);
    assert_eq!("Other", db.get_location(8).unwrap().city_name);
}

#[test]
fn every_block_identifier_must_have_a_location() {
    let partial = GeoIPDB::new(sample_blocks(), sample_locations());
    assert_eq!(Err(GeoError::UnknownGeonameId), partial.check_geoname_ids());
    let full = GeoIPDB::new(vec![block("1.3.0.0/16", 1809935, 23.1167, 113.25)], sample_locations());
    assert_eq!(Ok(()), full.check_geoname_ids());
    assert_eq!(Ok(()), GeoIPDB::new(Vec::new(), Vec::new()).check_geoname_ids());
}
