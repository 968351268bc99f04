use geoip_rs::datasets::{admit_blocks, RawBlock};
use geoip_rs::error::GeoError;

fn raw(network: &str, id: Option<u32>, lat: Option<f32>, lon: Option<f32>) -> RawBlock {
    RawBlock {
        network: network.to_string(),
        geoname_id: id,
        postal_code: String::new(),
        latitude_bits: lat.map(f32::to_bits),
        longitude_bits: lon.map(f32::to_bits),
    }
}

#[test]
fn admits_only_complete_rows() {
    let rows = vec![
        raw("1.0.0.0/24", Some(2077456), Some(-33.4940), Some(143.2104)),
        raw("1.0.1.0/24", Some(1811017), Some(24.4798), Some(118.0819)),
        raw("5.145.149.142/32", None, None, None),
    ];
    let blocks = admit_blocks(&rows).unwrap();
    assert_eq!(2, blocks.len());

    let block = blocks.get(0).unwrap();
    assert_eq!("1.0.0.0/24", block.network.to_string());
    assert_eq!(2077456, block.geoname_id);
    assert_eq!("", block.postal_code);
    assert_eq!(-33.4940, f32::from_bits(block.latitude_bits));
    assert_eq!(143.2104, f32::from_bits(block.longitude_bits));
    assert_eq!("1.0.1.0/24", blocks[1].network.to_string());
}

#[test]
fn a_row_missing_any_one_field_is_dropped() {
    let rows = vec![
        raw("1.0.0.0/24", None, Some(1.0), Some(2.0)),
        raw("1.0.1.0/24", Some(7), None, Some(2.0)),
        raw("1.0.2.0/24", Some(7), Some(1.0), None),
        raw("1.0.3.0/24", Some(8), Some(1.0), Some(2.0)),
    ];
    let blocks = admit_blocks(&rows).unwrap();
    assert_eq!(1, blocks.len());
    assert_eq!(8, blocks[0].geoname_id);
}

#[test]
fn no_rows_admit_no_blocks() {
    assert_eq!(0, admit_blocks(&Vec::new()).unwrap().len());
}

#[test]
fn a_complete_row_with_a_bad_network_fails() {
    let rows = vec![
        raw("1.0.0.0/24", Some(1), Some(1.0), Some(2.0)),
        raw("1.0.0.0/40", Some(2), Some(1.0), Some(2.0)),
    ];
    assert_eq!(GeoError::InvalidNetwork, admit_blocks(&rows).unwrap_err());
}

#[test]
fn an_incomplete_row_with_a_bad_network_is_dropped_silently() {
    let rows = vec![raw("garbage", None, None, None), raw("1.0.0.0/24", Some(1), Some(1.0), Some(2.0))];
    assert_eq!(1, admit_blocks(&rows).unwrap().len());
}
