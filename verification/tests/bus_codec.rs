//! Tests of the bus record codec.

use traffic_fanout::internal_com::{decode_traffic_infos, encode_traffic_infos};
use traffic_fanout::traffic_infos::{AddressType, TrafficInfos};

fn full_record() -> TrafficInfos {
    TrafficInfos {
        addr_type: AddressType::Ogn,
        address: 0xABCDEF,
        callsign: b"F-ABCD".to_vec(),
        altitude: -250,
        latitude: -45_123_456,
        longitude: 170_654_321,
        track: Some(359),
        ground_speed: Some(-3),
        vertical_speed: Some(-1200),
    }
}

fn bare_record() -> TrafficInfos {
    TrafficInfos {
        addr_type: AddressType::AdsbIcao,
        address: 0,
        callsign: Vec::new(),
        altitude: 0,
        latitude: 0,
        longitude: 0,
        track: None,
        ground_speed: None,
        vertical_speed: None,
    }
}

fn assert_same(a: &TrafficInfos, b: &TrafficInfos) {
    assert_eq!(a.addr_type, b.addr_type);
    assert_eq!(a.address, b.address);
    assert_eq!(a.callsign, b.callsign);
    assert_eq!(a.altitude, b.altitude);
    assert_eq!(a.latitude, b.latitude);
    assert_eq!(a.longitude, b.longitude);
    assert_eq!(a.track, b.track);
    assert_eq!(a.ground_speed, b.ground_speed);
    assert_eq!(a.vertical_speed, b.vertical_speed);
}

#[test]
fn codec_round_trip_full() {
    let t = full_record();
    let bytes = encode_traffic_infos(&t);
    let back = decode_traffic_infos(&bytes).unwrap();
    assert_same(&t, &back);
}

#[test]
fn codec_round_trip_absent_fields() {
    let t = bare_record();
    let bytes = encode_traffic_infos(&t);
    let back = decode_traffic_infos(&bytes).unwrap();
    assert_same(&t, &back);
}

#[test]
fn codec_length_is_bounded_for_short_callsigns() {
    // A record with a realistic callsign fits the 100-byte bus datagram.
    let bytes = encode_traffic_infos(&full_record());
    assert!(bytes.len() <= 100);
    assert_eq!(bytes.len(), 32 + 6);
}

#[test]
fn decode_rejects_truncation() {
    let bytes = encode_traffic_infos(&full_record());
    for cut in 0..bytes.len() {
        assert!(decode_traffic_infos(&bytes[..cut]).is_err());
    }
}

#[test]
fn decode_rejects_trailing_bytes() {
    let mut bytes = encode_traffic_infos(&full_record());
    bytes.push(0);
    assert!(decode_traffic_infos(&bytes).is_err());
}

#[test]
fn decode_rejects_bad_tags() {
    let mut bytes = encode_traffic_infos(&bare_record());
    bytes[0] = 2;
    assert!(decode_traffic_infos(&bytes).is_err());
    let mut bytes = encode_traffic_infos(&bare_record());
    bytes[16] = 7;
    assert!(decode_traffic_infos(&bytes).is_err());
}

#[test]
fn decode_rejects_out_of_range_latitude() {
    let mut t = bare_record();
    t.latitude = 90_000_000;
    let mut bytes = encode_traffic_infos(&t);
    // Bump the encoded latitude by one microdegree: 90.000001 degrees.
    bytes[11] = bytes[11].wrapping_add(1);
    assert!(decode_traffic_infos(&bytes).is_err());
}
