//! Tests of one client session: position decoding and proximity filtering.

use traffic_fanout::client::{Client, ClientError};
use traffic_fanout::traffic_infos::{AddressType, TrafficInfos};

fn record_at(lat: i32, lon: i32) -> TrafficInfos {
    TrafficInfos {
        addr_type: AddressType::Ogn,
        address: 0x00ABCD,
        callsign: b"GLIDER".to_vec(),
        altitude: 1200,
        latitude: lat,
        longitude: lon,
        track: None,
        ground_speed: None,
        vertical_speed: None,
    }
}

fn position_payload(lat: i32, lon: i32) -> Vec<u8> {
    let mut p = Vec::new();
    p.extend_from_slice(&lat.to_be_bytes());
    p.extend_from_slice(&lon.to_be_bytes());
    p
}

#[test]
fn session_without_position_receives_nothing() {
    let client = Client::new();
    assert!(client.send_traffic(&record_at(0, 0)).is_none());
    assert!(client.send_traffic(&record_at(45_000_000, 5_000_000)).is_none());
}

#[test]
fn session_receives_nearby_traffic_only() {
    let mut client = Client::new();
    let payload = position_payload(45_000_000, 5_000_000);
    assert!(matches!(client.recv_position(&[0, 8]), Ok(None)));
    match client.recv_position(&payload) {
        Ok(Some(p)) => {
            assert_eq!(p.latitude, 45_000_000);
            assert_eq!(p.longitude, 5_000_000);
        }
        other => panic!("expected a position, got {:?}", other),
    }
    // (45.999, 5.999) is inside the square, the two others are outside.
    assert!(client.send_traffic(&record_at(45_999_000, 5_999_000)).is_some());
    assert!(client.send_traffic(&record_at(46_001_000, 5_000_000)).is_none());
    assert!(client.send_traffic(&record_at(45_000_000, 6_000_000)).is_none());
}

#[test]
fn session_frame_is_a_framed_gdl90_report() {
    let mut client = Client::new();
    assert!(matches!(client.recv_position(&[0, 8]), Ok(None)));
    assert!(client.recv_position(&position_payload(45_000_000, 5_000_000)).is_ok());
    let frame = client.send_traffic(&record_at(45_500_000, 5_500_000)).unwrap();
    // Two length bytes, then the stuffed frame between its flags.
    let n = ((frame[0] as usize) << 8) | frame[1] as usize;
    assert_eq!(frame.len(), 2 + n);
    assert_eq!(frame[2], 0x7e);
    assert_eq!(frame[3], 20);
    assert_eq!(*frame.last().unwrap(), 0x7e);
}

#[test]
fn session_rejects_out_of_range_position() {
    let mut client = Client::new();
    assert!(matches!(client.recv_position(&[0, 8]), Ok(None)));
    let r = client.recv_position(&position_payload(90_000_001, 0));
    assert_eq!(r, Err(ClientError::LatitudeOutOfBounds));

    let mut client = Client::new();
    assert!(matches!(client.recv_position(&[0, 8]), Ok(None)));
    let r = client.recv_position(&position_payload(0, -180_000_001));
    assert_eq!(r, Err(ClientError::LongitudeOutOfBounds));
}

#[test]
fn session_rejects_short_position_message() {
    let mut client = Client::new();
    assert!(matches!(client.recv_position(&[0, 4]), Ok(None)));
    let r = client.recv_position(&[0, 0, 0, 1]);
    assert_eq!(r, Err(ClientError::MessageTooShort));
}

#[test]
fn session_ignores_extra_position_bytes() {
    // The position framer takes frames up to 16 bytes; bytes beyond the
    // first 8 of a complete message are ignored.
    let mut client = Client::new();
    assert!(matches!(client.recv_position(&[0, 12]), Ok(None)));
    let mut payload = position_payload(-45_000_000, 170_000_000);
    payload.extend_from_slice(&[9, 9, 9, 9]);
    match client.recv_position(&payload) {
        Ok(Some(p)) => {
            assert_eq!(p.latitude, -45_000_000);
            assert_eq!(p.longitude, 170_000_000);
        }
        other => panic!("expected a position, got {:?}", other),
    }
}
