//! Tests of the GDL90 traffic-report encoder.

use traffic_fanout::gdl90::{compute_crc, make_traffic_report_message};
use traffic_fanout::traffic_infos::{AddressType, TrafficInfos};

fn record() -> TrafficInfos {
    TrafficInfos {
        addr_type: AddressType::AdsbIcao,
        address: 0,
        callsign: Vec::new(),
        altitude: 0,
        latitude: 0,
        longitude: 0,
        track: None,
        ground_speed: None,
        vertical_speed: None,
    }
}

fn encode(infos: &TrafficInfos) -> Vec<u8> {
    let mut buffer = vec![0u8; 100];
    let len = make_traffic_report_message(infos, &mut buffer).unwrap();
    buffer.truncate(len);
    buffer
}

/// Removes the byte-stuffing of a complete frame.
fn unstuff(frame: &[u8]) -> Vec<u8> {
    let mut out = vec![frame[0]];
    let mut i = 1;
    while i < frame.len() - 1 {
        if frame[i] == 0x7d {
            out.push(frame[i + 1] ^ 0x20);
            i += 2;
        } else {
            out.push(frame[i]);
            i += 1;
        }
    }
    out.push(frame[frame.len() - 1]);
    out
}

#[test]
fn crc_reference_vector() {
    // The reference CRC vector of the GDL90 ICD.
    let crc = compute_crc(&[0x00, 0x81, 0x41, 0xDB, 0xD0, 0x08, 0x02]);
    assert_eq!(crc, 0x8BB3);
}

#[test]
fn traffic_report_complete_frame() {
    // One full record: every field of the layout at its place, the CRC over
    // the message id and the data, LSB first, the flags outside.
    let infos = TrafficInfos {
        addr_type: AddressType::AdsbIcao,
        address: 0xABCDEF,
        callsign: b"F-ABCD".to_vec(),
        altitude: 0,
        latitude: 45_500_000,
        longitude: 5_500_000,
        track: Some(90),
        ground_speed: Some(120),
        vertical_speed: Some(-500),
    };
    let frame = encode(&infos);
    let expected: Vec<u8> = vec![
        0x7e, 0x14, 0x00, 0xab, 0xcd, 0xef, 0x20, 0x5b, 0x06, 0x03, 0xe9, 0x3f, 0x02, 0x89, 0x00,
        0x07, 0x8f, 0xf9, 0x40, 0x00, 0x46, 0x2d, 0x41, 0x42, 0x43, 0x44, 0x20, 0x20, 0x00, 0xe6,
        0xd8, 0x7e,
    ];
    assert_eq!(frame, expected);
    // The frame starts with flag and message id 20 and ends with a flag,
    // and its CRC matches its payload.
    assert_eq!(frame[0], 0x7e);
    assert_eq!(frame[1], 20);
    assert_eq!(*frame.last().unwrap(), 0x7e);
    let plain = unstuff(&frame);
    let n = plain.len();
    let crc = compute_crc(&plain[1..n - 3]);
    assert_eq!(plain[n - 3], (crc & 0xff) as u8);
    assert_eq!(plain[n - 2], (crc >> 8) as u8);
}

#[test]
fn latitude_clamps_at_the_north_pole() {
    // 89.9999999 degrees rounds to 90 million microdegrees and the encoded
    // latitude clamps at the largest positive 24-bit value.
    let mut infos = record();
    infos.latitude = 90_000_000;
    let plain = unstuff(&encode(&infos));
    assert_eq!(&plain[6..9], &[0x3f, 0xff, 0xff]);
}

#[test]
fn latitude_minimum_is_two_complement() {
    let mut infos = record();
    infos.latitude = -90_000_000;
    let plain = unstuff(&encode(&infos));
    assert_eq!(&plain[6..9], &[0xc0, 0x00, 0x00]);
}

#[test]
fn altitude_clamps_low_and_high() {
    let mut infos = record();
    infos.altitude = -2000;
    let plain = unstuff(&encode(&infos));
    // Data offset 10 and the high nibble of offset 11; data starts at 2.
    assert_eq!(plain[12], 0);
    assert_eq!(plain[13] & 0xf0, 0);

    infos.altitude = 101_375;
    let plain = unstuff(&encode(&infos));
    // The 12-bit value clamps at 0xFFE: eight bits, then the high nibble.
    assert_eq!(plain[12], 0xff);
    assert_eq!(plain[13] & 0xf0, 0xe0);
}

#[test]
fn absent_velocities_encode_their_sentinels() {
    let infos = record();
    let plain = unstuff(&encode(&infos));
    // Horizontal velocity 0xFFF, vertical velocity 0x800.
    assert_eq!(plain[15], 0xff);
    assert_eq!(plain[16], 0xf8);
    assert_eq!(plain[17], 0x00);
}

#[test]
fn byte_stuffing_escapes_inner_flags() {
    // A callsign holding the flag and escape bytes is escaped in order; the
    // outer flags stay the only flag bytes of the frame.
    let mut infos = record();
    infos.callsign = vec![0x7e, 0x7d, b'A'];
    let frame = encode(&infos);
    assert_eq!(frame[0], 0x7e);
    assert_eq!(*frame.last().unwrap(), 0x7e);
    let flags = frame.iter().filter(|&&b| b == 0x7e).count();
    assert_eq!(flags, 2);
    // Data offset 18 is the first callsign byte; the escapes stand in its
    // place in order.
    let pos = frame.iter().position(|&b| b == 0x7d).unwrap();
    assert_eq!(frame[pos], 0x7d);
    assert_eq!(frame[pos + 1], 0x7e ^ 0x20);
    assert_eq!(frame[pos + 2], 0x7d);
    assert_eq!(frame[pos + 3], 0x7d ^ 0x20);
    // The unstuffed frame holds the original bytes.
    let plain = unstuff(&frame);
    assert_eq!(&plain[20..23], &[0x7e, 0x7d, b'A']);
}

#[test]
fn callsign_padded_and_non_ascii_replaced() {
    let mut infos = record();
    infos.callsign = vec![b'A', 0xc3, b'B'];
    let plain = unstuff(&encode(&infos));
    assert_eq!(&plain[20..28], &[b'A', b'?', b'B', b' ', b' ', b' ', b' ', b' ']);
}

#[test]
fn track_rounds_to_eight_bits() {
    let mut infos = record();
    infos.track = Some(90);
    let plain = unstuff(&encode(&infos));
    assert_eq!(plain[18], 64);
    // The misc indicator carries bit 0 for the present track and bit 3.
    assert_eq!(plain[13] & 0x0f, 9);

    infos.track = None;
    let plain = unstuff(&encode(&infos));
    assert_eq!(plain[18], 0);
    assert_eq!(plain[13] & 0x0f, 8);
}

#[test]
fn buffer_too_small_is_refused() {
    let infos = record();
    let mut buffer = vec![0u8; 10];
    assert!(make_traffic_report_message(&infos, &mut buffer).is_err());
    let mut buffer = vec![0u8; 32];
    assert!(make_traffic_report_message(&infos, &mut buffer).is_ok());
}
