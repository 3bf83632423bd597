//! Tests of the datagram-over-stream framer.

use traffic_fanout::dgramostream::{send, RecvDgram, RecvError, SendError};

/// Feeds a framed payload to a receiver one byte at a time and returns the
/// completed datagram.
fn feed_byte_by_byte(recv: &mut RecvDgram, bytes: &[u8]) -> Option<Vec<u8>> {
    let mut done = None;
    for (i, b) in bytes.iter().enumerate() {
        assert!(recv.needed() >= 1);
        match recv.recv(&[*b]) {
            Ok(None) => assert!(i + 1 < bytes.len(), "not complete on the last byte"),
            Ok(Some(payload)) => {
                assert_eq!(i + 1, bytes.len(), "complete before the last byte");
                done = Some(payload);
            }
            Err(e) => panic!("unexpected framer error {:?}", e),
        }
    }
    done
}

#[test]
fn framer_round_trip_byte_by_byte() {
    let payload: Vec<u8> = vec![0x10, 0x20, 0x7e, 0x00, 0xff];
    let framed = send(&payload).unwrap();
    assert_eq!(framed[0], 0);
    assert_eq!(framed[1], 5);
    let mut recv = RecvDgram::new(16);
    let got = feed_byte_by_byte(&mut recv, &framed).unwrap();
    assert_eq!(got, payload);
}

#[test]
fn framer_round_trip_chunked() {
    let payload: Vec<u8> = (0u8..16).collect();
    let framed = send(&payload).unwrap();
    let mut recv = RecvDgram::new(16);
    // Header in one read, payload in two.
    assert!(matches!(recv.recv(&framed[0..2]), Ok(None)));
    assert_eq!(recv.needed(), 16);
    assert!(matches!(recv.recv(&framed[2..9]), Ok(None)));
    assert_eq!(recv.needed(), 9);
    match recv.recv(&framed[9..18]) {
        Ok(Some(got)) => assert_eq!(got, payload),
        other => panic!("expected completion, got {:?}", other),
    }
    // The receiver is ready for the next frame.
    assert_eq!(recv.needed(), 2);
}

#[test]
fn framer_round_trip_empty_payload() {
    let framed = send(&[]).unwrap();
    assert_eq!(framed, vec![0, 0]);
    let mut recv = RecvDgram::new(16);
    match recv.recv(&framed) {
        Ok(Some(got)) => assert!(got.is_empty()),
        other => panic!("expected empty datagram, got {:?}", other),
    }
}

#[test]
fn framer_rejects_oversized_header() {
    // A header announcing 17 bytes on a 16-byte framer fails the frame
    // having consumed only the 2 header bytes.
    let mut recv = RecvDgram::new(16);
    assert_eq!(recv.needed(), 2);
    assert!(matches!(recv.recv(&[0]), Ok(None)));
    assert_eq!(recv.needed(), 1);
    assert_eq!(recv.recv(&[17]), Err(RecvError::DatagramTooLong));
    // After clearing, the receiver takes a valid frame again.
    recv.clear();
    assert_eq!(recv.needed(), 2);
    let framed = send(&[9, 9, 9]).unwrap();
    let got = feed_byte_by_byte(&mut recv, &framed).unwrap();
    assert_eq!(got, vec![9, 9, 9]);
}

#[test]
fn framer_accepts_max_length_header() {
    let mut recv = RecvDgram::new(16);
    assert!(matches!(recv.recv(&[0, 16]), Ok(None)));
    assert_eq!(recv.needed(), 16);
}

#[test]
fn framer_remote_close_is_an_error() {
    let mut recv = RecvDgram::new(16);
    assert_eq!(recv.recv(&[]), Err(RecvError::RemoteClosed));
}

#[test]
fn framer_send_rejects_long_payload() {
    let payload = vec![0u8; 65536];
    assert_eq!(send(&payload), Err(SendError::PayloadTooLong));
    let payload = vec![1u8; 65535];
    let framed = send(&payload).unwrap();
    assert_eq!(framed.len(), 65537);
    assert_eq!(framed[0], 0xff);
    assert_eq!(framed[1], 0xff);
}
