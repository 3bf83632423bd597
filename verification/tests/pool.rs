//! Tests of the client pool slot table and of the session filtering.

use traffic_fanout::client::Client;
use traffic_fanout::client_pool::{ClientEvent, ClientPool, EventId, CLIENTS_MAX_NB};
use traffic_fanout::traffic_infos::{AddressType, TrafficInfos};

fn record_at(lat: i32, lon: i32) -> TrafficInfos {
    TrafficInfos {
        addr_type: AddressType::AdsbIcao,
        address: 0x123456,
        callsign: b"TEST".to_vec(),
        altitude: 3000,
        latitude: lat,
        longitude: lon,
        track: Some(10),
        ground_speed: Some(100),
        vertical_speed: Some(0),
    }
}

/// An 8-byte position payload behind its length header.
fn position_frame(lat: i32, lon: i32) -> Vec<u8> {
    let mut frame = vec![0u8, 8u8];
    frame.extend_from_slice(&lat.to_be_bytes());
    frame.extend_from_slice(&lon.to_be_bytes());
    frame
}

/// Drives a position update into the session at `idx`.
fn set_position(pool: &mut ClientPool, idx: usize, lat: i32, lon: i32) {
    let frame = position_frame(lat, lon);
    match pool.process_client_event(idx, &frame[0..2]) {
        ClientEvent::Pending => {}
        other => panic!("header step gave {:?}", other),
    }
    match pool.process_client_event(idx, &frame[2..10]) {
        ClientEvent::NewPosition(p) => {
            assert_eq!(p.latitude, lat);
            assert_eq!(p.longitude, lon);
        }
        other => panic!("payload step gave {:?}", other),
    }
}

#[test]
fn pool_capacity_is_two_hundred() {
    let mut pool = ClientPool::new();
    for i in 0..CLIENTS_MAX_NB {
        assert_eq!(pool.add_new_client(Client::new()), Some(i));
    }
    assert_eq!(pool.get_nb_clients(), 200);
    // The 201st client is refused and the count stays 200.
    assert_eq!(pool.add_new_client(Client::new()), None);
    assert_eq!(pool.get_nb_clients(), 200);
    // Closing any one session allows exactly one further accept.
    pool.delete_client(57);
    assert_eq!(pool.get_nb_clients(), 199);
    assert_eq!(pool.add_new_client(Client::new()), Some(57));
    assert_eq!(pool.add_new_client(Client::new()), None);
    assert_eq!(pool.get_nb_clients(), 200);
}

#[test]
fn slot_reuse_is_lifo() {
    let mut pool = ClientPool::new();
    assert_eq!(pool.add_new_client(Client::new()), Some(0));
    assert_eq!(pool.add_new_client(Client::new()), Some(1));
    assert_eq!(pool.add_new_client(Client::new()), Some(2));
    pool.delete_client(0);
    pool.delete_client(2);
    // The most recently freed slot is reused first.
    assert_eq!(pool.add_new_client(Client::new()), Some(2));
    assert_eq!(pool.add_new_client(Client::new()), Some(0));
    assert_eq!(pool.add_new_client(Client::new()), Some(3));
}

#[test]
fn event_id_packs_and_unpacks() {
    let id = EventId::new(1, 42);
    assert_eq!(id.event_type(), 1);
    assert_eq!(id.event_number(), 42);
    let id = EventId::new(2, 0);
    assert_eq!(id.event_type(), 2);
    assert_eq!(id.event_number(), 0);
}

#[test]
fn traffic_fans_out_to_nearby_sessions_only() {
    let mut pool = ClientPool::new();
    assert_eq!(pool.add_new_client(Client::new()), Some(0));
    assert_eq!(pool.add_new_client(Client::new()), Some(1));
    // Only session 0 advertises a position, at (45.0, 5.0).
    set_position(&mut pool, 0, 45_000_000, 5_000_000);

    // Inside the one-degree square: delivered to session 0 only.
    let frames = pool.process_traffic_event(&record_at(45_999_000, 5_999_000));
    assert_eq!(frames.len(), 1);
    assert_eq!(frames[0].0, 0);
    assert_eq!(frames[0].1[0], 0);
    assert!(frames[0].1.len() > 2);
    assert_eq!(frames[0].1[2], 0x7e);

    // Outside on the latitude axis.
    let frames = pool.process_traffic_event(&record_at(46_001_000, 5_000_000));
    assert!(frames.is_empty());

    // Outside on the longitude axis.
    let frames = pool.process_traffic_event(&record_at(45_000_000, 6_000_000));
    assert!(frames.is_empty());
}

#[test]
fn oversized_client_frame_removes_the_session() {
    let mut pool = ClientPool::new();
    assert_eq!(pool.add_new_client(Client::new()), Some(0));
    // A valid length header announcing 17 bytes on the 16-byte position
    // framer fails the session; its slot becomes free again.
    match pool.process_client_event(0, &[0, 17]) {
        ClientEvent::Removed => {}
        other => panic!("expected removal, got {:?}", other),
    }
    assert_eq!(pool.get_nb_clients(), 0);
    assert_eq!(pool.add_new_client(Client::new()), Some(0));
}

#[test]
fn bad_position_removes_the_session() {
    let mut pool = ClientPool::new();
    assert_eq!(pool.add_new_client(Client::new()), Some(0));
    // Latitude beyond 90 degrees.
    let frame = position_frame(90_000_001, 0);
    assert_eq!(pool.process_client_event(0, &frame[0..2]), ClientEvent::Pending);
    match pool.process_client_event(0, &frame[2..10]) {
        ClientEvent::Removed => {}
        other => panic!("expected removal, got {:?}", other),
    }
    assert_eq!(pool.get_nb_clients(), 0);
}

#[test]
fn stale_event_for_empty_slot_is_ignored() {
    let mut pool = ClientPool::new();
    assert_eq!(pool.add_new_client(Client::new()), Some(0));
    pool.delete_client(0);
    assert_eq!(pool.process_client_event(0, &[0, 8]), ClientEvent::Ignored);
}

#[test]
fn position_update_retains_the_latest() {
    let mut pool = ClientPool::new();
    assert_eq!(pool.add_new_client(Client::new()), Some(0));
    set_position(&mut pool, 0, 45_620_874, 5_000_000);
    // A second update moves the session; filtering follows the new position.
    set_position(&mut pool, 0, 45_620_874, 7_000_000);
    let frames = pool.process_traffic_event(&record_at(45_620_874, 5_000_000));
    assert!(frames.is_empty());
    let frames = pool.process_traffic_event(&record_at(45_620_874, 7_100_000));
    assert_eq!(frames.len(), 1);
}
