//! Tests of the two ingestion parsers and of the field parsing helpers.

use traffic_fanout::server::least_populated_pool;
use traffic_fanout::src_adsbhub::SrcAdsbhub;
use traffic_fanout::src_ogn::SrcOgn;
use traffic_fanout::textparse::{parse_hex_u32, parse_i32, parse_scaled, parse_u32};
use traffic_fanout::traffic_infos::AddressType;

#[test]
fn numeric_field_parsers() {
    assert_eq!(parse_u32(b"360"), Ok(360));
    assert_eq!(parse_u32(b"0"), Ok(0));
    assert!(parse_u32(b"").is_err());
    assert!(parse_u32(b"12a").is_err());
    assert!(parse_u32(b"4294967296").is_err());
    assert_eq!(parse_u32(b"4294967295"), Ok(u32::MAX));

    assert_eq!(parse_i32(b"-45"), Ok(-45));
    assert_eq!(parse_i32(b"2147483647"), Ok(i32::MAX));
    assert!(parse_i32(b"2147483648").is_err());
    assert!(parse_i32(b"-").is_err());

    assert_eq!(parse_hex_u32(b"ABC123"), Ok(0xABC123));
    assert_eq!(parse_hex_u32(b"abc123"), Ok(0xABC123));
    assert!(parse_hex_u32(b"xyz").is_err());

    assert_eq!(parse_scaled(b"45.5", 6), Ok(45_500_000));
    assert_eq!(parse_scaled(b"-0.7", 0), Ok(0));
    assert_eq!(parse_scaled(b"-0.7", 6), Ok(-700_000));
    assert_eq!(parse_scaled(b"1.2345678", 6), Ok(1_234_567));
    assert_eq!(parse_scaled(b"120", 0), Ok(120));
    assert_eq!(parse_scaled(b"120.", 0), Ok(120));
    assert!(parse_scaled(b".5", 6).is_err());
    assert!(parse_scaled(b"1.2.3", 6).is_err());
    assert!(parse_scaled(b"", 6).is_err());
}

#[test]
fn ogn_unit_conversions() {
    assert_eq!(SrcOgn::meter_to_feet(1000), 3280);
    assert_eq!(SrcOgn::meter_to_feet(-1000), -3280);
    assert_eq!(SrcOgn::meter_to_feet(0), 0);
    assert_eq!(SrcOgn::kmh_to_kt(100), 53);
    assert_eq!(SrcOgn::kmh_to_kt(-100), -53);
    // 1 m/s is 196.850394 feet per minute.
    assert_eq!(SrcOgn::mps_to_fpm(1_000_000), 196);
    assert_eq!(SrcOgn::mps_to_fpm(-2_500_000), -492);
}

#[test]
fn ogn_attribute_parses_to_a_record() {
    let attr = b"45.5,5.5,TestGlider,x,1000,x,x,90,100,-2.5,x,x,x,ABC123";
    let t = SrcOgn::parse_traffic(attr).unwrap();
    assert_eq!(t.latitude, 45_500_000);
    assert_eq!(t.longitude, 5_500_000);
    assert_eq!(t.callsign, b"TestGlider".to_vec());
    assert_eq!(t.altitude, 3280);
    assert_eq!(t.track, Some(90));
    assert_eq!(t.ground_speed, Some(53));
    assert_eq!(t.vertical_speed, Some(-492));
    assert_eq!(t.address, 0xABC123);
    assert_eq!(t.addr_type, AddressType::Ogn);
}

#[test]
fn ogn_attribute_keeps_low_address_bits() {
    let attr = b"1.0,1.0,A,x,0,x,x,0,0,0,x,x,x,FFABC123";
    let t = SrcOgn::parse_traffic(attr).unwrap();
    assert_eq!(t.address, 0xABC123);
}

#[test]
fn ogn_attribute_out_of_range_is_refused() {
    assert!(SrcOgn::parse_traffic(b"91.5,5.5,A").is_err());
    assert!(SrcOgn::parse_traffic(b"45.5,countryside,A").is_err());
    assert!(SrcOgn::parse_traffic(b"45.5,5.5,A,x,notanumber").is_err());
}

/// An SBS message with the given fields set; the rest stay empty.
fn sbs_message(set: &[(usize, &str)]) -> Vec<u8> {
    let mut fields: Vec<String> = vec![String::new(); 22];
    fields[0] = "MSG".to_string();
    for (i, v) in set {
        fields[*i] = v.to_string();
    }
    fields.join(",").into_bytes()
}

#[test]
fn sbs_three_message_sequence_yields_one_record() {
    let mut parser = SrcAdsbhub::new();
    let m1 = sbs_message(&[(1, "1"), (4, "4CA7B6"), (10, "EZY123")]);
    let m3 = sbs_message(&[(1, "3"), (4, "4CA7B6"), (11, "35000"), (14, "45.5"), (15, "5.5")]);
    let m4 = sbs_message(&[(1, "4"), (4, "4CA7B6"), (12, "450"), (13, "90"), (16, "-1200")]);
    assert!(parser.parse_message(&m1).unwrap().is_none());
    assert!(parser.parse_message(&m3).unwrap().is_none());
    let t = parser.parse_message(&m4).unwrap().unwrap();
    assert_eq!(t.addr_type, AddressType::AdsbIcao);
    assert_eq!(t.address, 0x4CA7B6);
    assert_eq!(t.callsign, b"EZY123".to_vec());
    assert_eq!(t.altitude, 35000);
    assert_eq!(t.latitude, 45_500_000);
    assert_eq!(t.longitude, 5_500_000);
    assert_eq!(t.ground_speed, Some(450));
    assert_eq!(t.track, Some(90));
    assert_eq!(t.vertical_speed, Some(-1200));
}

#[test]
fn sbs_absent_velocity_fields_stay_absent() {
    let mut parser = SrcAdsbhub::new();
    let m1 = sbs_message(&[(1, "1"), (4, "AA0001"), (10, "N123")]);
    let m3 = sbs_message(&[(1, "3"), (4, "AA0001"), (11, "100"), (14, "1.0"), (15, "2.0")]);
    let m4 = sbs_message(&[(1, "4"), (4, "AA0001")]);
    assert!(parser.parse_message(&m1).unwrap().is_none());
    assert!(parser.parse_message(&m3).unwrap().is_none());
    let t = parser.parse_message(&m4).unwrap().unwrap();
    assert_eq!(t.ground_speed, None);
    assert_eq!(t.track, None);
    assert_eq!(t.vertical_speed, None);
}

#[test]
fn sbs_out_of_sequence_message_fails() {
    let mut parser = SrcAdsbhub::new();
    let m3 = sbs_message(&[(1, "3"), (4, "4CA7B6"), (11, "35000"), (14, "45.5"), (15, "5.5")]);
    assert!(parser.parse_message(&m3).is_err());
}

#[test]
fn sbs_changed_ident_mid_sequence_fails() {
    let mut parser = SrcAdsbhub::new();
    let m1 = sbs_message(&[(1, "1"), (4, "AA0001"), (10, "N123")]);
    let m3 = sbs_message(&[(1, "3"), (4, "BB0002"), (11, "100"), (14, "1.0"), (15, "2.0")]);
    assert!(parser.parse_message(&m1).unwrap().is_none());
    assert!(parser.parse_message(&m3).is_err());
}

#[test]
fn sbs_wrong_field_count_fails() {
    let mut parser = SrcAdsbhub::new();
    let mut msg = sbs_message(&[(1, "1"), (4, "AA0001"), (10, "N123")]);
    msg.extend_from_slice(b",extra");
    assert!(parser.parse_message(&msg).is_err());
    let mut parser = SrcAdsbhub::new();
    assert!(parser.parse_message(b"MSG,1").is_err());
}

#[test]
fn sbs_line_buffer_splits_messages() {
    let mut parser = SrcAdsbhub::new();
    parser.push_bytes(b"MSG,1,first\nMSG,2,sec").unwrap();
    assert_eq!(parser.get_message(), Some(b"MSG,1,first".to_vec()));
    assert_eq!(parser.get_message(), None);
    parser.push_bytes(b"ond\n").unwrap();
    assert_eq!(parser.get_message(), Some(b"MSG,2,second".to_vec()));
    assert_eq!(parser.get_message(), None);
}

#[test]
fn sbs_line_buffer_refuses_overlong_messages() {
    let mut parser = SrcAdsbhub::new();
    let chunk = vec![b'x'; 60_000];
    parser.push_bytes(&chunk).unwrap();
    assert!(parser.push_bytes(&chunk).is_err());
}

#[test]
fn least_populated_pool_picks_first_minimum() {
    assert_eq!(least_populated_pool(&vec![3, 1, 2]), 1);
    assert_eq!(least_populated_pool(&vec![2, 1, 1]), 1);
    assert_eq!(least_populated_pool(&vec![0]), 0);
    assert_eq!(least_populated_pool(&vec![5, 5, 5]), 0);
}
