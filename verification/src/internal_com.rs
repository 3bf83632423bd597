//! Serialized form of a traffic record on the internal bus.
//!
//! Every producer and every consumer of the bus uses this one codec, so a
//! record encoded anywhere decodes identically everywhere. The encoding is
//! deterministic and tag-free: fixed big-endian fields, a one-byte presence
//! tag before each optional field, and the callsign, length-prefixed, at the
//! end. The datagram transport itself (the loopback multicast socket) lives
//! with the caller, which moves the returned bytes as one datagram.

use vstd::prelude::*;
use crate::traffic_infos::{AddressType, TrafficInfos, TrafficRec};
use crate::wire;
use crate::wire::{be32, be32_bytes, sbe32, u32_of_i32};

verus! {

/// Error of [`decode_traffic_infos`]: the datagram is not the encoding of a
/// valid record (malformed, truncated, or out of range). Such a datagram is
/// dropped; it never tears a consumer down.
#[derive(Clone, Copy, Debug, PartialEq, Eq, Structural)]
pub enum DecodeError {
    Malformed,
}

/// Wire tag of an address type.
pub open spec fn addr_type_tag(a: AddressType) -> u8 {
    match a {
        AddressType::AdsbIcao => 0u8,
        AddressType::Ogn => 1u8,
    }
}

/// Encoding of an optional unsigned field: a presence tag, then the value.
pub open spec fn opt_u32_bytes(v: Option<int>) -> Seq<u8> {
    match v {
        None => seq![0u8],
        Some(x) => seq![1u8] + be32_bytes(x),
    }
}

/// Encoding of an optional signed field: a presence tag, then the value.
pub open spec fn opt_i32_bytes(v: Option<int>) -> Seq<u8> {
    match v {
        None => seq![0u8],
        Some(x) => seq![1u8] + be32_bytes(u32_of_i32(x)),
    }
}

/// The bus encoding of a record.
pub open spec fn encode_spec(t: TrafficRec) -> Seq<u8>
    recommends
        t.valid(),
{
    seq![
        addr_type_tag(t.addr_type),
        (t.address / 0x1_0000 % 0x100) as u8,
        (t.address / 0x100 % 0x100) as u8,
        (t.address % 0x100) as u8,
    ] + be32_bytes(u32_of_i32(t.altitude)) + be32_bytes(u32_of_i32(t.latitude)) + be32_bytes(
        u32_of_i32(t.longitude),
    ) + opt_u32_bytes(t.track) + opt_i32_bytes(t.ground_speed) + opt_i32_bytes(t.vertical_speed)
        + seq![t.callsign.len() as u8] + t.callsign
}

/// Decoding of an optional unsigned field at offset `p`: the value and the
/// offset after it.
pub open spec fn dec_opt_u(b: Seq<u8>, p: int) -> Result<(Option<int>, int), DecodeError> {
    if !(0 <= p < b.len()) {
        Err(DecodeError::Malformed)
    } else if b[p] == 0 {
        Ok((None, p + 1))
    } else if b[p] == 1 && p + 5 <= b.len() {
        Ok((Some(be32(b.subrange(p + 1, p + 5))), p + 5))
    } else {
        Err(DecodeError::Malformed)
    }
}

/// Decoding of an optional signed field at offset `p`.
pub open spec fn dec_opt_s(b: Seq<u8>, p: int) -> Result<(Option<int>, int), DecodeError> {
    if !(0 <= p < b.len()) {
        Err(DecodeError::Malformed)
    } else if b[p] == 0 {
        Ok((None, p + 1))
    } else if b[p] == 1 && p + 5 <= b.len() {
        Ok((Some(sbe32(b.subrange(p + 1, p + 5))), p + 5))
    } else {
        Err(DecodeError::Malformed)
    }
}

/// Range checks of a decoded record: what [`TrafficRec::valid`] asks beyond
/// what the byte layout already guarantees.
pub open spec fn dec_ranges_ok(t: TrafficRec) -> bool {
    &&& -90_000_000 <= t.latitude <= 90_000_000
    &&& -180_000_000 <= t.longitude <= 180_000_000
    &&& (t.track matches Some(tr) ==> tr <= 360)
}

/// The meaning of a bus datagram: the record it encodes, or an error when it
/// is not the exact encoding of a valid record.
pub open spec fn decode_spec(b: Seq<u8>) -> Result<TrafficRec, DecodeError> {
    if b.len() < 16 {
        Err(DecodeError::Malformed)
    } else if !(b[0] == 0 || b[0] == 1) {
        Err(DecodeError::Malformed)
    } else {
        match dec_opt_u(b, 16) {
            Err(e) => Err(e),
            Ok((track, p1)) => match dec_opt_s(b, p1) {
                Err(e) => Err(e),
                Ok((ground_speed, p2)) => match dec_opt_s(b, p2) {
                    Err(e) => Err(e),
                    Ok((vertical_speed, p3)) => {
                        if !(p3 < b.len() && b.len() - p3 - 1 == b[p3]) {
                            Err(DecodeError::Malformed)
                        } else {
                            let t = TrafficRec {
                                addr_type: if b[0] == 0 {
                                    AddressType::AdsbIcao
                                } else {
                                    AddressType::Ogn
                                },
                                address: b[1] * 0x1_0000 + b[2] * 0x100 + b[3],
                                callsign: b.skip(p3 + 1),
                                altitude: sbe32(b.subrange(4, 8)),
                                latitude: sbe32(b.subrange(8, 12)),
                                longitude: sbe32(b.subrange(12, 16)),
                                track,
                                ground_speed,
                                vertical_speed,
                            };
                            if dec_ranges_ok(t) {
                                Ok(t)
                            } else {
                                Err(DecodeError::Malformed)
                            }
                        }
                    },
                },
            },
        }
    }
}

/// An optional unsigned field decodes to what was encoded.
proof fn lemma_dec_opt_u_round(b: Seq<u8>, p: int, v: Option<int>)
    requires
        0 <= p,
        p + opt_u32_bytes(v).len() <= b.len(),
        b.subrange(p, p + opt_u32_bytes(v).len()) == opt_u32_bytes(v),
        v matches Some(x) ==> 0 <= x < 0x1_0000_0000,
    ensures
        dec_opt_u(b, p) == Ok::<(Option<int>, int), DecodeError>((v, p + opt_u32_bytes(v).len())),
{
    let o = opt_u32_bytes(v);
    assert(b[p] == o[0]);
    match v {
        None => {},
        Some(x) => {
            assert(b.subrange(p + 1, p + 5) =~= o.subrange(1, 5));
            assert(o.subrange(1, 5) =~= be32_bytes(x));
            wire::lemma_be32_round(x as u32);
        },
    }
}

/// An optional signed field decodes to what was encoded.
proof fn lemma_dec_opt_s_round(b: Seq<u8>, p: int, v: Option<int>)
    requires
        0 <= p,
        p + opt_i32_bytes(v).len() <= b.len(),
        b.subrange(p, p + opt_i32_bytes(v).len()) == opt_i32_bytes(v),
        v matches Some(x) ==> -0x8000_0000 <= x < 0x8000_0000,
    ensures
        dec_opt_s(b, p) == Ok::<(Option<int>, int), DecodeError>((v, p + opt_i32_bytes(v).len())),
{
    let o = opt_i32_bytes(v);
    assert(b[p] == o[0]);
    match v {
        None => {},
        Some(x) => {
            assert(b.subrange(p + 1, p + 5) =~= o.subrange(1, 5));
            assert(o.subrange(1, 5) =~= be32_bytes(u32_of_i32(x)));
            wire::lemma_sbe32_round(x);
        },
    }
}

/// Codec round trip: the encoding of any valid record decodes to exactly
/// that record, on every consumer of the bus.
pub proof fn lemma_codec_round_trip(t: TrafficRec)
    requires
        t.valid(),
    ensures
        decode_spec(encode_spec(t)) == Ok::<TrafficRec, DecodeError>(t),
{
    let e = encode_spec(t);
    let track_b = opt_u32_bytes(t.track);
    let gs_b = opt_i32_bytes(t.ground_speed);
    let vs_b = opt_i32_bytes(t.vertical_speed);
    let p1 = 16 + track_b.len() as int;
    let p2 = p1 + gs_b.len() as int;
    let p3 = p2 + vs_b.len() as int;
    assert(e.len() == p3 + 1 + t.callsign.len());
    assert(e[0] == addr_type_tag(t.addr_type));
    assert(e[1] == (t.address / 0x1_0000 % 0x100) as u8);
    assert(e[2] == (t.address / 0x100 % 0x100) as u8);
    assert(e[3] == (t.address % 0x100) as u8);
    wire::lemma_u24_recompose(t.address as u32);
    assert(e[1] * 0x1_0000 + e[2] * 0x100 + e[3] == t.address);
    assert(e.subrange(4, 8) =~= be32_bytes(u32_of_i32(t.altitude)));
    assert(e.subrange(8, 12) =~= be32_bytes(u32_of_i32(t.latitude)));
    assert(e.subrange(12, 16) =~= be32_bytes(u32_of_i32(t.longitude)));
    wire::lemma_sbe32_round(t.altitude);
    wire::lemma_sbe32_round(t.latitude);
    wire::lemma_sbe32_round(t.longitude);
    assert(e.subrange(16, p1) =~= track_b);
    assert(e.subrange(p1, p2) =~= gs_b);
    assert(e.subrange(p2, p3) =~= vs_b);
    lemma_dec_opt_u_round(e, 16, t.track);
    lemma_dec_opt_s_round(e, p1, t.ground_speed);
    lemma_dec_opt_s_round(e, p2, t.vertical_speed);
    assert(e[p3] == t.callsign.len() as u8);
    assert(e.skip(p3 + 1) =~= t.callsign);
    assert(decode_spec(e) matches Ok(t2) && t2 == t);
}

/// Serializes a record for the bus. The caller sends the returned bytes as
/// one datagram to every consumer.
#[verifier::rlimit(100)]
#[verifier::loop_isolation(false)]
pub fn encode_traffic_infos(infos: &TrafficInfos) -> (r: Vec<u8>)
    requires
        infos.valid(),
    ensures
        r@ == encode_spec(infos@),
{
    let mut out: Vec<u8> = Vec::new();
    match infos.addr_type {
        AddressType::AdsbIcao => out.push(0),
        AddressType::Ogn => out.push(1),
    }
    out.push((infos.address / 0x1_0000 % 0x100) as u8);
    out.push((infos.address / 0x100 % 0x100) as u8);
    out.push((infos.address % 0x100) as u8);
    wire::push_be32(&mut out, wire::u32_from_i32(infos.altitude));
    wire::push_be32(&mut out, wire::u32_from_i32(infos.latitude));
    wire::push_be32(&mut out, wire::u32_from_i32(infos.longitude));
    match infos.track {
        None => out.push(0),
        Some(t) => {
            out.push(1);
            wire::push_be32(&mut out, t);
        },
    }
    match infos.ground_speed {
        None => out.push(0),
        Some(v) => {
            out.push(1);
            wire::push_be32(&mut out, wire::u32_from_i32(v));
        },
    }
    match infos.vertical_speed {
        None => out.push(0),
        Some(v) => {
            out.push(1);
            wire::push_be32(&mut out, wire::u32_from_i32(v));
        },
    }
    out.push(infos.callsign.len() as u8);
    let mut i: usize = 0;
    let ghost head = out@;
    while i < infos.callsign.len()
        invariant
            i <= infos.callsign@.len(),
            out@ == head + infos.callsign@.take(i as int),
        decreases infos.callsign@.len() - i,
    {
        out.push(infos.callsign[i]);
        proof {
            assert(out@ =~= head + infos.callsign@.take(i + 1));
        }
        i = i + 1;
    }
    proof {
        assert(infos.callsign@.take(infos.callsign@.len() as int) =~= infos.callsign@);
        assert(out@ =~= encode_spec(infos@));
    }
    out
}

/// Deserializes a bus datagram as [`decode_spec`] says: the exact encoding
/// of a valid record gives the record back; anything else is refused.
#[verifier::loop_isolation(false)]
pub fn decode_traffic_infos(buf: &[u8]) -> (r: Result<TrafficInfos, DecodeError>)
    ensures
        r matches Ok(t) ==> decode_spec(buf@) == Ok::<TrafficRec, DecodeError>(t@) && t.valid(),
        r is Err ==> decode_spec(buf@) is Err,
{
    if buf.len() < 16 {
        return Err(DecodeError::Malformed);
    }
    let tag = buf[0];
    if !(tag == 0 || tag == 1) {
        return Err(DecodeError::Malformed);
    }
    let addr_type = if tag == 0 {
        AddressType::AdsbIcao
    } else {
        AddressType::Ogn
    };
    let address: u32 = (buf[1] as u32) * 0x1_0000 + (buf[2] as u32) * 0x100 + (buf[3] as u32);
    let altitude = wire::read_sbe32(buf, 4) as i32;
    let latitude_raw = wire::read_sbe32(buf, 8);
    let longitude_raw = wire::read_sbe32(buf, 12);
    let (track_raw, p1) = match parse_opt_u(buf, 16) {
        Err(e) => {
            return Err(e);
        },
        Ok(v) => v,
    };
    let (gs_raw, p2) = match parse_opt_s(buf, p1) {
        Err(e) => {
            return Err(e);
        },
        Ok(v) => v,
    };
    let (vs_raw, p3) = match parse_opt_s(buf, p2) {
        Err(e) => {
            return Err(e);
        },
        Ok(v) => v,
    };
    if !(p3 < buf.len() && buf.len() - p3 - 1 == buf[p3] as usize) {
        return Err(DecodeError::Malformed);
    }
    if !(-90_000_000 <= latitude_raw && latitude_raw <= 90_000_000) {
        return Err(DecodeError::Malformed);
    }
    if !(-180_000_000 <= longitude_raw && longitude_raw <= 180_000_000) {
        return Err(DecodeError::Malformed);
    }
    let track = match track_raw {
        None => None,
        Some(t) => {
            if t > 360 {
                return Err(DecodeError::Malformed);
            }
            Some(t)
        },
    };
    let mut callsign: Vec<u8> = Vec::new();
    let mut i: usize = p3 + 1;
    while i < buf.len()
        invariant
            p3 + 1 <= i <= buf@.len(),
            callsign@ == buf@.subrange(p3 + 1, i as int),
        decreases buf@.len() - i,
    {
        callsign.push(buf[i]);
        proof {
            assert(callsign@ =~= buf@.subrange(p3 + 1, i + 1));
        }
        i = i + 1;
    }
    proof {
        assert(buf@.subrange(p3 + 1, buf@.len() as int) =~= buf@.skip(p3 + 1));
    }
    let t = TrafficInfos {
        addr_type,
        address,
        callsign,
        altitude,
        latitude: latitude_raw as i32,
        longitude: longitude_raw as i32,
        track,
        ground_speed: match gs_raw {
            None => None,
            Some(v) => Some(v as i32),
        },
        vertical_speed: match vs_raw {
            None => None,
            Some(v) => Some(v as i32),
        },
    };
    Ok(t)
}

/// Executable mirror of [`dec_opt_u`].
fn parse_opt_u(b: &[u8], p: usize) -> (r: Result<(Option<u32>, usize), DecodeError>)
    requires
        p <= b@.len(),
    ensures
        match r {
            Ok((v, q)) => dec_opt_u(b@, p as int) == Ok::<(Option<int>, int), DecodeError>(
                (
                    match v {
                        None => None,
                        Some(x) => Some(x as int),
                    },
                    q as int,
                ),
            ) && p < q <= b@.len(),
            Err(e) => dec_opt_u(b@, p as int) == Err::<(Option<int>, int), DecodeError>(e),
        },
{
    if p >= b.len() {
        return Err(DecodeError::Malformed);
    }
    if b[p] == 0 {
        Ok((None, p + 1))
    } else if b[p] == 1 && b.len() - p >= 5 {
        Ok((Some(wire::read_be32(b, p + 1)), p + 5))
    } else {
        Err(DecodeError::Malformed)
    }
}

/// Executable mirror of [`dec_opt_s`].
fn parse_opt_s(b: &[u8], p: usize) -> (r: Result<(Option<i64>, usize), DecodeError>)
    requires
        p <= b@.len(),
    ensures
        match r {
            Ok((v, q)) => dec_opt_s(b@, p as int) == Ok::<(Option<int>, int), DecodeError>(
                (
                    match v {
                        None => None,
                        Some(x) => Some(x as int),
                    },
                    q as int,
                ),
            ) && p < q <= b@.len() && (v matches Some(x) ==> -0x8000_0000 <= x < 0x8000_0000),
            Err(e) => dec_opt_s(b@, p as int) == Err::<(Option<int>, int), DecodeError>(e),
        },
{
    if p >= b.len() {
        return Err(DecodeError::Malformed);
    }
    if b[p] == 0 {
        Ok((None, p + 1))
    } else if b[p] == 1 && b.len() - p >= 5 {
        Ok((Some(wire::read_sbe32(b, p + 1)), p + 5))
    } else {
        Err(DecodeError::Malformed)
    }
}

} // verus!
