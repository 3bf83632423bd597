//! GDL90 traffic-report encoding.
//!
//! A complete frame is `FLAG | MESSAGE_ID | 27 data bytes | CRC_LSB | CRC_MSB | FLAG`,
//! with byte-stuffing applied to everything between the two outer flags.
//! The CRC is the tabulated CRC-CCITT (polynomial 0x1021) over the message id
//! and the data bytes, prior to stuffing, emitted LSB first.

use vstd::prelude::*;
use vstd::slice::slice_subrange;
use crate::traffic_infos::{AddressType, TrafficInfos};

verus! {

pub const FLAG_BYTE: u8 = 0x7e;
pub const CONTROL_ESCAPE_CHAR: u8 = 0x7d;
pub const TRAFFIC_REPORT_MESSAGE_ID: u8 = 20;

/// Length of the data part of a traffic report, without framing.
pub const TRAFFIC_REPORT_LEN: usize = 27;

/// Errors of the GDL90 encoder.
#[derive(Clone, Copy, Debug, PartialEq, Eq, Structural)]
pub enum Gdl90Error {
    /// The caller's output buffer cannot hold the stuffed frame.
    BufferTooSmall,
}

// --- CRC-CCITT ------------------------------------------------------------

/// One shift-and-reduce round of the CRC-CCITT polynomial 0x1021.
pub open spec fn crc_round(c: u16) -> u16 {
    if c >= 0x8000 {
        (c << 1u16) ^ 0x1021u16
    } else {
        c << 1u16
    }
}

/// `n` rounds of [`crc_round`].
pub open spec fn crc_rounds(c: u16, n: nat) -> u16
    decreases n,
{
    if n == 0 {
        c
    } else {
        crc_round(crc_rounds(c, (n - 1) as nat))
    }
}

/// Entry `i` of the 256-entry CRC-CCITT lookup table.
pub open spec fn crc_table_entry(i: int) -> u16 {
    crc_rounds((i as u16) << 8u16, 8)
}

/// One table-driven CRC step.
pub open spec fn crc_step(crc: u16, b: u8) -> u16 {
    crc_table_entry((crc >> 8u16) as int) ^ (crc << 8u16) ^ (b as u16)
}

/// CRC-CCITT of a byte sequence, starting from 0.
pub open spec fn crc_of(s: Seq<u8>) -> u16
    decreases s.len(),
{
    if s.len() == 0 {
        0u16
    } else {
        crc_step(crc_of(s.drop_last()), s.last())
    }
}

/// Every u16 shifted right by 8 fits in a table index.
proof fn lemma_shr8_bound(c: u16)
    by (bit_vector)
    ensures
        c >> 8u16 < 256,
{
}

/// Builds the 256-entry CRC-CCITT lookup table.
fn crc_table() -> (t: Vec<u16>)
    ensures
        t@.len() == 256,
        forall|j: int| 0 <= j < 256 ==> t@[j] == crc_table_entry(j),
{
    let mut t: Vec<u16> = Vec::new();
    let mut i: usize = 0;
    while i < 256
        invariant
            i <= 256,
            t@.len() == i,
            forall|j: int| 0 <= j < i ==> t@[j] == crc_table_entry(j),
        decreases 256 - i,
    {
        let mut c: u16 = (i as u16) << 8;
        let mut k: usize = 0;
        while k < 8
            invariant
                k <= 8,
                c == crc_rounds((i as u16) << 8u16, k as nat),
            decreases 8 - k,
        {
            c = if c >= 0x8000 {
                (c << 1) ^ 0x1021
            } else {
                c << 1
            };
            k = k + 1;
        }
        t.push(c);
        i = i + 1;
    }
    t
}

/// CRC-CCITT of a buffer.
/// The buffer `0x00 0x81 0x41 0xDB 0xD0 0x08 0x02` gives a CRC of 0x8BB3.
pub fn compute_crc(buffer: &[u8]) -> (crc: u16)
    ensures
        crc == crc_of(buffer@),
{
    let table = crc_table();
    let mut crc: u16 = 0;
    let mut i: usize = 0;
    while i < buffer.len()
        invariant
            i <= buffer@.len(),
            table@.len() == 256,
            forall|j: int| 0 <= j < 256 ==> table@[j] == crc_table_entry(j),
            crc == crc_of(buffer@.take(i as int)),
        decreases buffer@.len() - i,
    {
        proof {
            lemma_shr8_bound(crc);
        }
        let idx = (crc >> 8) as usize;
        crc = table[idx] ^ (crc << 8) ^ (buffer[i] as u16);
        proof {
            assert(buffer@.take(i + 1).drop_last() =~= buffer@.take(i as int));
            assert(buffer@.take(i + 1).last() == buffer@[i as int]);
        }
        i = i + 1;
    }
    proof {
        assert(buffer@.take(buffer@.len() as int) =~= buffer@);
    }
    crc
}

// --- Byte-stuffing --------------------------------------------------------

/// A byte that must be escaped between the outer flags.
pub open spec fn needs_escape(b: u8) -> bool {
    b == FLAG_BYTE || b == CONTROL_ESCAPE_CHAR
}

/// Byte-stuffing of the bytes between the outer flags: each flag or escape
/// byte becomes the escape byte followed by the byte xor 0x20.
pub open spec fn stuff_inner(s: Seq<u8>) -> Seq<u8>
    decreases s.len(),
{
    if s.len() == 0 {
        Seq::empty()
    } else {
        stuff_inner(s.drop_last()) + (if needs_escape(s.last()) {
            seq![CONTROL_ESCAPE_CHAR, s.last() ^ 0x20u8]
        } else {
            seq![s.last()]
        })
    }
}

/// A stuffed frame: the outer flags are kept, the interior is stuffed.
pub open spec fn stuffed(msg: Seq<u8>) -> Seq<u8>
    recommends
        msg.len() >= 2,
{
    seq![msg.first()] + stuff_inner(msg.subrange(1, msg.len() - 1)) + seq![msg.last()]
}

/// Stuffing distributes over concatenation.
proof fn lemma_stuff_inner_app(a: Seq<u8>, b: Seq<u8>)
    ensures
        stuff_inner(a + b) == stuff_inner(a) + stuff_inner(b),
    decreases b.len(),
{
    if b.len() == 0 {
        assert(a + b =~= a);
        assert(stuff_inner(a) + stuff_inner(b) =~= stuff_inner(a));
    } else {
        lemma_stuff_inner_app(a, b.drop_last());
        assert((a + b).drop_last() =~= a + b.drop_last());
        assert((a + b).last() == b.last());
        assert(stuff_inner(a) + stuff_inner(b) =~= stuff_inner(a + b));
    }
}

/// The interior of a stuffed frame holds no flag byte, and each byte of the
/// input contributes at most two output bytes.
proof fn lemma_stuff_inner_bytes(s: Seq<u8>)
    ensures
        forall|i: int| 0 <= i < stuff_inner(s).len() ==> stuff_inner(s)[i] != FLAG_BYTE,
        stuff_inner(s).len() >= s.len(),
        stuff_inner(s).len() <= 2 * s.len(),
    decreases s.len(),
{
    if s.len() > 0 {
        lemma_stuff_inner_bytes(s.drop_last());
        assert(FLAG_BYTE ^ 0x20u8 == 0x5eu8 && CONTROL_ESCAPE_CHAR ^ 0x20u8 == 0x5du8)
            by (bit_vector);
    }
}

/// The two outer flag bytes are the only flag bytes of a stuffed frame.
pub proof fn lemma_stuffing_flags(msg: Seq<u8>)
    requires
        msg.len() >= 2,
        msg.first() == FLAG_BYTE,
        msg.last() == FLAG_BYTE,
    ensures
        stuffed(msg).len() >= msg.len(),
        stuffed(msg).len() <= 2 * msg.len() - 2,
        stuffed(msg).first() == FLAG_BYTE,
        stuffed(msg).last() == FLAG_BYTE,
        forall|i: int| 0 < i < stuffed(msg).len() - 1 ==> stuffed(msg)[i] != FLAG_BYTE,
{
    lemma_stuff_inner_bytes(msg.subrange(1, msg.len() - 1));
}

/// Applies byte-stuffing of `message` into the fixed-size buffer `buffer`,
/// keeping the first and last byte (the flags) unescaped.
/// Returns the number of bytes written, or an error when the buffer is too
/// small for the stuffed frame.
#[verifier::loop_isolation(false)]
pub fn byte_stuff(message: &[u8], buffer: &mut Vec<u8>) -> (r: Result<usize, Gdl90Error>)
    requires
        message@.len() >= 2,
    ensures
        old(buffer)@.len() == final(buffer)@.len(),
        r is Ok <==> old(buffer)@.len() >= stuffed(message@).len(),
        r matches Ok(n) ==> {
            &&& n == stuffed(message@).len()
            &&& final(buffer)@.subrange(0, n as int) == stuffed(message@)
            &&& final(buffer)@.subrange(n as int, final(buffer)@.len() as int)
                == old(buffer)@.subrange(n as int, old(buffer)@.len() as int)
        },
{
    let ghost inner = message@.subrange(1, message@.len() - 1);
    if buffer.len() == 0 {
        proof {
            lemma_stuff_inner_bytes(inner);
        }
        return Err(Gdl90Error::BufferTooSmall);
    }
    buffer.set(0, message[0]);
    let mut cur_len: usize = 1;
    let mut i: usize = 1;
    while i < message.len() - 1
        invariant
            message@.len() >= 2,
            1 <= i <= message@.len() - 1,
            buffer@.len() == old(buffer)@.len() >= 1,
            cur_len <= buffer@.len(),
            cur_len == 1 + stuff_inner(message@.subrange(1, i as int)).len(),
            buffer@[0] == message@[0],
            forall|k: int| 1 <= k < cur_len
                ==> buffer@[k] == stuff_inner(message@.subrange(1, i as int))[k - 1],
            forall|k: int| cur_len <= k < buffer@.len() ==> buffer@[k] == old(buffer)@[k],
        decreases message@.len() - i,
    {
        let ghost pre = message@.subrange(1, i as int);
        let ghost post = message@.subrange(1, i + 1);
        let ghost rest = message@.subrange(i + 1, message@.len() - 1);
        proof {
            assert(post.drop_last() =~= pre);
            assert(post.last() == message@[i as int]);
            lemma_stuff_inner_bytes(pre);
            lemma_stuff_inner_app(post, rest);
            assert forall|k: int| 0 <= k < inner.len() implies (post + rest)[k] == inner[k] by {
                if k < post.len() {
                    assert(post[k] == message@[1 + k]);
                } else {
                    assert(rest[k - post.len()] == message@[1 + k]);
                }
            };
            assert(post + rest =~= inner);
            lemma_stuff_inner_bytes(rest);
            lemma_stuff_inner_bytes(inner);
        }
        let val = message[i];
        if val == FLAG_BYTE || val == CONTROL_ESCAPE_CHAR {
            if buffer.len() - cur_len < 2 {
                // The stuffed frame needs at least two more bytes here, plus
                // the closing flag.
                return Err(Gdl90Error::BufferTooSmall);
            }
            buffer.set(cur_len, CONTROL_ESCAPE_CHAR);
            buffer.set(cur_len + 1, val ^ 0x20);
            cur_len = cur_len + 2;
        } else {
            if buffer.len() - cur_len < 1 {
                return Err(Gdl90Error::BufferTooSmall);
            }
            buffer.set(cur_len, val);
            cur_len = cur_len + 1;
        }
        proof {
            assert(stuff_inner(post) == stuff_inner(pre) + (if needs_escape(message@[i as int]) {
                seq![CONTROL_ESCAPE_CHAR, message@[i as int] ^ 0x20u8]
            } else {
                seq![message@[i as int]]
            }));
        }
        i = i + 1;
    }
    proof {
        assert(message@.subrange(1, i as int) =~= inner);
    }
    if buffer.len() - cur_len < 1 {
        return Err(Gdl90Error::BufferTooSmall);
    }
    buffer.set(cur_len, message[message.len() - 1]);
    let r = cur_len + 1;
    proof {
        let out = stuffed(message@);
        assert forall|k: int| 0 <= k < r implies buffer@[k] == out[k] by {
            if k == 0 {
            } else if k < cur_len {
                assert(buffer@[k] == stuff_inner(inner)[k - 1]);
            } else {
                assert(buffer@[k] == message@.last());
            }
        };
        assert(buffer@.subrange(0, r as int) =~= out);
        assert(buffer@.subrange(r as int, buffer@.len() as int)
            =~= old(buffer)@.subrange(r as int, old(buffer)@.len() as int));
    }
    Ok(r)
}

// --- Traffic report data layout -------------------------------------------

/// Division rounded to the nearest integer, halves away from zero.
pub open spec fn round_div(a: int, b: int) -> int
    recommends
        b > 0,
        b % 2 == 0,
{
    if a >= 0 {
        (a + b / 2) / b
    } else {
        -((-a + b / 2) / b)
    }
}

/// Division truncated towards zero.
pub open spec fn trunc_div(a: int, b: int) -> int
    recommends
        b > 0,
{
    if a >= 0 {
        a / b
    } else {
        -((-a) / b)
    }
}

/// `v` forced into `[lo, hi]`.
pub open spec fn clamp_int(v: int, lo: int, hi: int) -> int
    recommends
        lo <= hi,
{
    if v < lo {
        lo
    } else if v > hi {
        hi
    } else {
        v
    }
}

/// GDL90 code of an address type.
pub open spec fn addr_type_code(a: AddressType) -> u8 {
    match a {
        AddressType::AdsbIcao => 0u8,
        AddressType::Ogn => 6u8,
    }
}

/// Latitude as a signed 24-bit semicircle value: round(lat * 2^23 / 180),
/// clamped to [-2^22, 2^22 - 1], the latitude given in microdegrees.
pub open spec fn lat_code(lat_microdeg: int) -> int {
    clamp_int(round_div(lat_microdeg * 0x80_0000, 180_000_000), -0x40_0000, 0x3f_ffff)
}

/// Longitude as a signed 24-bit semicircle value, clamped to [-2^23, 2^23 - 1].
pub open spec fn lon_code(lon_microdeg: int) -> int {
    clamp_int(round_div(lon_microdeg * 0x80_0000, 180_000_000), -0x80_0000, 0x7f_ffff)
}

/// Two's complement image of a signed 24-bit value.
pub open spec fn bits24(v: int) -> int
    recommends
        -0x80_0000 <= v < 0x80_0000,
{
    if v >= 0 {
        v
    } else {
        v + 0x100_0000
    }
}

/// Altitude as a 12-bit offset value: (max(alt, -1000) + 1000) / 25,
/// clamped to 0xFFE.
pub open spec fn alt_code(alt: int) -> int {
    let d = ((if alt < -1000 {
        -1000int
    } else {
        alt
    }) + 1000) / 25;
    if d > 0xffe {
        0xffe
    } else {
        d
    }
}

/// Horizontal velocity as a 12-bit value: 0xFFF when absent, else clamped
/// to [0, 0xFFE].
pub open spec fn gs_code(gs: Option<i32>) -> int {
    match gs {
        None => 0xfff,
        Some(g) => clamp_int(g as int, 0, 0xffe),
    }
}

/// Vertical velocity as a 12-bit two's complement value in units of 64 fpm:
/// the no-data sentinel 0x800 when absent, else clamped to [-32640, 32640]
/// and divided by 64.
pub open spec fn vs_code(vs: Option<i32>) -> int {
    match vs {
        None => 0x800,
        Some(v) => {
            let d = trunc_div(clamp_int(v as int, -32640, 32640), 64);
            if d >= 0 {
                d
            } else {
                d + 0x1000
            }
        },
    }
}

/// Track as an 8-bit value: round(track * 256 / 360), clamped to 255;
/// 0 when absent.
pub open spec fn track_code(track: Option<u32>) -> int {
    match track {
        None => 0,
        Some(t) => {
            let r = round_div(t as int * 256, 360);
            if r > 255 {
                255
            } else {
                r
            }
        },
    }
}

/// Miscellaneous indicators: bit 0 when a track is present, bit 3 always.
pub open spec fn misc_code(track: Option<u32>) -> int {
    (if track is Some {
        1int
    } else {
        0int
    }) + 8
}

/// Byte `i` of the encoded callsign: the callsign space-padded to 8 bytes,
/// non-ASCII bytes replaced by a question mark.
pub open spec fn callsign_byte(cs: Seq<u8>, i: int) -> u8 {
    if i < cs.len() {
        if cs[i] < 0x80 {
            cs[i]
        } else {
            0x3fu8
        }
    } else {
        0x20u8
    }
}

/// The 27 data bytes of a traffic report.
pub open spec fn report_data(t: TrafficInfos) -> Seq<u8> {
    let lat = bits24(lat_code(t.latitude as int));
    let lon = bits24(lon_code(t.longitude as int));
    let alt = alt_code(t.altitude as int);
    let gs = gs_code(t.ground_speed);
    let vs = vs_code(t.vertical_speed);
    seq![
        addr_type_code(t.addr_type),
        ((t.address as int) / 0x1_0000 % 0x100) as u8,
        ((t.address as int) / 0x100 % 0x100) as u8,
        ((t.address as int) % 0x100) as u8,
        (lat / 0x1_0000) as u8,
        (lat / 0x100 % 0x100) as u8,
        (lat % 0x100) as u8,
        (lon / 0x1_0000) as u8,
        (lon / 0x100 % 0x100) as u8,
        (lon % 0x100) as u8,
        (alt / 16) as u8,
        ((alt % 16) * 16 + misc_code(t.track)) as u8,
        0u8,
        (gs / 16) as u8,
        ((gs % 16) * 16 + vs / 0x100) as u8,
        (vs % 0x100) as u8,
        track_code(t.track) as u8,
        0u8,
        callsign_byte(t.callsign@, 0),
        callsign_byte(t.callsign@, 1),
        callsign_byte(t.callsign@, 2),
        callsign_byte(t.callsign@, 3),
        callsign_byte(t.callsign@, 4),
        callsign_byte(t.callsign@, 5),
        callsign_byte(t.callsign@, 6),
        callsign_byte(t.callsign@, 7),
        0u8,
    ]
}

/// Absent velocities encode to their sentinels: 0xFFF for the horizontal
/// velocity, 0x800 for the vertical velocity.
pub proof fn lemma_velocity_sentinels(t: TrafficInfos)
    requires
        t.ground_speed is None,
        t.vertical_speed is None,
    ensures
        gs_code(t.ground_speed) == 0xfff,
        vs_code(t.vertical_speed) == 0x800,
        report_data(t)[13] == 0xffu8,
        report_data(t)[14] / 16 == 0xf,
        report_data(t)[14] % 16 == 0x8,
        report_data(t)[15] == 0x00u8,
{
}

/// The complete traffic-report frame before byte-stuffing: flag, message id,
/// data, CRC (LSB first), flag.
pub open spec fn report_frame(t: TrafficInfos) -> Seq<u8> {
    let body = seq![TRAFFIC_REPORT_MESSAGE_ID] + report_data(t);
    let crc = crc_of(body);
    seq![FLAG_BYTE] + body + seq![(crc % 0x100) as u8, (crc / 0x100) as u8, FLAG_BYTE]
}

/// A message buffer once its framing fields are filled: the flags, the
/// message id, and the CRC over the id and the data bytes.
pub open spec fn filled_frame(message_id: u8, s: Seq<u8>) -> Seq<u8>
    recommends
        s.len() >= 5,
{
    let body = seq![message_id] + s.subrange(2, s.len() - 3);
    let crc = crc_of(body);
    seq![FLAG_BYTE] + body + seq![(crc % 0x100) as u8, (crc / 0x100) as u8, FLAG_BYTE]
}

/// Writes the flag bytes, the message id and the CRC of a message whose data
/// bytes already stand at offsets 2 up to three before the end.
pub fn fill_header_and_tail(message_id: u8, msg_buf: &mut Vec<u8>)
    requires
        old(msg_buf)@.len() >= 5,
    ensures
        final(msg_buf)@ == filled_frame(message_id, old(msg_buf)@),
{
    let n = msg_buf.len();
    msg_buf.set(0, FLAG_BYTE);
    msg_buf.set(n - 1, FLAG_BYTE);
    msg_buf.set(1, message_id);
    let ghost body = seq![message_id] + old(msg_buf)@.subrange(2, n - 3);
    proof {
        assert(msg_buf@.subrange(1, n - 3) =~= body);
    }
    let crc = compute_crc(slice_subrange(msg_buf.as_slice(), 1, n - 3));
    msg_buf.set(n - 3, (crc % 0x100) as u8);
    msg_buf.set(n - 2, (crc / 0x100) as u8);
    proof {
        assert(msg_buf@ =~= filled_frame(message_id, old(msg_buf)@));
    }
}

/// Exec mirror of [`addr_type_code`].
fn addr_type_byte(a: AddressType) -> (r: u8)
    ensures
        r == addr_type_code(a),
{
    match a {
        AddressType::AdsbIcao => 0,
        AddressType::Ogn => 6,
    }
}

/// Exec mirror of `bits24(lat_code(..))`.
fn lat_bits(lat_microdeg: i32) -> (r: u32)
    ensures
        r as int == bits24(lat_code(lat_microdeg as int)),
        r < 0x100_0000,
{
    let neg = lat_microdeg < 0;
    let mag: u64 = if neg {
        (-(lat_microdeg as i64)) as u64
    } else {
        lat_microdeg as u64
    };
    let rounded: u64 = (mag * 0x80_0000 + 90_000_000) / 180_000_000;
    proof {
        if neg {
            assert(lat_microdeg as int * 0x80_0000 == -(mag as int * 0x80_0000));
        }
    }
    if neg {
        if rounded > 0x40_0000 {
            0xc0_0000
        } else if rounded == 0 {
            0
        } else {
            (0x100_0000 - rounded) as u32
        }
    } else {
        if rounded > 0x3f_ffff {
            0x3f_ffff
        } else {
            rounded as u32
        }
    }
}

/// Exec mirror of `bits24(lon_code(..))`.
fn lon_bits(lon_microdeg: i32) -> (r: u32)
    ensures
        r as int == bits24(lon_code(lon_microdeg as int)),
        r < 0x100_0000,
{
    let neg = lon_microdeg < 0;
    let mag: u64 = if neg {
        (-(lon_microdeg as i64)) as u64
    } else {
        lon_microdeg as u64
    };
    let rounded: u64 = (mag * 0x80_0000 + 90_000_000) / 180_000_000;
    proof {
        if neg {
            assert(lon_microdeg as int * 0x80_0000 == -(mag as int * 0x80_0000));
        }
    }
    if neg {
        if rounded > 0x80_0000 {
            0x80_0000
        } else if rounded == 0 {
            0
        } else {
            (0x100_0000 - rounded) as u32
        }
    } else {
        if rounded > 0x7f_ffff {
            0x7f_ffff
        } else {
            rounded as u32
        }
    }
}

/// Exec mirror of [`alt_code`].
fn alt_bits(alt: i32) -> (r: u32)
    ensures
        r as int == alt_code(alt as int),
        r <= 0xffe,
{
    let base: i64 = if alt < -1000 {
        -1000
    } else {
        alt as i64
    };
    let d: u64 = ((base + 1000) as u64) / 25;
    if d > 0xffe {
        0xffe
    } else {
        d as u32
    }
}

/// Exec mirror of [`gs_code`].
fn gs_bits(gs: &Option<i32>) -> (r: u32)
    ensures
        r as int == gs_code(*gs),
        r <= 0xfff,
{
    match gs {
        None => 0xfff,
        Some(g) => {
            if *g < 0 {
                0
            } else if *g > 0xffe {
                0xffe
            } else {
                *g as u32
            }
        },
    }
}

/// Exec mirror of [`vs_code`].
fn vs_bits(vs: &Option<i32>) -> (r: u32)
    ensures
        r as int == vs_code(*vs),
        r < 0x1000,
{
    match vs {
        None => 0x800,
        Some(v) => {
            let c: i32 = if *v < -32640 {
                -32640
            } else if *v > 32640 {
                32640
            } else {
                *v
            };
            if c >= 0 {
                (c as u32) / 64
            } else {
                let d: u64 = ((-(c as i64)) as u64) / 64;
                if d == 0 {
                    0
                } else {
                    (0x1000 - d) as u32
                }
            }
        },
    }
}

/// Exec mirror of [`track_code`].
fn track_bits(track: &Option<u32>) -> (r: u32)
    ensures
        r as int == track_code(*track),
        r <= 255,
{
    match track {
        None => 0,
        Some(t) => {
            let rr: u64 = ((*t as u64) * 256 + 180) / 360;
            if rr > 255 {
                255
            } else {
                rr as u32
            }
        },
    }
}

/// Exec mirror of [`callsign_byte`].
fn callsign_byte_at(cs: &Vec<u8>, i: usize) -> (b: u8)
    ensures
        b == callsign_byte(cs@, i as int),
{
    if i < cs.len() {
        let c = cs[i];
        if c < 0x80 {
            c
        } else {
            0x3f
        }
    } else {
        0x20
    }
}

/// Formats a complete, byte-stuffed traffic-report frame for `infos` into
/// the fixed-size buffer `buffer` and returns the number of bytes used.
/// The frame always fits in 62 bytes; a smaller buffer may be refused.
#[verifier::rlimit(60)]
pub fn make_traffic_report_message(infos: &TrafficInfos, buffer: &mut Vec<u8>) -> (r: Result<
    usize,
    Gdl90Error,
>)
    ensures
        old(buffer)@.len() == final(buffer)@.len(),
        r is Ok <==> old(buffer)@.len() >= stuffed(report_frame(*infos)).len(),
        r matches Ok(n) ==> {
            &&& n == stuffed(report_frame(*infos)).len()
            &&& 32 <= n <= 62
            &&& final(buffer)@.subrange(0, n as int) == stuffed(report_frame(*infos))
            &&& final(buffer)@.subrange(n as int, final(buffer)@.len() as int)
                == old(buffer)@.subrange(n as int, old(buffer)@.len() as int)
        },
{
    let mut msg: Vec<u8> = Vec::new();

    // Header placeholder: flag byte and message id are filled at the end.
    msg.push(0);
    msg.push(0);

    // Address type and 24-bit address, big endian.
    msg.push(addr_type_byte(infos.addr_type));
    msg.push(((infos.address / 0x1_0000) % 0x100) as u8);
    msg.push(((infos.address / 0x100) % 0x100) as u8);
    msg.push((infos.address % 0x100) as u8);

    // Latitude on 24 signed bits, big endian.
    let lat = lat_bits(infos.latitude);
    msg.push((lat / 0x1_0000) as u8);
    msg.push(((lat / 0x100) % 0x100) as u8);
    msg.push((lat % 0x100) as u8);

    // Longitude on 24 signed bits, big endian.
    let lon = lon_bits(infos.longitude);
    msg.push((lon / 0x1_0000) as u8);
    msg.push(((lon / 0x100) % 0x100) as u8);
    msg.push((lon % 0x100) as u8);

    // Altitude on 12 bits, then the miscellaneous indicators in the low
    // nibble of the same byte pair.
    let alt = alt_bits(infos.altitude);
    let misc: u32 = (if infos.track.is_some() {
        1
    } else {
        0
    }) + 8;
    msg.push((alt / 16) as u8);
    msg.push(((alt % 16) * 16 + misc) as u8);

    // NIC / NACp, left 0.
    msg.push(0);

    // Ground speed on 12 bits, vertical speed on 12 bits.
    let gs = gs_bits(&infos.ground_speed);
    let vs = vs_bits(&infos.vertical_speed);
    msg.push((gs / 16) as u8);
    msg.push(((gs % 16) * 16 + vs / 0x100) as u8);
    msg.push((vs % 0x100) as u8);

    // Track on 8 bits.
    let track = track_bits(&infos.track);
    msg.push(track as u8);

    // Emitter category, left 0.
    msg.push(0);

    // Callsign on 8 characters.
    msg.push(callsign_byte_at(&infos.callsign, 0));
    msg.push(callsign_byte_at(&infos.callsign, 1));
    msg.push(callsign_byte_at(&infos.callsign, 2));
    msg.push(callsign_byte_at(&infos.callsign, 3));
    msg.push(callsign_byte_at(&infos.callsign, 4));
    msg.push(callsign_byte_at(&infos.callsign, 5));
    msg.push(callsign_byte_at(&infos.callsign, 6));
    msg.push(callsign_byte_at(&infos.callsign, 7));

    // Code / emergency priority, left 0.
    msg.push(0);

    // Tail placeholder: CRC and flag byte.
    msg.push(0);
    msg.push(0);
    msg.push(0);

    let ghost pre = seq![0u8, 0u8] + report_data(*infos) + seq![0u8, 0u8, 0u8];
    proof {
        assert(msg@ =~= pre);
    }

    // Filling header and tail fields.
    fill_header_and_tail(TRAFFIC_REPORT_MESSAGE_ID, &mut msg);
    proof {
        assert(pre.subrange(2, pre.len() - 3) =~= report_data(*infos));
        assert(msg@ == report_frame(*infos));
        lemma_stuffing_flags(report_frame(*infos));
    }

    // Application of byte-stuffing.
    byte_stuff(msg.as_slice(), buffer)
}

} // verus!
