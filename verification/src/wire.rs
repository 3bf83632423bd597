//! Big-endian byte-order helpers shared by the wire formats of the library.

use vstd::prelude::*;

verus! {

/// Value of 4 bytes as a big-endian unsigned integer.
pub open spec fn be32(b: Seq<u8>) -> int
    recommends
        b.len() == 4,
{
    b[0] * 0x100_0000 + b[1] * 0x1_0000 + b[2] * 0x100 + b[3]
}

/// Value of 4 bytes as a big-endian two's complement integer.
pub open spec fn sbe32(b: Seq<u8>) -> int
    recommends
        b.len() == 4,
{
    if be32(b) >= 0x8000_0000 {
        be32(b) - 0x1_0000_0000
    } else {
        be32(b)
    }
}

/// The 4 big-endian bytes of an unsigned 32-bit value.
pub open spec fn be32_bytes(v: int) -> Seq<u8>
    recommends
        0 <= v < 0x1_0000_0000,
{
    seq![
        (v / 0x100_0000 % 0x100) as u8,
        (v / 0x1_0000 % 0x100) as u8,
        (v / 0x100 % 0x100) as u8,
        (v % 0x100) as u8,
    ]
}

/// Two's complement image of a signed 32-bit value.
pub open spec fn u32_of_i32(v: int) -> int
    recommends
        -0x8000_0000 <= v < 0x8000_0000,
{
    if v >= 0 {
        v
    } else {
        v + 0x1_0000_0000
    }
}

/// The bytes of an unsigned 32-bit value recompose to the value.
proof fn lemma_u32_recompose(v: u32)
    by (bit_vector)
    ensures
        (v / 0x100_0000 % 0x100) * 0x100_0000 + (v / 0x1_0000 % 0x100) * 0x1_0000 + (v / 0x100
            % 0x100) * 0x100 + (v % 0x100) == v,
{
}

/// Reading back the 4 big-endian bytes of an unsigned value gives the value.
pub proof fn lemma_be32_round(v: u32)
    ensures
        be32(be32_bytes(v as int)) == v as int,
{
    lemma_u32_recompose(v);
}

/// Reading back the 4 big-endian bytes of a signed value gives the value.
pub proof fn lemma_sbe32_round(v: int)
    requires
        -0x8000_0000 <= v < 0x8000_0000,
    ensures
        sbe32(be32_bytes(u32_of_i32(v))) == v,
{
    lemma_be32_round(u32_of_i32(v) as u32);
}

/// The 3 big-endian bytes of a 24-bit value recompose to the value.
pub proof fn lemma_u24_recompose(v: u32)
    requires
        v < 0x100_0000,
    ensures
        (v / 0x1_0000 % 0x100) * 0x1_0000 + (v / 0x100 % 0x100) * 0x100 + (v % 0x100) == v,
{
    assert((v / 0x1_0000 % 0x100) * 0x1_0000 + (v / 0x100 % 0x100) * 0x100 + (v % 0x100) == v)
        by (bit_vector)
        requires
            v < 0x100_0000u32,
    ;
}

/// Reads an unsigned 32-bit big-endian integer at `at`.
pub fn read_be32(msg: &[u8], at: usize) -> (r: u32)
    requires
        at + 4 <= msg@.len(),
    ensures
        r as int == be32(msg@.subrange(at as int, at as int + 4)),
{
    let b0 = msg[at] as u32;
    let b1 = msg[at + 1] as u32;
    let b2 = msg[at + 2] as u32;
    let b3 = msg[at + 3] as u32;
    proof {
        let s = msg@.subrange(at as int, at as int + 4);
        assert(s[0] == msg@[at as int] && s[1] == msg@[at as int + 1] && s[2] == msg@[at as int
            + 2] && s[3] == msg@[at as int + 3]);
    }
    b0 * 0x100_0000 + b1 * 0x1_0000 + b2 * 0x100 + b3
}

/// Reads a signed 32-bit big-endian integer at `at`.
pub fn read_sbe32(msg: &[u8], at: usize) -> (r: i64)
    requires
        at + 4 <= msg@.len(),
    ensures
        r as int == sbe32(msg@.subrange(at as int, at as int + 4)),
        -0x8000_0000 <= r < 0x8000_0000,
{
    let v = read_be32(msg, at);
    if v >= 0x8000_0000 {
        (v as i64) - 0x1_0000_0000
    } else {
        v as i64
    }
}

/// Appends the 4 big-endian bytes of `v`.
pub fn push_be32(out: &mut Vec<u8>, v: u32)
    ensures
        final(out)@ == old(out)@ + be32_bytes(v as int),
{
    out.push((v / 0x100_0000 % 0x100) as u8);
    out.push((v / 0x1_0000 % 0x100) as u8);
    out.push((v / 0x100 % 0x100) as u8);
    out.push((v % 0x100) as u8);
    proof {
        assert(out@ =~= old(out)@ + be32_bytes(v as int));
    }
}

/// Two's complement image of a signed 32-bit value, as executable code.
pub fn u32_from_i32(v: i32) -> (r: u32)
    ensures
        r as int == u32_of_i32(v as int),
{
    if v >= 0 {
        v as u32
    } else {
        ((v as i64) + 0x1_0000_0000) as u32
    }
}

} // verus!
