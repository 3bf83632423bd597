//! Plain-text field parsing for the ingestion feeds: comma-separated
//! fields, decimal and hexadecimal integers, and decimal fractions read as
//! scaled integers.

use vstd::prelude::*;

verus! {

/// Error of the field parsers: the text is not a number of the expected
/// shape, or its value is out of range.
#[derive(Clone, Copy, Debug, PartialEq, Eq, Structural)]
pub enum ParseError {
    Invalid,
}

/// An ASCII decimal digit.
pub open spec fn is_digit(b: u8) -> bool {
    0x30 <= b <= 0x39
}

/// Every byte a decimal digit.
pub open spec fn all_digits(s: Seq<u8>) -> bool {
    forall|i: int| 0 <= i < s.len() ==> is_digit(#[trigger] s[i])
}

/// Value of a decimal digit string.
pub open spec fn dec_val(s: Seq<u8>) -> int
    decreases s.len(),
{
    if s.len() == 0 {
        0
    } else {
        dec_val(s.drop_last()) * 10 + (s.last() - 0x30)
    }
}

/// A digit string's value never goes down as it grows to the right.
proof fn lemma_dec_val_mono(s: Seq<u8>, i: int, j: int)
    requires
        all_digits(s),
        0 <= i <= j <= s.len(),
    ensures
        0 <= dec_val(s.take(i)) <= dec_val(s.take(j)),
    decreases j - i,
{
    if i == j {
        lemma_dec_val_nonneg(s.take(i));
    } else {
        lemma_dec_val_mono(s, i, j - 1);
        assert(s.take(j).drop_last() =~= s.take(j - 1));
        assert(is_digit(s[j - 1]));
    }
}

/// A digit string's value is non-negative.
proof fn lemma_dec_val_nonneg(s: Seq<u8>)
    requires
        all_digits(s),
    ensures
        dec_val(s) >= 0,
    decreases s.len(),
{
    if s.len() > 0 {
        assert(all_digits(s.drop_last())) by {
            assert(forall|i: int|
                0 <= i < s.len() - 1 ==> is_digit(#[trigger] s.drop_last()[i]) == is_digit(s[i]));
        };
        lemma_dec_val_nonneg(s.drop_last());
        assert(is_digit(s.last()));
    }
}

/// Parses an unsigned decimal integer: at least one digit, digits only,
/// value below 2^32.
#[verifier::loop_isolation(false)]
pub fn parse_u32(field: &[u8]) -> (r: Result<u32, ParseError>)
    ensures
        r matches Ok(v) ==> field@.len() >= 1 && all_digits(field@) && v as int == dec_val(field@),
        r is Err ==> !(field@.len() >= 1 && all_digits(field@) && dec_val(field@)
            < 0x1_0000_0000),
{
    if field.len() == 0 {
        return Err(ParseError::Invalid);
    }
    let mut acc: u64 = 0;
    let mut i: usize = 0;
    while i < field.len()
        invariant
            i <= field@.len(),
            forall|j: int| 0 <= j < i ==> is_digit(#[trigger] field@[j]),
            acc as int == dec_val(field@.take(i as int)),
            acc <= 0xffff_ffff,
        decreases field@.len() - i,
    {
        let b = field[i];
        if !(0x30 <= b && b <= 0x39) {
            return Err(ParseError::Invalid);
        }
        proof {
            assert(field@.take(i + 1).drop_last() =~= field@.take(i as int));
        }
        acc = acc * 10 + ((b - 0x30) as u64);
        i = i + 1;
        if acc > 0xffff_ffff {
            proof {
                if all_digits(field@) {
                    lemma_dec_val_mono(field@, i as int, field@.len() as int);
                    assert(field@.take(field@.len() as int) =~= field@);
                }
            }
            return Err(ParseError::Invalid);
        }
    }
    proof {
        assert(field@.take(field@.len() as int) =~= field@);
    }
    Ok(acc as u32)
}

/// A signed decimal integer: an optional minus sign, then digits.
pub open spec fn int_text_ok(s: Seq<u8>) -> bool {
    if s.len() >= 1 && s[0] == 0x2d {
        s.len() >= 2 && all_digits(s.skip(1))
    } else {
        s.len() >= 1 && all_digits(s)
    }
}

/// Value of a signed decimal integer.
pub open spec fn int_text_val(s: Seq<u8>) -> int
    recommends
        int_text_ok(s),
{
    if s.len() >= 1 && s[0] == 0x2d {
        -dec_val(s.skip(1))
    } else {
        dec_val(s)
    }
}

/// Parses a signed decimal integer into the 32-bit range.
pub fn parse_i32(field: &[u8]) -> (r: Result<i32, ParseError>)
    ensures
        r matches Ok(v) ==> int_text_ok(field@) && v as int == int_text_val(field@),
        r is Err ==> !(int_text_ok(field@) && -0x8000_0000 <= int_text_val(field@)
            < 0x8000_0000),
{
    if field.len() == 0 {
        return Err(ParseError::Invalid);
    }
    if field[0] == 0x2d {
        let rest = vstd::slice::slice_subrange(field, 1, field.len());
        match parse_u32(rest) {
            Err(e) => {
                proof {
                    if int_text_ok(field@) && -0x8000_0000 <= int_text_val(field@) {
                        lemma_dec_val_nonneg(field@.skip(1));
                    }
                }
                Err(e)
            },
            Ok(v) => {
                if v > 0x8000_0000 {
                    return Err(ParseError::Invalid);
                }
                Ok((-(v as i64)) as i32)
            },
        }
    } else {
        match parse_u32(field) {
            Err(e) => Err(e),
            Ok(v) => {
                if v >= 0x8000_0000 {
                    return Err(ParseError::Invalid);
                }
                Ok(v as i32)
            },
        }
    }
}

/// An ASCII hexadecimal digit.
pub open spec fn is_hex_digit(b: u8) -> bool {
    is_digit(b) || (0x41 <= b <= 0x46) || (0x61 <= b <= 0x66)
}

/// Every byte a hexadecimal digit.
pub open spec fn all_hex_digits(s: Seq<u8>) -> bool {
    forall|i: int| 0 <= i < s.len() ==> is_hex_digit(#[trigger] s[i])
}

/// Value of one hexadecimal digit.
pub open spec fn hex_digit_val(b: u8) -> int {
    if is_digit(b) {
        b - 0x30
    } else if 0x41 <= b <= 0x46 {
        b - 0x37
    } else {
        b - 0x57
    }
}

/// Value of a hexadecimal digit string.
pub open spec fn hex_val(s: Seq<u8>) -> int
    decreases s.len(),
{
    if s.len() == 0 {
        0
    } else {
        hex_val(s.drop_last()) * 16 + hex_digit_val(s.last())
    }
}

/// A hexadecimal string's value never goes down as it grows to the right.
proof fn lemma_hex_val_mono(s: Seq<u8>, i: int, j: int)
    requires
        all_hex_digits(s),
        0 <= i <= j <= s.len(),
    ensures
        0 <= hex_val(s.take(i)) <= hex_val(s.take(j)),
    decreases j - i,
{
    if i == j {
        lemma_hex_val_nonneg(s.take(i));
    } else {
        lemma_hex_val_mono(s, i, j - 1);
        assert(s.take(j).drop_last() =~= s.take(j - 1));
        assert(is_hex_digit(s[j - 1]));
    }
}

/// A hexadecimal string's value is non-negative.
proof fn lemma_hex_val_nonneg(s: Seq<u8>)
    requires
        all_hex_digits(s),
    ensures
        hex_val(s) >= 0,
    decreases s.len(),
{
    if s.len() > 0 {
        assert(all_hex_digits(s.drop_last())) by {
            assert(forall|i: int|
                0 <= i < s.len() - 1 ==> is_hex_digit(#[trigger] s.drop_last()[i]) == is_hex_digit(
                    s[i],
                ));
        };
        lemma_hex_val_nonneg(s.drop_last());
        assert(is_hex_digit(s.last()));
    }
}

/// Parses an unsigned hexadecimal integer: at least one digit, hexadecimal
/// digits only, value below 2^32.
#[verifier::loop_isolation(false)]
pub fn parse_hex_u32(field: &[u8]) -> (r: Result<u32, ParseError>)
    ensures
        r matches Ok(v) ==> field@.len() >= 1 && all_hex_digits(field@) && v as int == hex_val(
            field@,
        ),
        r is Err ==> !(field@.len() >= 1 && all_hex_digits(field@) && hex_val(field@)
            < 0x1_0000_0000),
{
    if field.len() == 0 {
        return Err(ParseError::Invalid);
    }
    let mut acc: u64 = 0;
    let mut i: usize = 0;
    while i < field.len()
        invariant
            i <= field@.len(),
            forall|j: int| 0 <= j < i ==> is_hex_digit(#[trigger] field@[j]),
            acc as int == hex_val(field@.take(i as int)),
            acc <= 0xffff_ffff,
        decreases field@.len() - i,
    {
        let b = field[i];
        let d: u64;
        if 0x30 <= b && b <= 0x39 {
            d = (b - 0x30) as u64;
        } else if 0x41 <= b && b <= 0x46 {
            d = (b - 0x37) as u64;
        } else if 0x61 <= b && b <= 0x66 {
            d = (b - 0x57) as u64;
        } else {
            return Err(ParseError::Invalid);
        }
        proof {
            assert(field@.take(i + 1).drop_last() =~= field@.take(i as int));
        }
        acc = acc * 16 + d;
        i = i + 1;
        if acc > 0xffff_ffff {
            proof {
                if all_hex_digits(field@) {
                    lemma_hex_val_mono(field@, i as int, field@.len() as int);
                    assert(field@.take(field@.len() as int) =~= field@);
                }
            }
            return Err(ParseError::Invalid);
        }
    }
    proof {
        assert(field@.take(field@.len() as int) =~= field@);
    }
    Ok(acc as u32)
}

/// Powers of ten.
pub open spec fn pow10(k: nat) -> int
    decreases k,
{
    if k == 0 {
        1
    } else {
        10 * pow10((k - 1) as nat)
    }
}

/// A string of `n` digits stays below 10^n.
proof fn lemma_dec_val_upper(s: Seq<u8>)
    requires
        all_digits(s),
    ensures
        dec_val(s) < pow10(s.len()),
    decreases s.len(),
{
    if s.len() > 0 {
        assert(all_digits(s.drop_last())) by {
            assert(forall|i: int|
                0 <= i < s.len() - 1 ==> is_digit(#[trigger] s.drop_last()[i]) == is_digit(s[i]));
        };
        lemma_dec_val_upper(s.drop_last());
        assert(is_digit(s.last()));
    }
}

/// Splits at the first dot: the text before it, and the text after it; with
/// no dot, the whole text and an empty fraction.
pub open spec fn split_at_dot(s: Seq<u8>) -> (Seq<u8>, Seq<u8>)
    decreases s.len(),
{
    if s.len() == 0 {
        (Seq::empty(), Seq::empty())
    } else if s[0] == 0x2e {
        (Seq::empty(), s.drop_first())
    } else {
        let r = split_at_dot(s.drop_first());
        (seq![s[0]] + r.0, r.1)
    }
}

/// The dot split follows the position of the first dot.
proof fn lemma_split_at_dot_scan(s: Seq<u8>, k: int)
    requires
        0 <= k <= s.len(),
        forall|j: int| 0 <= j < k ==> s[j] != 0x2e,
        k == s.len() || s[k] == 0x2e,
    ensures
        k == s.len() ==> split_at_dot(s) == (s, Seq::<u8>::empty()),
        k < s.len() ==> split_at_dot(s) == (s.take(k), s.skip(k + 1)),
    decreases k,
{
    if k == 0 {
        if s.len() == 0 {
            assert(s =~= Seq::<u8>::empty());
        } else {
            assert(s.take(0) =~= Seq::<u8>::empty());
            assert(s.skip(1) =~= s.drop_first());
        }
    } else {
        let d = s.drop_first();
        lemma_split_at_dot_scan(d, k - 1);
        if k == s.len() {
            assert(seq![s[0]] + d =~= s);
        } else {
            assert(seq![s[0]] + d.take(k - 1) =~= s.take(k));
            assert(d.skip(k) =~= s.skip(k + 1));
        }
    }
}

/// A decimal fraction text: an optional minus sign, at least one digit
/// before an optional dot, digits only on both sides of it.
pub open spec fn scaled_ok(s: Seq<u8>) -> bool {
    let u = if s.len() >= 1 && s[0] == 0x2d {
        s.skip(1)
    } else {
        s
    };
    let ip = split_at_dot(u).0;
    let fp = split_at_dot(u).1;
    &&& ip.len() >= 1
    &&& all_digits(ip)
    &&& all_digits(fp)
}

/// The first `k` fraction digits as an integer of exactly `k` digits.
pub open spec fn frac_scaled(f: Seq<u8>, k: nat) -> int {
    if f.len() >= k {
        dec_val(f.take(k as int))
    } else {
        dec_val(f) * pow10((k - f.len()) as nat)
    }
}

/// What [`parse_scaled`] accepts: a well-shaped decimal fraction text whose
/// integer part stays below 10^12.
pub open spec fn scaled_parse_ok(s: Seq<u8>) -> bool {
    let u = if s.len() >= 1 && s[0] == 0x2d {
        s.skip(1)
    } else {
        s
    };
    scaled_ok(s) && dec_val(split_at_dot(u).0) < 1_000_000_000_000
}

/// Value of a decimal fraction text in units of 10^-scale, extra fraction
/// digits dropped.
pub open spec fn scaled_val(s: Seq<u8>, scale: nat) -> int
    recommends
        scaled_ok(s),
{
    let neg = s.len() >= 1 && s[0] == 0x2d;
    let u = if neg {
        s.skip(1)
    } else {
        s
    };
    let ip = split_at_dot(u).0;
    let fp = split_at_dot(u).1;
    let mag = dec_val(ip) * pow10(scale) + frac_scaled(fp, scale);
    if neg {
        -mag
    } else {
        mag
    }
}

/// 10^k as executable code.
fn pow10_exec(k: usize) -> (r: i64)
    requires
        k <= 6,
    ensures
        r == pow10(k as nat),
        1 <= r <= 1_000_000,
{
    proof {
        assert(pow10(0) == 1);
        assert(pow10(1) == 10);
        assert(pow10(2) == 100);
        assert(pow10(3) == 1000);
        assert(pow10(4) == 10000);
        assert(pow10(5) == 100000);
        assert(pow10(6) == 1000000);
    }
    match k {
        0 => 1,
        1 => 10,
        2 => 100,
        3 => 1000,
        4 => 10000,
        5 => 100000,
        _ => 1000000,
    }
}

/// Parses a decimal fraction text into an integer scaled by 10^scale,
/// truncating extra fraction digits; the integer part must stay below
/// 10^12.
#[verifier::loop_isolation(false)]
#[verifier::rlimit(100)]
pub fn parse_scaled(field: &[u8], scale: usize) -> (r: Result<i64, ParseError>)
    requires
        scale <= 6,
    ensures
        r matches Ok(v) ==> scaled_parse_ok(field@) && v == scaled_val(field@, scale as nat)
            && -0x0de0_b6b3_a764_0000 < v < 0x0de0_b6b3_a764_0000,
        r is Err ==> !scaled_parse_ok(field@),
{
    let neg = field.len() >= 1 && field[0] == 0x2d;
    let start: usize = if neg {
        1
    } else {
        0
    };
    let ghost u = if neg {
        field@.skip(1)
    } else {
        field@
    };
    // Find the first dot.
    let mut dot: usize = field.len();
    let mut i: usize = start;
    while i < field.len()
        invariant
            start <= i <= field@.len(),
            dot == field@.len() || (start <= dot && dot < i && field@[dot as int] == 0x2e
                && forall|j: int| start <= j < dot ==> field@[j] != 0x2e),
            dot == field@.len() ==> forall|j: int| start <= j < i ==> field@[j] != 0x2e,
        decreases field@.len() - i,
    {
        if field[i] == 0x2e && dot == field.len() {
            dot = i;
        }
        i = i + 1;
    }
    proof {
        assert(u.len() == field@.len() - start);
        assert(forall|j: int| 0 <= j < u.len() ==> u[j] == field@[start + j]);
        lemma_split_at_dot_scan(u, dot - start as int);
        if dot < field@.len() {
            assert(u.take(dot - start as int) =~= field@.subrange(start as int, dot as int));
            assert(u.skip(dot - start as int + 1) =~= field@.subrange(
                dot as int + 1,
                field@.len() as int,
            ));
        } else {
            assert(u =~= field@.subrange(start as int, dot as int));
        }
    }
    let ghost ip = field@.subrange(start as int, dot as int);
    let ghost fp = if dot < field@.len() {
        field@.subrange(dot as int + 1, field@.len() as int)
    } else {
        Seq::<u8>::empty()
    };
    // Integer part: at least one digit, digits only, below 10^12.
    if dot == start {
        return Err(ParseError::Invalid);
    }
    let mut acc: i64 = 0;
    let mut p: usize = start;
    while p < dot
        invariant
            start <= p <= dot <= field@.len(),
            forall|j: int| start <= j < p ==> is_digit(#[trigger] field@[j]),
            acc == dec_val(field@.subrange(start as int, p as int)),
            0 <= acc < 1_000_000_000_000,
        decreases dot - p,
    {
        let b = field[p];
        if !(0x30 <= b && b <= 0x39) {
            proof {
                assert(ip[p - start as int] == field@[p as int]);
            }
            return Err(ParseError::Invalid);
        }
        proof {
            assert(field@.subrange(start as int, p + 1).drop_last() =~= field@.subrange(
                start as int,
                p as int,
            ));
        }
        acc = acc * 10 + ((b - 0x30) as i64);
        p = p + 1;
        if acc >= 1_000_000_000_000 {
            proof {
                if all_digits(ip) {
                    assert(forall|j: int|
                        0 <= j < ip.len() ==> #[trigger] ip[j] == field@[start + j]);
                    lemma_dec_val_mono(ip, p - start as int, ip.len() as int);
                    assert(ip.take(p - start as int) =~= field@.subrange(start as int, p as int));
                    assert(ip.take(ip.len() as int) =~= ip);
                }
            }
            return Err(ParseError::Invalid);
        }
    }
    proof {
        assert(field@.subrange(start as int, dot as int) == ip);
    }
    // Fraction part: digits only; the first `scale` of them count.
    let mut facc: i64 = 0;
    let mut c: usize = 0;
    let mut q: usize = if dot < field.len() {
        dot + 1
    } else {
        dot
    };
    let ghost q0 = q as int;
    while q < field.len()
        invariant
            q0 <= q <= field@.len(),
            dot < field@.len() ==> q0 == dot + 1,
            dot == field@.len() ==> q0 == dot,
            c <= scale,
            c == if q - q0 <= scale {
                q - q0
            } else {
                scale as int
            },
            forall|j: int| q0 <= j < q ==> is_digit(#[trigger] field@[j]),
            facc == dec_val(field@.subrange(q0, q0 + c as int)),
            0 <= facc < pow10(c as nat),
            pow10(c as nat) <= 1_000_000,
        decreases field@.len() - q,
    {
        let b = field[q];
        if !(0x30 <= b && b <= 0x39) {
            proof {
                assert(fp[q - q0] == field@[q as int]);
            }
            return Err(ParseError::Invalid);
        }
        if c < scale {
            proof {
                assert(field@.subrange(q0, q0 + c + 1).drop_last() =~= field@.subrange(
                    q0,
                    q0 + c as int,
                ));
                assert(pow10((c + 1) as nat) == 10 * pow10(c as nat));
                lemma_pow10_mono((c + 1) as nat, 6);
                assert(pow10(6) == 1_000_000) by {
                    assert(pow10(0) == 1);
                    assert(pow10(1) == 10);
                    assert(pow10(2) == 100);
                    assert(pow10(3) == 1000);
                    assert(pow10(4) == 10000);
                    assert(pow10(5) == 100000);
                    assert(pow10(6) == 1000000);
                };
            }
            facc = facc * 10 + ((b - 0x30) as i64);
            c = c + 1;
        }
        q = q + 1;
    }
    proof {
        assert(forall|j: int| 0 <= j < fp.len() ==> #[trigger] fp[j] == field@[q0 + j]);
        assert(all_digits(fp));
        if fp.len() >= scale {
            assert(c == scale);
            assert(fp.take(scale as int) =~= field@.subrange(q0, q0 + scale as int));
        } else {
            assert(c == fp.len());
            assert(fp =~= field@.subrange(q0, q0 + c as int));
            lemma_dec_val_nonneg(fp);
            lemma_dec_val_upper(fp);
        }
    }
    let pw = pow10_exec(scale);
    proof {
        assert(acc * pw <= 999_999_999_999i64 * 1_000_000) by (nonlinear_arith)
            requires
                0 <= acc < 1_000_000_000_000i64 && 1 <= pw <= 1_000_000,
        ;
        assert(acc * pw >= 0) by (nonlinear_arith)
            requires
                0 <= acc && 0 <= pw,
        ;
    }
    let mag: i64;
    if c < scale {
        // Fewer fraction digits than the scale: pad with zeros.
        let pd = pow10_exec(scale - c);
        proof {
            lemma_pow10_add(c as nat, (scale - c) as nat);
            assert(facc * pd < pow10(c as nat) * pd) by (nonlinear_arith)
                requires
                    0 <= facc < pow10(c as nat) && 0 < pd,
            ;
            assert(facc * pd >= 0) by (nonlinear_arith)
                requires
                    0 <= facc && 0 <= pd,
            ;
        }
        mag = acc * pw + facc * pd;
    } else {
        proof {
            assert(pow10(0) == 1);
            assert(pow10(1) == 10);
            assert(pow10(2) == 100);
            assert(pow10(3) == 1000);
            assert(pow10(4) == 10000);
            assert(pow10(5) == 100000);
            assert(pow10(6) == 1000000);
        }
        mag = acc * pw + facc;
    }
    if neg {
        Ok(-mag)
    } else {
        Ok(mag)
    }
}

/// Powers of ten do not decrease.
proof fn lemma_pow10_mono(a: nat, b: nat)
    requires
        a <= b,
    ensures
        0 < pow10(a) <= pow10(b),
    decreases b,
{
    if a == b {
        if a > 0 {
            lemma_pow10_mono((a - 1) as nat, (a - 1) as nat);
        }
    } else {
        lemma_pow10_mono(a, (b - 1) as nat);
    }
}

/// 10^(a+b) is 10^a times 10^b.
proof fn lemma_pow10_add(a: nat, b: nat)
    ensures
        pow10(a + b) == pow10(a) * pow10(b),
    decreases b,
{
    if b > 0 {
        lemma_pow10_add(a, (b - 1) as nat);
        assert(pow10(a + b) == 10 * pow10((a + b - 1) as nat));
        assert(10 * (pow10(a) * pow10((b - 1) as nat)) == pow10(a) * (10 * pow10(
            (b - 1) as nat,
        ))) by (nonlinear_arith);
    } else {
        assert(pow10(0) == 1);
    }
}

/// Fields of a comma-separated text: one more field than commas, in order;
/// an empty text is one empty field.
pub open spec fn split_fields(s: Seq<u8>) -> Seq<Seq<u8>>
    decreases s.len(),
{
    if s.len() == 0 {
        seq![Seq::<u8>::empty()]
    } else if s[0] == 0x2c {
        seq![Seq::<u8>::empty()] + split_fields(s.drop_first())
    } else {
        let r = split_fields(s.drop_first());
        seq![seq![s[0]] + r[0]] + r.skip(1)
    }
}

/// There is always at least one field.
pub proof fn lemma_split_fields_len(s: Seq<u8>)
    ensures
        split_fields(s).len() >= 1,
    decreases s.len(),
{
    if s.len() > 0 && s[0] != 0x2c {
        lemma_split_fields_len(s.drop_first());
    }
}

/// The first field runs to the first comma.
proof fn lemma_split_fields_first(s: Seq<u8>, k: int)
    requires
        0 <= k <= s.len(),
        forall|j: int| 0 <= j < k ==> s[j] != 0x2c,
        k == s.len() || s[k] == 0x2c,
    ensures
        k == s.len() ==> split_fields(s) == seq![s],
        k < s.len() ==> split_fields(s) == seq![s.take(k)] + split_fields(s.skip(k + 1)),
    decreases k,
{
    if k == 0 {
        if s.len() == 0 {
            assert(seq![Seq::<u8>::empty()] =~~= seq![s]);
        } else {
            assert(s.take(0) =~= Seq::<u8>::empty());
            assert(s.skip(1) =~= s.drop_first());
            assert(seq![Seq::<u8>::empty()] + split_fields(s.drop_first()) =~~= seq![s.take(0)]
                + split_fields(s.skip(1)));
        }
    } else {
        let d = s.drop_first();
        lemma_split_fields_first(d, k - 1);
        lemma_split_fields_len(d);
        if k == s.len() {
            assert(seq![s[0]] + d =~= s);
            assert(split_fields(s) =~~= seq![s]);
        } else {
            assert(seq![s[0]] + d.take(k - 1) =~= s.take(k));
            assert(d.skip(k) =~= s.skip(k + 1));
            assert(split_fields(s) =~~= seq![s.take(k)] + split_fields(s.skip(k + 1)));
        }
    }
}

/// Splits a text into its comma-separated fields.
#[verifier::loop_isolation(false)]
pub fn split_fields_vec(s: &[u8]) -> (r: Vec<Vec<u8>>)
    requires
        s@.len() < usize::MAX,
    ensures
        r@.len() == split_fields(s@).len(),
        forall|k: int| 0 <= k < r@.len() ==> (#[trigger] r@[k])@ == split_fields(s@)[k],
{
    let mut out: Vec<Vec<u8>> = Vec::new();
    let mut p: usize = 0;
    proof {
        lemma_split_fields_len(s@);
        assert(s@.skip(0) =~= s@);
    }
    while p <= s.len()
        invariant
            p <= s@.len() + 1,
            p <= s@.len() ==> {
                &&& split_fields(s@).len() == out@.len() + split_fields(s@.skip(p as int)).len()
                &&& forall|k: int|
                    0 <= k < out@.len() ==> (#[trigger] out@[k])@ == split_fields(s@)[k]
                &&& forall|k: int|
                    0 <= k < split_fields(s@.skip(p as int)).len() ==> #[trigger] split_fields(
                        s@.skip(p as int),
                    )[k] == split_fields(s@)[out@.len() + k]
            },
            p == s@.len() + 1 ==> {
                &&& out@.len() == split_fields(s@).len()
                &&& forall|k: int|
                    0 <= k < out@.len() ==> (#[trigger] out@[k])@ == split_fields(s@)[k]
            },
        decreases s@.len() + 1 - p,
    {
        let ghost rem = s@.skip(p as int);
        // Find the next comma.
        let mut q: usize = p;
        while q < s.len() && s[q] != 0x2c
            invariant
                p <= q <= s@.len(),
                forall|j: int| p <= j < q ==> s@[j] != 0x2c,
            decreases s@.len() - q,
        {
            q = q + 1;
        }
        proof {
            assert(forall|j: int| 0 <= j < rem.len() ==> rem[j] == s@[p + j]);
            lemma_split_fields_first(rem, q - p as int);
            if q < s@.len() {
                assert(rem.take(q - p as int) =~= s@.subrange(p as int, q as int));
                assert(rem.skip(q - p as int + 1) =~= s@.skip(q as int + 1));
                lemma_split_fields_len(s@.skip(q as int + 1));
            } else {
                assert(rem =~= s@.subrange(p as int, q as int));
            }
        }
        let mut field: Vec<u8> = Vec::new();
        let mut j: usize = p;
        while j < q
            invariant
                p <= j <= q <= s@.len(),
                field@ == s@.subrange(p as int, j as int),
            decreases q - j,
        {
            field.push(s[j]);
            proof {
                assert(field@ =~= s@.subrange(p as int, j + 1));
            }
            j = j + 1;
        }
        let ghost out0 = out@;
        out.push(field);
        proof {
            assert(field@ == rem.take(q - p as int)) by {
                assert(rem.take(q - p as int) =~= s@.subrange(p as int, q as int));
            };
            if q < s@.len() {
                assert(split_fields(rem) == seq![rem.take(q - p as int)] + split_fields(
                    s@.skip(q as int + 1),
                ));
                assert(split_fields(rem)[0] == field@);
                assert(split_fields(s@)[out0.len() as int] == field@);
                assert forall|k: int|
                    0 <= k < split_fields(s@.skip(q as int + 1)).len() implies #[trigger]
                    split_fields(s@.skip(q as int + 1))[k] == split_fields(s@)[out@.len() + k] by {
                    assert(split_fields(rem)[k + 1] == split_fields(s@)[out0.len() + (k + 1)]);
                    assert(split_fields(rem)[k + 1] == split_fields(s@.skip(q as int + 1))[k]);
                };
            } else {
                assert(rem.take(q - p as int) =~= rem);
                assert(split_fields(rem) == seq![rem]);
                assert(split_fields(rem)[0] == rem);
                assert(split_fields(s@)[out0.len() as int] == field@);
            }
            assert forall|k: int|
                0 <= k < out@.len() implies (#[trigger] out@[k])@ == split_fields(s@)[k] by {
                if k < out0.len() {
                    assert(out@[k] == out0[k]);
                }
            };
        }
        p = q + 1;
    }
    out
}

} // verus!
