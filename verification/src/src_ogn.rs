//! Parsing of OGN (Open Glider Network) traffic.
//!
//! The feed serves an XML document whose empty `m` elements carry one
//! comma-separated attribute per aircraft. The caller fetches the document
//! and walks the XML; the library parses each attribute value into a
//! traffic record, converting the feed's metric units to the record's
//! (meters to feet, km/h to knots, m/s to feet per minute).

use vstd::prelude::*;
use crate::gdl90::{clamp_int, trunc_div};
use crate::textparse;
use crate::textparse::{ParseError, all_digits, all_hex_digits, dec_val, hex_val, int_text_ok,
    int_text_val, scaled_parse_ok, scaled_val, split_fields};
use crate::traffic_infos::{AddressType, TrafficInfos, TrafficRec, default_rec};

verus! {

/// Largest vertical speed the parser accepts, in micro-m/s.
pub const VS_MICRO_MPS_MAX: i64 = 40_000_000_000;

/// Meters to feet: times 3.28084, truncated, saturated to 32 bits.
pub open spec fn meter_to_feet_spec(m: int) -> int {
    clamp_int(trunc_div(m * 328084, 100000), -0x8000_0000, 0x7fff_ffff)
}

/// km/h to knots: times 0.539957, truncated, saturated to 32 bits.
pub open spec fn kmh_to_kt_spec(k: int) -> int {
    clamp_int(trunc_div(k * 539957, 1000000), -0x8000_0000, 0x7fff_ffff)
}

/// Micro-m/s to feet per minute: times 196.850394, truncated.
pub open spec fn mps_to_fpm_spec(micro_mps: int) -> int
    recommends
        -VS_MICRO_MPS_MAX <= micro_mps <= VS_MICRO_MPS_MAX,
{
    trunc_div(micro_mps * 196850394, 1_000_000_000_000)
}

/// Effect of field `i` of an OGN traffic attribute on the record: position,
/// callsign, altitude, track, speeds and address each live at a fixed
/// index; every other field is ignored.
pub open spec fn ogn_apply(t: TrafficRec, i: int, f: Seq<u8>) -> Result<TrafficRec, ParseError> {
    if i == 0 {
        if scaled_parse_ok(f) && -90_000_000 <= scaled_val(f, 6) <= 90_000_000 {
            Ok(TrafficRec { latitude: scaled_val(f, 6), ..t })
        } else {
            Err(ParseError::Invalid)
        }
    } else if i == 1 {
        if scaled_parse_ok(f) && -180_000_000 <= scaled_val(f, 6) <= 180_000_000 {
            Ok(TrafficRec { longitude: scaled_val(f, 6), ..t })
        } else {
            Err(ParseError::Invalid)
        }
    } else if i == 2 {
        if f.len() <= 255 {
            Ok(TrafficRec { callsign: f, ..t })
        } else {
            Err(ParseError::Invalid)
        }
    } else if i == 4 {
        if int_text_ok(f) && -0x8000_0000 <= int_text_val(f) < 0x8000_0000 {
            Ok(TrafficRec { altitude: meter_to_feet_spec(int_text_val(f)), ..t })
        } else {
            Err(ParseError::Invalid)
        }
    } else if i == 7 {
        if f.len() >= 1 && all_digits(f) && dec_val(f) <= 360 {
            Ok(TrafficRec { track: Some(dec_val(f)), ..t })
        } else {
            Err(ParseError::Invalid)
        }
    } else if i == 8 {
        if int_text_ok(f) && -0x8000_0000 <= int_text_val(f) < 0x8000_0000 {
            Ok(TrafficRec { ground_speed: Some(kmh_to_kt_spec(int_text_val(f))), ..t })
        } else {
            Err(ParseError::Invalid)
        }
    } else if i == 9 {
        if scaled_parse_ok(f) && -VS_MICRO_MPS_MAX <= scaled_val(f, 6) <= VS_MICRO_MPS_MAX {
            Ok(TrafficRec { vertical_speed: Some(mps_to_fpm_spec(scaled_val(f, 6))), ..t })
        } else {
            Err(ParseError::Invalid)
        }
    } else if i == 13 {
        if f.len() >= 1 && all_hex_digits(f) && hex_val(f) < 0x1_0000_0000 {
            // Only the 24 least significant bits are kept.
            Ok(TrafficRec { address: hex_val(f) % 0x100_0000, addr_type: AddressType::Ogn, ..t })
        } else {
            Err(ParseError::Invalid)
        }
    } else {
        // The other fields are not used and are considered valid.
        Ok(t)
    }
}

/// The record after the first `k` fields of an attribute were applied.
pub open spec fn ogn_run(fs: Seq<Seq<u8>>, k: int) -> Result<TrafficRec, ParseError>
    decreases k,
{
    if k <= 0 {
        Ok(default_rec())
    } else {
        match ogn_run(fs, k - 1) {
            Err(e) => Err(e),
            Ok(t) => ogn_apply(t, k - 1, fs[k - 1]),
        }
    }
}

/// The meaning of one OGN traffic attribute.
pub open spec fn parse_traffic_spec(s: Seq<u8>) -> Result<TrafficRec, ParseError> {
    ogn_run(split_fields(s), split_fields(s).len() as int)
}

/// A failed field fails the whole attribute.
proof fn lemma_ogn_run_err(fs: Seq<Seq<u8>>, k: int, n: int)
    requires
        0 <= k <= n,
        ogn_run(fs, k) is Err,
    ensures
        ogn_run(fs, n) is Err,
    decreases n,
{
    if n > k {
        lemma_ogn_run_err(fs, k, n - 1);
    }
}

/// Reception of OGN traffic: the parsing side. The caller owns the HTTP
/// fetch, the XML walk and the bus sender.
pub struct SrcOgn {}

impl SrcOgn {
    /// Creation of the parser.
    pub fn new() -> (r: SrcOgn) {
        SrcOgn {}
    }

    /// Parses one traffic attribute as [`parse_traffic_spec`] says.
    #[verifier::loop_isolation(false)]
    pub fn parse_traffic(traffic_string: &[u8]) -> (r: Result<TrafficInfos, ParseError>)
        requires
            traffic_string@.len() < usize::MAX,
        ensures
            r matches Ok(t) ==> parse_traffic_spec(traffic_string@) == Ok::<
                TrafficRec,
                ParseError,
            >(t@) && t.valid(),
            r is Err ==> parse_traffic_spec(traffic_string@) is Err,
    {
        let ghost fs = split_fields(traffic_string@);
        let fields = textparse::split_fields_vec(traffic_string);
        let mut traffic_infos = TrafficInfos::default();
        proof {
            assert(traffic_infos@ == default_rec());
        }
        let mut i: usize = 0;
        while i < fields.len()
            invariant
                i <= fields@.len(),
                fields@.len() == fs.len(),
                forall|k: int| 0 <= k < fs.len() ==> (#[trigger] fields@[k])@ == fs[k],
                ogn_run(fs, i as int) == Ok::<TrafficRec, ParseError>(traffic_infos@),
                traffic_infos.valid(),
            decreases fields@.len() - i,
        {
            let ghost t0 = traffic_infos@;
            let field = &fields[i];
            if i == 0 {
                match textparse::parse_scaled(field.as_slice(), 6) {
                    Ok(v) if -90_000_000 <= v && v <= 90_000_000 => {
                        traffic_infos.latitude = v as i32;
                    },
                    _ => {
                        proof {
                            lemma_ogn_run_err(fs, i + 1, fs.len() as int);
                        }
                        return Err(ParseError::Invalid);
                    },
                }
            } else if i == 1 {
                match textparse::parse_scaled(field.as_slice(), 6) {
                    Ok(v) if -180_000_000 <= v && v <= 180_000_000 => {
                        traffic_infos.longitude = v as i32;
                    },
                    _ => {
                        proof {
                            lemma_ogn_run_err(fs, i + 1, fs.len() as int);
                        }
                        return Err(ParseError::Invalid);
                    },
                }
            } else if i == 2 {
                if field.len() > 255 {
                    proof {
                        lemma_ogn_run_err(fs, i + 1, fs.len() as int);
                    }
                    return Err(ParseError::Invalid);
                }
                traffic_infos.callsign = field.clone();
                proof {
                    assert(traffic_infos.callsign@ =~= fs[i as int]);
                }
            } else if i == 4 {
                match textparse::parse_i32(field.as_slice()) {
                    Ok(v) => {
                        traffic_infos.altitude = Self::meter_to_feet(v);
                    },
                    Err(_) => {
                        proof {
                            lemma_ogn_run_err(fs, i + 1, fs.len() as int);
                        }
                        return Err(ParseError::Invalid);
                    },
                }
            } else if i == 7 {
                match textparse::parse_u32(field.as_slice()) {
                    Ok(v) if v <= 360 => {
                        traffic_infos.track = Some(v);
                    },
                    _ => {
                        proof {
                            lemma_ogn_run_err(fs, i + 1, fs.len() as int);
                        }
                        return Err(ParseError::Invalid);
                    },
                }
            } else if i == 8 {
                match textparse::parse_i32(field.as_slice()) {
                    Ok(v) => {
                        traffic_infos.ground_speed = Some(Self::kmh_to_kt(v));
                    },
                    Err(_) => {
                        proof {
                            lemma_ogn_run_err(fs, i + 1, fs.len() as int);
                        }
                        return Err(ParseError::Invalid);
                    },
                }
            } else if i == 9 {
                match textparse::parse_scaled(field.as_slice(), 6) {
                    Ok(v) if -VS_MICRO_MPS_MAX <= v && v <= VS_MICRO_MPS_MAX => {
                        traffic_infos.vertical_speed = Some(Self::mps_to_fpm(v));
                    },
                    _ => {
                        proof {
                            lemma_ogn_run_err(fs, i + 1, fs.len() as int);
                        }
                        return Err(ParseError::Invalid);
                    },
                }
            } else if i == 13 {
                match textparse::parse_hex_u32(field.as_slice()) {
                    Ok(v) => {
                        // Only the 24 least significant bits are kept.
                        traffic_infos.address = v % 0x100_0000;
                        traffic_infos.addr_type = AddressType::Ogn;
                    },
                    Err(_) => {
                        proof {
                            lemma_ogn_run_err(fs, i + 1, fs.len() as int);
                        }
                        return Err(ParseError::Invalid);
                    },
                }
            }
            proof {
                assert(ogn_apply(t0, i as int, fs[i as int]) == Ok::<TrafficRec, ParseError>(
                    traffic_infos@,
                ));
            }
            i = i + 1;
        }
        Ok(traffic_infos)
    }

    /// Meters to feet as [`meter_to_feet_spec`] says.
    pub fn meter_to_feet(meter: i32) -> (r: i32)
        ensures
            r as int == meter_to_feet_spec(meter as int),
    {
        let neg = meter < 0;
        let mag: u64 = if neg {
            (-(meter as i64)) as u64
        } else {
            meter as u64
        };
        let v = mag * 328084 / 100000;
        if neg {
            if v > 0x8000_0000 {
                -0x8000_0000
            } else {
                -(v as i64) as i32
            }
        } else {
            if v > 0x7fff_ffff {
                0x7fff_ffff
            } else {
                v as i32
            }
        }
    }

    /// km/h to knots as [`kmh_to_kt_spec`] says.
    pub fn kmh_to_kt(kmh: i32) -> (r: i32)
        ensures
            r as int == kmh_to_kt_spec(kmh as int),
    {
        let neg = kmh < 0;
        let mag: u64 = if neg {
            (-(kmh as i64)) as u64
        } else {
            kmh as u64
        };
        let v = mag * 539957 / 1000000;
        if neg {
            if v > 0x8000_0000 {
                -0x8000_0000
            } else {
                -(v as i64) as i32
            }
        } else {
            if v > 0x7fff_ffff {
                0x7fff_ffff
            } else {
                v as i32
            }
        }
    }

    /// Micro-m/s to feet per minute as [`mps_to_fpm_spec`] says.
    pub fn mps_to_fpm(micro_mps: i64) -> (r: i32)
        requires
            -VS_MICRO_MPS_MAX <= micro_mps <= VS_MICRO_MPS_MAX,
        ensures
            r as int == mps_to_fpm_spec(micro_mps as int),
    {
        let neg = micro_mps < 0;
        let mag: u64 = if neg {
            (-micro_mps) as u64
        } else {
            micro_mps as u64
        };
        let v = mag * 196850394 / 1_000_000_000_000;
        if neg {
            -(v as i64) as i32
        } else {
            v as i32
        }
    }
}

} // verus!
