//! Parsing of ADSBHub traffic in SBS formatting.
//!
//! The feed is a TCP stream of newline-terminated `MSG` lines with
//! comma-separated fields. One aircraft needs a three-message sequence in
//! order: type 1 (identification), type 3 (airborne position), type 4
//! (airborne velocity); a complete sequence yields one record, and any
//! deviation fails the parse, upon which the caller drops the connection
//! and starts over with a fresh parser. The caller owns the socket: it
//! pushes the bytes it read and takes complete lines back.

use vstd::prelude::*;
use crate::gdl90::clamp_int;
use crate::textparse;
use crate::textparse::{ParseError, all_digits, all_hex_digits, dec_val, hex_val, int_text_ok,
    int_text_val, scaled_parse_ok, scaled_val, split_fields};
use crate::traffic_infos::{AddressType, TrafficInfos, TrafficRec, default_rec};

verus! {

/// Most bytes one SBS message may span.
pub const SBS_RX_BUF_MAX: usize = 100_000;

/// Subtypes of SBS MSG messages.
pub const SBS_MSG_TYPE_NONE: u32 = 0;

pub const SBS_MSG_TYPE_ES_IDENTIFICATION_AND_CATEGORY: u32 = 1;

pub const SBS_MSG_TYPE_ES_AIRBORNE_POSITION_MESSAGE: u32 = 3;

pub const SBS_MSG_TYPE_ES_AIRBORNE_VELOCITY_MESSAGE: u32 = 4;

/// Number of fields of a complete SBS MSG message.
pub const SBS_MSG_FIELD_NB: usize = 22;

/// Parse state between messages: the record being assembled and the
/// position in the three-message sequence.
pub ghost struct SbsParse {
    pub rec: TrafficRec,
    pub last_message_type: int,
    pub last_hex_ident: int,
}

/// The state a fresh parser starts from.
pub open spec fn sbs_start() -> SbsParse {
    SbsParse { rec: default_rec(), last_message_type: 0, last_hex_ident: 0 }
}

/// Effect of field `i` of an SBS message on the parse state.
/// The header checks the `MSG` marker, the message-type sequence and the
/// hexadecimal identifier; the body fields depend on the message type.
pub open spec fn sbs_apply(st: SbsParse, i: int, f: Seq<u8>) -> Result<SbsParse, ParseError> {
    if i == 0 {
        // The first field is constant.
        if f == seq![0x4du8, 0x53u8, 0x47u8] {
            Ok(st)
        } else {
            Err(ParseError::Invalid)
        }
    } else if i == 1 {
        // The sequence of message types: 1, then 3, then 4.
        if !(f.len() >= 1 && all_digits(f) && dec_val(f) < 0x1_0000_0000) {
            Err(ParseError::Invalid)
        } else {
            let ty = dec_val(f);
            if ty == 1 {
                if st.last_message_type == 0 || st.last_message_type == 4 {
                    Ok(SbsParse { rec: default_rec(), last_message_type: 1, ..st })
                } else {
                    Err(ParseError::Invalid)
                }
            } else if ty == 3 {
                if st.last_message_type == 1 {
                    Ok(SbsParse { last_message_type: 3, ..st })
                } else {
                    Err(ParseError::Invalid)
                }
            } else if ty == 4 {
                if st.last_message_type == 3 {
                    Ok(SbsParse { last_message_type: 4, ..st })
                } else {
                    Err(ParseError::Invalid)
                }
            } else {
                Err(ParseError::Invalid)
            }
        }
    } else if i == 4 {
        // The hexadecimal identifier of the mode S transponder: new at the
        // start of a sequence, identical within it, 24 bits.
        if !(f.len() >= 1 && all_hex_digits(f) && hex_val(f) < 0x1_0000_0000) {
            Err(ParseError::Invalid)
        } else {
            let h = hex_val(f);
            if st.last_message_type == 1 {
                if h != st.last_hex_ident {
                    Ok(SbsParse { last_hex_ident: h, ..st })
                } else {
                    Err(ParseError::Invalid)
                }
            } else {
                if h == st.last_hex_ident && h < 0x100_0000 {
                    Ok(
                        SbsParse {
                            rec: TrafficRec {
                                addr_type: AddressType::AdsbIcao,
                                address: h,
                                ..st.rec
                            },
                            ..st
                        },
                    )
                } else {
                    Err(ParseError::Invalid)
                }
            }
        }
    } else if i < 10 {
        // The other header fields are not used and are considered valid.
        Ok(st)
    } else if st.last_message_type == 1 {
        if i == 10 {
            // The callsign must not be empty.
            if 1 <= f.len() <= 255 {
                Ok(SbsParse { rec: TrafficRec { callsign: f, ..st.rec }, ..st })
            } else {
                Err(ParseError::Invalid)
            }
        } else {
            Ok(st)
        }
    } else if st.last_message_type == 3 {
        if i == 11 {
            if int_text_ok(f) && -0x8000_0000 <= int_text_val(f) < 0x8000_0000 {
                Ok(SbsParse { rec: TrafficRec { altitude: int_text_val(f), ..st.rec }, ..st })
            } else {
                Err(ParseError::Invalid)
            }
        } else if i == 14 {
            if scaled_parse_ok(f) && -90_000_000 <= scaled_val(f, 6) <= 90_000_000 {
                Ok(SbsParse { rec: TrafficRec { latitude: scaled_val(f, 6), ..st.rec }, ..st })
            } else {
                Err(ParseError::Invalid)
            }
        } else if i == 15 {
            if scaled_parse_ok(f) && -180_000_000 <= scaled_val(f, 6) <= 180_000_000 {
                Ok(SbsParse { rec: TrafficRec { longitude: scaled_val(f, 6), ..st.rec }, ..st })
            } else {
                Err(ParseError::Invalid)
            }
        } else {
            Ok(st)
        }
    } else if st.last_message_type == 4 {
        if i == 12 {
            // Ground speed in knots; an empty field stays absent.
            if f.len() == 0 {
                Ok(SbsParse { rec: TrafficRec { ground_speed: None, ..st.rec }, ..st })
            } else if scaled_parse_ok(f) {
                let v = clamp_int(scaled_val(f, 0), -0x8000_0000, 0x7fff_ffff);
                Ok(SbsParse { rec: TrafficRec { ground_speed: Some(v), ..st.rec }, ..st })
            } else {
                Err(ParseError::Invalid)
            }
        } else if i == 13 {
            // Track in degrees, within [0, 360]; an empty field stays absent.
            if f.len() == 0 {
                Ok(SbsParse { rec: TrafficRec { track: None, ..st.rec }, ..st })
            } else if scaled_parse_ok(f) && 0 <= scaled_val(f, 6) <= 360_000_000 {
                Ok(
                    SbsParse {
                        rec: TrafficRec { track: Some(scaled_val(f, 6) / 1_000_000), ..st.rec },
                        ..st
                    },
                )
            } else {
                Err(ParseError::Invalid)
            }
        } else if i == 16 {
            // Vertical rate in feet per minute; an empty field stays absent.
            if f.len() == 0 {
                Ok(SbsParse { rec: TrafficRec { vertical_speed: None, ..st.rec }, ..st })
            } else if int_text_ok(f) && -0x8000_0000 <= int_text_val(f) < 0x8000_0000 {
                Ok(
                    SbsParse {
                        rec: TrafficRec { vertical_speed: Some(int_text_val(f)), ..st.rec },
                        ..st
                    },
                )
            } else {
                Err(ParseError::Invalid)
            }
        } else {
            Ok(st)
        }
    } else {
        // A body field without a started sequence.
        Err(ParseError::Invalid)
    }
}

/// The parse state after the first `k` fields of a message were applied.
pub open spec fn sbs_run(st: SbsParse, fs: Seq<Seq<u8>>, k: int) -> Result<SbsParse, ParseError>
    decreases k,
{
    if k <= 0 {
        Ok(st)
    } else {
        match sbs_run(st, fs, k - 1) {
            Err(e) => Err(e),
            Ok(st2) => sbs_apply(st2, k - 1, fs[k - 1]),
        }
    }
}

/// The meaning of one SBS message on a parse state: the new state and, when
/// the message completes a sequence, the finished record. A message with
/// the wrong number of fields, or any bad field, fails the parse.
pub open spec fn parse_message_spec(st: SbsParse, msg: Seq<u8>) -> Result<
    (SbsParse, Option<TrafficRec>),
    ParseError,
> {
    let fs = split_fields(msg);
    match sbs_run(st, fs, fs.len() as int) {
        Err(e) => Err(e),
        Ok(st2) => {
            if fs.len() != SBS_MSG_FIELD_NB as int {
                Err(ParseError::Invalid)
            } else if st2.last_message_type == 4 {
                Ok((st2, Some(st2.rec)))
            } else {
                Ok((st2, None))
            }
        },
    }
}

/// A failed field fails the whole message.
proof fn lemma_sbs_run_err(st: SbsParse, fs: Seq<Seq<u8>>, k: int, n: int)
    requires
        0 <= k <= n,
        sbs_run(st, fs, k) is Err,
    ensures
        sbs_run(st, fs, n) is Err,
    decreases n,
{
    if n > k {
        lemma_sbs_run_err(st, fs, k, n - 1);
    }
}

/// Reception of ADSBHub traffic: the reassembly of SBS lines and the parse
/// of the message sequence. The caller owns the socket and the bus sender:
/// it pushes what it read, takes complete messages, parses each, and
/// publishes the finished records.
pub struct SrcAdsbhub {
    rx_buf: Vec<u8>,
    traffic_infos: TrafficInfos,
    last_message_type: u32,
    last_hex_ident: u32,
}

impl SrcAdsbhub {
    /// Bytes received and not yet taken as a message.
    pub closed spec fn buffered(&self) -> Seq<u8> {
        self.rx_buf@
    }

    /// The parse state between messages.
    pub closed spec fn parse_state(&self) -> SbsParse {
        SbsParse {
            rec: self.traffic_infos@,
            last_message_type: self.last_message_type as int,
            last_hex_ident: self.last_hex_ident as int,
        }
    }

    /// Parser invariant: the record under assembly stays in range.
    pub closed spec fn wf(&self) -> bool {
        self.traffic_infos.valid()
    }

    /// A fresh parser: an empty buffer and no sequence under way.
    pub fn new() -> (r: SrcAdsbhub)
        ensures
            r.wf(),
            r.buffered() == Seq::<u8>::empty(),
            r.parse_state() == sbs_start(),
    {
        SrcAdsbhub {
            rx_buf: Vec::new(),
            traffic_infos: TrafficInfos::default(),
            last_message_type: SBS_MSG_TYPE_NONE,
            last_hex_ident: 0,
        }
    }

    /// Stores bytes read from the feed's socket; refused when a single
    /// message would outgrow the buffer, which fails the connection.
    #[verifier::loop_isolation(false)]
    pub fn push_bytes(&mut self, data: &[u8]) -> (r: Result<(), ParseError>)
        requires
            old(self).wf(),
        ensures
            final(self).wf(),
            final(self).parse_state() == old(self).parse_state(),
            r is Ok <==> old(self).buffered().len() + data@.len() <= SBS_RX_BUF_MAX as int,
            r is Ok ==> final(self).buffered() == old(self).buffered() + data@,
            r is Err ==> final(self).buffered() == old(self).buffered(),
    {
        if data.len() > SBS_RX_BUF_MAX || self.rx_buf.len() > SBS_RX_BUF_MAX - data.len() {
            return Err(ParseError::Invalid);
        }
        let mut j: usize = 0;
        while j < data.len()
            invariant
                j <= data@.len(),
                self.rx_buf@ == old(self).rx_buf@ + data@.take(j as int),
                self.traffic_infos == old(self).traffic_infos,
                self.last_message_type == old(self).last_message_type,
                self.last_hex_ident == old(self).last_hex_ident,
            decreases data@.len() - j,
        {
            self.rx_buf.push(data[j]);
            proof {
                assert(self.rx_buf@ =~= old(self).rx_buf@ + data@.take(j + 1));
            }
            j = j + 1;
        }
        proof {
            assert(old(self).rx_buf@ + data@.take(data@.len() as int) =~= old(self).rx_buf@
                + data@);
        }
        Ok(())
    }

    /// Takes the next newline-terminated message out of the buffer, without
    /// its newline; nothing until a full line is in.
    #[verifier::loop_isolation(false)]
    pub fn get_message(&mut self) -> (r: Option<Vec<u8>>)
        requires
            old(self).wf(),
        ensures
            final(self).wf(),
            final(self).parse_state() == old(self).parse_state(),
            r is None ==> final(self).buffered() == old(self).buffered() && forall|j: int|
                0 <= j < old(self).buffered().len() ==> old(self).buffered()[j] != 0x0a,
            r matches Some(m) ==> exists|k: int|
                {
                    &&& 0 <= k < old(self).buffered().len()
                    &&& old(self).buffered()[k] == 0x0a
                    &&& (forall|j: int| 0 <= j < k ==> old(self).buffered()[j] != 0x0a)
                    &&& m@ == old(self).buffered().take(k)
                    &&& final(self).buffered() == old(self).buffered().skip(k + 1)
                },
    {
        // Look for the end of the next SBS message.
        let mut k: usize = 0;
        let mut found = false;
        while k < self.rx_buf.len() && !found
            invariant
                k <= self.rx_buf@.len(),
                found ==> k < self.rx_buf@.len() && self.rx_buf@[k as int] == 0x0a,
                forall|j: int| 0 <= j < k ==> self.rx_buf@[j] != 0x0a,
            decreases self.rx_buf@.len() - k + (if found {
                0int
            } else {
                1int
            }),
        {
            if self.rx_buf[k] == 0x0a {
                found = true;
            } else {
                k = k + 1;
            }
        }
        if !found {
            return None;
        }
        // Copy the message out and drop it, with its newline, from the
        // buffer.
        let mut msg: Vec<u8> = Vec::new();
        let mut j: usize = 0;
        while j < k
            invariant
                j <= k < self.rx_buf@.len(),
                msg@ == self.rx_buf@.take(j as int),
                self.rx_buf@ == old(self).rx_buf@,
                self.traffic_infos == old(self).traffic_infos,
                self.last_message_type == old(self).last_message_type,
                self.last_hex_ident == old(self).last_hex_ident,
            decreases k - j,
        {
            msg.push(self.rx_buf[j]);
            proof {
                assert(msg@ =~= self.rx_buf@.take(j + 1));
            }
            j = j + 1;
        }
        let mut rest: Vec<u8> = Vec::new();
        let mut p: usize = k + 1;
        while p < self.rx_buf.len()
            invariant
                k + 1 <= p <= self.rx_buf@.len(),
                rest@ == self.rx_buf@.subrange(k + 1, p as int),
                self.rx_buf@ == old(self).rx_buf@,
                msg@ == self.rx_buf@.take(k as int),
                k < self.rx_buf@.len(),
                self.traffic_infos == old(self).traffic_infos,
                self.last_message_type == old(self).last_message_type,
                self.last_hex_ident == old(self).last_hex_ident,
            decreases self.rx_buf@.len() - p,
        {
            rest.push(self.rx_buf[p]);
            proof {
                assert(rest@ =~= self.rx_buf@.subrange(k + 1, p + 1));
            }
            p = p + 1;
        }
        proof {
            assert(rest@ =~= old(self).rx_buf@.skip(k + 1));
        }
        self.rx_buf = rest;
        proof {
            assert(old(self).buffered()[k as int] == 0x0a);
            assert(msg@ == old(self).buffered().take(k as int));
            assert(self.buffered() == old(self).buffered().skip(k + 1));
        }
        Some(msg)
    }

    /// Parses one SBS message as [`parse_message_spec`] says: `Some` with
    /// the finished record when it completes a sequence, `None` when more
    /// messages are needed, an error when the feed deviates, upon which the
    /// caller starts over with a fresh parser.
    #[verifier::loop_isolation(false)]
    pub fn parse_message(&mut self, message: &[u8]) -> (r: Result<Option<TrafficInfos>, ParseError>)
        requires
            old(self).wf(),
            message@.len() < usize::MAX,
        ensures
            final(self).wf(),
            final(self).buffered() == old(self).buffered(),
            r is Err <==> parse_message_spec(old(self).parse_state(), message@) is Err,
            r matches Ok(opt) ==> (parse_message_spec(old(self).parse_state(), message@) matches
                Ok((st2, orec)) && final(self).parse_state() == st2 && match opt {
                None => orec is None,
                Some(t) => orec == Some(t@) && t.valid() && t@ == st2.rec,
            }),
    {
        let ghost st0 = old(self).parse_state();
        let ghost fs = split_fields(message@);
        let fields = textparse::split_fields_vec(message);
        let mut i: usize = 0;
        while i < fields.len()
            invariant
                i <= fields@.len(),
                fields@.len() == fs.len(),
                forall|k: int| 0 <= k < fs.len() ==> (#[trigger] fields@[k])@ == fs[k],
                sbs_run(st0, fs, i as int) == Ok::<SbsParse, ParseError>(self.parse_state()),
                self.wf(),
                self.rx_buf@ == old(self).rx_buf@,
            decreases fields@.len() - i,
        {
            let ghost stp = self.parse_state();
            let field = &fields[i];
            let res = if i < 10 {
                // Field of the message header.
                self.parse_message_header_field(i, field.as_slice())
            } else if self.last_message_type == SBS_MSG_TYPE_ES_IDENTIFICATION_AND_CATEGORY {
                self.parse_message1_body_field(i, field.as_slice())
            } else if self.last_message_type == SBS_MSG_TYPE_ES_AIRBORNE_POSITION_MESSAGE {
                self.parse_message3_body_field(i, field.as_slice())
            } else if self.last_message_type == SBS_MSG_TYPE_ES_AIRBORNE_VELOCITY_MESSAGE {
                self.parse_message4_body_field(i, field.as_slice())
            } else {
                Err(ParseError::Invalid)
            };
            match res {
                Ok(()) => {},
                Err(e) => {
                    proof {
                        lemma_sbs_run_err(st0, fs, i + 1, fs.len() as int);
                    }
                    return Err(e);
                },
            }
            i = i + 1;
        }
        if fields.len() != SBS_MSG_FIELD_NB {
            return Err(ParseError::Invalid);
        }
        // If this was the last message of the sequence, the record is done.
        if self.last_message_type == SBS_MSG_TYPE_ES_AIRBORNE_VELOCITY_MESSAGE {
            Ok(Some(self.traffic_infos.clone_record()))
        } else {
            Ok(None)
        }
    }

    /// One header field: the marker, the type sequence, the identifier.
    fn parse_message_header_field(&mut self, field_position: usize, field: &[u8]) -> (r: Result<
        (),
        ParseError,
    >)
        requires
            old(self).wf(),
            field_position < 10,
        ensures
            final(self).wf(),
            final(self).buffered() == old(self).buffered(),
            match r {
                Ok(()) => sbs_apply(old(self).parse_state(), field_position as int, field@)
                    == Ok::<SbsParse, ParseError>(final(self).parse_state()),
                Err(e) => sbs_apply(old(self).parse_state(), field_position as int, field@)
                    is Err,
            },
    {
        if field_position == 0 {
            // The first field is constant.
            if !(field.len() == 3 && field[0] == 0x4d && field[1] == 0x53 && field[2] == 0x47) {
                proof {
                    if field@.len() == 3 {
                        assert(field@ =~= seq![field@[0], field@[1], field@[2]]);
                    }
                }
                return Err(ParseError::Invalid);
            }
            proof {
                assert(field@ =~= seq![0x4du8, 0x53u8, 0x47u8]);
            }
            Ok(())
        } else if field_position == 1 {
            // The sequence of message types.
            let ty = match textparse::parse_u32(field) {
                Ok(v) => v,
                Err(e) => {
                    return Err(e);
                },
            };
            if ty == SBS_MSG_TYPE_ES_IDENTIFICATION_AND_CATEGORY {
                if self.last_message_type == SBS_MSG_TYPE_NONE || self.last_message_type
                    == SBS_MSG_TYPE_ES_AIRBORNE_VELOCITY_MESSAGE {
                    // First message of a sequence: reset the record.
                    self.traffic_infos = TrafficInfos::default();
                    self.last_message_type = ty;
                    Ok(())
                } else {
                    Err(ParseError::Invalid)
                }
            } else if ty == SBS_MSG_TYPE_ES_AIRBORNE_POSITION_MESSAGE {
                if self.last_message_type == SBS_MSG_TYPE_ES_IDENTIFICATION_AND_CATEGORY {
                    self.last_message_type = ty;
                    Ok(())
                } else {
                    Err(ParseError::Invalid)
                }
            } else if ty == SBS_MSG_TYPE_ES_AIRBORNE_VELOCITY_MESSAGE {
                if self.last_message_type == SBS_MSG_TYPE_ES_AIRBORNE_POSITION_MESSAGE {
                    self.last_message_type = ty;
                    Ok(())
                } else {
                    Err(ParseError::Invalid)
                }
            } else {
                Err(ParseError::Invalid)
            }
        } else if field_position == 4 {
            // The hexadecimal identifier of the mode S transponder.
            let h = match textparse::parse_hex_u32(field) {
                Ok(v) => v,
                Err(e) => {
                    return Err(e);
                },
            };
            if self.last_message_type == SBS_MSG_TYPE_ES_IDENTIFICATION_AND_CATEGORY {
                // At the start of a sequence the identifier must be new.
                if h == self.last_hex_ident {
                    return Err(ParseError::Invalid);
                }
                self.last_hex_ident = h;
                Ok(())
            } else {
                // Later in the sequence it must not change, and must fit
                // the record's 24-bit address.
                if h != self.last_hex_ident || h >= 0x100_0000 {
                    return Err(ParseError::Invalid);
                }
                self.traffic_infos.addr_type = AddressType::AdsbIcao;
                self.traffic_infos.address = h;
                self.last_hex_ident = h;
                Ok(())
            }
        } else {
            // The other header fields are not used and are considered valid.
            Ok(())
        }
    }

    /// One body field of a type-1 message: the callsign.
    fn parse_message1_body_field(&mut self, field_position: usize, field: &[u8]) -> (r: Result<
        (),
        ParseError,
    >)
        requires
            old(self).wf(),
            field_position >= 10,
            old(self).parse_state().last_message_type == 1,
        ensures
            final(self).wf(),
            final(self).buffered() == old(self).buffered(),
            match r {
                Ok(()) => sbs_apply(old(self).parse_state(), field_position as int, field@)
                    == Ok::<SbsParse, ParseError>(final(self).parse_state()),
                Err(e) => sbs_apply(old(self).parse_state(), field_position as int, field@)
                    is Err,
            },
    {
        if field_position == 10 {
            if field.len() == 0 || field.len() > 255 {
                return Err(ParseError::Invalid);
            }
            let mut cs: Vec<u8> = Vec::new();
            let mut j: usize = 0;
            while j < field.len()
                invariant
                    j <= field@.len(),
                    cs@ == field@.take(j as int),
                decreases field@.len() - j,
            {
                cs.push(field[j]);
                proof {
                    assert(cs@ =~= field@.take(j + 1));
                }
                j = j + 1;
            }
            proof {
                assert(field@.take(field@.len() as int) =~= field@);
            }
            self.traffic_infos.callsign = cs;
        }
        Ok(())
    }

    /// One body field of a type-3 message: altitude, latitude, longitude.
    fn parse_message3_body_field(&mut self, field_position: usize, field: &[u8]) -> (r: Result<
        (),
        ParseError,
    >)
        requires
            old(self).wf(),
            field_position >= 10,
            old(self).parse_state().last_message_type == 3,
        ensures
            final(self).wf(),
            final(self).buffered() == old(self).buffered(),
            match r {
                Ok(()) => sbs_apply(old(self).parse_state(), field_position as int, field@)
                    == Ok::<SbsParse, ParseError>(final(self).parse_state()),
                Err(e) => sbs_apply(old(self).parse_state(), field_position as int, field@)
                    is Err,
            },
    {
        if field_position == 11 {
            match textparse::parse_i32(field) {
                Ok(v) => {
                    self.traffic_infos.altitude = v;
                    Ok(())
                },
                Err(e) => Err(e),
            }
        } else if field_position == 14 {
            match textparse::parse_scaled(field, 6) {
                Ok(v) => {
                    if -90_000_000 <= v && v <= 90_000_000 {
                        self.traffic_infos.latitude = v as i32;
                        Ok(())
                    } else {
                        Err(ParseError::Invalid)
                    }
                },
                Err(_) => Err(ParseError::Invalid),
            }
        } else if field_position == 15 {
            match textparse::parse_scaled(field, 6) {
                Ok(v) => {
                    if -180_000_000 <= v && v <= 180_000_000 {
                        self.traffic_infos.longitude = v as i32;
                        Ok(())
                    } else {
                        Err(ParseError::Invalid)
                    }
                },
                Err(_) => Err(ParseError::Invalid),
            }
        } else {
            Ok(())
        }
    }

    /// One body field of a type-4 message: ground speed, track, vertical
    /// rate; an empty optional field stays absent on the record.
    fn parse_message4_body_field(&mut self, field_position: usize, field: &[u8]) -> (r: Result<
        (),
        ParseError,
    >)
        requires
            old(self).wf(),
            field_position >= 10,
            old(self).parse_state().last_message_type == 4,
        ensures
            final(self).wf(),
            final(self).buffered() == old(self).buffered(),
            match r {
                Ok(()) => sbs_apply(old(self).parse_state(), field_position as int, field@)
                    == Ok::<SbsParse, ParseError>(final(self).parse_state()),
                Err(e) => sbs_apply(old(self).parse_state(), field_position as int, field@)
                    is Err,
            },
    {
        if field_position == 12 {
            if field.len() == 0 {
                self.traffic_infos.ground_speed = None;
                return Ok(());
            }
            match textparse::parse_scaled(field, 0) {
                Ok(v) => {
                    let s: i32 = if v < -0x8000_0000 {
                        -0x8000_0000
                    } else if v > 0x7fff_ffff {
                        0x7fff_ffff
                    } else {
                        v as i32
                    };
                    self.traffic_infos.ground_speed = Some(s);
                    Ok(())
                },
                Err(e) => Err(e),
            }
        } else if field_position == 13 {
            if field.len() == 0 {
                self.traffic_infos.track = None;
                return Ok(());
            }
            match textparse::parse_scaled(field, 6) {
                Ok(v) => {
                    if 0 <= v && v <= 360_000_000 {
                        self.traffic_infos.track = Some(((v as u64) / 1_000_000) as u32);
                        Ok(())
                    } else {
                        Err(ParseError::Invalid)
                    }
                },
                Err(_) => Err(ParseError::Invalid),
            }
        } else if field_position == 16 {
            if field.len() == 0 {
                self.traffic_infos.vertical_speed = None;
                return Ok(());
            }
            match textparse::parse_i32(field) {
                Ok(v) => {
                    self.traffic_infos.vertical_speed = Some(v);
                    Ok(())
                },
                Err(e) => Err(e),
            }
        } else {
            Ok(())
        }
    }
}

} // verus!
