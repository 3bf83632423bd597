//! One connected client of the fan-out service.
//!
//! A session remembers the last decoded client position and reassembles the
//! framed position messages the client sends. Traffic records are turned
//! into framed GDL90 frames only for clients whose known position is inside
//! a one-degree square around the record. The socket itself lives with the
//! caller: the caller reads bytes and hands them in, and writes the bytes
//! handed out.

use vstd::prelude::*;
use vstd::slice::slice_subrange;
use crate::wire;
use crate::wire::sbe32;
use crate::dgramostream;
use crate::dgramostream::{RecvDgram, RecvError, RecvState};
use crate::gdl90;
use crate::traffic_infos::TrafficInfos;

verus! {

/// Most bytes a framed client position message may carry.
pub const CLIENT_POSITION_DGRAM_MAX_LEN: u16 = 16;

/// Half-width of the proximity square, in microdegrees.
pub const MAX_DELTA_MICRODEG: i64 = 1_000_000;

/// Client 2D position, in microdegrees.
#[derive(Clone, Copy, Debug, PartialEq, Eq, Structural)]
pub struct Position {
    pub latitude: i32,
    pub longitude: i32,
}

impl Position {
    /// A position a client may advertise.
    pub open spec fn valid(self) -> bool {
        &&& -90_000_000 <= self.latitude <= 90_000_000
        &&& -180_000_000 <= self.longitude <= 180_000_000
    }
}

/// Errors that fail a client session.
#[derive(Clone, Copy, Debug, PartialEq, Eq, Structural)]
pub enum ClientError {
    /// The client closed its stream.
    RemoteClosed,
    /// The client announced a frame above the configured maximum.
    DatagramTooLong,
    /// A complete position message held fewer than 8 bytes.
    MessageTooShort,
    /// The decoded latitude is outside [-90, 90] degrees.
    LatitudeOutOfBounds,
    /// The decoded longitude is outside [-180, 180] degrees.
    LongitudeOutOfBounds,
}

/// The session error a framer error becomes.
pub open spec fn stream_error(e: RecvError) -> ClientError {
    match e {
        RecvError::RemoteClosed => ClientError::RemoteClosed,
        RecvError::DatagramTooLong => ClientError::DatagramTooLong,
    }
}

/// Meaning of a complete position message: two signed 32-bit big-endian
/// integers, latitude then longitude, in microdegrees; out-of-range values
/// are rejected; bytes beyond the first 8 are ignored.
pub open spec fn parse_position_spec(msg: Seq<u8>) -> Result<Position, ClientError> {
    if msg.len() < 8 {
        Err(ClientError::MessageTooShort)
    } else {
        let lat = sbe32(msg.subrange(0, 4));
        let lon = sbe32(msg.subrange(4, 8));
        if !(-90_000_000 <= lat <= 90_000_000) {
            Err(ClientError::LatitudeOutOfBounds)
        } else if !(-180_000_000 <= lon <= 180_000_000) {
            Err(ClientError::LongitudeOutOfBounds)
        } else {
            Ok(Position { latitude: lat as i32, longitude: lon as i32 })
        }
    }
}

/// Whether a record is close to a known client position: inside the open
/// one-degree square centered on it. An unknown position is never close.
pub open spec fn traffic_close_spec(t: TrafficInfos, pos: Option<Position>) -> bool {
    match pos {
        None => false,
        Some(p) => {
            &&& abs_int(t.latitude - p.latitude) < MAX_DELTA_MICRODEG
            &&& abs_int(t.longitude - p.longitude) < MAX_DELTA_MICRODEG
        },
    }
}

/// Absolute value.
pub open spec fn abs_int(a: int) -> int {
    if a >= 0 {
        a
    } else {
        -a
    }
}

/// The framed GDL90 traffic report for a record, as written to a client's
/// stream: the stuffed frame behind a 2-byte length header.
pub open spec fn traffic_dgram(t: TrafficInfos) -> Seq<u8> {
    dgramostream::encode_dgram(gdl90::stuffed(gdl90::report_frame(t)))
}

/// One connected client session.
pub struct Client {
    /// Last decoded position, absent until the first position message.
    position: Option<Position>,
    /// Reassembly of the framed position messages.
    recv_dgram: RecvDgram,
}

impl Client {
    /// Last decoded position of the client.
    pub closed spec fn position_spec(&self) -> Option<Position> {
        self.position
    }

    /// Abstract state of the session's receive framer.
    pub closed spec fn framer(&self) -> RecvState {
        self.recv_dgram@
    }

    /// Session invariant: the framer is well formed and configured for
    /// position messages, and any known position is in range.
    pub closed spec fn wf(&self) -> bool {
        &&& self.recv_dgram.wf()
        &&& self.recv_dgram@.wf()
        &&& self.recv_dgram@.max == CLIENT_POSITION_DGRAM_MAX_LEN as int
        &&& match self.position {
            Some(p) => p.valid(),
            None => true,
        }
    }

    /// Creation of a new client session. The caller configures the accepted
    /// socket (keepalive, user timeout, non-blocking mode) and keeps it.
    pub fn new() -> (r: Client)
        ensures
            r.wf(),
            r.position_spec() is None,
            r.framer() == dgramostream::fresh_state(CLIENT_POSITION_DGRAM_MAX_LEN as int),
    {
        let recv_dgram = RecvDgram::new(CLIENT_POSITION_DGRAM_MAX_LEN);
        proof {
            recv_dgram.lemma_wf_view();
        }
        Client { position: None, recv_dgram }
    }

    /// Most bytes the caller should read from the client's socket for the
    /// current frame.
    pub fn recv_needed(&self) -> (r: usize)
        requires
            self.wf(),
        ensures
            r as int == self.framer().needed(),
    {
        self.recv_dgram.needed()
    }

    /// Consumes bytes read from the client's socket; when they complete a
    /// framed position message, parses it and updates the session position.
    /// Any error must fail the session.
    pub fn recv_position(&mut self, data: &[u8]) -> (r: Result<Option<Position>, ClientError>)
        requires
            old(self).wf(),
            data@.len() <= old(self).framer().needed(),
        ensures
            final(self).wf(),
            final(self).framer() == dgramostream::recv_transition(old(self).framer(), data@).0,
            ({
                let out = dgramostream::recv_transition(old(self).framer(), data@).1;
                match out {
                    Err(e) => r == Err::<Option<Position>, ClientError>(stream_error(e))
                        && final(self).position_spec() == old(self).position_spec(),
                    Ok(None) => r == Ok::<Option<Position>, ClientError>(None)
                        && final(self).position_spec() == old(self).position_spec(),
                    Ok(Some(d)) => match parse_position_spec(d) {
                        Ok(p) => r == Ok::<Option<Position>, ClientError>(Some(p))
                            && final(self).position_spec() == Some(p),
                        Err(e) => r == Err::<Option<Position>, ClientError>(e)
                            && final(self).position_spec() == old(self).position_spec(),
                    },
                }
            }),
    {
        match self.recv_dgram.recv(data) {
            Err(RecvError::RemoteClosed) => Err(ClientError::RemoteClosed),
            Err(RecvError::DatagramTooLong) => Err(ClientError::DatagramTooLong),
            Ok(None) => Ok(None),
            Ok(Some(dgram)) => {
                // The datagram is complete: parse it.
                match Self::parse_client_position_msg(dgram.as_slice()) {
                    Ok(position) => {
                        self.position = Some(position);
                        Ok(Some(position))
                    },
                    Err(e) => Err(e),
                }
            },
        }
    }

    /// Turns a record into the framed GDL90 bytes for this client, but only
    /// if the client is known to be nearby; the caller writes them in full.
    pub fn send_traffic(&self, traffic_infos: &TrafficInfos) -> (r: Option<Vec<u8>>)
        requires
            self.wf(),
        ensures
            r is Some <==> traffic_close_spec(*traffic_infos, self.position_spec()),
            r matches Some(v) ==> v@ == traffic_dgram(*traffic_infos),
            self.position_spec() is None ==> r is None,
    {
        if !self.traffic_close(traffic_infos) {
            return None;
        }
        // The traffic is close to the client: prepare the GDL90 frame.
        let mut buffer: Vec<u8> = Vec::new();
        let mut i: usize = 0;
        while i < 100
            invariant
                buffer@.len() == i,
                i <= 100,
            decreases 100 - i,
        {
            buffer.push(0);
            i = i + 1;
        }
        proof {
            let f = gdl90::report_frame(*traffic_infos);
            assert(f.len() == 32);
            assert(f.first() == gdl90::FLAG_BYTE);
            assert(f.last() == gdl90::FLAG_BYTE);
            gdl90::lemma_stuffing_flags(f);
        }
        match gdl90::make_traffic_report_message(traffic_infos, &mut buffer) {
            Ok(len) => {
                let frame = slice_subrange(buffer.as_slice(), 0, len);
                match dgramostream::send(frame) {
                    Ok(v) => Some(v),
                    Err(_) => {
                        // A stuffed frame is at most 62 bytes, well below the
                        // 16-bit framing limit.
                        proof {
                            assert(false);
                        }
                        None
                    },
                }
            },
            Err(_) => {
                // A stuffed frame is at most 62 bytes and always fits the
                // 100-byte buffer.
                proof {
                    assert(false);
                }
                None
            },
        }
    }

    /// Parses a complete position message as [`parse_position_spec`] says.
    pub fn parse_client_position_msg(msg: &[u8]) -> (r: Result<Position, ClientError>)
        ensures
            r == parse_position_spec(msg@),
            r matches Ok(p) ==> p.valid(),
    {
        if msg.len() < 8 {
            return Err(ClientError::MessageTooShort);
        }
        let lat = wire::read_sbe32(msg, 0);
        let lon = wire::read_sbe32(msg, 4);
        proof {
            assert(msg@.subrange(0, 4)[0] == msg@[0]);
        }
        if !(-90_000_000 <= lat && lat <= 90_000_000) {
            Err(ClientError::LatitudeOutOfBounds)
        } else if !(-180_000_000 <= lon && lon <= 180_000_000) {
            Err(ClientError::LongitudeOutOfBounds)
        } else {
            Ok(Position { latitude: lat as i32, longitude: lon as i32 })
        }
    }

    /// Whether the record is inside the one-degree square centered on the
    /// client's known position.
    fn traffic_close(&self, traffic_infos: &TrafficInfos) -> (r: bool)
        ensures
            r == traffic_close_spec(*traffic_infos, self.position_spec()),
    {
        match &self.position {
            None => {
                // The client's position is not known: the traffic is not
                // considered close.
                false
            },
            Some(position) => {
                // Traffic must be in a square centered on the client's
                // position to be considered close.
                let dlat = (traffic_infos.latitude as i64) - (position.latitude as i64);
                let dlon = (traffic_infos.longitude as i64) - (position.longitude as i64);
                let alat = if dlat < 0 {
                    -dlat
                } else {
                    dlat
                };
                let alon = if dlon < 0 {
                    -dlon
                } else {
                    dlon
                };
                alat < MAX_DELTA_MICRODEG && alon < MAX_DELTA_MICRODEG
            },
        }
    }
}

} // verus!
