//! Datagram over stream: sending and receiving datagrams over a TCP-like
//! byte stream. A header holding the size of the datagram in 16-bit big
//! endian is inserted in front of each datagram to allow its reception in
//! stream mode.
//!
//! The library computes and consumes bytes; the caller moves them over the
//! socket. [`send`] builds the exact byte sequence to write in full.
//! [`RecvDgram`] rebuilds a datagram from the chunks the caller read: before
//! each read the caller asks [`RecvDgram::needed`] for the most bytes the
//! current frame still needs, reads at most that many, and hands them to
//! [`RecvDgram::recv`], so no byte of a following frame is ever consumed.

use vstd::prelude::*;

verus! {

/// Error of [`send`].
#[derive(Clone, Copy, Debug, PartialEq, Eq, Structural)]
pub enum SendError {
    /// The payload does not fit the 16-bit length header.
    PayloadTooLong,
}

/// Errors of [`RecvDgram::recv`].
#[derive(Clone, Copy, Debug, PartialEq, Eq, Structural)]
pub enum RecvError {
    /// The remote side closed the stream in the middle of a frame.
    RemoteClosed,
    /// The header announces a datagram longer than the configured maximum.
    DatagramTooLong,
}

/// The length-prefixed encoding of one datagram.
pub open spec fn encode_dgram(b: Seq<u8>) -> Seq<u8>
    recommends
        b.len() <= 65535,
{
    seq![(b.len() as int / 256) as u8, (b.len() as int % 256) as u8] + b
}

/// Builds the framed form of `buf`: a 2-byte big-endian length followed by
/// the payload. The caller must write the returned bytes to the stream in
/// full. Fails when the payload cannot be framed.
#[verifier::loop_isolation(false)]
pub fn send(buf: &[u8]) -> (r: Result<Vec<u8>, SendError>)
    ensures
        r is Ok <==> buf@.len() <= 65535,
        r matches Ok(v) ==> v@ == encode_dgram(buf@),
{
    if buf.len() > 65535 {
        return Err(SendError::PayloadTooLong);
    }
    let mut out: Vec<u8> = Vec::new();
    out.push((buf.len() / 256) as u8);
    out.push((buf.len() % 256) as u8);
    let mut j: usize = 0;
    while j < buf.len()
        invariant
            j <= buf@.len() <= 65535,
            out@.len() == 2 + j,
            out@[0] == (buf@.len() as int / 256) as u8,
            out@[1] == (buf@.len() as int % 256) as u8,
            forall|k: int| 0 <= k < j ==> out@[2 + k] == buf@[k],
        decreases buf@.len() - j,
    {
        out.push(buf[j]);
        j = j + 1;
    }
    proof {
        assert(out@ =~= encode_dgram(buf@));
    }
    Ok(out)
}

/// Abstract state of a [`RecvDgram`]: the configured maximum payload length,
/// the header bytes received so far, the expected payload length once the
/// header is complete, and the payload bytes received so far.
pub ghost struct RecvState {
    pub max: int,
    pub header: Seq<u8>,
    pub expected: Option<int>,
    pub body: Seq<u8>,
}

/// The payload length a complete 2-byte big-endian header announces.
pub open spec fn header_value(h: Seq<u8>) -> int
    recommends
        h.len() == 2,
{
    h[0] * 256 + h[1]
}

impl RecvState {
    /// Well-formed receiver state.
    pub open spec fn wf(self) -> bool {
        &&& self.max >= 0
        &&& self.header.len() <= 2
        &&& match self.expected {
            Some(n) => self.header.len() == 2 && 0 < n <= self.max && self.body.len() < n,
            None => self.body.len() == 0,
        }
    }

    /// Most bytes the current frame still needs; the caller never reads more
    /// than this in one go, so a following frame stays on the stream.
    pub open spec fn needed(self) -> int {
        match self.expected {
            None => 2 - self.header.len(),
            Some(n) => n - self.body.len(),
        }
    }
}

/// The state of a receiver that waits for the start of a frame.
pub open spec fn fresh_state(max: int) -> RecvState {
    RecvState { max: max, header: Seq::empty(), expected: None, body: Seq::empty() }
}

/// One step of the receiver on a chunk of bytes read from the stream:
/// the state after the step and the outcome of the call.
/// An empty chunk is a clean remote close; a header announcing more than
/// `max` fails the frame; a complete payload is returned and the receiver
/// resets; anything else is one more pending step.
pub open spec fn recv_transition(s: RecvState, data: Seq<u8>) -> (RecvState, Result<
    Option<Seq<u8>>,
    RecvError,
>)
    recommends
        s.wf(),
        data.len() <= s.needed(),
{
    if data.len() == 0 {
        (s, Err(RecvError::RemoteClosed))
    } else if s.expected is None {
        let h = s.header + data;
        if h.len() < 2 {
            (RecvState { max: s.max, header: h, expected: None, body: Seq::empty() }, Ok(None))
        } else {
            let n = header_value(h);
            if n > s.max {
                (
                    RecvState { max: s.max, header: h, expected: None, body: Seq::empty() },
                    Err(RecvError::DatagramTooLong),
                )
            } else if n == 0 {
                (fresh_state(s.max), Ok(Some(Seq::empty())))
            } else {
                (
                    RecvState { max: s.max, header: h, expected: Some(n), body: Seq::empty() },
                    Ok(None),
                )
            }
        }
    } else {
        let n = s.expected->Some_0;
        let b = s.body + data;
        if b.len() >= n {
            (fresh_state(s.max), Ok(Some(b)))
        } else {
            (RecvState { max: s.max, header: s.header, expected: s.expected, body: b }, Ok(None))
        }
    }
}

/// Allows the reconstruction of a datagram from the bytes read off a stream.
pub struct RecvDgram {
    datagram: Vec<u8>,
    datagram_cur_len: usize,
    expected_len: Option<usize>,
    header_buf: Vec<u8>,
    header_buf_cur_len: usize,
}

impl View for RecvDgram {
    type V = RecvState;

    closed spec fn view(&self) -> RecvState {
        RecvState {
            max: self.datagram@.len() as int,
            header: self.header_buf@.take(self.header_buf_cur_len as int),
            expected: match self.expected_len {
                Some(n) => Some(n as int),
                None => None,
            },
            body: self.datagram@.take(self.datagram_cur_len as int),
        }
    }
}

impl RecvDgram {
    /// Representation invariant of the receiver.
    pub closed spec fn wf(&self) -> bool {
        &&& self.header_buf@.len() == 2
        &&& self.header_buf_cur_len <= 2
        &&& self.datagram_cur_len <= self.datagram@.len()
        &&& match self.expected_len {
            Some(n) => self.header_buf_cur_len == 2 && 0 < n <= self.datagram@.len()
                && self.datagram_cur_len < n,
            None => self.datagram_cur_len == 0,
        }
    }

    /// A well-formed receiver has a well-formed abstract state.
    pub proof fn lemma_wf_view(&self)
        requires
            self.wf(),
        ensures
            self@.wf(),
    {
    }

    /// A new receiver for datagrams of at most `datagram_max_len` bytes.
    #[verifier::loop_isolation(false)]
    pub fn new(datagram_max_len: u16) -> (r: RecvDgram)
        ensures
            r.wf(),
            r@ == fresh_state(datagram_max_len as int),
    {
        let mut datagram: Vec<u8> = Vec::new();
        let mut i: usize = 0;
        while i < datagram_max_len as usize
            invariant
                datagram@.len() == i,
                i <= datagram_max_len as usize,
            decreases datagram_max_len as usize - i,
        {
            datagram.push(0);
            i = i + 1;
        }
        let mut header_buf: Vec<u8> = Vec::new();
        header_buf.push(0);
        header_buf.push(0);
        let r = RecvDgram {
            datagram,
            datagram_cur_len: 0,
            expected_len: None,
            header_buf,
            header_buf_cur_len: 0,
        };
        proof {
            assert(r@.header =~= Seq::<u8>::empty());
            assert(r@.body =~= Seq::<u8>::empty());
        }
        r
    }

    /// Most bytes the current frame still needs from the stream.
    pub fn needed(&self) -> (r: usize)
        requires
            self.wf(),
        ensures
            r as int == self@.needed(),
    {
        match self.expected_len {
            None => 2 - self.header_buf_cur_len,
            Some(n) => n - self.datagram_cur_len,
        }
    }

    /// Deletes a datagram being received; after an error this makes the
    /// receiver ready for a new frame.
    pub fn clear(&mut self)
        requires
            old(self).wf(),
        ensures
            final(self).wf(),
            final(self)@ == fresh_state(old(self)@.max),
    {
        self.expected_len = None;
        self.header_buf_cur_len = 0;
        self.datagram_cur_len = 0;
        proof {
            assert(self@.header =~= Seq::<u8>::empty());
            assert(self@.body =~= Seq::<u8>::empty());
        }
    }

    /// Consumes one chunk of bytes read from the stream and either completes
    /// a datagram, keeps waiting, or fails the frame as [`recv_transition`]
    /// says. After an error the caller must call [`RecvDgram::clear`] before
    /// receiving again.
    #[verifier::loop_isolation(false)]
    pub fn recv(&mut self, data: &[u8]) -> (r: Result<Option<Vec<u8>>, RecvError>)
        requires
            old(self).wf(),
            data@.len() <= old(self)@.needed(),
        ensures
            final(self).wf(),
            final(self)@ == recv_transition(old(self)@, data@).0,
            ({
                let out = recv_transition(old(self)@, data@).1;
                match r {
                    Ok(None) => out == Ok::<Option<Seq<u8>>, RecvError>(None),
                    Ok(Some(v)) => out == Ok::<Option<Seq<u8>>, RecvError>(Some(v@)),
                    Err(e) => out == Err::<Option<Seq<u8>>, RecvError>(e),
                }
            }),
    {
        if data.len() == 0 {
            return Err(RecvError::RemoteClosed);
        }
        match self.expected_len {
            None => {
                // Still receiving the header: the chunk fits what is left of it.
                let cur = self.header_buf_cur_len;
                self.header_buf.set(cur, data[0]);
                if data.len() == 2 {
                    self.header_buf.set(cur + 1, data[1]);
                }
                self.header_buf_cur_len = cur + data.len();
                proof {
                    assert(self@.header =~= old(self)@.header + data@);
                    assert(self@.body =~= Seq::<u8>::empty());
                }
                if self.header_buf_cur_len >= 2 {
                    // Header complete: read the expected size of the datagram.
                    let len = (self.header_buf[0] as usize) * 256 + (self.header_buf[1] as usize);
                    if len > self.datagram.len() {
                        return Err(RecvError::DatagramTooLong);
                    }
                    if len == 0 {
                        // An empty datagram is complete with its header.
                        self.expected_len = None;
                        self.header_buf_cur_len = 0;
                        self.datagram_cur_len = 0;
                        proof {
                            assert(self@.header =~= Seq::<u8>::empty());
                            assert(self@.body =~= Seq::<u8>::empty());
                        }
                        return Ok(Some(Vec::new()));
                    }
                    self.expected_len = Some(len);
                    self.datagram_cur_len = 0;
                    proof {
                        assert(self@.body =~= Seq::<u8>::empty());
                    }
                }
                Ok(None)
            },
            Some(expct_len) => {
                // Header already received: receive the payload, or more of it.
                let cur = self.datagram_cur_len;
                let mut j: usize = 0;
                while j < data.len()
                    invariant
                        j <= data@.len(),
                        cur + data@.len() <= self.datagram@.len(),
                        self.datagram@.len() == old(self).datagram@.len(),
                        forall|k: int| 0 <= k < j ==> self.datagram@[cur + k] == data@[k],
                        forall|k: int|
                            0 <= k < self.datagram@.len() && !(cur <= k < cur + j)
                                ==> self.datagram@[k] == old(self).datagram@[k],
                        self.datagram_cur_len == old(self).datagram_cur_len,
                        self.expected_len == old(self).expected_len,
                        self.header_buf@ == old(self).header_buf@,
                        self.header_buf_cur_len == old(self).header_buf_cur_len,
                    decreases data@.len() - j,
                {
                    self.datagram.set(cur + j, data[j]);
                    j = j + 1;
                }
                self.datagram_cur_len = cur + data.len();
                proof {
                    assert(self@.body =~= old(self)@.body + data@);
                }
                if self.datagram_cur_len >= expct_len {
                    // End of datagram reception: hand the payload out and
                    // reset for the next frame.
                    let mut out: Vec<u8> = Vec::new();
                    let mut k: usize = 0;
                    while k < expct_len
                        invariant
                            k <= expct_len <= self.datagram@.len(),
                            out@.len() == k,
                            forall|q: int| 0 <= q < k ==> out@[q] == self.datagram@[q],
                            self.datagram@.len() == old(self).datagram@.len(),
                            forall|q: int| 0 <= q < data@.len()
                                ==> self.datagram@[cur + q] == data@[q],
                            forall|q: int|
                                0 <= q < self.datagram@.len() && !(cur <= q < cur + data@.len())
                                    ==> self.datagram@[q] == old(self).datagram@[q],
                            self.datagram_cur_len == cur + data@.len(),
                            self.expected_len == old(self).expected_len,
                            self.header_buf@ == old(self).header_buf@,
                            self.header_buf_cur_len == old(self).header_buf_cur_len,
                        decreases expct_len - k,
                    {
                        out.push(self.datagram[k]);
                        k = k + 1;
                    }
                    self.expected_len = None;
                    self.header_buf_cur_len = 0;
                    self.datagram_cur_len = 0;
                    proof {
                        assert(self@.header =~= Seq::<u8>::empty());
                        assert(self@.body =~= Seq::<u8>::empty());
                        assert(out@ =~= old(self)@.body + data@);
                    }
                    Ok(Some(out))
                } else {
                    Ok(None)
                }
            },
        }
    }
}

// --- Laws of the framer ----------------------------------------------------

/// Concatenation of a sequence of chunks.
pub open spec fn concat_chunks(chunks: Seq<Seq<u8>>) -> Seq<u8>
    decreases chunks.len(),
{
    if chunks.len() == 0 {
        Seq::empty()
    } else {
        chunks.first() + concat_chunks(chunks.drop_first())
    }
}

/// The chunk sequences a reader may produce from state `s`: each chunk is
/// non-empty and no larger than what the current frame still needs.
pub open spec fn chunks_ok(s: RecvState, chunks: Seq<Seq<u8>>) -> bool
    decreases chunks.len(),
{
    chunks.len() == 0 || {
        &&& 1 <= chunks.first().len() <= s.needed()
        &&& chunks_ok(recv_transition(s, chunks.first()).0, chunks.drop_first())
    }
}

/// The outcome of each successive receive step over `chunks` from state `s`.
pub open spec fn run_outcomes(s: RecvState, chunks: Seq<Seq<u8>>) -> Seq<
    Result<Option<Seq<u8>>, RecvError>,
>
    decreases chunks.len(),
{
    if chunks.len() == 0 {
        Seq::empty()
    } else {
        seq![recv_transition(s, chunks.first()).1] + run_outcomes(
            recv_transition(s, chunks.first()).0,
            chunks.drop_first(),
        )
    }
}

/// Receiver state once the first `k` bytes of the encoded frame of `b` have
/// been consumed.
pub open spec fn mid_state(max: int, b: Seq<u8>, k: int) -> RecvState
    recommends
        0 <= k < b.len() + 2,
        b.len() <= max,
        b.len() <= 65535,
{
    if k < 2 {
        RecvState {
            max: max,
            header: encode_dgram(b).take(k),
            expected: None,
            body: Seq::empty(),
        }
    } else {
        RecvState {
            max: max,
            header: encode_dgram(b).take(2),
            expected: Some(b.len() as int),
            body: b.take(k - 2),
        }
    }
}

/// One step from a mid-frame state consumes the next slice of the frame:
/// it completes the datagram exactly on the frame's last byte, and is
/// otherwise one more pending step.
proof fn lemma_mid_step(max: int, b: Seq<u8>, k: int, j: int)
    requires
        b.len() <= 65535,
        b.len() <= max,
        0 <= k < j <= b.len() + 2,
        j - k <= mid_state(max, b, k).needed(),
    ensures
        mid_state(max, b, k).wf(),
        j < b.len() + 2 ==> recv_transition(
            mid_state(max, b, k),
            encode_dgram(b).subrange(k, j),
        ) == (mid_state(max, b, j), Ok::<Option<Seq<u8>>, RecvError>(None)),
        j == b.len() + 2 ==> recv_transition(
            mid_state(max, b, k),
            encode_dgram(b).subrange(k, j),
        ) == (fresh_state(max), Ok::<Option<Seq<u8>>, RecvError>(Some(b))),
{
    let s = mid_state(max, b, k);
    let e = encode_dgram(b);
    let data = e.subrange(k, j);
    assert(e.len() == b.len() + 2);
    if k < 2 {
        let h = s.header + data;
        assert(h =~= e.take(j));
        if j < 2 {
            assert(recv_transition(s, data).0 == mid_state(max, b, j));
        } else {
            assert(j == 2);
            assert(h[0] == (b.len() as int / 256) as u8);
            assert(h[1] == (b.len() as int % 256) as u8);
            assert(b.len() as int / 256 * 256 + b.len() as int % 256 == b.len());
            assert(header_value(h) == b.len());
            if b.len() == 0 {
                assert(b =~= Seq::<u8>::empty());
            } else {
                assert(b.take(0) =~= Seq::<u8>::empty());
                assert(recv_transition(s, data).0 == mid_state(max, b, 2));
            }
        }
    } else {
        let n = b.len() as int;
        let bb = s.body + data;
        assert forall|i: int| 0 <= i < bb.len() implies bb[i] == b[i] by {
            if i < k - 2 {
            } else {
                assert(data[i - (k - 2)] == e[2 + i]);
                assert(e[2 + i] == b[i]);
            }
        };
        assert(bb =~= b.take(j - 2));
        if j == b.len() + 2 {
            assert(b.take(j - 2) =~= b);
        } else {
            assert(recv_transition(s, data).0 == mid_state(max, b, j));
        }
    }
}

/// A run that consumes the rest of the frame stays pending until its last
/// chunk, which hands the payload out.
proof fn lemma_run_from(max: int, b: Seq<u8>, k: int, chunks: Seq<Seq<u8>>)
    requires
        b.len() <= 65535,
        b.len() <= max,
        0 <= k < b.len() + 2,
        chunks.len() >= 1,
        chunks_ok(mid_state(max, b, k), chunks),
        concat_chunks(chunks) == encode_dgram(b).subrange(k, b.len() as int + 2),
    ensures
        forall|i: int|
            0 <= i < chunks.len() - 1 ==> run_outcomes(mid_state(max, b, k), chunks)[i]
                == Ok::<Option<Seq<u8>>, RecvError>(None),
        run_outcomes(mid_state(max, b, k), chunks).last() == Ok::<Option<Seq<u8>>, RecvError>(
            Some(b),
        ),
    decreases chunks.len(),
{
    let s = mid_state(max, b, k);
    let c = chunks.first();
    let rest = chunks.drop_first();
    let e = encode_dgram(b);
    let end = b.len() as int + 2;
    let cat = concat_chunks(chunks);
    assert(cat == c + concat_chunks(rest));
    let j = k + c.len() as int;
    assert(j <= end);
    assert forall|i: int| 0 <= i < c.len() implies c[i] == e[k + i] by {
        assert(cat[i] == c[i]);
        assert(cat[i] == e.subrange(k, end)[i]);
    };
    assert(c =~= e.subrange(k, j));
    lemma_mid_step(max, b, k, j);
    if chunks.len() == 1 {
        assert(concat_chunks(rest) =~= Seq::<u8>::empty());
        assert(j == end);
        assert(run_outcomes(recv_transition(s, c).0, rest).len() == 0);
        assert(run_outcomes(s, chunks).len() == 1);
        assert(run_outcomes(s, chunks)[0] == recv_transition(s, c).1);
    } else {
        assert(chunks_ok(recv_transition(s, c).0, rest));
        assert(1 <= rest.first().len());
        assert(concat_chunks(rest) == rest.first() + concat_chunks(rest.drop_first()));
        assert(concat_chunks(rest).len() >= rest.first().len());
        assert(j < end);
        let s2 = mid_state(max, b, j);
        assert(recv_transition(s, c).0 == s2);
        assert forall|i: int| 0 <= i < concat_chunks(rest).len() implies concat_chunks(rest)[i]
            == e.subrange(j, end)[i] by {
            assert(cat[c.len() + i] == concat_chunks(rest)[i]);
            assert(cat[c.len() + i] == e.subrange(k, end)[c.len() + i]);
        };
        assert(concat_chunks(rest) =~= e.subrange(j, end));
        lemma_run_from(max, b, j, rest);
        assert forall|i: int|
            0 <= i < chunks.len() - 1 implies run_outcomes(s, chunks)[i] == Ok::<
            Option<Seq<u8>>,
            RecvError,
        >(None) by {
            if i > 0 {
                assert(run_outcomes(s, chunks)[i] == run_outcomes(s2, rest)[i - 1]);
            }
        };
        assert(run_outcomes(s, chunks).last() == run_outcomes(s2, rest).last());
    }
}

/// Framer round-trip: however a reader slices the encoded frame of a payload
/// `b` of at most 65535 bytes into valid reads, every receive step before
/// the last is pending, and the step on the frame's last byte returns
/// exactly `b`.
pub proof fn lemma_framer_round_trip(max: int, b: Seq<u8>, chunks: Seq<Seq<u8>>)
    requires
        b.len() <= 65535,
        b.len() <= max,
        chunks.len() >= 1,
        chunks_ok(fresh_state(max), chunks),
        concat_chunks(chunks) == encode_dgram(b),
    ensures
        forall|i: int|
            0 <= i < chunks.len() - 1 ==> run_outcomes(fresh_state(max), chunks)[i] == Ok::<
                Option<Seq<u8>>,
                RecvError,
            >(None),
        run_outcomes(fresh_state(max), chunks).last() == Ok::<Option<Seq<u8>>, RecvError>(Some(b)),
{
    let e = encode_dgram(b);
    assert(fresh_state(max) == mid_state(max, b, 0)) by {
        assert(e.take(0) =~= Seq::<u8>::empty());
    };
    assert(e.subrange(0, b.len() as int + 2) =~= e);
    lemma_run_from(max, b, 0, chunks);
}

/// Framer rejection: a fresh receiver asks for at most the 2 header bytes,
/// and a header announcing a length above the configured maximum fails the
/// receive on the very step that completes the header, so no payload byte is
/// ever requested from the stream.
pub proof fn lemma_framer_rejects_oversized(max: int, h0: u8, h1: u8)
    requires
        max >= 0,
        h0 * 256 + h1 > max,
    ensures
        fresh_state(max).needed() == 2,
        recv_transition(fresh_state(max), seq![h0, h1]).1 == Err::<Option<Seq<u8>>, RecvError>(
            RecvError::DatagramTooLong,
        ),
        ({
            let (s1, out1) = recv_transition(fresh_state(max), seq![h0]);
            &&& out1 == Ok::<Option<Seq<u8>>, RecvError>(None)
            &&& s1.needed() == 1
            &&& recv_transition(s1, seq![h1]).1 == Err::<Option<Seq<u8>>, RecvError>(
                RecvError::DatagramTooLong,
            )
        }),
{
    let s = fresh_state(max);
    let h = seq![h0, h1];
    assert(s.header + h =~= h);
    assert(header_value(h) == h0 * 256 + h1);
    let (s1, out1) = recv_transition(s, seq![h0]);
    assert(s1.header =~= seq![h0]);
    assert(s1.header + seq![h1] =~= h);
}

} // verus!
