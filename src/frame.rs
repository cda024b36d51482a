//! Reassembles frames from a byte stream that arrives in chunks of any size:
//! bytes accumulate across reads, each complete frame leaves the buffer in
//! arrival order, and a frame that declares too great a length is refused
//! before its body is buffered.

use vstd::prelude::*;

use crate::varint::{
    decode_var_int, lemma_var_int_round_trip, var_int_bytes, lemma_var_int_parse_extend, lemma_var_int_parse_len, var_int_parse,
    VarIntError,
};

verus! {

/// Why a stream cannot be split into frames. Both end the connection.
#[derive(Debug, Clone, Copy, PartialEq, Eq, Structural)]
pub enum FrameError {
    /// The length prefix is not a valid VarInt.
    MalformedVarInt,
    /// The declared length is negative or above the decoder's maximum.
    FrameTooLarge,
}

/// What the front of `buf` holds: `Ok(Some(k))` when its first `k` bytes are
/// one complete frame (length prefix included), `Ok(None)` when more bytes
/// are needed to tell, or why it can never hold a frame.
pub open spec fn next_frame(buf: Seq<u8>, max: nat) -> Result<Option<nat>, FrameError> {
    match var_int_parse(buf) {
        Err(VarIntError::Incomplete) => Ok(None),
        Err(VarIntError::Malformed) => Err(FrameError::MalformedVarInt),
        Ok((length, n)) => if length < 0 || length > max {
            Err(FrameError::FrameTooLarge)
        } else if n + length <= buf.len() {
            Ok(Some((n + length) as nat))
        } else {
            Ok(None)
        },
    }
}

/// Takes every complete frame off the front of `buf`, in order: the frames,
/// the bytes left over, and the error that stopped the taking, if one did.
pub open spec fn drain(buf: Seq<u8>, max: nat) -> (Seq<Seq<u8>>, Seq<u8>, Option<FrameError>)
    decreases buf.len(),
{
    match next_frame(buf, max) {
        Ok(Some(k)) => if 0 < k <= buf.len() {
            let (frames, rest, err) = drain(buf.subrange(k as int, buf.len() as int), max);
            (seq![buf.take(k as int)] + frames, rest, err)
        } else {
            (Seq::empty(), buf, None)
        },
        Ok(None) => (Seq::empty(), buf, None),
        Err(e) => (Seq::empty(), buf, Some(e)),
    }
}

/// Feeds `chunks` one by one into a decoder holding `buf`, taking every
/// complete frame after each, and stopping at the first error.
pub open spec fn drain_chunks(buf: Seq<u8>, chunks: Seq<Seq<u8>>, max: nat) -> (
    Seq<Seq<u8>>,
    Seq<u8>,
    Option<FrameError>,
)
    decreases chunks.len(),
{
    if chunks.len() == 0 {
        (Seq::empty(), buf, None)
    } else {
        let (frames, rest, err) = drain(buf + chunks[0], max);
        if err is Some {
            (frames, rest, err)
        } else {
            let (more, rest2, err2) = drain_chunks(rest, chunks.drop_first(), max);
            (frames + more, rest2, err2)
        }
    }
}

proof fn lemma_next_frame_bound(buf: Seq<u8>, max: nat)
    ensures
        next_frame(buf, max) matches Ok(Some(k)) ==> 0 < k <= buf.len(),
{
    lemma_var_int_parse_len(buf);
}

/// Bytes appended after a decided frame (or error) do not change it.
proof fn lemma_next_frame_extend(buf: Seq<u8>, c: Seq<u8>, max: nat)
    requires
        next_frame(buf, max) != Ok::<Option<nat>, FrameError>(None),
    ensures
        next_frame(buf + c, max) == next_frame(buf, max),
{
    lemma_var_int_parse_extend(buf, c);
}

/// Draining, then appending, then draining again takes the same frames as
/// appending first and draining once.
proof fn lemma_drain_append(buf: Seq<u8>, c: Seq<u8>, max: nat)
    ensures
        ({
            let (frames, rest, err) = drain(buf, max);
            let (all, all_rest, all_err) = drain(buf + c, max);
            if err is Some {
                all == frames && all_err == err && all_rest == rest + c
            } else {
                let (more, rest2, err2) = drain(rest + c, max);
                all == frames + more && all_rest == rest2 && all_err == err2
            }
        }),
    decreases buf.len(),
{
    lemma_next_frame_bound(buf, max);
    match next_frame(buf, max) {
        Ok(Some(k)) => {
            lemma_next_frame_extend(buf, c, max);
            let tail = buf.subrange(k as int, buf.len() as int);
            let whole = buf + c;
            assert(whole.subrange(k as int, whole.len() as int) =~= tail + c);
            assert(whole.take(k as int) =~= buf.take(k as int));
            lemma_drain_append(tail, c, max);
            let (f1, r1, e1) = drain(tail, max);
            if e1 is None {
                let (more, r2, e2) = drain(r1 + c, max);
                assert(seq![buf.take(k as int)] + f1 + more =~= seq![buf.take(k as int)] + (f1
                    + more));
            }
        },
        Ok(None) => {
            assert(Seq::<Seq<u8>>::empty() + drain(buf + c, max).0 =~= drain(buf + c, max).0);
        },
        Err(_) => {
            lemma_next_frame_extend(buf, c, max);
        },
    }
}

/// However a byte stream is cut into chunks, feeding the chunks one at a
/// time to an empty decoder and taking every complete frame after each
/// yields the same frames, in the same order, and the same error, as feeding
/// all of the bytes at once; where no error came, the same bytes stay
/// buffered.
pub proof fn lemma_chunk_invariance(chunks: Seq<Seq<u8>>, max: nat)
    ensures
        ({
            let (frames, rest, err) = drain_chunks(Seq::empty(), chunks, max);
            let (all, all_rest, all_err) = drain(chunks.flatten(), max);
            &&& frames == all
            &&& err == all_err
            &&& err is None ==> rest == all_rest
        }),
{
    assert(var_int_parse(Seq::<u8>::empty()) == Err::<(i32, usize), VarIntError>(
        VarIntError::Incomplete,
    ));
    lemma_chunks_from(Seq::empty(), chunks, max);
    assert(Seq::<u8>::empty() + chunks.flatten() =~= chunks.flatten());
}

proof fn lemma_chunks_from(buf: Seq<u8>, chunks: Seq<Seq<u8>>, max: nat)
    requires
        next_frame(buf, max) == Ok::<Option<nat>, FrameError>(None),
    ensures
        ({
            let (frames, rest, err) = drain_chunks(buf, chunks, max);
            let (all, all_rest, all_err) = drain(buf + chunks.flatten(), max);
            &&& frames == all
            &&& err == all_err
            &&& err is None ==> rest == all_rest
        }),
    decreases chunks.len(),
{
    if chunks.len() == 0 {
        assert(buf + chunks.flatten() =~= buf);
    } else {
        let c0 = chunks[0];
        let tail = chunks.drop_first();
        assert(buf + chunks.flatten() =~= (buf + c0) + tail.flatten());
        lemma_drain_append(buf + c0, tail.flatten(), max);
        let (f, r, e) = drain(buf + c0, max);
        if e is None {
            lemma_drain_rest(buf + c0, max);
            lemma_chunks_from(r, tail, max);
        }
    }
}

/// After a drain that ended without error, what is left holds no complete
/// frame.
proof fn lemma_drain_rest(buf: Seq<u8>, max: nat)
    ensures
        drain(buf, max).2 is None ==> next_frame(drain(buf, max).1, max) == Ok::<
            Option<nat>,
            FrameError,
        >(None),
    decreases buf.len(),
{
    lemma_next_frame_bound(buf, max);
    if let Ok(Some(k)) = next_frame(buf, max) {
        lemma_drain_rest(buf.subrange(k as int, buf.len() as int), max);
    }
}

/// A frame that declares a length above the maximum, or a negative one, is
/// refused as soon as its length prefix is in, however few of its body bytes
/// have arrived: the body is never waited for.
pub proof fn lemma_oversized_frame_refused(length: i32, body: Seq<u8>, max: nat)
    requires
        length < 0 || length > max,
    ensures
        next_frame(var_int_bytes(length) + body, max) == Err::<Option<nat>, FrameError>(
            FrameError::FrameTooLarge,
        ),
        drain(var_int_bytes(length) + body, max).0 == Seq::<Seq<u8>>::empty(),
        drain(var_int_bytes(length) + body, max).2 == Some(FrameError::FrameTooLarge),
{
    lemma_var_int_round_trip(length, body);
}

/// The bytes of one frame whose body (id and payload) is `body`.
pub open spec fn frame_bytes(body: Seq<u8>) -> Seq<u8> {
    var_int_bytes(body.len() as i32) + body
}

/// A complete frame within the maximum is taken whole from the front of the
/// buffer, whatever follows it.
pub proof fn lemma_complete_frame_taken(body: Seq<u8>, rest: Seq<u8>, max: nat)
    requires
        body.len() <= max,
        body.len() <= i32::MAX,
    ensures
        next_frame(frame_bytes(body) + rest, max) == Ok::<Option<nat>, FrameError>(
            Some(frame_bytes(body).len()),
        ),
{
    lemma_var_int_round_trip(body.len() as i32, body + rest);
    assert(frame_bytes(body) + rest =~= var_int_bytes(body.len() as i32) + (body + rest));
}

/// Two complete frames that arrive in one read are taken as two frames, in
/// their order, with nothing left over.
pub proof fn lemma_two_frames_in_one_read(first: Seq<u8>, second: Seq<u8>, max: nat)
    requires
        first.len() <= max,
        second.len() <= max,
        first.len() <= i32::MAX,
        second.len() <= i32::MAX,
    ensures
        drain(frame_bytes(first) + frame_bytes(second), max) == (
            seq![frame_bytes(first), frame_bytes(second)],
            Seq::<u8>::empty(),
            None::<FrameError>,
        ),
{
    let a = frame_bytes(first);
    let b = frame_bytes(second);
    let both = a + b;
    lemma_complete_frame_taken(first, b, max);
    lemma_complete_frame_taken(second, Seq::empty(), max);
    assert(b + Seq::<u8>::empty() =~= b);
    assert(both.subrange(a.len() as int, both.len() as int) =~= b);
    assert(both.take(a.len() as int) =~= a);
    assert(b.subrange(b.len() as int, b.len() as int) =~= Seq::<u8>::empty());
    assert(b.take(b.len() as int) =~= b);
    assert(var_int_parse(Seq::<u8>::empty()) == Err::<(i32, usize), VarIntError>(
        VarIntError::Incomplete,
    ));
    assert(drain(Seq::<u8>::empty(), max) == (
        Seq::<Seq<u8>>::empty(),
        Seq::<u8>::empty(),
        None::<FrameError>,
    ));
    assert(drain(b, max) == (seq![b], Seq::<u8>::empty(), None::<FrameError>)) by {
        assert(seq![b] + Seq::<Seq<u8>>::empty() =~= seq![b]);
    }
    assert(seq![a] + seq![b] =~= seq![a, b]);
}

/// A byte accumulator that hands out complete frames.
pub struct FrameDecoder {
    buffer: Vec<u8>,
    max_frame_length: usize,
}

impl FrameDecoder {
    /// The bytes received and not yet taken as frames.
    pub closed spec fn pending(&self) -> Seq<u8> {
        self.buffer@
    }

    /// The greatest length a frame may declare.
    pub closed spec fn max_length(&self) -> nat {
        self.max_frame_length as nat
    }

    /// An empty decoder that refuses frames declaring more than
    /// `max_frame_length` bytes.
    pub fn new(max_frame_length: usize) -> (r: FrameDecoder)
        ensures
            r.pending() == Seq::<u8>::empty(),
            r.max_length() == max_frame_length,
    {
        FrameDecoder { buffer: Vec::new(), max_frame_length }
    }

    /// The greatest length a frame may declare.
    pub fn max_frame_length(&self) -> (r: usize)
        ensures
            r == self.max_length(),
    {
        self.max_frame_length
    }

    /// The count of bytes buffered.
    pub fn buffered_len(&self) -> (r: usize)
        ensures
            r == self.pending().len(),
    {
        self.buffer.len()
    }

    /// Appends bytes read from the stream.
    pub fn feed(&mut self, bytes: &[u8])
        ensures
            final(self).pending() == old(self).pending() + bytes@,
            final(self).max_length() == old(self).max_length(),
    {
        self.buffer.extend_from_slice(bytes);
    }

    /// Takes the frame at the front of the buffer, length prefix included,
    /// if it is complete. Nothing is consumed unless a frame is returned.
    pub fn try_extract_frame(&mut self) -> (r: Result<Option<Vec<u8>>, FrameError>)
        ensures
            final(self).max_length() == old(self).max_length(),
            match next_frame(old(self).pending(), old(self).max_length()) {
                Ok(Some(k)) => r matches Ok(Some(f)) && f@ == old(self).pending().take(k as int)
                    && final(self).pending() == old(self).pending().subrange(
                    k as int,
                    old(self).pending().len() as int,
                ),
                Ok(None) => r matches Ok(None) && final(self).pending() == old(self).pending(),
                Err(e) => r == Err::<Option<Vec<u8>>, FrameError>(e) && final(self).pending()
                    == old(self).pending(),
            },
    {
        proof {
            lemma_var_int_parse_len(self.buffer@);
        }
        let (length, n) = match decode_var_int(self.buffer.as_slice()) {
            Ok(x) => x,
            Err(VarIntError::Incomplete) => return Ok(None),
            Err(VarIntError::Malformed) => return Err(FrameError::MalformedVarInt),
        };
        if length < 0 || length as usize > self.max_frame_length {
            return Err(FrameError::FrameTooLarge);
        }
        if length as usize > self.buffer.len() - n {
            return Ok(None);
        }
        let k = n + length as usize;
        let mut frame = self.buffer.split_off(k);
        std::mem::swap(&mut frame, &mut self.buffer);
        assert(frame@ =~= old(self).pending().take(k as int));
        Ok(Some(frame))
    }

    /// Takes every complete frame, in order, stopping at the first error;
    /// what remains stays buffered for the next bytes.
    pub fn drain_frames(&mut self) -> (r: (Vec<Vec<u8>>, Option<FrameError>))
        ensures
            final(self).max_length() == old(self).max_length(),
            ({
                let (frames, rest, err) = drain(old(self).pending(), old(self).max_length());
                &&& r.0@.len() == frames.len()
                &&& forall|i: int| 0 <= i < frames.len() ==> #[trigger] r.0@[i]@ == frames[i]
                &&& r.1 == err
                &&& final(self).pending() == rest
            }),
    {
        let mut frames: Vec<Vec<u8>> = Vec::new();
        let ghost start = self.pending();
        let ghost max = self.max_length();
        loop
            invariant
                self.max_length() == max,
                start == old(self).pending(),
                max == old(self).max_length(),
                ({
                    let (all, rest, err) = drain(start, max);
                    let (later, rest2, err2) = drain(self.pending(), max);
                    &&& all.len() == frames@.len() + later.len()
                    &&& forall|i: int|
                        0 <= i < frames@.len() ==> #[trigger] frames@[i]@ == all[i]
                    &&& forall|i: int|
                        0 <= i < later.len() ==> #[trigger] later[i] == all[frames@.len() + i]
                    &&& rest == rest2
                    &&& err == err2
                }),
            decreases self.pending().len(),
        {
            let ghost before = self.pending();
            proof {
                lemma_next_frame_bound(before, max);
            }
            match self.try_extract_frame() {
                Ok(Some(f)) => {
                    let ghost old_frames = frames@;
                    frames.push(f);
                    proof {
                        let (l0, r0, e0) = drain(before, max);
                        let (l1, r1, e1) = drain(self.pending(), max);
                        assert(l0 == seq![f@] + l1);
                        let (all, _, _) = drain(start, max);
                        assert forall|i: int| 0 <= i < l1.len() implies #[trigger] l1[i]
                            == all[frames@.len() + i] by {
                            assert(l1[i] == l0[1 + i]);
                        }
                        assert forall|i: int| 0 <= i < frames@.len() implies #[trigger] frames@[i]@
                            == all[i] by {
                            if i == old_frames.len() {
                                assert(l0[0] == f@);
                            }
                        }
                    }
                },
                Ok(None) => {
                    return (frames, None);
                },
                Err(e) => {
                    assert(drain(before, max) == (Seq::<Seq<u8>>::empty(), before, Some(e)));
                    return (frames, Some(e));
                },
            }
        }
    }
}

} // verus!
