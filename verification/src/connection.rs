//! The framing layer of a connection: bytes arrive from the stream in pieces
//! of any size and leave as whole frames.
//!
//! The stream itself stays with the caller. Reading a frame is a loop of two
//! steps: [`Connection::read_frame`] tries the bytes already buffered, and
//! where it answers [`ReadStep::NeedBytes`] the caller reads once from the
//! stream and hands what came to [`Connection::receive`].

use crate::buffer::{
    buffer_advance, buffer_bytes, buffer_extend, buffer_is_empty, buffer_len,
    buffer_with_capacity, buffered,
};
use crate::codec::Check;
use crate::frame::{Frame, FrameView};
use crate::wire::{
    decode, encode_frame, encode_frames, lemma_decode_extend, lemma_decode_len,
    lemma_decode_prefix, lemma_round_trip, representable, Decoded, Malformation,
};
use bytes::BytesMut;
use vstd::prelude::*;

verus! {

/// Why a connection cannot go on.
#[derive(Clone, Copy, Debug, PartialEq, Eq, Structural)]
pub enum ConnectionError {
    /// The buffered bytes are no frame.
    Malformed(Malformation),
    /// The peer closed the stream in the middle of a frame.
    ConnectionReset,
}

/// The answer of one step of reading a frame.
#[derive(Debug, PartialEq, Eq)]
pub enum ReadStep {
    /// A whole frame, taken out of the buffer.
    Frame(Frame),
    /// The peer closed the stream between two frames.
    EndOfStream,
    /// No whole frame is buffered: read from the stream once more.
    NeedBytes,
    /// The connection has failed.
    Failed(ConnectionError),
}

/// The mathematical value of a [`ReadStep`].
pub enum ReadStepView {
    Frame(FrameView),
    EndOfStream,
    NeedBytes,
    Failed(ConnectionError),
}

impl View for ReadStep {
    type V = ReadStepView;

    open spec fn view(&self) -> ReadStepView {
        match self {
            ReadStep::Frame(frame) => ReadStepView::Frame(frame@),
            ReadStep::EndOfStream => ReadStepView::EndOfStream,
            ReadStep::NeedBytes => ReadStepView::NeedBytes,
            ReadStep::Failed(error) => ReadStepView::Failed(*error),
        }
    }
}

/// What an attempt to take a frame out of `pending` answers, and the bytes it
/// leaves pending: a frame leaves what follows it, anything else leaves all.
pub open spec fn attempt(pending: Seq<u8>) -> (ReadStepView, Seq<u8>) {
    match decode(pending) {
        Decoded::Complete { frame, len } => (ReadStepView::Frame(frame), pending.skip(len)),
        Decoded::Incomplete => (ReadStepView::NeedBytes, pending),
        Decoded::Malformed(reason) => (
            ReadStepView::Failed(ConnectionError::Malformed(reason)),
            pending,
        ),
    }
}

/// What the arrival of `chunk` answers while `pending` is buffered, and the
/// bytes it leaves pending. An empty chunk is the end of the stream: clean
/// where nothing is pending, a reset where something is.
pub open spec fn arrival(pending: Seq<u8>, chunk: Seq<u8>) -> (ReadStepView, Seq<u8>) {
    if chunk.len() > 0 {
        attempt(pending + chunk)
    } else if pending.len() == 0 {
        (ReadStepView::EndOfStream, pending)
    } else {
        (ReadStepView::Failed(ConnectionError::ConnectionReset), pending)
    }
}

/// Whether a buffer that holds `pending` can take `chunk` as well: a buffer
/// holds `isize::MAX` bytes and no more.
pub open spec fn fits(pending: Seq<u8>, chunk: Seq<u8>) -> bool {
    pending.len() + chunk.len() <= isize::MAX
}

/// The read side of one connection: the bytes that have arrived and belong to
/// no frame handed out yet.
pub struct Connection {
    buffer: BytesMut,
}

impl View for Connection {
    type V = Seq<u8>;

    /// The pending bytes, oldest first.
    closed spec fn view(&self) -> Seq<u8> {
        buffered(self.buffer)
    }
}

impl Connection {
    /// A connection on which nothing has arrived.
    pub fn new() -> (connection: Connection)
        ensures
            connection@ == Seq::<u8>::empty(),
    {
        Connection { buffer: buffer_with_capacity(4096) }
    }

    /// The number of pending bytes.
    pub fn pending(&self) -> (len: usize)
        ensures
            len == self@.len(),
    {
        buffer_len(&self.buffer)
    }

    /// Takes the frame at the front of the buffer, if a whole one is there:
    /// `Ok(None)` while it is not, and the reason where the bytes are no
    /// frame. Only a frame that is handed out leaves the buffer, with
    /// exactly its own bytes.
    pub fn parse_frame(&mut self) -> (found: Result<Option<Frame>, Malformation>)
        ensures
            match decode(old(self)@) {
                Decoded::Complete { frame, len } => {
                    &&& found matches Ok(Some(taken))
                    &&& taken@ == frame
                    &&& final(self)@ == old(self)@.skip(len)
                },
                Decoded::Incomplete => {
                    &&& found == Ok::<Option<Frame>, Malformation>(None)
                    &&& final(self)@ == old(self)@
                },
                Decoded::Malformed(reason) => {
                    &&& found == Err::<Option<Frame>, Malformation>(reason)
                    &&& final(self)@ == old(self)@
                },
            },
    {
        let bytes = buffer_bytes(&self.buffer);
        match Frame::check(bytes) {
            Check::Complete(len) => {
                proof {
                    lemma_decode_len(bytes@);
                }
                let frame = Frame::parse(bytes);
                buffer_advance(&mut self.buffer, len);
                Ok(Some(frame))
            },
            Check::Incomplete => Ok(None),
            Check::Malformed(reason) => Err(reason),
        }
    }

    /// The first step of reading a frame: tries the pending bytes, without
    /// waiting for the stream.
    pub fn read_frame(&mut self) -> (step: ReadStep)
        ensures
            (step@, final(self)@) == attempt(old(self)@),
    {
        match self.parse_frame() {
            Ok(Some(frame)) => ReadStep::Frame(frame),
            Ok(None) => ReadStep::NeedBytes,
            Err(reason) => ReadStep::Failed(ConnectionError::Malformed(reason)),
        }
    }

    /// The second step: takes what one read from the stream returned, and
    /// tries again. A read that returned nothing means the peer has closed.
    pub fn receive(&mut self, chunk: &[u8]) -> (step: ReadStep)
        requires
            fits(old(self)@, chunk@),
        ensures
            (step@, final(self)@) == arrival(old(self)@, chunk@),
    {
        if chunk.len() == 0 {
            if buffer_is_empty(&self.buffer) {
                ReadStep::EndOfStream
            } else {
                ReadStep::Failed(ConnectionError::ConnectionReset)
            }
        } else {
            buffer_extend(&mut self.buffer, chunk);
            self.read_frame()
        }
    }

    /// Tells whether the buffer can take `count` bytes more.
    pub fn has_room(&self, count: usize) -> (room: bool)
        ensures
            room == (self@.len() + count <= isize::MAX),
    {
        let limit: usize = isize::MAX as usize;
        let pending: usize = self.pending();
        pending <= limit && count <= limit - pending
    }

    /// The second step for a caller that has not made sure that the chunk
    /// fits: as `receive` where it does, and `None`, with nothing changed,
    /// where it does not.
    pub fn offer(&mut self, chunk: &[u8]) -> (step: Option<ReadStep>)
        ensures
            fits(old(self)@, chunk@) ==> (step matches Some(taken) && (taken@, final(self)@)
                == arrival(old(self)@, chunk@)),
            !fits(old(self)@, chunk@) ==> step is None && final(self)@ == old(self)@,
    {
        if self.has_room(chunk.len()) {
            Some(self.receive(chunk))
        } else {
            None
        }
    }
}

/// The answer of a reader that stands at `step` and is handed `chunks` as the
/// stream delivers them: while it needs bytes and a chunk is left, the next
/// chunk arrives.
pub open spec fn drive(step: (ReadStepView, Seq<u8>), chunks: Seq<Seq<u8>>) -> (
    ReadStepView,
    Seq<u8>,
)
    decreases chunks.len(),
{
    if step.0 is NeedBytes && chunks.len() > 0 {
        drive(arrival(step.1, chunks[0]), chunks.drop_first())
    } else {
        step
    }
}

/// Before the last byte of a frame has arrived, its bytes are incomplete:
/// neither a frame nor malformed.
pub proof fn lemma_prefix_is_incomplete(frame: FrameView, k: int)
    requires
        representable(frame),
        0 <= k < encode_frame(frame).len(),
    ensures
        decode(encode_frame(frame).take(k)) is Incomplete,
{
    let bytes = encode_frame(frame);
    let sent = bytes.take(k);
    let rest = bytes.skip(k);
    assert(sent + rest =~= bytes);
    lemma_round_trip(frame);
    lemma_decode_extend(sent, rest);
    lemma_decode_len(sent);
}

/// Fragmentation invariance: however the bytes of a frame are cut into
/// chunks, a reader that starts with nothing pending and is handed the chunks
/// one by one ends with that frame and with nothing pending, as it does
/// when the bytes arrive in one piece.
pub proof fn lemma_fragmentation_invariance(frame: FrameView, chunks: Seq<Seq<u8>>)
    requires
        representable(frame),
        chunks.flatten() == encode_frame(frame),
        forall|i: int| 0 <= i < chunks.len() ==> (#[trigger] chunks[i]).len() > 0,
    ensures
        drive(attempt(Seq::empty()), chunks) == (ReadStepView::Frame(frame), Seq::<u8>::empty()),
        drive(attempt(Seq::empty()), chunks) == drive(
            attempt(Seq::empty()),
            seq![encode_frame(frame)],
        ),
{
    let bytes = encode_frame(frame);
    let whole = seq![bytes];
    lemma_round_trip(frame);
    lemma_decode_len(bytes);
    assert(bytes.take(0) =~= Seq::<u8>::empty());
    lemma_prefix_is_incomplete(frame, 0);
    assert(Seq::<u8>::empty() + chunks.flatten() =~= bytes);
    lemma_drive(frame, Seq::empty(), chunks);
    whole.lemma_flatten_one_element();
    assert(Seq::<u8>::empty() + whole.flatten() =~= bytes);
    lemma_drive(frame, Seq::empty(), whole);
}

/// The step of `lemma_fragmentation_invariance`: the same, from any moment
/// at which part of the frame is pending.
proof fn lemma_drive(frame: FrameView, pending: Seq<u8>, chunks: Seq<Seq<u8>>)
    requires
        representable(frame),
        pending + chunks.flatten() == encode_frame(frame),
        decode(pending) is Incomplete,
        forall|i: int| 0 <= i < chunks.len() ==> (#[trigger] chunks[i]).len() > 0,
    ensures
        drive((ReadStepView::NeedBytes, pending), chunks) == (
            ReadStepView::Frame(frame),
            Seq::<u8>::empty(),
        ),
    decreases chunks.len(),
{
    let bytes = encode_frame(frame);
    lemma_round_trip(frame);
    if chunks.len() == 0 {
        assert(pending =~= bytes);
    } else {
        let later = chunks.drop_first();
        let grown = pending + chunks[0];
        assert(chunks.flatten() == chunks[0] + later.flatten());
        assert(grown + later.flatten() =~= bytes);
        assert(chunks[0].len() > 0);
        assert(drive((ReadStepView::NeedBytes, pending), chunks) == drive(attempt(grown), later));
        if later.len() == 0 {
            assert(later.flatten() =~= Seq::<u8>::empty());
            assert(grown =~= bytes);
            assert(bytes.skip(bytes.len() as int) =~= Seq::<u8>::empty());
        } else {
            assert(later[0] == chunks[1]);
            assert(later.flatten().len() >= later[0].len());
            assert(grown =~= bytes.take(grown.len() as int));
            lemma_prefix_is_incomplete(frame, grown.len() as int);
            assert forall|i: int| 0 <= i < later.len() implies (#[trigger] later[i]).len()
                > 0 by {
                assert(later[i] == chunks[i + 1]);
            }
            lemma_drive(frame, grown, later);
        }
    }
}

/// Clean shutdown and reset: while only a part of a frame has arrived the
/// reader asks for more and keeps what it has; the end of the stream at that
/// moment is a clean end where no byte has arrived, and a reset where
/// some have.
pub proof fn lemma_close_before_end_of_frame(frame: FrameView, k: int)
    requires
        representable(frame),
        0 <= k < encode_frame(frame).len(),
    ensures
        attempt(encode_frame(frame).take(k)) == (
            ReadStepView::NeedBytes,
            encode_frame(frame).take(k),
        ),
        k == 0 ==> arrival(encode_frame(frame).take(k), Seq::empty()).0
            == ReadStepView::EndOfStream,
        k > 0 ==> arrival(encode_frame(frame).take(k), Seq::empty()).0 == ReadStepView::Failed(
            ConnectionError::ConnectionReset,
        ),
{
    lemma_prefix_is_incomplete(frame, k);
}

/// No byte is lost and none is handed out twice: what an arrival leaves
/// pending is all that was pending and all that arrived, in that order,
/// less the bytes that the frame it hands out was written as.
pub proof fn lemma_arrival_keeps_bytes(pending: Seq<u8>, chunk: Seq<u8>)
    ensures
        match arrival(pending, chunk).0 {
            ReadStepView::Frame(frame) => exists|len: int|
                0 < len <= (pending + chunk).len() && decode((pending + chunk).take(len)) == (
                Decoded::Complete { frame, len }) && (#[trigger] (pending + chunk).take(len))
                    + arrival(pending, chunk).1 == pending + chunk,
            _ => arrival(pending, chunk).1 == pending + chunk,
        },
{
    let all = pending + chunk;
    if chunk.len() == 0 {
        assert(all =~= pending);
    } else {
        lemma_decode_len(all);
        match decode(all) {
            Decoded::Complete { frame, len } => {
                lemma_decode_prefix(all);
                assert(all.take(len) + all.skip(len) =~= all);
            },
            _ => {},
        }
    }
}

/// The frames that `count` attempts in a row take out of `pending`, and the
/// bytes they leave. The attempts end with the first that takes no frame.
pub open spec fn take_frames(pending: Seq<u8>, count: nat) -> (Seq<FrameView>, Seq<u8>)
    decreases count,
{
    if count == 0 {
        (Seq::empty(), pending)
    } else {
        match attempt(pending).0 {
            ReadStepView::Frame(frame) => {
                let others = take_frames(attempt(pending).1, (count - 1) as nat);
                (seq![frame] + others.0, others.1)
            },
            _ => (Seq::empty(), pending),
        }
    }
}

/// Frames come out as they went in: from the bytes of several frames,
/// written one after the other and followed by anything, as many attempts
/// take out those frames in their order and leave exactly what followed.
pub proof fn lemma_frames_in_order(frames: Seq<FrameView>, rest: Seq<u8>)
    requires
        forall|i: int| 0 <= i < frames.len() ==> representable(#[trigger] frames[i]),
    ensures
        take_frames(encode_frames(frames) + rest, frames.len()) == (frames, rest),
    decreases frames.len(),
{
    let pending = encode_frames(frames) + rest;
    if frames.len() == 0 {
        assert(pending =~= rest);
        assert(frames =~= Seq::<FrameView>::empty());
    } else {
        let first = encode_frame(frames[0]);
        let others = frames.drop_first();
        let later = encode_frames(others) + rest;
        lemma_round_trip(frames[0]);
        lemma_decode_extend(first, later);
        assert(pending =~= first + later);
        assert(pending.skip(first.len() as int) =~= later);
        assert forall|i: int| 0 <= i < others.len() implies representable(
            #[trigger] others[i],
        ) by {
            assert(others[i] == frames[i + 1]);
        }
        lemma_frames_in_order(others, rest);
        assert(seq![frames[0]] + others =~= frames);
    }
}

} // verus!
