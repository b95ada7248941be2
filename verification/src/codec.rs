//! The codec: telling whether bytes hold a whole frame, reading that frame,
//! and writing a frame as bytes.
//!
//! Arrays are read and written by recursion, which goes as deep as they are
//! nested.

use crate::decimal::{push_decimal, push_length, read_i64};
use crate::frame::{frame_views, lemma_frame_views, Frame, FrameView};
use crate::text::text_of;
use crate::wire::{
    array_of, decode, decode_seq, encode_frame, encode_frames, has_line, lemma_decode_len,
    lemma_encode_frames_push, lemma_line_end, line_ends_at, terminator, terminator_at, Decoded,
    DecodedSeq, Malformation, ARRAY, BULK, CR, ERROR, INTEGER, LF, SIMPLE,
};
use vstd::prelude::*;
use vstd::slice::{slice_subrange, slice_to_vec};

verus! {

/// What a look at buffered bytes has found.
#[derive(Clone, Copy, Debug, PartialEq, Eq, Structural)]
pub enum Check {
    /// A whole frame stands at the front; it is this many bytes long.
    Complete(usize),
    /// No whole frame yet.
    Incomplete,
    /// The bytes are no frame and cannot become one.
    Malformed(Malformation),
}

/// The outcome of a check on bytes that decode as `decoded`.
pub open spec fn check_of(decoded: Decoded) -> Check {
    match decoded {
        Decoded::Complete { frame, len } => Check::Complete(len as usize),
        Decoded::Incomplete => Check::Incomplete,
        Decoded::Malformed(reason) => Check::Malformed(reason),
    }
}

/// `found`, with `frames` before its frames and `len` more bytes used.
pub open spec fn after(frames: Seq<FrameView>, len: int, found: DecodedSeq) -> DecodedSeq {
    match found {
        DecodedSeq::Complete { frames: more, len: used } => DecodedSeq::Complete {
            frames: frames + more,
            len: len + used,
        },
        DecodedSeq::Incomplete => DecodedSeq::Incomplete,
        DecodedSeq::Malformed(reason) => DecodedSeq::Malformed(reason),
    }
}

/// Finds the end of the line that starts at `from`: the index of its
/// terminator, or `None` while no terminator has arrived.
pub fn find_line(src: &[u8], from: usize) -> (found: Option<usize>)
    requires
        from <= src.len(),
    ensures
        match found {
            Some(end) => line_ends_at(src@, from as int, end as int),
            None => !has_line(src@, from as int),
        },
{
    let n: usize = src.len();
    let mut i: usize = from;
    while i < n && i + 1 < n
        invariant
            from <= i <= n,
            n == src.len(),
            forall|j: int| from <= j < i ==> !terminator_at(src@, j),
        decreases n - i,
    {
        if src[i] == CR && src[i + 1] == LF {
            return Some(i);
        }
        i = i + 1;
    }
    assert forall|end: int| !line_ends_at(src@, from as int, end) by {
        if from <= end && terminator_at(src@, end) {
            assert(end < i);
        }
    }
    None
}

/// Appends `bytes` to `out`.
fn push_bytes(out: &mut Vec<u8>, bytes: &[u8])
    ensures
        final(out)@ == old(out)@ + bytes@,
{
    let mut i: usize = 0;
    while i < bytes.len()
        invariant
            i <= bytes.len(),
            out@ == old(out)@ + bytes@.take(i as int),
        decreases bytes.len() - i,
    {
        out.push(bytes[i]);
        i = i + 1;
        assert(bytes@.take(i as int) =~= bytes@.take(i - 1).push(bytes@[i - 1]));
    }
    assert(bytes@.take(i as int) =~= bytes@);
}

/// Appends a terminator to `out`.
fn push_terminator(out: &mut Vec<u8>)
    ensures
        final(out)@ == old(out)@ + terminator(),
{
    out.push(CR);
    out.push(LF);
    assert(out@ =~= old(out)@ + terminator());
}

impl Frame {
    /// Tells whether `src` starts with a whole frame, and how long it is,
    /// without building the frame.
    pub fn check(src: &[u8]) -> (found: Check)
        ensures
            found == check_of(decode(src@)),
            found matches Check::Complete(len) ==> len == decode(src@)->len,
        decreases src.len(),
    {
        let n: usize = src.len();
        if n == 0 {
            return Check::Incomplete;
        }
        let tag: u8 = src[0];
        if !(tag == SIMPLE || tag == ERROR || tag == INTEGER || tag == BULK || tag == ARRAY) {
            return Check::Malformed(Malformation::UnknownType(tag));
        }
        let end: usize = match find_line(src, 1) {
            Some(end) => end,
            None => {
                return Check::Incomplete;
            },
        };
        proof {
            lemma_line_end(src@, 1, end as int);
        }
        let line = slice_subrange(src, 1, end);
        let next: usize = end + 2;
        if tag == SIMPLE || tag == ERROR {
            return match text_of(line) {
                Some(_) => Check::Complete(next),
                None => Check::Malformed(Malformation::InvalidText),
            };
        }
        let number: i64 = match read_i64(line) {
            Some(number) => number,
            None => {
                return Check::Malformed(Malformation::InvalidNumber);
            },
        };
        if tag == INTEGER || number == -1 {
            return Check::Complete(next);
        }
        if number < 0 {
            return Check::Malformed(Malformation::InvalidLength);
        }
        if tag == BULK {
            let available: usize = n - next;
            if number as u64 + 2 > available as u64 {
                return Check::Incomplete;
            }
            let data_end: usize = next + number as usize;
            if src[data_end] == CR && src[data_end + 1] == LF {
                Check::Complete(data_end + 2)
            } else {
                Check::Malformed(Malformation::MissingTerminator)
            }
        } else {
            let ghost items = src@.skip(next as int);
            let ghost mut done: Seq<FrameView> = Seq::empty();
            let mut offset: usize = next;
            let mut i: i64 = 0;
            proof {
                assert(after(done, 0, decode_seq(items, number as nat)) == decode_seq(
                    items,
                    number as nat,
                )) by {
                    match decode_seq(items, number as nat) {
                        DecodedSeq::Complete { frames, len } => {
                            assert(done + frames =~= frames);
                        },
                        _ => {},
                    }
                }
            }
            while i < number
                invariant
                    0 <= i <= number,
                    3 <= next <= offset <= n,
                    n == src.len(),
                    items == src@.skip(next as int),
                    decode(src@) == array_of(next as int, decode_seq(items, number as nat)),
                    decode_seq(items, number as nat) == after(
                        done,
                        offset - next,
                        decode_seq(src@.skip(offset as int), (number - i) as nat),
                    ),
                decreases number - i,
            {
                let rest = slice_subrange(src, offset, n);
                assert(rest@ =~= src@.skip(offset as int));
                match Frame::check(rest) {
                    Check::Complete(len) => {
                        proof {
                            lemma_decode_len(rest@);
                            let frame = decode(rest@)->frame;
                            assert(rest@.skip(len as int) =~= src@.skip(offset + len));
                            match decode_seq(rest@.skip(len as int), (number - i - 1) as nat) {
                                DecodedSeq::Complete { frames, len: used } => {
                                    assert(done + (seq![frame] + frames) =~= done.push(frame)
                                        + frames);
                                },
                                _ => {},
                            }
                            done = done.push(frame);
                        }
                        offset = offset + len;
                        i = i + 1;
                    },
                    Check::Incomplete => {
                        return Check::Incomplete;
                    },
                    Check::Malformed(reason) => {
                        return Check::Malformed(reason);
                    },
                }
            }
            proof {
                assert(done + Seq::<FrameView>::empty() =~= done);
            }
            Check::Complete(offset)
        }
    }

    /// Checks `src` and, where a whole frame stands at its front, reads it:
    /// the frame and its length, `Ok(None)` while the frame is incomplete,
    /// and the reason where the bytes are no frame.
    pub fn decode(src: &[u8]) -> (found: Result<Option<(Frame, usize)>, Malformation>)
        ensures
            match decode(src@) {
                Decoded::Complete { frame, len } => {
                    &&& found matches Ok(Some(read))
                    &&& read.0@ == frame
                    &&& read.1 == len
                },
                Decoded::Incomplete => found == Ok::<Option<(Frame, usize)>, Malformation>(None),
                Decoded::Malformed(reason) => found == Err::<
                    Option<(Frame, usize)>,
                    Malformation,
                >(reason),
            },
    {
        match Frame::check(src) {
            Check::Complete(_) => Ok(Some(Frame::parse_prefix(src))),
            Check::Incomplete => Ok(None),
            Check::Malformed(reason) => Err(reason),
        }
    }

    /// Reads the frame that `src` starts with. What `check` has found
    /// complete is read without a test being made twice.
    pub fn parse(src: &[u8]) -> (frame: Frame)
        requires
            decode(src@) is Complete,
        ensures
            frame@ == decode(src@)->frame,
    {
        Frame::parse_prefix(src).0
    }

    /// Reads the frame that `src` starts with, and tells its length.
    pub fn parse_prefix(src: &[u8]) -> (found: (Frame, usize))
        requires
            decode(src@) is Complete,
        ensures
            decode(src@) == (Decoded::Complete { frame: found.0@, len: found.1 as int }),
        decreases src.len(),
    {
        let n: usize = src.len();
        let tag: u8 = src[0];
        let end: usize = find_line(src, 1).unwrap();
        proof {
            lemma_line_end(src@, 1, end as int);
        }
        let line = slice_subrange(src, 1, end);
        let next: usize = end + 2;
        if tag == SIMPLE {
            let text = text_of(line).unwrap();
            proof {
                vstd::utf8::encode_utf8_decode_utf8(text@);
            }
            return (Frame::Simple(text.to_owned()), next);
        }
        if tag == ERROR {
            let text = text_of(line).unwrap();
            proof {
                vstd::utf8::encode_utf8_decode_utf8(text@);
            }
            return (Frame::Error(text.to_owned()), next);
        }
        let number: i64 = read_i64(line).unwrap();
        if tag == INTEGER {
            return (Frame::Integer(number), next);
        }
        if number == -1 {
            return (Frame::Null, next);
        }
        if tag == BULK {
            let data_end: usize = next + number as usize;
            let data = slice_to_vec(slice_subrange(src, next, data_end));
            return (Frame::Bulk(data), data_end + 2);
        }
        let ghost items = src@.skip(next as int);
        let ghost all = decode_seq(items, number as nat);
        let mut frames: Vec<Frame> = Vec::new();
        let mut offset: usize = next;
        let mut i: i64 = 0;
        proof {
            assert(frame_views(frames@) + all->frames =~= all->frames);
        }
        while i < number
            invariant
                0 <= i <= number,
                3 <= next <= offset <= n,
                n == src.len(),
                items == src@.skip(next as int),
                all == decode_seq(items, number as nat),
                all is Complete,
                all == after(
                    frame_views(frames@),
                    offset - next,
                    decode_seq(src@.skip(offset as int), (number - i) as nat),
                ),
            decreases number - i,
        {
            let rest = slice_subrange(src, offset, n);
            assert(rest@ =~= src@.skip(offset as int));
            let (frame, len) = Frame::parse_prefix(rest);
            proof {
                lemma_decode_len(rest@);
                assert(rest@.skip(len as int) =~= src@.skip(offset + len));
                let more = decode_seq(rest@.skip(len as int), (number - i - 1) as nat)->frames;
                assert(frames@.push(frame).drop_last() =~= frames@);
                assert(frame_views(frames@) + (seq![frame@] + more) =~= frame_views(
                    frames@.push(frame),
                ) + more);
            }
            frames.push(frame);
            offset = offset + len;
            i = i + 1;
        }
        proof {
            assert(frame_views(frames@) + Seq::<FrameView>::empty() =~= frame_views(frames@));
        }
        (Frame::Array(frames), offset)
    }

    /// Writes the frame as bytes.
    pub fn encode(&self) -> (bytes: Vec<u8>)
        ensures
            bytes@ == encode_frame(self@),
    {
        let mut bytes: Vec<u8> = Vec::new();
        self.encode_into(&mut bytes);
        bytes
    }

    /// Appends the bytes of the frame to `out`.
    pub fn encode_into(&self, out: &mut Vec<u8>)
        ensures
            final(out)@ == old(out)@ + encode_frame(self@),
        decreases self,
    {
        match self {
            Frame::Simple(text) => {
                out.push(SIMPLE);
                push_bytes(out, text.as_str().as_bytes());
                push_terminator(out);
                assert(out@ =~= old(out)@ + encode_frame(self@));
            },
            Frame::Error(text) => {
                out.push(ERROR);
                push_bytes(out, text.as_str().as_bytes());
                push_terminator(out);
                assert(out@ =~= old(out)@ + encode_frame(self@));
            },
            Frame::Integer(value) => {
                out.push(INTEGER);
                push_decimal(out, *value);
                push_terminator(out);
                assert(out@ =~= old(out)@ + encode_frame(self@));
            },
            Frame::Bulk(data) => {
                out.push(BULK);
                push_length(out, data.len());
                push_terminator(out);
                push_bytes(out, data.as_slice());
                push_terminator(out);
                assert(out@ =~= old(out)@ + encode_frame(self@));
            },
            Frame::Null => {
                out.push(BULK);
                out.push(ERROR);
                out.push(49);
                push_terminator(out);
                assert(out@ =~= old(out)@ + encode_frame(self@));
            },
            Frame::Array(items) => {
                out.push(ARRAY);
                push_length(out, items.len());
                push_terminator(out);
                let ghost header = out@;
                let ghost views = frame_views(items@);
                proof {
                    lemma_frame_views(items@);
                    assert(views.take(0) =~= Seq::<FrameView>::empty());
                    assert(header + encode_frames(views.take(0)) =~= header);
                }
                let mut i: usize = 0;
                while i < items.len()
                    invariant
                        i <= items.len(),
                        decreases_to!(self => items),
                        views == frame_views(items@),
                        views.len() == items.len(),
                        forall|j: int| 0 <= j < items.len() ==> views[j] == items@[j]@,
                        out@ == header + encode_frames(views.take(i as int)),
                    decreases items.len() - i,
                {
                    items[i].encode_into(out);
                    proof {
                        lemma_encode_frames_push(views.take(i as int), views[i as int]);
                        assert(views.take(i + 1) =~= views.take(i as int).push(views[i as int]));
                    }
                    i = i + 1;
                }
                assert(views.take(i as int) =~= views);
                assert(out@ =~= old(out)@ + encode_frame(self@));
            },
        }
    }
}

} // verus!
