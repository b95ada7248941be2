//! The wire format as mathematics: what bytes a frame is written as, and what
//! frame a sequence of bytes starts with.
//!
//! Every field of a frame ends in a carriage return and a line feed. The first
//! byte tells the type:
//!
//! * `+text` a simple string, `-text` an error;
//! * `:number` an integer;
//! * `$length`, then that many raw bytes and a terminator; length `-1` is null;
//! * `*count`, then that many frames; count `-1` is null.

use crate::decimal::{all_digits, decimal, digits_value, is_digit, parse_decimal, parse_i64};
use crate::frame::FrameView;
use vstd::prelude::*;
use vstd::utf8::*;

verus! {

/// The carriage return that starts a terminator.
pub const CR: u8 = 13;

/// The line feed that ends a terminator.
pub const LF: u8 = 10;

/// Type byte of a simple string, `+`.
pub const SIMPLE: u8 = 43;

/// Type byte of an error, `-`.
pub const ERROR: u8 = 45;

/// Type byte of an integer, `:`.
pub const INTEGER: u8 = 58;

/// Type byte of a bulk value, `$`.
pub const BULK: u8 = 36;

/// Type byte of an array, `*`.
pub const ARRAY: u8 = 42;

/// Why a sequence of bytes is no frame, however it goes on.
#[derive(Clone, Copy, Debug, PartialEq, Eq, Structural)]
pub enum Malformation {
    /// The first byte is none of the five type bytes.
    UnknownType(u8),
    /// The text of a simple string or of an error is not UTF-8.
    InvalidText,
    /// A header is no numeral, or its number does not fit in 64 signed bits.
    InvalidNumber,
    /// A length or a count is below `-1`.
    InvalidLength,
    /// The bytes of a bulk value are not followed by a terminator.
    MissingTerminator,
}

/// What a sequence of bytes starts with.
pub enum Decoded {
    /// A whole frame, written in the first `len` bytes.
    Complete { frame: FrameView, len: int },
    /// The start of a frame at best: more bytes are needed to tell.
    Incomplete,
    /// No frame, and no continuation makes it one.
    Malformed(Malformation),
}

/// What a sequence of bytes starts with, where a given number of frames is due.
pub enum DecodedSeq {
    Complete { frames: Seq<FrameView>, len: int },
    Incomplete,
    Malformed(Malformation),
}

/// The two bytes that end every field.
pub open spec fn terminator() -> Seq<u8> {
    seq![13u8, 10u8]
}

/// One of `+`, `-`, `:`, `$` and `*`.
pub open spec fn is_type_byte(byte: u8) -> bool {
    byte == 43 || byte == 45 || byte == 58 || byte == 36 || byte == 42
}

/// A terminator stands at index `i`.
pub open spec fn terminator_at(bytes: Seq<u8>, i: int) -> bool {
    0 <= i && i + 1 < bytes.len() && bytes[i] == 13 && bytes[i + 1] == 10
}

/// The first terminator at or after `from` stands at `end`.
pub open spec fn line_ends_at(bytes: Seq<u8>, from: int, end: int) -> bool {
    &&& from <= end
    &&& terminator_at(bytes, end)
    &&& forall|j: int| from <= j < end ==> !terminator_at(bytes, j)
}

/// A terminator stands at or after `from`.
pub open spec fn has_line(bytes: Seq<u8>, from: int) -> bool {
    exists|end: int| line_ends_at(bytes, from, end)
}

/// Where the line that starts at `from` ends, if `has_line`.
pub open spec fn line_end(bytes: Seq<u8>, from: int) -> int {
    choose|end: int| line_ends_at(bytes, from, end)
}

/// No terminator stands anywhere in `text`.
pub open spec fn line_safe(text: Seq<u8>) -> bool {
    forall|i: int| !terminator_at(text, i)
}

/// The bytes that a frame is written as.
pub open spec fn encode_frame(frame: FrameView) -> Seq<u8>
    decreases frame,
{
    match frame {
        FrameView::Simple(text) => seq![43u8] + encode_utf8(text) + terminator(),
        FrameView::Error(text) => seq![45u8] + encode_utf8(text) + terminator(),
        FrameView::Integer(value) => seq![58u8] + decimal(value as int) + terminator(),
        FrameView::Bulk(bytes) => seq![36u8] + decimal(bytes.len() as int) + terminator() + bytes
            + terminator(),
        FrameView::Null => seq![36u8, 45u8, 49u8, 13u8, 10u8],
        FrameView::Array(items) => seq![42u8] + decimal(items.len() as int) + terminator()
            + encode_frames(items),
    }
}

/// The bytes of several frames, one after the other.
pub open spec fn encode_frames(frames: Seq<FrameView>) -> Seq<u8>
    decreases frames,
{
    if frames.len() == 0 {
        Seq::empty()
    } else {
        encode_frame(frames[0]) + encode_frames(frames.drop_first())
    }
}

/// The array whose header takes `header` bytes and whose items decode as
/// `items`.
pub open spec fn array_of(header: int, items: DecodedSeq) -> Decoded {
    match items {
        DecodedSeq::Complete { frames, len } => Decoded::Complete {
            frame: FrameView::Array(frames),
            len: header + len,
        },
        DecodedSeq::Incomplete => Decoded::Incomplete,
        DecodedSeq::Malformed(reason) => Decoded::Malformed(reason),
    }
}

/// The frame that `bytes` starts with.
///
/// Nothing is known before the type byte and the first line are there. A
/// line that is there is judged at once: text must be UTF-8, and a header a
/// numeral of 64 signed bits, `-1` or more where it is a length or a count.
/// A bulk value then waits for its bytes and its terminator, and an array
/// for its items.
pub open spec fn decode(bytes: Seq<u8>) -> Decoded
    decreases bytes.len(), 0nat,
{
    if bytes.len() == 0 {
        Decoded::Incomplete
    } else if !is_type_byte(bytes[0]) {
        Decoded::Malformed(Malformation::UnknownType(bytes[0]))
    } else if !has_line(bytes, 1) {
        Decoded::Incomplete
    } else {
        let end = line_end(bytes, 1);
        let line = bytes.subrange(1, end);
        let next = end + 2;
        if bytes[0] == 43 || bytes[0] == 45 {
            if !valid_utf8(line) {
                Decoded::Malformed(Malformation::InvalidText)
            } else if bytes[0] == 43 {
                Decoded::Complete { frame: FrameView::Simple(decode_utf8(line)), len: next }
            } else {
                Decoded::Complete { frame: FrameView::Error(decode_utf8(line)), len: next }
            }
        } else {
            match parse_i64(line) {
                None => Decoded::Malformed(Malformation::InvalidNumber),
                Some(n) => {
                    if bytes[0] == 58 {
                        Decoded::Complete { frame: FrameView::Integer(n), len: next }
                    } else if n == -1 {
                        Decoded::Complete { frame: FrameView::Null, len: next }
                    } else if n < 0 {
                        Decoded::Malformed(Malformation::InvalidLength)
                    } else if bytes[0] == 36 {
                        if bytes.len() < next + n + 2 {
                            Decoded::Incomplete
                        } else if !terminator_at(bytes, next + n) {
                            Decoded::Malformed(Malformation::MissingTerminator)
                        } else {
                            Decoded::Complete {
                                frame: FrameView::Bulk(bytes.subrange(next, next + n)),
                                len: next + n + 2,
                            }
                        }
                    } else {
                        array_of(next, decode_seq(bytes.skip(next), n as nat))
                    }
                },
            }
        }
    }
}

/// The `count` frames that `bytes` starts with. The first frame's length is
/// always within the bytes (`lemma_decode_len`); the test keeps the
/// definition well-founded.
pub open spec fn decode_seq(bytes: Seq<u8>, count: nat) -> DecodedSeq
    decreases bytes.len(), count + 1,
{
    if count == 0 {
        DecodedSeq::Complete { frames: Seq::empty(), len: 0 }
    } else {
        match decode(bytes) {
            Decoded::Complete { frame, len } => {
                if 0 < len <= bytes.len() {
                    match decode_seq(bytes.skip(len), (count - 1) as nat) {
                        DecodedSeq::Complete { frames, len: more } => DecodedSeq::Complete {
                            frames: seq![frame] + frames,
                            len: len + more,
                        },
                        DecodedSeq::Incomplete => DecodedSeq::Incomplete,
                        DecodedSeq::Malformed(reason) => DecodedSeq::Malformed(reason),
                    }
                } else {
                    DecodedSeq::Incomplete
                }
            },
            Decoded::Incomplete => DecodedSeq::Incomplete,
            Decoded::Malformed(reason) => DecodedSeq::Malformed(reason),
        }
    }
}

/// Frames that the wire format can carry: no text holds a terminator, and
/// every length and count fits in 64 signed bits.
pub open spec fn representable(frame: FrameView) -> bool
    decreases frame,
{
    match frame {
        FrameView::Simple(text) => line_safe(encode_utf8(text)),
        FrameView::Error(text) => line_safe(encode_utf8(text)),
        FrameView::Integer(_) => true,
        FrameView::Bulk(bytes) => bytes.len() <= i64::MAX,
        FrameView::Null => true,
        FrameView::Array(items) => {
            &&& items.len() <= i64::MAX
            &&& forall|i: int| 0 <= i < items.len() ==> representable(#[trigger] items[i])
        },
    }
}

/// A line has one end.
pub proof fn lemma_line_end(bytes: Seq<u8>, from: int, end: int)
    requires
        line_ends_at(bytes, from, end),
    ensures
        has_line(bytes, from),
        line_end(bytes, from) == end,
{
    let chosen = line_end(bytes, from);
    assert(line_ends_at(bytes, from, chosen));
    if chosen < end {
        assert(!terminator_at(bytes, chosen));
    }
    if end < chosen {
        assert(!terminator_at(bytes, end));
    }
}

/// A line that has ended stays as it is when more bytes follow.
pub proof fn lemma_line_extend(bytes: Seq<u8>, rest: Seq<u8>, from: int, end: int)
    requires
        0 <= from,
        line_ends_at(bytes, from, end),
    ensures
        line_ends_at(bytes + rest, from, end),
{
    let longer = bytes + rest;
    assert forall|j: int| from <= j < end implies !terminator_at(longer, j) by {
        assert(!terminator_at(bytes, j));
        assert(longer[j] == bytes[j]);
        assert(longer[j + 1] == bytes[j + 1]);
    }
    assert(longer[end] == bytes[end]);
    assert(longer[end + 1] == bytes[end + 1]);
}

/// A decoded frame takes at least one byte and no more than there are.
pub proof fn lemma_decode_len(bytes: Seq<u8>)
    ensures
        decode(bytes) matches Decoded::Complete { frame, len } ==> 0 < len <= bytes.len(),
    decreases bytes.len(), 0nat,
{
    if bytes.len() > 0 && is_type_byte(bytes[0]) && has_line(bytes, 1) {
        let end = line_end(bytes, 1);
        assert(line_ends_at(bytes, 1, end));
        match parse_i64(bytes.subrange(1, end)) {
            Some(n) => {
                if bytes[0] == 42 && n >= 0 {
                    lemma_decode_seq_len(bytes.skip(end + 2), n as nat);
                }
            },
            None => {},
        }
    }
}

/// Decoded frames are as many as were due, within the bytes there are.
pub proof fn lemma_decode_seq_len(bytes: Seq<u8>, count: nat)
    ensures
        decode_seq(bytes, count) matches DecodedSeq::Complete { frames, len } ==> 0 <= len
            <= bytes.len() && frames.len() == count,
    decreases bytes.len(), count + 1,
{
    if count > 0 {
        lemma_decode_len(bytes);
        match decode(bytes) {
            Decoded::Complete { frame, len } => {
                lemma_decode_seq_len(bytes.skip(len), (count - 1) as nat);
            },
            _ => {},
        }
    }
}

/// Once bytes are known to start with a frame, or known to be malformed, no
/// bytes that follow change that.
pub proof fn lemma_decode_extend(bytes: Seq<u8>, rest: Seq<u8>)
    ensures
        !(decode(bytes) is Incomplete) ==> decode(bytes + rest) == decode(bytes),
    decreases bytes.len(), 0nat,
{
    let longer = bytes + rest;
    if bytes.len() > 0 {
        assert(longer[0] == bytes[0]);
        if is_type_byte(bytes[0]) && has_line(bytes, 1) {
            let end = line_end(bytes, 1);
            let next = end + 2;
            assert(line_ends_at(bytes, 1, end));
            lemma_line_extend(bytes, rest, 1, end);
            lemma_line_end(longer, 1, end);
            assert(longer.subrange(1, end) =~= bytes.subrange(1, end));
            match parse_i64(bytes.subrange(1, end)) {
                Some(n) => {
                    if bytes[0] == 36 && n >= 0 && bytes.len() >= next + n + 2 {
                        assert(longer[next + n] == bytes[next + n]);
                        assert(longer[next + n + 1] == bytes[next + n + 1]);
                        assert(longer.subrange(next, next + n) =~= bytes.subrange(
                            next,
                            next + n,
                        ));
                    }
                    if bytes[0] == 42 && n >= 0 {
                        assert(longer.skip(next) =~= bytes.skip(next) + rest);
                        lemma_decode_seq_extend(bytes.skip(next), rest, n as nat);
                    }
                },
                None => {},
            }
        }
    }
}

/// The same, where several frames are due.
pub proof fn lemma_decode_seq_extend(bytes: Seq<u8>, rest: Seq<u8>, count: nat)
    ensures
        !(decode_seq(bytes, count) is Incomplete) ==> decode_seq(bytes + rest, count)
            == decode_seq(bytes, count),
    decreases bytes.len(), count + 1,
{
    if count > 0 {
        lemma_decode_extend(bytes, rest);
        lemma_decode_len(bytes);
        match decode(bytes) {
            Decoded::Complete { frame, len } => {
                assert((bytes + rest).skip(len) =~= bytes.skip(len) + rest);
                lemma_decode_seq_extend(bytes.skip(len), rest, (count - 1) as nat);
            },
            _ => {},
        }
    }
}

/// A header of one type byte, a line without a terminator in it, and a
/// terminator is read as that line, whatever follows.
pub proof fn lemma_header_line(tag: u8, line: Seq<u8>, rest: Seq<u8>)
    requires
        line_safe(line),
    ensures
        line_ends_at(seq![tag] + line + terminator() + rest, 1, 1 + line.len() as int),
        (seq![tag] + line + terminator() + rest).subrange(1, 1 + line.len() as int) == line,
        (seq![tag] + line + terminator() + rest).skip(3 + line.len() as int) == rest,
{
    let bytes = seq![tag] + line + terminator() + rest;
    assert forall|j: int| 1 <= j < 1 + line.len() as int implies !terminator_at(bytes, j) by {
        assert(bytes[j] == line[j - 1]);
        if j < line.len() {
            assert(bytes[j + 1] == line[j]);
            assert(!terminator_at(line, j - 1));
        } else {
            assert(bytes[j + 1] == 13);
        }
    }
    assert(bytes[1 + line.len() as int] == 13);
    assert(bytes[2 + line.len() as int] == 10);
    assert(bytes.subrange(1, 1 + line.len() as int) =~= line);
    assert(bytes.skip(3 + line.len() as int) =~= rest);
}

/// A canonical numeral holds no terminator, and is read as its number.
pub proof fn lemma_numeral_line(n: int)
    ensures
        line_safe(decimal(n)),
        i64::MIN <= n <= i64::MAX ==> parse_i64(decimal(n)) == Some(n as i64),
{
    crate::decimal::lemma_decimal_bytes(n);
    crate::decimal::lemma_parse_decimal_of_decimal(n);
    assert forall|i: int| !terminator_at(decimal(n), i) by {
        if 0 <= i && i + 1 < decimal(n).len() {
            assert(is_digit(decimal(n)[i]) || decimal(n)[i] == 45);
        }
    }
}

/// Round trip of a simple string and of an error.
proof fn lemma_round_trip_text(tag: u8, text: Seq<char>)
    requires
        tag == 43 || tag == 45,
        line_safe(encode_utf8(text)),
    ensures
        decode(seq![tag] + encode_utf8(text) + terminator()) == (Decoded::Complete {
            frame: if tag == 43 {
                FrameView::Simple(text)
            } else {
                FrameView::Error(text)
            },
            len: (seq![tag] + encode_utf8(text) + terminator()).len() as int,
        }),
{
    broadcast use {encode_utf8_valid_utf8, encode_utf8_decode_utf8};

    let line = encode_utf8(text);
    let bytes = seq![tag] + line + terminator();
    lemma_header_line(tag, line, Seq::empty());
    assert(bytes =~= seq![tag] + line + terminator() + Seq::<u8>::empty());
    lemma_line_end(bytes, 1, 1 + line.len() as int);
    assert(bytes[0] == tag);
}

/// Round trip of an integer.
proof fn lemma_round_trip_integer(value: i64)
    ensures
        decode(encode_frame(FrameView::Integer(value))) == (Decoded::Complete {
            frame: FrameView::Integer(value),
            len: encode_frame(FrameView::Integer(value)).len() as int,
        }),
{
    let line = decimal(value as int);
    let bytes = encode_frame(FrameView::Integer(value));
    lemma_numeral_line(value as int);
    lemma_header_line(58, line, Seq::empty());
    assert(bytes =~= seq![58u8] + line + terminator() + Seq::<u8>::empty());
    lemma_line_end(bytes, 1, 1 + line.len() as int);
    assert(bytes[0] == 58);
}

/// Round trip of a bulk value.
proof fn lemma_round_trip_bulk(data: Seq<u8>)
    requires
        data.len() <= i64::MAX,
    ensures
        decode(encode_frame(FrameView::Bulk(data))) == (Decoded::Complete {
            frame: FrameView::Bulk(data),
            len: encode_frame(FrameView::Bulk(data)).len() as int,
        }),
{
    let n = data.len() as int;
    let line = decimal(n);
    let rest = data + terminator();
    let bytes = encode_frame(FrameView::Bulk(data));
    lemma_numeral_line(n);
    lemma_header_line(36, line, rest);
    assert(bytes =~= seq![36u8] + line + terminator() + rest);
    lemma_line_end(bytes, 1, 1 + line.len() as int);
    let next = 3 + line.len() as int;
    assert(bytes[0] == 36);
    assert(bytes.skip(next) == rest);
    assert(bytes[next + n] == rest[n]);
    assert(bytes[next + n + 1] == rest[n + 1]);
    assert(bytes.subrange(next, next + n) =~= data);
}

/// Round trip of null.
proof fn lemma_round_trip_null()
    ensures
        decode(encode_frame(FrameView::Null)) == (Decoded::Complete {
            frame: FrameView::Null,
            len: 5,
        }),
{
    let line = seq![45u8, 49u8];
    let bytes = encode_frame(FrameView::Null);
    let digit = line.skip(1);
    assert(digit.drop_last() =~= Seq::<u8>::empty());
    assert(digits_value(digit.drop_last()) == 0);
    assert(digits_value(digit) == 1);
    assert(all_digits(digit));
    assert(parse_decimal(line) == Some(-1int));
    assert(parse_i64(line) == Some(-1i64));
    assert(line_safe(line));
    lemma_header_line(36, line, Seq::empty());
    assert(bytes =~= seq![36u8] + line + terminator() + Seq::<u8>::empty());
    lemma_line_end(bytes, 1, 3);
    assert(bytes[0] == 36);
}

/// Round trip: a representable frame is decoded from its own bytes, all of
/// which are used.
pub proof fn lemma_round_trip(frame: FrameView)
    requires
        representable(frame),
    ensures
        decode(encode_frame(frame)) == (Decoded::Complete {
            frame,
            len: encode_frame(frame).len() as int,
        }),
    decreases frame,
{
    match frame {
        FrameView::Simple(text) => {
            lemma_round_trip_text(43, text);
        },
        FrameView::Error(text) => {
            lemma_round_trip_text(45, text);
        },
        FrameView::Integer(value) => {
            lemma_round_trip_integer(value);
        },
        FrameView::Bulk(data) => {
            lemma_round_trip_bulk(data);
        },
        FrameView::Null => {
            lemma_round_trip_null();
        },
        FrameView::Array(items) => {
            let bytes = encode_frame(frame);
            let line = decimal(items.len() as int);
            let rest = encode_frames(items);
            lemma_numeral_line(items.len() as int);
            lemma_header_line(42, line, rest);
            assert(bytes =~= seq![42u8] + line + terminator() + rest);
            lemma_line_end(bytes, 1, 1 + line.len() as int);
            assert(bytes[0] == 42);
            lemma_round_trip_seq(items);
        },
    }
}

/// Round trip of several frames written one after the other.
pub proof fn lemma_round_trip_seq(frames: Seq<FrameView>)
    requires
        forall|i: int| 0 <= i < frames.len() ==> representable(#[trigger] frames[i]),
    ensures
        decode_seq(encode_frames(frames), frames.len()) == (DecodedSeq::Complete {
            frames,
            len: encode_frames(frames).len() as int,
        }),
    decreases frames,
{
    if frames.len() > 0 {
        let first = encode_frame(frames[0]);
        let others = frames.drop_first();
        let rest = encode_frames(others);
        lemma_round_trip(frames[0]);
        lemma_decode_extend(first, rest);
        lemma_decode_len(first);
        assert((first + rest).skip(first.len() as int) =~= rest);
        assert forall|i: int| 0 <= i < others.len() implies representable(
            #[trigger] others[i],
        ) by {
            assert(others[i] == frames[i + 1]);
        }
        lemma_round_trip_seq(others);
        assert(seq![frames[0]] + others =~= frames);
    } else {
        assert(frames =~= Seq::<FrameView>::empty());
    }
}

/// Writing one more frame appends its bytes.
pub proof fn lemma_encode_frames_push(frames: Seq<FrameView>, frame: FrameView)
    ensures
        encode_frames(frames.push(frame)) == encode_frames(frames) + encode_frame(frame),
    decreases frames.len(),
{
    let longer = frames.push(frame);
    if frames.len() == 0 {
        assert(longer.drop_first() =~= Seq::<FrameView>::empty());
        assert(encode_frames(longer.drop_first()) =~= Seq::<u8>::empty());
        assert(encode_frames(longer) =~= encode_frame(frame));
        assert(encode_frames(frames) =~= Seq::<u8>::empty());
    } else {
        lemma_encode_frames_push(frames.drop_first(), frame);
        assert(longer.drop_first() =~= frames.drop_first().push(frame));
        assert(longer[0] == frames[0]);
    }
}

/// A frame is decoded from its own bytes alone: the first `len` bytes, cut
/// off from what follows, decode to the same frame.
pub proof fn lemma_decode_prefix(bytes: Seq<u8>)
    requires
        decode(bytes) is Complete,
    ensures
        decode(bytes.take(decode(bytes)->len)) == decode(bytes),
    decreases bytes.len(), 0nat,
{
    lemma_decode_len(bytes);
    let len = decode(bytes)->len;
    let front = bytes.take(len);
    let end = line_end(bytes, 1);
    let next = end + 2;
    assert(line_ends_at(bytes, 1, end));
    assert(front[0] == bytes[0]);
    assert(next <= len) by {
        match parse_i64(bytes.subrange(1, end)) {
            Some(n) => {
                if bytes[0] == 42 && n >= 0 {
                    lemma_decode_seq_len(bytes.skip(next), n as nat);
                }
            },
            None => {},
        }
    }
    assert(line_ends_at(front, 1, end)) by {
        assert(front[end] == bytes[end]);
        assert(front[end + 1] == bytes[end + 1]);
        assert forall|j: int| 1 <= j < end implies !terminator_at(front, j) by {
            assert(!terminator_at(bytes, j));
            assert(front[j] == bytes[j]);
            assert(front[j + 1] == bytes[j + 1]);
        }
    }
    lemma_line_end(front, 1, end);
    assert(front.subrange(1, end) =~= bytes.subrange(1, end));
    match parse_i64(bytes.subrange(1, end)) {
        Some(n) => {
            if bytes[0] == 36 && n >= 0 {
                assert(front[next + n] == bytes[next + n]);
                assert(front[next + n + 1] == bytes[next + n + 1]);
                assert(front.subrange(next, next + n) =~= bytes.subrange(next, next + n));
            }
            if bytes[0] == 42 && n >= 0 {
                let used = decode_seq(bytes.skip(next), n as nat)->len;
                lemma_decode_seq_prefix(bytes.skip(next), n as nat);
                assert(front.skip(next) =~= bytes.skip(next).take(used));
            }
        },
        None => {},
    }
}

/// The same, where several frames are due.
pub proof fn lemma_decode_seq_prefix(bytes: Seq<u8>, count: nat)
    requires
        decode_seq(bytes, count) is Complete,
    ensures
        decode_seq(bytes.take(decode_seq(bytes, count)->len), count) == decode_seq(bytes, count),
    decreases bytes.len(), count + 1,
{
    lemma_decode_seq_len(bytes, count);
    let len = decode_seq(bytes, count)->len;
    if count == 0 {
        assert(bytes.take(len).len() == 0);
    } else {
        lemma_decode_len(bytes);
        let first = decode(bytes)->len;
        let rest = bytes.skip(first);
        let more = decode_seq(rest, (count - 1) as nat)->len;
        lemma_decode_seq_len(rest, (count - 1) as nat);
        lemma_decode_prefix(bytes);
        lemma_decode_seq_prefix(rest, (count - 1) as nat);
        let front = bytes.take(len);
        assert(front =~= bytes.take(first) + rest.take(more));
        lemma_decode_extend(bytes.take(first), rest.take(more));
        assert(front.skip(first) =~= rest.take(more));
    }
}

} // verus!
