//! Requests and their answers: how a command is written as a frame, how a
//! frame is read as a command, and how an answer frame is read as the reply
//! to a command.

use crate::frame::{frame_views, lemma_frame_views, Frame, FrameView};
use crate::text::text_of;
use vstd::prelude::*;
use vstd::slice::slice_to_vec;
use vstd::utf8::{decode_utf8, encode_utf8, valid_utf8};

verus! {

/// A request. It is made once and never changed.
#[derive(Debug, PartialEq, Eq)]
pub enum Command {
    /// Asks for the value under `key`.
    Get { key: String },
    /// Sets `key` to `value`, in place of what was there. The wire calls it
    /// `SET`.
    Put { key: String, value: Vec<u8> },
}

/// The mathematical value of a [`Command`].
pub enum CommandView {
    Get { key: Seq<char> },
    Put { key: Seq<char>, value: Seq<u8> },
}

impl View for Command {
    type V = CommandView;

    open spec fn view(&self) -> CommandView {
        match self {
            Command::Get { key } => CommandView::Get { key: key@ },
            Command::Put { key, value } => CommandView::Put { key: key@, value: value@ },
        }
    }
}

/// A frame that is well formed and yet no request that this protocol knows.
#[derive(Clone, Copy, Debug, PartialEq, Eq, Structural)]
pub struct Unsupported;

/// The verb of a `Get`, as it is written: `GET`.
pub open spec fn get_verb() -> Seq<u8> {
    seq![71u8, 69u8, 84u8]
}

/// The verb of a `Put`, as it is written: `SET`.
pub open spec fn set_verb() -> Seq<u8> {
    seq![83u8, 69u8, 84u8]
}

/// An ASCII letter in upper case; any other byte as it is.
pub open spec fn upper(byte: u8) -> u8 {
    if 97 <= byte <= 122 {
        (byte - 32) as u8
    } else {
        byte
    }
}

/// `name` reads as `verb` when the case of its letters is set aside.
pub open spec fn names_verb(name: Seq<u8>, verb: Seq<u8>) -> bool {
    &&& name.len() == verb.len()
    &&& forall|i: int| 0 <= i < name.len() ==> upper(#[trigger] name[i]) == verb[i]
}

/// The frame that a command is written as: an array of bulk values, the verb
/// in upper case first, then the arguments.
pub open spec fn request_frame(command: CommandView) -> FrameView {
    match command {
        CommandView::Get { key } => FrameView::Array(
            seq![FrameView::Bulk(get_verb()), FrameView::Bulk(encode_utf8(key))],
        ),
        CommandView::Put { key, value } => FrameView::Array(
            seq![
                FrameView::Bulk(set_verb()),
                FrameView::Bulk(encode_utf8(key)),
                FrameView::Bulk(value),
            ],
        ),
    }
}

/// The command that a frame is read as, if it is one: an array of bulk
/// values that starts with a known verb, in either case, and goes on with
/// exactly the arguments of that verb, the key being UTF-8.
pub open spec fn parse_request(frame: FrameView) -> Option<CommandView> {
    match frame {
        FrameView::Array(items) => {
            if items.len() == 2 && is_request(items, get_verb()) {
                Some(CommandView::Get { key: decode_utf8(items[1]->Bulk_0) })
            } else if items.len() == 3 && is_request(items, set_verb()) {
                Some(
                    CommandView::Put {
                        key: decode_utf8(items[1]->Bulk_0),
                        value: items[2]->Bulk_0,
                    },
                )
            } else {
                None
            }
        },
        _ => None,
    }
}

/// Every item is a bulk value, the first names `verb`, and the second is a
/// key.
pub open spec fn is_request(items: Seq<FrameView>, verb: Seq<u8>) -> bool {
    &&& items.len() >= 2
    &&& forall|i: int| 0 <= i < items.len() ==> (#[trigger] items[i]) is Bulk
    &&& names_verb(items[0]->Bulk_0, verb)
    &&& valid_utf8(items[1]->Bulk_0)
}

/// Reading the frame of a command gives back that command.
pub proof fn lemma_request_round_trip(command: CommandView)
    ensures
        parse_request(request_frame(command)) == Some(command),
{
    broadcast use {vstd::utf8::encode_utf8_valid_utf8, vstd::utf8::encode_utf8_decode_utf8};

}

/// Tells whether `name` reads as `verb`, the case of letters set aside.
fn is_verb(name: &[u8], verb: &[u8]) -> (same: bool)
    ensures
        same == names_verb(name@, verb@),
{
    if name.len() != verb.len() {
        return false;
    }
    let mut i: usize = 0;
    while i < name.len()
        invariant
            i <= name.len(),
            name.len() == verb.len(),
            forall|j: int| 0 <= j < i ==> upper(#[trigger] name@[j]) == verb@[j],
        decreases name.len() - i,
    {
        let byte: u8 = name[i];
        let raised: u8 = if 97 <= byte && byte <= 122 {
            byte - 32
        } else {
            byte
        };
        if raised != verb[i] {
            return false;
        }
        i = i + 1;
    }
    true
}

impl Command {
    /// Writes the command as the frame that goes on the wire.
    pub fn to_frame(&self) -> (frame: Frame)
        ensures
            frame@ == request_frame(self@),
    {
        let mut items: Vec<Frame> = Vec::new();
        match self {
            Command::Get { key } => {
                items.push(Frame::Bulk(vec![71u8, 69u8, 84u8]));
                items.push(Frame::Bulk(slice_to_vec(key.as_str().as_bytes())));
            },
            Command::Put { key, value } => {
                items.push(Frame::Bulk(vec![83u8, 69u8, 84u8]));
                items.push(Frame::Bulk(slice_to_vec(key.as_str().as_bytes())));
                items.push(Frame::Bulk(slice_to_vec(value.as_slice())));
            },
        }
        proof {
            lemma_frame_views(items@);
            let views = frame_views(items@);
            match self {
                Command::Get { key } => {
                    assert(items@[0]@ == FrameView::Bulk(get_verb())) by {
                        assert(items@[0]->Bulk_0@ =~= get_verb());
                    }
                    assert(views =~= seq![
                        FrameView::Bulk(get_verb()),
                        FrameView::Bulk(encode_utf8(key@)),
                    ]);
                },
                Command::Put { key, value } => {
                    assert(items@[0]@ == FrameView::Bulk(set_verb())) by {
                        assert(items@[0]->Bulk_0@ =~= set_verb());
                    }
                    assert(views =~= seq![
                        FrameView::Bulk(set_verb()),
                        FrameView::Bulk(encode_utf8(key@)),
                        FrameView::Bulk(value@),
                    ]);
                },
            }
        }
        Frame::Array(items)
    }

    /// Reads a frame as a command; `Unsupported` for every frame that is
    /// none.
    pub fn from_frame(frame: Frame) -> (found: Result<Command, Unsupported>)
        ensures
            match parse_request(frame@) {
                Some(command) => found matches Ok(read) && read@ == command,
                None => found == Err::<Command, Unsupported>(Unsupported),
            },
    {
        let mut items: Vec<Frame> = match frame {
            Frame::Array(items) => items,
            _ => {
                return Err(Unsupported);
            },
        };
        proof {
            lemma_frame_views(items@);
        }
        let count: usize = items.len();
        if count != 2 && count != 3 {
            return Err(Unsupported);
        }
        let ghost views = frame_views(items@);
        let value: Option<Vec<u8>> = if count == 3 {
            match items.pop() {
                Some(Frame::Bulk(value)) => Some(value),
                _ => {
                    return Err(Unsupported);
                },
            }
        } else {
            None
        };
        let key: String = match items.pop() {
            Some(Frame::Bulk(bytes)) => match text_of(bytes.as_slice()) {
                Some(text) => {
                    proof {
                        vstd::utf8::encode_utf8_decode_utf8(text@);
                    }
                    text.to_owned()
                },
                None => {
                    return Err(Unsupported);
                },
            },
            _ => {
                return Err(Unsupported);
            },
        };
        let name: Vec<u8> = match items.pop() {
            Some(Frame::Bulk(name)) => name,
            _ => {
                return Err(Unsupported);
            },
        };
        let get: [u8; 3] = [71, 69, 84];
        let set: [u8; 3] = [83, 69, 84];
        assert(get@ =~= get_verb());
        assert(set@ =~= set_verb());
        match value {
            None => {
                if is_verb(name.as_slice(), get.as_slice()) {
                    Ok(Command::Get { key })
                } else {
                    Err(Unsupported)
                }
            },
            Some(value) => {
                if is_verb(name.as_slice(), set.as_slice()) {
                    Ok(Command::Put { key, value })
                } else {
                    Err(Unsupported)
                }
            },
        }
    }
}

} // verus!
