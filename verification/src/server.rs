//! The decisions of a server's connection handler.
//!
//! A handler owns one [`Connection`](crate::connection::Connection) and shares
//! the store with all others. It reads a step, asks [`process`] what to do,
//! and does it: the store is touched in one place only, the call of
//! [`Store::apply`] for a [`Turn::Execute`], and every other turn leaves it
//! alone, so that a connection that fails harms no other.

use crate::command::{parse_request, Command, CommandView, Unsupported};
use crate::connection::{ConnectionError, ReadStep, ReadStepView};
use crate::frame::{Frame, FrameView};
use crate::store::{apply_spec, Store};
use crate::wire::{representable, terminator_at};
use vstd::prelude::*;
use vstd::utf8::{encode_utf8, is_ascii_chars, is_ascii_chars_encode_utf8};

verus! {

/// What a handler does after one step of reading.
#[derive(Debug, PartialEq, Eq)]
pub enum Turn {
    /// Carry out the command on the store, holding its lock for that call
    /// alone; send the answer once the lock is released; read on.
    Execute(Command),
    /// Send this error frame, then close the connection.
    Refuse(Frame),
    /// Read from the stream once more.
    Read,
    /// The peer has closed the stream between two frames: end the handler.
    Finished,
    /// The connection has failed: end the handler.
    Failed(ConnectionError),
}

/// The mathematical value of a [`Turn`].
pub enum TurnView {
    Execute(CommandView),
    Refuse(FrameView),
    Read,
    Finished,
    Failed(ConnectionError),
}

impl View for Turn {
    type V = TurnView;

    open spec fn view(&self) -> TurnView {
        match self {
            Turn::Execute(command) => TurnView::Execute(command@),
            Turn::Refuse(frame) => TurnView::Refuse(frame@),
            Turn::Read => TurnView::Read,
            Turn::Finished => TurnView::Finished,
            Turn::Failed(error) => TurnView::Failed(*error),
        }
    }
}

/// The text of a refusal.
pub open spec fn refusal_text() -> Seq<char> {
    "ERR unsupported command"@
}

/// The error frame that answers a frame which is no command.
pub open spec fn refusal() -> FrameView {
    FrameView::Error(refusal_text())
}

/// The turn that follows a step of reading: a frame that is a command is
/// carried out, any other frame is refused, and the end or the failure of
/// the stream ends the handler.
pub open spec fn turn_of(step: ReadStepView) -> TurnView {
    match step {
        ReadStepView::Frame(frame) => match parse_request(frame) {
            Some(command) => TurnView::Execute(command),
            None => TurnView::Refuse(refusal()),
        },
        ReadStepView::NeedBytes => TurnView::Read,
        ReadStepView::EndOfStream => TurnView::Finished,
        ReadStepView::Failed(error) => TurnView::Failed(error),
    }
}

/// The error frame that answers a frame which is no command.
pub fn refuse() -> (answer: Frame)
    ensures
        answer@ == refusal(),
{
    Frame::Error("ERR unsupported command".to_owned())
}

/// Decides what a handler does after a step of reading.
pub fn process(step: ReadStep) -> (turn: Turn)
    ensures
        turn@ == turn_of(step@),
{
    match step {
        ReadStep::Frame(frame) => match Command::from_frame(frame) {
            Ok(command) => Turn::Execute(command),
            Err(Unsupported) => Turn::Refuse(refuse()),
        },
        ReadStep::NeedBytes => Turn::Read,
        ReadStep::EndOfStream => Turn::Finished,
        ReadStep::Failed(error) => Turn::Failed(error),
    }
}

/// What a server makes of one request frame: the store afterwards, the frame
/// it answers with, and whether it then closes the connection.
pub open spec fn serve_spec(store: Map<Seq<char>, Seq<u8>>, request: FrameView) -> (
    Map<Seq<char>, Seq<u8>>,
    FrameView,
    bool,
) {
    match parse_request(request) {
        Some(command) => (apply_spec(store, command).0, apply_spec(store, command).1, false),
        None => (store, refusal(), true),
    }
}

/// Answers one request frame on `store`: the whole of a handler's work on a
/// frame, for a caller that has the store to itself. The second part of the
/// result tells whether the connection is to be closed after the answer.
pub fn serve(store: &mut Store, request: Frame) -> (served: (Frame, bool))
    ensures
        (final(store)@, served.0@, served.1) == serve_spec(old(store)@, request@),
{
    match Command::from_frame(request) {
        Ok(command) => (store.apply(command), false),
        Err(Unsupported) => (refuse(), true),
    }
}

/// A failure stays with its connection: only a whole frame that is a
/// command leads to the store, and every other step of reading, the
/// failure of the stream among them, leaves the store alone.
pub proof fn lemma_only_commands_reach_the_store(step: ReadStepView)
    ensures
        turn_of(step) is Execute <==> (step is Frame && parse_request(step->Frame_0) is Some),
        step matches ReadStepView::Failed(error) ==> turn_of(step) == TurnView::Failed(error),
{
}

/// The refusal is a frame that the wire can carry.
pub proof fn lemma_refusal_is_representable()
    ensures
        representable(refusal()),
{
    reveal_strlit("ERR unsupported command");
    let text = refusal_text();
    assert(text.len() == 23);
    assert(is_ascii_chars(text)) by {
        assert forall|i: int| 0 <= i < text.len() implies '\0' <= #[trigger] text[i]
            <= '\u{7f}' by {
            assert(text[i] != '\r' && text[i] != '\n');
        }
    }
    is_ascii_chars_encode_utf8(text);
    let bytes = encode_utf8(text);
    assert forall|i: int| !terminator_at(bytes, i) by {
        if 0 <= i && i + 1 < bytes.len() {
            assert(text[i] != '\r');
            assert(bytes[i] == text[i] as u8);
        }
    }
}

} // verus!
