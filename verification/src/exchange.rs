//! One exchange from end to end: a command leaves a client as bytes, a
//! server reads them and answers on its store, and the client reads the
//! answer as its result.

use crate::command::{lemma_request_round_trip, parse_request, request_frame, CommandView};
use crate::frame::FrameView;
use crate::reply::{reply_of, ClientErrorView, ReplyView};
use crate::server::{lemma_refusal_is_representable, refusal, refusal_text, serve_spec};
use crate::store::{
    apply_all, apply_spec, leaves_key, lemma_ok_is_representable, lemma_others_leave_key,
};
use crate::wire::{decode, encode_frame, lemma_round_trip, representable, Decoded};
use vstd::prelude::*;

verus! {

/// What a server makes of the bytes of one request: the store afterwards,
/// and the bytes that it answers with. `None` where the bytes are not one
/// whole frame.
pub open spec fn serve_bytes(store: Map<Seq<char>, Seq<u8>>, request: Seq<u8>) -> Option<
    (Map<Seq<char>, Seq<u8>>, Seq<u8>),
> {
    match decode(request) {
        Decoded::Complete { frame, len } => if len == request.len() {
            Some((serve_spec(store, frame).0, encode_frame(serve_spec(store, frame).1)))
        } else {
            None
        },
        _ => None,
    }
}

/// What a client makes of the bytes of the answer to `command`. `None`
/// where the bytes are not one whole frame.
pub open spec fn read_answer(command: CommandView, answer: Seq<u8>) -> Option<
    Result<ReplyView, ClientErrorView>,
> {
    match decode(answer) {
        Decoded::Complete { frame, len } => if len == answer.len() {
            Some(reply_of(command, frame))
        } else {
            None
        },
        _ => None,
    }
}

/// What a command is expected to give on a store: a `Get` the value under
/// its key, if there is one, and a `Put` the notice that it is done.
pub open spec fn expected(store: Map<Seq<char>, Seq<u8>>, command: CommandView) -> ReplyView {
    match command {
        CommandView::Get { key } => ReplyView::Value(
            if store.contains_key(key) {
                Some(store[key])
            } else {
                None
            },
        ),
        CommandView::Put { .. } => ReplyView::Done,
    }
}

/// A command that the wire can carry, on a store whose answer to it the
/// wire can carry.
pub open spec fn carried(store: Map<Seq<char>, Seq<u8>>, command: CommandView) -> bool {
    &&& representable(request_frame(command))
    &&& representable(apply_spec(store, command).1)
}

/// An exchange over the wire does what the command does to the store
/// directly: the server reads the command that the client wrote, changes
/// the store as that command does, and the client reads from the answer
/// the result that the command is expected to give.
pub proof fn lemma_exchange_over_the_wire(store: Map<Seq<char>, Seq<u8>>, command: CommandView)
    requires
        carried(store, command),
    ensures
        serve_bytes(store, encode_frame(request_frame(command))) matches Some(served)
            && served.0 == apply_spec(store, command).0 && read_answer(command, served.1) == Some(
            Ok::<ReplyView, ClientErrorView>(expected(store, command)),
        ),
{
    lemma_round_trip(request_frame(command));
    lemma_request_round_trip(command);
    lemma_round_trip(apply_spec(store, command).1);
}

/// What was put over the wire is what a later `Get` over the wire gives,
/// whatever was done to other keys in between.
pub proof fn lemma_put_then_get_over_the_wire(
    store: Map<Seq<char>, Seq<u8>>,
    key: Seq<char>,
    value: Seq<u8>,
    between: Seq<CommandView>,
)
    requires
        representable(request_frame(CommandView::Put { key, value })),
        representable(request_frame(CommandView::Get { key })),
        forall|i: int| 0 <= i < between.len() ==> leaves_key(#[trigger] between[i], key),
    ensures
        serve_bytes(store, encode_frame(request_frame(CommandView::Put { key, value })))
            matches Some(put) && serve_bytes(
            apply_all(put.0, between),
            encode_frame(request_frame(CommandView::Get { key })),
        ) matches Some(get) && read_answer(CommandView::Get { key }, get.1) == Some(
            Ok::<ReplyView, ClientErrorView>(ReplyView::Value(Some(value))),
        ),
{
    let put = CommandView::Put { key, value };
    let get = CommandView::Get { key };
    let after = apply_all(apply_spec(store, put).0, between);
    lemma_ok_is_representable();
    lemma_exchange_over_the_wire(store, put);
    lemma_others_leave_key(apply_spec(store, put).0, between, key);
    assert(representable(FrameView::Bulk(value)));
    lemma_exchange_over_the_wire(after, get);
}

/// A frame that is no command is refused over the wire: the store stays
/// as it is, and the client reads the refusal as the server's error,
/// whatever it had asked.
pub proof fn lemma_refusal_over_the_wire(
    store: Map<Seq<char>, Seq<u8>>,
    request: FrameView,
    command: CommandView,
)
    requires
        representable(request),
        parse_request(request) is None,
    ensures
        serve_bytes(store, encode_frame(request)) matches Some(served) && served.0 == store
            && read_answer(command, served.1) == Some(
            Err::<ReplyView, ClientErrorView>(ClientErrorView::Server(refusal_text())),
        ),
{
    lemma_round_trip(request);
    lemma_refusal_is_representable();
    lemma_round_trip(refusal());
}

} // verus!
