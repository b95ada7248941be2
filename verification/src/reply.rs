//! Answers as a client sees them: what the frame that came back means for
//! the command that was sent, and what a producer is told.

use crate::command::{Command, CommandView};
use crate::connection::ConnectionError;
use crate::frame::{Frame, FrameView};
use crate::store::ok_text;
use vstd::prelude::*;
use vstd::slice::slice_to_vec;
use vstd::string::StringExecFns;
use vstd::utf8::encode_utf8;

verus! {

/// The result of a command that the server has carried out.
#[derive(Debug, PartialEq, Eq)]
pub enum Reply {
    /// The value under the key of a `Get`; `None` where the key is absent.
    Value(Option<Vec<u8>>),
    /// The value of a `Put` is in the store.
    Done,
}

/// Why a request has no result.
#[derive(Debug, PartialEq, Eq)]
pub enum ClientError {
    /// The server answered with an error frame of this text.
    Server(String),
    /// The server answered with a frame that is no answer to the command.
    Unexpected,
    /// The connection failed, or ended, before the answer was there.
    Connection(ConnectionError),
    /// The manager no longer serves requests.
    ManagerGone,
}

/// The mathematical value of a [`Reply`].
pub enum ReplyView {
    Value(Option<Seq<u8>>),
    Done,
}

/// The mathematical value of a [`ClientError`].
pub enum ClientErrorView {
    Server(Seq<char>),
    Unexpected,
    Connection(ConnectionError),
    ManagerGone,
}

impl View for Reply {
    type V = ReplyView;

    open spec fn view(&self) -> ReplyView {
        match self {
            Reply::Value(Some(bytes)) => ReplyView::Value(Some(bytes@)),
            Reply::Value(None) => ReplyView::Value(None),
            Reply::Done => ReplyView::Done,
        }
    }
}

impl View for ClientError {
    type V = ClientErrorView;

    open spec fn view(&self) -> ClientErrorView {
        match self {
            ClientError::Server(text) => ClientErrorView::Server(text@),
            ClientError::Unexpected => ClientErrorView::Unexpected,
            ClientError::Connection(error) => ClientErrorView::Connection(*error),
            ClientError::ManagerGone => ClientErrorView::ManagerGone,
        }
    }
}

/// The value of a result, in either case.
pub open spec fn result_view(result: Result<Reply, ClientError>) -> Result<
    ReplyView,
    ClientErrorView,
> {
    match result {
        Ok(reply) => Ok(reply@),
        Err(error) => Err(error@),
    }
}

/// What an answer frame means for the command it answers. An error frame
/// is the server's refusal, whatever the command. A `Get` is answered by a
/// bulk value or a simple string, which is the value, or by null, which is
/// its absence. A `Put` is answered by the simple string `OK`. Any other
/// frame is unexpected.
pub open spec fn reply_of(command: CommandView, answer: FrameView) -> Result<
    ReplyView,
    ClientErrorView,
> {
    match answer {
        FrameView::Error(text) => Err(ClientErrorView::Server(text)),
        FrameView::Bulk(bytes) => if command is Get {
            Ok(ReplyView::Value(Some(bytes)))
        } else {
            Err(ClientErrorView::Unexpected)
        },
        FrameView::Simple(text) => if command is Get {
            Ok(ReplyView::Value(Some(encode_utf8(text))))
        } else if text == ok_text() {
            Ok(ReplyView::Done)
        } else {
            Err(ClientErrorView::Unexpected)
        },
        FrameView::Null => if command is Get {
            Ok(ReplyView::Value(None))
        } else {
            Err(ClientErrorView::Unexpected)
        },
        _ => Err(ClientErrorView::Unexpected),
    }
}

/// Reads an answer frame as the result of `command`.
pub fn read_reply(command: &Command, answer: Frame) -> (result: Result<Reply, ClientError>)
    ensures
        result_view(result) == reply_of(command@, answer@),
{
    let get: bool = match command {
        Command::Get { .. } => true,
        Command::Put { .. } => false,
    };
    match answer {
        Frame::Error(text) => Err(ClientError::Server(text)),
        Frame::Bulk(bytes) => if get {
            Ok(Reply::Value(Some(bytes)))
        } else {
            Err(ClientError::Unexpected)
        },
        Frame::Simple(text) => if get {
            Ok(Reply::Value(Some(slice_to_vec(text.as_str().as_bytes()))))
        } else if text == String::from_str("OK") {
            Ok(Reply::Done)
        } else {
            Err(ClientError::Unexpected)
        },
        Frame::Null => if get {
            Ok(Reply::Value(None))
        } else {
            Err(ClientError::Unexpected)
        },
        _ => Err(ClientError::Unexpected),
    }
}

/// What a producer is told at the end of its wait: the result that arrived
/// on its reply channel, or `ManagerGone` where the channel was given up
/// with nothing sent on it.
pub fn outcome(waited: Option<Result<Reply, ClientError>>) -> (result: Result<Reply, ClientError>)
    ensures
        match waited {
            Some(arrived) => result == arrived,
            None => result == Err::<Reply, ClientError>(ClientError::ManagerGone),
        },
{
    match waited {
        Some(arrived) => arrived,
        None => Err(ClientError::ManagerGone),
    }
}

} // verus!
