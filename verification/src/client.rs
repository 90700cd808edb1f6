//! A client of the daemon.

use crate::protocol::{
    parse_server_line, ServerFrame, ServerFrameView, WireError, WireErrorView,
};
use crate::protocol;
use crate::text::joined_three;
use vstd::prelude::*;
use vstd::string::*;

verus! {

/// What a client meets. What the transport says is kept as its words, and a
/// frame that does not belong as the frame.
#[derive(Debug)]
pub enum ClientError {
    Io(String),
    Wire(WireError),
    Rejected { code: String, message: String },
    Unexpected(ServerFrame),
    Disconnected,
}

/// What an error of a client holds.
pub enum ClientErrorView {
    Io(Seq<char>),
    Wire(WireErrorView),
    Rejected { code: Seq<char>, message: Seq<char> },
    Unexpected(ServerFrameView),
    Disconnected,
}

impl View for ClientError {
    type V = ClientErrorView;

    open spec fn view(&self) -> ClientErrorView {
        match self {
            ClientError::Io(words) => ClientErrorView::Io(words@),
            ClientError::Wire(error) => ClientErrorView::Wire(error@),
            ClientError::Rejected { code, message } => ClientErrorView::Rejected {
                code: code@,
                message: message@,
            },
            ClientError::Unexpected(frame) => ClientErrorView::Unexpected(frame@),
            ClientError::Disconnected => ClientErrorView::Disconnected,
        }
    }
}

/// A frame that may be absent, by its view.
pub open spec fn seen_frame(frame: Option<ServerFrame>) -> Option<ServerFrameView> {
    match frame {
        Some(inner) => Some(inner@),
        None => None,
    }
}

/// What a greeting comes to: a welcome lets the client in.
pub open spec fn welcomed(reply: Option<ServerFrameView>) -> Result<(), ClientErrorView> {
    match reply {
        Some(ServerFrameView::Welcome(_)) => Ok(()),
        Some(ServerFrameView::Error { code, message }) => Err(
            ClientErrorView::Rejected { code, message },
        ),
        Some(other) => Err(ClientErrorView::Unexpected(other)),
        None => Err(ClientErrorView::Disconnected),
    }
}

/// Takes the answer to a greeting.
pub fn accept_welcome(reply: Option<ServerFrame>) -> (r: Result<(), ClientError>)
    ensures
        match welcomed(seen_frame(reply)) {
            Ok(_) => r is Ok,
            Err(error) => r is Err && r->Err_0@ == error,
        },
{
    match reply {
        Some(ServerFrame::Welcome { server_time_unix_ns: _ }) => Ok(()),
        Some(ServerFrame::Error { code, message }) => Err(ClientError::Rejected { code, message }),
        Some(other) => Err(ClientError::Unexpected(other)),
        None => Err(ClientError::Disconnected),
    }
}

/// The frame of a line that was read; none where the connection ended, which
/// is where no byte was.
pub fn next_frame(bytes: usize, line: &str) -> (r: Result<Option<ServerFrame>, ClientError>)
    ensures
        if bytes == 0 {
            r is Ok && r->Ok_0 is None
        } else {
            match protocol::server_frame(protocol::fields_of(line@)) {
                Ok(frame) => r is Ok && seen_frame(r->Ok_0) == Some(frame),
                Err(error) => r is Err && r->Err_0@ == ClientErrorView::Wire(error),
            }
        },
{
    if bytes == 0 {
        return Ok(None);
    }
    match parse_server_line(line) {
        Ok(frame) => Ok(Some(frame)),
        Err(error) => Err(ClientError::Wire(error)),
    }
}

/// Why a daemon did not let a client in, in words.
pub fn rejected_words(code: &str, message: &str) -> (r: String)
    ensures
        r@ == "CopierR rejected connection: "@ + code@ + ": "@ + message@,
{
    let mut out = joined_three("CopierR rejected connection: ", code, ": ");
    out.append(message);
    out
}

/// A client is let in by a welcome alone. An error is told with its code and its
/// words, any other frame as what does not belong, and the end of the connection
/// as that.
pub proof fn law_only_a_welcome_lets_in(reply: Option<ServerFrameView>)
    ensures
        welcomed(reply) is Ok <==> (reply matches Some(ServerFrameView::Welcome(_))),
        reply is None ==> welcomed(reply) == Err::<(), _>(ClientErrorView::Disconnected),
        reply matches Some(ServerFrameView::Error { code, message }) ==> welcomed(reply) == Err::<
            (),
            _,
        >(ClientErrorView::Rejected { code, message }),
        reply matches Some(frame) && (frame is Pong || frame is Command) ==> welcomed(reply)
            == Err::<(), _>(ClientErrorView::Unexpected(reply->Some_0)),
{
}

} // verus!
