//! WebSocket messages as the server receives them, and the text that one carries.
use tokio_tungstenite::tungstenite::protocol::frame::{CloseFrame, Frame, FrameHeader};
use tokio_tungstenite::tungstenite::{Error, Message};
use vstd::prelude::*;
use vstd::utf8::*;

verus! {

/// A message as `tungstenite` has it, opaque here.
#[verifier::external_type_specification]
#[verifier::external_body]
pub struct ExMessage(tokio_tungstenite::tungstenite::Message);

/// The errors of `tungstenite`, opaque here.
#[verifier::external_type_specification]
#[verifier::external_body]
pub struct ExError(tokio_tungstenite::tungstenite::Error);

/// Why a connection is being closed.
#[derive(Debug)]
pub struct CloseReason {
    pub code: u16,
    pub reason: String,
}

/// A WebSocket message.
#[derive(Debug)]
pub enum WsMessage {
    Text(String),
    Binary(Vec<u8>),
    Ping(Vec<u8>),
    Pong(Vec<u8>),
    Close(Option<CloseReason>),
    Frame(Vec<u8>),
}

/// The text that `bytes` encode, if they are valid UTF-8.
pub open spec fn utf8_text(bytes: Seq<u8>) -> Option<Seq<char>> {
    if valid_utf8(bytes) {
        Some(decode_utf8(bytes))
    } else {
        None
    }
}

/// The text that a message carries, if it carries one: its own text, its payload where that is
/// valid UTF-8, or the reason of a closing message, which is empty where none is given.
pub open spec fn text_of(msg: WsMessage) -> Option<Seq<char>> {
    match msg {
        WsMessage::Text(text) => Some(text@),
        WsMessage::Binary(data) => utf8_text(data@),
        WsMessage::Ping(data) => utf8_text(data@),
        WsMessage::Pong(data) => utf8_text(data@),
        WsMessage::Close(None) => Some(Seq::empty()),
        WsMessage::Close(Some(frame)) => Some(frame.reason@),
        WsMessage::Frame(data) => utf8_text(data@),
    }
}

/// Calls `tungstenite::Message::into_text` on the message that `msg` describes.
///
/// Trusted: the text of a text message and the reason of a closing message come back as they are,
/// a missing reason as the empty text, and any other payload as the text that its bytes encode in
/// UTF-8; the call fails exactly on a payload that is not valid UTF-8.
#[verifier::external_body]
fn into_text(msg: &WsMessage) -> (text: Result<String, Error>)
    ensures
        match text {
            Ok(text) => text_of(*msg) == Some(text@),
            Err(_) => text_of(*msg) is None,
        },
{
    let msg = match msg {
        WsMessage::Text(text) => Message::Text(text.clone()),
        WsMessage::Binary(data) => Message::Binary(data.clone()),
        WsMessage::Ping(data) => Message::Ping(data.clone()),
        WsMessage::Pong(data) => Message::Pong(data.clone()),
        WsMessage::Close(None) => Message::Close(None),
        WsMessage::Close(Some(CloseReason { code, reason })) => Message::Close(
            Some(CloseFrame { code: (*code).into(), reason: reason.clone().into() }),
        ),
        WsMessage::Frame(data) => Message::Frame(
            Frame::from_payload(FrameHeader::default(), data.clone()),
        ),
    };
    msg.into_text()
}

impl WsMessage {
    /// The text that the message carries, if it carries one.
    pub fn text(&self) -> (text: Option<String>)
        ensures
            match text {
                Some(text) => text_of(*self) == Some(text@),
                None => text_of(*self) is None,
            },
    {
        match into_text(self) {
            Ok(text) => Some(text),
            Err(_) => None,
        }
    }
}

} // verus!
