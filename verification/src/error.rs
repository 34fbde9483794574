//! Why the server did not do what it was asked for.
use crate::protocol;
use crate::text;
use vstd::prelude::*;

verus! {

/// What a `ServerError` says.
pub enum ErrorModel {
    MissingBody,
    NotInRoom { peer: u32 },
    AlreadyInRoom { peer: u32, command: Seq<char>, room_id: u32 },
    InvalidCommand { command: Seq<char> },
    NoticeNotSent { to: u32, text: Seq<char> },
    FarewellNotSent { to: u32, text: Seq<char> },
    NotSent { to: u32, text: Seq<char> },
}

/// Why the server did not do what it was asked for.
#[derive(Debug)]
pub enum ServerError {
    /// A message to another peer has no body.
    MissingBody,
    /// The peer writes to another peer and is not in a room.
    NotInRoom { peer: u32 },
    /// The peer gives a room command and is in a room already.
    AlreadyInRoom { peer: u32, command: String, room_id: u32 },
    /// The room command is not known.
    InvalidCommand { command: String },
    /// A notice that has to reach its peer found the peer's channel closed.
    NoticeNotSent { to: u32, text: String },
    /// A notice that a peer has left found the channel of the peer that it has to reach closed.
    FarewellNotSent { to: u32, text: String },
    /// A message found the channel of its peer closed.
    NotSent { to: u32, text: String },
}

impl View for ServerError {
    type V = ErrorModel;

    open spec fn view(&self) -> ErrorModel {
        match self {
            ServerError::MissingBody => ErrorModel::MissingBody,
            ServerError::NotInRoom { peer } => ErrorModel::NotInRoom { peer: *peer },
            ServerError::AlreadyInRoom { peer, command, room_id } => ErrorModel::AlreadyInRoom {
                peer: *peer,
                command: command@,
                room_id: *room_id,
            },
            ServerError::InvalidCommand { command } => ErrorModel::InvalidCommand {
                command: command@,
            },
            ServerError::NoticeNotSent { to, text } => ErrorModel::NoticeNotSent {
                to: *to,
                text: text@,
            },
            ServerError::FarewellNotSent { to, text } => ErrorModel::FarewellNotSent {
                to: *to,
                text: text@,
            },
            ServerError::NotSent { to, text } => ErrorModel::NotSent { to: *to, text: text@ },
        }
    }
}

/// The peer that a message could not be sent to, where that is the error.
pub open spec fn not_reached(error: ErrorModel) -> Option<u32> {
    match error {
        ErrorModel::NoticeNotSent { to, text } => Some(to),
        ErrorModel::FarewellNotSent { to, text } => Some(to),
        ErrorModel::NotSent { to, text } => Some(to),
        _ => None,
    }
}

/// An error in words.
pub open spec fn described(error: ErrorModel) -> Seq<char> {
    match error {
        ErrorModel::MissingBody => "Cannot parse peer message"@,
        ErrorModel::NotInRoom { peer } => "Peer "@ + text::decimal(peer as nat)
            + " is not in a ROOM"@,
        ErrorModel::AlreadyInRoom { peer, command, room_id } => "Peer "@ + text::decimal(
            peer as nat,
        ) + " is giving CMD_ROOM_"@ + command + " but is already in ROOM "@ + text::decimal(
            room_id as nat,
        ),
        ErrorModel::InvalidCommand { command } => "Received invalid command message: "@ + command,
        ErrorModel::NoticeNotSent { to, text } => "failed to send message on channel: "@ + text,
        ErrorModel::FarewellNotSent { to, text } => "Failed to send message on channel: "@ + text,
        ErrorModel::NotSent { to, text } => "failed to send message on channel: "@ + text,
    }
}

impl ServerError {
    /// The error in words.
    pub fn describe(&self) -> (words: String)
        ensures
            words@ == described(self@),
    {
        match self {
            ServerError::MissingBody => "Cannot parse peer message".to_owned(),
            ServerError::NotInRoom { peer } => {
                let mut words: String = protocol::numbered("Peer ", *peer);
                words.append(" is not in a ROOM");
                words
            },
            ServerError::AlreadyInRoom { peer, command, room_id } => {
                let mut words: String = protocol::numbered("Peer ", *peer);
                words.append(" is giving CMD_ROOM_");
                words.append(command.as_str());
                words.append(" but is already in ROOM ");
                words.append(text::decimal_text(*room_id).as_str());
                words
            },
            ServerError::InvalidCommand { command } => {
                let mut words: String = "Received invalid command message: ".to_owned();
                words.append(command.as_str());
                words
            },
            ServerError::NoticeNotSent { to: _, text } => {
                let mut words: String = "failed to send message on channel: ".to_owned();
                words.append(text.as_str());
                words
            },
            ServerError::FarewellNotSent { to: _, text } => {
                let mut words: String = "Failed to send message on channel: ".to_owned();
                words.append(text.as_str());
                words
            },
            ServerError::NotSent { to: _, text } => {
                let mut words: String = "failed to send message on channel: ".to_owned();
                words.append(text.as_str());
                words
            },
        }
    }
}

} // verus!
