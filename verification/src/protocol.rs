//! The signalling protocol: what peers say to the server and what the server says to peers.
use crate::text;
use vstd::prelude::*;

verus! {

/// The id under which the media server (MCU) registers.
pub const MCU: u32 = 999;

/// What follows `prefix` and one more character in `message`. The character may be any that takes
/// a single byte; where there is none, or it takes several bytes, nothing follows.
pub open spec fn payload(message: Seq<char>, prefix: Seq<char>) -> Option<Seq<char>> {
    if prefix.len() < message.len() && (message[prefix.len() as int] as u32) < 128 {
        Some(message.skip(prefix.len() as int + 1))
    } else {
        None
    }
}

/// The id with which a greeting introduces a peer: the number that stands behind `Hello ` and
/// reaches up to the next space.
pub open spec fn greeting_id(text: Seq<char>) -> Option<u32> {
    if text::starts_with(text, "Hello"@) {
        match payload(text, "Hello"@) {
            Some(rest) => text::parse_number(text::before(rest, ' ')),
            None => None,
        }
    } else {
        None
    }
}

/// Whether `id` is the id of a media server: one whose decimal form begins with `999`.
pub open spec fn is_media_server(id: u32) -> bool {
    text::starts_with(text::decimal(id as nat), "999"@)
}

/// What a message of a registered peer asks for.
pub enum RequestModel {
    /// Pass `body` on to the peer `to`. Without a space behind the id there is no body.
    PeerMessage { to: u32, body: Option<Seq<char>> },
    /// Carry out `command` on the room.
    RoomCommand { command: Seq<char>, room_id: u32 },
    /// List the other peers of the sender's room.
    PeerList,
    /// Pass the message on to the media server.
    Invite,
    /// Nothing.
    Unknown,
}

/// Reads `ROOM_PEER_MSG <to> <body>`.
pub open spec fn peer_message_of(message: Seq<char>) -> Option<RequestModel> {
    match payload(message, "ROOM_PEER_MSG"@) {
        Some(rest) => match text::parse_number(text::before(rest, ' ')) {
            Some(to) => Some(RequestModel::PeerMessage { to, body: text::after(rest, ' ') }),
            None => None,
        },
        None => None,
    }
}

/// Reads `ROOM_CMD_<command> <room>`. The command begins behind the first underscore that follows
/// `ROOM_CMD`; the room ends before the next one.
pub open spec fn room_command_of(message: Seq<char>) -> Option<RequestModel> {
    match text::after(message.skip("ROOM_CMD"@.len() as int), '_') {
        Some(rest) => {
            let words = text::before(rest, '_');
            match text::after(words, ' ') {
                Some(room) => match text::parse_number(room) {
                    Some(room_id) => Some(
                        RequestModel::RoomCommand { command: text::before(words, ' '), room_id },
                    ),
                    None => None,
                },
                None => None,
            }
        },
        None => None,
    }
}

/// What `message` asks for; nothing where it begins like a request and does not go on like one.
pub open spec fn request_of(message: Seq<char>) -> Option<RequestModel> {
    if text::starts_with(message, "ROOM_PEER_MSG"@) {
        peer_message_of(message)
    } else if text::starts_with(message, "ROOM_CMD"@) {
        room_command_of(message)
    } else if text::starts_with(message, "ROOM_PEER_LIST"@) {
        Some(RequestModel::PeerList)
    } else if text::starts_with(message, "SERVER_INVITE"@) {
        Some(RequestModel::Invite)
    } else {
        Some(RequestModel::Unknown)
    }
}

/// The two commands on a room are different words.
pub proof fn lemma_commands_differ()
    ensures
        "CREATE"@ != "JOIN"@,
{
    reveal_strlit("CREATE");
    reveal_strlit("JOIN");
    assert("CREATE"@.len() != "JOIN"@.len());
}

/// What a message of a registered peer asks for.
#[derive(Debug)]
pub enum Request {
    PeerMessage { to: u32, body: Option<String> },
    RoomCommand { command: String, room_id: u32 },
    PeerList,
    Invite,
    Unknown,
}

impl View for Request {
    type V = RequestModel;

    open spec fn view(&self) -> RequestModel {
        match self {
            Request::PeerMessage { to, body } => RequestModel::PeerMessage {
                to: *to,
                body: match body {
                    Some(body) => Some(body@),
                    None => None,
                },
            },
            Request::RoomCommand { command, room_id } => RequestModel::RoomCommand {
                command: command@,
                room_id: *room_id,
            },
            Request::PeerList => RequestModel::PeerList,
            Request::Invite => RequestModel::Invite,
            Request::Unknown => RequestModel::Unknown,
        }
    }
}

/// Whether the text of `chars` goes on with a single-byte character behind `len` characters.
fn has_payload(chars: &Vec<char>, len: usize) -> (b: bool)
    ensures
        b == (len < chars@.len() && (chars@[len as int] as u32) < 128),
{
    if len < chars.len() {
        let code: u32 = chars[len] as u32;
        code < 128
    } else {
        false
    }
}

/// The id with which a greeting introduces a peer.
pub fn parse_greeting(text: &str) -> (id: Option<u32>)
    ensures
        id == greeting_id(text@),
{
    let chars: Vec<char> = text::chars_of(text);
    let hello: Vec<char> = text::chars_of("Hello");
    if !text::has_prefix(&chars, &hello) || !has_payload(&chars, hello.len()) {
        return None;
    }
    let end: usize = chars.len();
    let start: usize = hello.len() + 1;
    let space: usize = text::find(&chars, start, end, ' ');
    assert(chars@.subrange(start as int, end as int) =~= text@.skip(start as int));
    text::number_in(&chars, start, space)
}

/// Whether `id` is the id of a media server.
pub fn registers_media_server(id: u32) -> (b: bool)
    ensures
        b == is_media_server(id),
{
    let digits: Vec<char> = text::chars_of(text::decimal_text(id).as_str());
    text::has_prefix(&digits, &text::chars_of("999"))
}

/// The text of `message` from character `from` up to `to`.
fn piece(message: &str, from: usize, to: usize) -> (text: String)
    requires
        from <= to <= message@.len(),
    ensures
        text@ == message@.subrange(from as int, to as int),
{
    message.substring_char(from, to).to_owned()
}

fn parse_peer_message(message: &str, chars: &Vec<char>, prefix_len: usize) -> (request: Option<
    Request,
>)
    requires
        chars@ == message@,
        prefix_len == "ROOM_PEER_MSG"@.len(),
    ensures
        match request {
            Some(request) => peer_message_of(message@) == Some(request@),
            None => peer_message_of(message@) is None,
        },
{
    if !has_payload(chars, prefix_len) {
        return None;
    }
    let end: usize = chars.len();
    let start: usize = prefix_len + 1;
    let space: usize = text::find(chars, start, end, ' ');
    assert(chars@.subrange(start as int, end as int) =~= message@.skip(start as int));
    match text::number_in(chars, start, space) {
        Some(to) => {
            let body: Option<String> = if space < end {
                Some(piece(message, space + 1, end))
            } else {
                None
            };
            Some(Request::PeerMessage { to, body })
        },
        None => None,
    }
}

fn parse_room_command(message: &str, chars: &Vec<char>, prefix_len: usize) -> (request: Option<
    Request,
>)
    requires
        chars@ == message@,
        prefix_len == "ROOM_CMD"@.len(),
        prefix_len <= chars@.len(),
    ensures
        match request {
            Some(request) => room_command_of(message@) == Some(request@),
            None => room_command_of(message@) is None,
        },
{
    let len: usize = chars.len();
    let underscore: usize = text::find(chars, prefix_len, len, '_');
    assert(chars@.subrange(prefix_len as int, len as int) =~= message@.skip(prefix_len as int));
    if underscore == len {
        return None;
    }
    let start: usize = underscore + 1;
    let end: usize = text::find(chars, start, len, '_');
    let space: usize = text::find(chars, start, end, ' ');
    if space == end {
        return None;
    }
    match text::number_in(chars, space + 1, end) {
        Some(room_id) => Some(
            Request::RoomCommand { command: piece(message, start, space), room_id },
        ),
        None => None,
    }
}

/// What `message` asks for; nothing where it begins like a request and does not go on like one.
pub fn parse_request(message: &str) -> (request: Option<Request>)
    ensures
        match request {
            Some(request) => request_of(message@) == Some(request@),
            None => request_of(message@) is None,
        },
{
    let chars: Vec<char> = text::chars_of(message);
    let peer_message: Vec<char> = text::chars_of("ROOM_PEER_MSG");
    let room_command: Vec<char> = text::chars_of("ROOM_CMD");
    if text::has_prefix(&chars, &peer_message) {
        parse_peer_message(message, &chars, peer_message.len())
    } else if text::has_prefix(&chars, &room_command) {
        parse_room_command(message, &chars, room_command.len())
    } else if text::has_prefix(&chars, &text::chars_of("ROOM_PEER_LIST")) {
        Some(Request::PeerList)
    } else if text::has_prefix(&chars, &text::chars_of("SERVER_INVITE")) {
        Some(Request::Invite)
    } else {
        Some(Request::Unknown)
    }
}

/// Tells a peer that it has been registered.
pub open spec fn welcome() -> Seq<char> {
    "Hello"@
}

/// Tells the members of a room that a peer has left it.
pub open spec fn peer_left(id: u32) -> Seq<char> {
    "ROOM_PEER_LEFT "@ + text::decimal(id as nat)
}

/// Tells the members of a room that a peer has joined it.
pub open spec fn peer_joined(id: u32) -> Seq<char> {
    "ROOM_PEER_JOINED "@ + text::decimal(id as nat)
}

/// Hands a peer the body of another peer's message.
pub open spec fn forwarded(from: u32, body: Seq<char>) -> Seq<char> {
    "ROOM_PEER_MSG "@ + text::decimal(from as nat) + " "@ + body
}

/// Tells a sender that nobody is connected under the id it wrote to.
pub open spec fn peer_not_found(to: u32) -> Seq<char> {
    "ERROR peer "@ + text::decimal(to as nat) + " not found"@
}

/// Tells a sender that the peer it wrote to is not in its room.
pub open spec fn peer_not_present(to: u32, room_id: u32) -> Seq<char> {
    "ERROR peer "@ + text::decimal(to as nat) + " not present in room "@ + text::decimal(room_id as nat)
}

/// Asks the media server for an alias that serves a new room.
pub open spec fn alias_wanted(room_id: u32) -> Seq<char> {
    "SERVER_ALIAS "@ + text::decimal(room_id as nat)
}

/// Tells a peer that its room has been created.
pub open spec fn room_created() -> Seq<char> {
    "ROOM_OK"@
}

/// Tells a peer that it has joined a room, and who else is there.
pub open spec fn room_joined(others: Seq<u32>) -> Seq<char> {
    "ROOM_OK "@ + text::id_list(others)
}

/// Tells a peer that the room it wants to create is there already.
pub open spec fn room_exists(room_id: u32) -> Seq<char> {
    "ERROR ROOM "@ + text::decimal(room_id as nat) + " already exists"@
}

/// Tells a peer that the room it wants to join is not there.
pub open spec fn room_missing(room_id: u32) -> Seq<char> {
    "ERROR ROOM "@ + text::decimal(room_id as nat) + " does not exist"@
}

/// Tells a peer who else is in its room.
pub open spec fn room_peers(others: Seq<u32>) -> Seq<char> {
    "ROOM_PEER_LIST "@ + text::id_list(others)
}

/// `label` followed by `n` in decimal.
pub(crate) fn numbered(label: &str, n: u32) -> (text: String)
    ensures
        text@ == label@ + text::decimal(n as nat),
{
    let mut text: String = label.to_owned();
    text.append(text::decimal_text(n).as_str());
    text
}

pub fn welcome_text() -> (text: String)
    ensures
        text@ == welcome(),
{
    "Hello".to_owned()
}

pub fn peer_left_text(id: u32) -> (text: String)
    ensures
        text@ == peer_left(id),
{
    numbered("ROOM_PEER_LEFT ", id)
}

pub fn peer_joined_text(id: u32) -> (text: String)
    ensures
        text@ == peer_joined(id),
{
    numbered("ROOM_PEER_JOINED ", id)
}

pub fn forwarded_text(from: u32, body: &str) -> (text: String)
    ensures
        text@ == forwarded(from, body@),
{
    let mut text: String = numbered("ROOM_PEER_MSG ", from);
    text.append(" ");
    text.append(body);
    text
}

pub fn peer_not_found_text(to: u32) -> (text: String)
    ensures
        text@ == peer_not_found(to),
{
    let mut text: String = numbered("ERROR peer ", to);
    text.append(" not found");
    text
}

pub fn peer_not_present_text(to: u32, room_id: u32) -> (text: String)
    ensures
        text@ == peer_not_present(to, room_id),
{
    let mut text: String = numbered("ERROR peer ", to);
    text.append(" not present in room ");
    text.append(text::decimal_text(room_id).as_str());
    text
}

pub fn alias_wanted_text(room_id: u32) -> (text: String)
    ensures
        text@ == alias_wanted(room_id),
{
    numbered("SERVER_ALIAS ", room_id)
}

pub fn room_created_text() -> (text: String)
    ensures
        text@ == room_created(),
{
    "ROOM_OK".to_owned()
}

pub fn room_joined_text(others: &Vec<u32>) -> (text: String)
    ensures
        text@ == room_joined(others@),
{
    let mut text: String = "ROOM_OK ".to_owned();
    text.append(text::id_list_text(others).as_str());
    text
}

pub fn room_exists_text(room_id: u32) -> (text: String)
    ensures
        text@ == room_exists(room_id),
{
    let mut text: String = numbered("ERROR ROOM ", room_id);
    text.append(" already exists");
    text
}

pub fn room_missing_text(room_id: u32) -> (text: String)
    ensures
        text@ == room_missing(room_id),
{
    let mut text: String = numbered("ERROR ROOM ", room_id);
    text.append(" does not exist");
    text
}

pub fn room_peers_text(others: &Vec<u32>) -> (text: String)
    ensures
        text@ == room_peers(others@),
{
    let mut text: String = "ROOM_PEER_LIST ".to_owned();
    text.append(text::id_list_text(others).as_str());
    text
}

} // verus!
