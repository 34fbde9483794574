use server::connection::{next_action, Action, Event};
use server::message::{CloseReason, WsMessage};
use server::protocol::{
    alias_wanted_text, forwarded_text, parse_greeting, parse_request, peer_joined_text,
    peer_left_text, peer_not_found_text, peer_not_present_text, registers_media_server,
    room_created_text, room_exists_text, room_joined_text, room_missing_text, room_peers_text,
    welcome_text, Request, MCU,
};
use server::server::greeting;
use server::text::{decimal_text, find, has_prefix, id_list_text, number_in, same_text};

fn number(s: &str) -> Option<u32> {
    let chars: Vec<char> = s.chars().collect();
    let end: usize = chars.len();
    number_in(&chars, 0, end)
}

#[test]
fn numbers_are_read() {
    assert_eq!(number("0"), Some(0));
    assert_eq!(number("007"), Some(7));
    assert_eq!(number("+42"), Some(42));
    assert_eq!(number("4294967295"), Some(u32::MAX));
    assert_eq!(number("4294967296"), None);
    assert_eq!(number("99999999999999999999999999"), None);
    assert_eq!(number(""), None);
    assert_eq!(number("+"), None);
    assert_eq!(number("-1"), None);
    assert_eq!(number("++1"), None);
    assert_eq!(number(" 1"), None);
    assert_eq!(number("1 "), None);
    assert_eq!(number("1_000"), None);
    assert_eq!(number("\u{0661}"), None);
}

#[test]
fn numbers_are_read_like_the_standard_library_reads_them() {
    let samples = ["", "+", "-", "0", "00", "+0", "-0", "12", "1a", "a1", "4294967295",
        "4294967296", "+4294967295", "042", " 4", "4 ", "\u{00b2}", "3\u{0301}"];
    for sample in samples {
        assert_eq!(number(sample), sample.parse::<u32>().ok(), "{:?}", sample);
    }
}

#[test]
fn decimal_form_reads_back() {
    for n in [0u32, 1, 9, 10, 99, 100, 999, 1000, 65536, 123456789, u32::MAX] {
        assert_eq!(decimal_text(n), n.to_string());
        assert_eq!(number(&decimal_text(n)), Some(n));
    }
}

#[test]
fn lists_of_ids() {
    assert_eq!(id_list_text(&vec![]), "");
    assert_eq!(id_list_text(&vec![7]), "7");
    assert_eq!(id_list_text(&vec![7, 0, 12]), "7 0 12");
}

#[test]
fn texts_are_compared_and_searched() {
    assert!(same_text("JOIN", "JOIN"));
    assert!(!same_text("JOIN", "JOINT"));
    assert!(!same_text("JOIN", "JOIM"));
    let chars: Vec<char> = "a b c".chars().collect();
    assert_eq!(find(&chars, 0, 5, ' '), 1);
    assert_eq!(find(&chars, 2, 5, ' '), 3);
    assert_eq!(find(&chars, 4, 5, ' '), 5);
    assert!(has_prefix(&chars, &"a ".chars().collect()));
    assert!(!has_prefix(&chars, &"b".chars().collect()));
}

#[test]
fn greetings() {
    assert_eq!(parse_greeting("Hello 42"), Some(42));
    assert_eq!(parse_greeting("Hello 42 and more"), Some(42));
    assert_eq!(parse_greeting("Hello +42"), Some(42));
    assert_eq!(parse_greeting("Hello-42"), Some(42));
    assert_eq!(parse_greeting("Hello"), None);
    assert_eq!(parse_greeting("Hello "), None);
    assert_eq!(parse_greeting("Hello  42"), None);
    assert_eq!(parse_greeting("Hello\u{e9}42"), None);
    assert_eq!(parse_greeting("Hello 4294967296"), None);
    assert_eq!(parse_greeting("hello 42"), None);
    assert_eq!(parse_greeting(""), None);
}

#[test]
fn media_servers_have_ids_that_begin_with_999() {
    assert!(registers_media_server(MCU));
    assert!(registers_media_server(9990));
    assert!(registers_media_server(999123));
    assert!(!registers_media_server(99));
    assert!(!registers_media_server(1999));
    assert!(!registers_media_server(998));
}

#[test]
fn peer_messages_are_read() {
    match parse_request("ROOM_PEER_MSG 12 {\"sdp\": \"v=0 \"}") {
        Some(Request::PeerMessage { to, body }) => {
            assert_eq!(to, 12);
            assert_eq!(body, Some("{\"sdp\": \"v=0 \"}".to_string()));
        }
        other => panic!("{:?}", other),
    }
    match parse_request("ROOM_PEER_MSG 12 ") {
        Some(Request::PeerMessage { to, body }) => {
            assert_eq!(to, 12);
            assert_eq!(body, Some(String::new()));
        }
        other => panic!("{:?}", other),
    }
    assert!(matches!(
        parse_request("ROOM_PEER_MSG 12"),
        Some(Request::PeerMessage { to: 12, body: None })
    ));
    assert!(matches!(
        parse_request("ROOM_PEER_MSG:12"),
        Some(Request::PeerMessage { to: 12, body: None })
    ));
    assert!(parse_request("ROOM_PEER_MSG").is_none());
    assert!(parse_request("ROOM_PEER_MSG ").is_none());
    assert!(parse_request("ROOM_PEER_MSG twelve hi").is_none());
    assert!(parse_request("ROOM_PEER_MSG\u{e9}12 hi").is_none());
}

#[test]
fn a_forwarded_message_reads_like_a_request_to_write_back() {
    let text = forwarded_text(31, "h\u{e9} llo _ 5");
    assert_eq!(text, "ROOM_PEER_MSG 31 h\u{e9} llo _ 5");
    match parse_request(&text) {
        Some(Request::PeerMessage { to, body }) => {
            assert_eq!(to, 31);
            assert_eq!(body, Some("h\u{e9} llo _ 5".to_string()));
        }
        other => panic!("{:?}", other),
    }
}

fn command(message: &str) -> Option<(String, u32)> {
    match parse_request(message) {
        Some(Request::RoomCommand { command, room_id }) => Some((command, room_id)),
        None => None,
        other => panic!("{:?}", other),
    }
}

#[test]
fn room_commands_are_read() {
    assert_eq!(command("ROOM_CMD_CREATE 5"), Some(("CREATE".to_string(), 5)));
    assert_eq!(command("ROOM_CMD_JOIN 5"), Some(("JOIN".to_string(), 5)));
    assert_eq!(command("ROOM_CMD_JOIN 5_and the rest"), Some(("JOIN".to_string(), 5)));
    assert_eq!(command("ROOM_CMDS are_JOIN +5"), Some(("JOIN".to_string(), 5)));
    assert_eq!(command("ROOM_CMD_DANCE 1"), Some(("DANCE".to_string(), 1)));
    assert_eq!(command("ROOM_CMD_ 1"), Some((String::new(), 1)));
    assert_eq!(command("ROOM_CMD"), None);
    assert_eq!(command("ROOM_CMD JOIN 5"), None);
    assert_eq!(command("ROOM_CMD_JOIN"), None);
    assert_eq!(command("ROOM_CMD_JOIN "), None);
    assert_eq!(command("ROOM_CMD_JOIN 5 6"), None);
    assert_eq!(command("ROOM_CMD_JOIN x"), None);
}

#[test]
fn other_messages_are_read() {
    assert!(matches!(parse_request("ROOM_PEER_LIST"), Some(Request::PeerList)));
    assert!(matches!(parse_request("ROOM_PEER_LIST please"), Some(Request::PeerList)));
    assert!(matches!(parse_request("SERVER_INVITE 4"), Some(Request::Invite)));
    assert!(matches!(parse_request("ROOM_PEER"), Some(Request::Unknown)));
    assert!(matches!(parse_request(""), Some(Request::Unknown)));
}

#[test]
fn what_the_server_says() {
    assert_eq!(welcome_text(), "Hello");
    assert_eq!(peer_left_text(4), "ROOM_PEER_LEFT 4");
    assert_eq!(peer_joined_text(4), "ROOM_PEER_JOINED 4");
    assert_eq!(peer_not_found_text(4), "ERROR peer 4 not found");
    assert_eq!(peer_not_present_text(4, 7), "ERROR peer 4 not present in room 7");
    assert_eq!(alias_wanted_text(7), "SERVER_ALIAS 7");
    assert_eq!(room_created_text(), "ROOM_OK");
    assert_eq!(room_joined_text(&vec![4, 5]), "ROOM_OK 4 5");
    assert_eq!(room_joined_text(&vec![]), "ROOM_OK ");
    assert_eq!(room_exists_text(7), "ERROR ROOM 7 already exists");
    assert_eq!(room_missing_text(7), "ERROR ROOM 7 does not exist");
    assert_eq!(room_peers_text(&vec![4, 5]), "ROOM_PEER_LIST 4 5");
}

#[test]
fn text_of_a_message() {
    let text = "Hello \u{e9}".to_string();
    let bytes = text.clone().into_bytes();
    assert_eq!(WsMessage::Text(text.clone()).text(), Some(text.clone()));
    assert_eq!(WsMessage::Binary(bytes.clone()).text(), Some(text.clone()));
    assert_eq!(WsMessage::Ping(bytes.clone()).text(), Some(text.clone()));
    assert_eq!(WsMessage::Pong(bytes.clone()).text(), Some(text.clone()));
    assert_eq!(WsMessage::Frame(bytes).text(), Some(text.clone()));
    assert_eq!(WsMessage::Close(None).text(), Some(String::new()));
    let close = CloseReason { code: 1000, reason: text.clone() };
    assert_eq!(WsMessage::Close(Some(close)).text(), Some(text));
}

#[test]
fn a_payload_that_is_not_utf8_has_no_text() {
    let bytes = vec![0xc3u8, 0x28];
    assert_eq!(WsMessage::Binary(bytes.clone()).text(), None);
    assert_eq!(WsMessage::Ping(bytes.clone()).text(), None);
    assert_eq!(WsMessage::Pong(bytes.clone()).text(), None);
    assert_eq!(WsMessage::Frame(bytes).text(), None);
}

#[test]
fn greetings_come_in_any_message_that_has_text() {
    assert_eq!(greeting(&WsMessage::Text("Hello 3".to_string())), Some(3));
    assert_eq!(greeting(&WsMessage::Binary(b"Hello 3".to_vec())), Some(3));
    assert_eq!(greeting(&WsMessage::Binary(vec![0xff])), None);
    assert_eq!(greeting(&WsMessage::Close(None)), None);
}

#[test]
fn only_text_is_handled() {
    match next_action(Event::Received(WsMessage::Text("ROOM_PEER_LIST".to_string()))) {
        Action::Handle(text) => assert_eq!(text, "ROOM_PEER_LIST"),
        other => panic!("{:?}", other),
    }
    let binary = Event::Received(WsMessage::Binary(b"ROOM_PEER_LIST".to_vec()));
    assert!(matches!(next_action(binary), Action::Wait));
    assert!(matches!(next_action(Event::Received(WsMessage::Close(None))), Action::Wait));
    assert!(matches!(next_action(Event::Queued), Action::Write));
}

#[test]
fn only_failure_costs_the_registration() {
    assert!(matches!(next_action(Event::Failed), Action::Remove));
    assert!(matches!(next_action(Event::Finished), Action::Stop));
}

fn work(events: Vec<Event>) -> Vec<String> {
    let mut done: Vec<String> = Vec::new();
    for event in events {
        match next_action(event) {
            Action::Wait => (),
            Action::Handle(text) => done.push(text),
            Action::Write => done.push("write".to_string()),
            Action::Remove => {
                done.push("remove".to_string());
                break;
            }
            Action::Stop => {
                done.push("stop".to_string());
                break;
            }
        }
    }
    done
}

#[test]
fn messages_other_than_text_change_nothing() {
    let text = |s: &str| Event::Received(WsMessage::Text(s.to_string()));
    let plain = vec![text("a"), Event::Queued, text("b"), Event::Finished, text("c")];
    let mixed = vec![
        Event::Received(WsMessage::Ping(vec![1])),
        text("a"),
        Event::Received(WsMessage::Binary(b"a".to_vec())),
        Event::Queued,
        Event::Received(WsMessage::Close(None)),
        text("b"),
        Event::Received(WsMessage::Pong(Vec::new())),
        Event::Finished,
        text("c"),
    ];
    assert_eq!(work(plain), vec!["a", "write", "b", "stop"]);
    assert_eq!(work(mixed), vec!["a", "write", "b", "stop"]);
    let failing = vec![text("a"), Event::Failed, text("b")];
    assert_eq!(work(failing), vec!["a", "remove"]);
}
