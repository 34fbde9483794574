use futures::channel::mpsc::UnboundedReceiver;
use server::error::ServerError;
use server::message::WsMessage;
use server::model::Delivery;
use server::protocol::{parse_request, MCU};
use server::server::{Outgoing, Server};
use tokio::runtime::{Builder, Runtime};
use tokio::task::AbortHandle;
use tokio_tungstenite::tungstenite::Message;

type Inbox = UnboundedReceiver<Message>;

fn runtime() -> Runtime {
    Builder::new_current_thread().build().unwrap()
}

fn connect(server: &mut Server, rt: &Runtime, id: u32) -> (Inbox, AbortHandle) {
    let task = rt.spawn(std::future::pending::<()>());
    let watch = task.abort_handle();
    let hello = WsMessage::Text(format!("Hello {}", id));
    let addr = "127.0.0.1:4000".to_string();
    let (registered, inbox) = server.register_peer(hello, addr, task).unwrap();
    assert_eq!(registered, id);
    (inbox, watch)
}

fn join(server: &mut Server, rt: &Runtime, id: u32) -> Inbox {
    connect(server, rt, id).0
}

fn say(server: &mut Server, from: u32, message: &str) -> Result<(), ServerError> {
    assert!(server.can_handle_message(message, from), "{}: {}", from, message);
    server.handle_message(message, from)
}

fn remove(server: &mut Server, id: u32) -> Result<(), ServerError> {
    assert!(server.can_remove_peer(id));
    server.remove_peer(id)
}

fn read(inbox: &mut Inbox) -> Vec<String> {
    let mut texts: Vec<String> = Vec::new();
    while let Ok(message) = inbox.try_recv() {
        match message {
            Message::Text(text) => texts.push(text),
            other => panic!("{:?}", other),
        }
    }
    texts
}

fn is_stopped(rt: &Runtime, watch: &AbortHandle) -> bool {
    rt.block_on(async {
        tokio::task::yield_now().await;
        tokio::task::yield_now().await;
    });
    watch.is_finished()
}

fn has_ended(inbox: &mut Inbox) -> bool {
    matches!(inbox.try_recv(), Err(error) if error.is_closed())
}

fn nothing() -> Vec<String> {
    Vec::new()
}

#[test]
fn a_new_server_is_empty() {
    let server = Server::new().unwrap();
    assert!(!server.is_connected(MCU));
    assert!(!server.can_remove_peer(1));
    assert!(!server.can_handle_message("ROOM_PEER_LIST", 1));
    assert!(!server.can_handle_message("SERVER_INVITE 1", 1));
    assert!(server.can_handle_message("anything else", 1));
}

#[test]
fn a_registered_peer_is_connected_and_has_been_sent_nothing() {
    let rt = runtime();
    let mut server = Server::new().unwrap();
    let (mut inbox, watch) = connect(&mut server, &rt, 7);
    assert!(server.is_connected(7));
    assert!(!server.is_connected(8));
    assert_eq!(read(&mut inbox), nothing());
    assert!(!is_stopped(&rt, &watch));
}

#[test]
fn creating_a_room_asks_the_media_server_for_an_alias() {
    let rt = runtime();
    let mut server = Server::new().unwrap();
    let mut mcu = join(&mut server, &rt, MCU);
    let mut one = join(&mut server, &rt, 1);
    say(&mut server, 1, "ROOM_CMD_CREATE 50").unwrap();
    assert_eq!(read(&mut mcu), vec!["SERVER_ALIAS 50"]);
    assert_eq!(read(&mut one), vec!["ROOM_OK"]);
    say(&mut server, 1, "ROOM_PEER_LIST").unwrap();
    assert_eq!(read(&mut one), vec!["ROOM_PEER_LIST "]);
}

#[test]
fn a_room_is_created_only_where_the_media_server_is_connected() {
    let rt = runtime();
    let mut server = Server::new().unwrap();
    let _one = join(&mut server, &rt, 1);
    assert!(!server.can_handle_message("ROOM_CMD_CREATE 50", 1));
    assert!(server.can_handle_message("ROOM_CMD_JOIN 50", 1));
    let _mcu = join(&mut server, &rt, MCU);
    assert!(server.can_handle_message("ROOM_CMD_CREATE 50", 1));
}

#[test]
fn a_room_is_created_once() {
    let rt = runtime();
    let mut server = Server::new().unwrap();
    let mut mcu = join(&mut server, &rt, MCU);
    let mut one = join(&mut server, &rt, 1);
    let mut two = join(&mut server, &rt, 2);
    say(&mut server, 1, "ROOM_CMD_CREATE 50").unwrap();
    read(&mut mcu);
    read(&mut one);
    say(&mut server, 2, "ROOM_CMD_CREATE 50").unwrap();
    assert_eq!(read(&mut two), vec!["ERROR ROOM 50 already exists"]);
    assert_eq!(read(&mut mcu), nothing());
    say(&mut server, 1, "ROOM_PEER_LIST").unwrap();
    assert_eq!(read(&mut one), vec!["ROOM_PEER_LIST "]);
}

#[test]
fn joining_is_announced_to_the_others_in_the_room() {
    let rt = runtime();
    let mut server = Server::new().unwrap();
    let mut mcu = join(&mut server, &rt, MCU);
    let mut one = join(&mut server, &rt, 1);
    let mut two = join(&mut server, &rt, 2);
    let mut three = join(&mut server, &rt, 3);
    let mut four = join(&mut server, &rt, 4);
    say(&mut server, 1, "ROOM_CMD_CREATE 50").unwrap();
    say(&mut server, 2, "ROOM_CMD_JOIN 50").unwrap();
    read(&mut mcu);
    assert_eq!(read(&mut one), vec!["ROOM_OK", "ROOM_PEER_JOINED 2"]);
    assert_eq!(read(&mut two), vec!["ROOM_OK 1"]);
    say(&mut server, 3, "ROOM_CMD_JOIN 50").unwrap();
    assert_eq!(read(&mut one), vec!["ROOM_PEER_JOINED 3"]);
    assert_eq!(read(&mut two), vec!["ROOM_PEER_JOINED 3"]);
    assert_eq!(read(&mut three), vec!["ROOM_OK 1 2"]);
    assert_eq!(read(&mut four), nothing());
    assert_eq!(read(&mut mcu), nothing());
    say(&mut server, 3, "ROOM_PEER_LIST").unwrap();
    assert_eq!(read(&mut three), vec!["ROOM_PEER_LIST 1 2"]);
    say(&mut server, 1, "ROOM_PEER_LIST").unwrap();
    assert_eq!(read(&mut one), vec!["ROOM_PEER_LIST 2 3"]);
}

#[test]
fn a_room_that_is_not_there_cannot_be_joined() {
    let rt = runtime();
    let mut server = Server::new().unwrap();
    let mut one = join(&mut server, &rt, 1);
    say(&mut server, 1, "ROOM_CMD_JOIN 50").unwrap();
    assert_eq!(read(&mut one), vec!["ERROR ROOM 50 does not exist"]);
    assert!(!server.can_handle_message("ROOM_PEER_LIST", 1));
}

#[test]
fn a_message_reaches_its_addressee_in_the_room() {
    let rt = runtime();
    let mut server = Server::new().unwrap();
    let mut mcu = join(&mut server, &rt, MCU);
    let mut one = join(&mut server, &rt, 1);
    let mut two = join(&mut server, &rt, 2);
    let mut three = join(&mut server, &rt, 3);
    say(&mut server, 1, "ROOM_CMD_CREATE 50").unwrap();
    say(&mut server, 2, "ROOM_CMD_JOIN 50").unwrap();
    read(&mut mcu);
    read(&mut one);
    read(&mut two);
    say(&mut server, 1, "ROOM_PEER_MSG 2 {\"ice\": 1}").unwrap();
    assert_eq!(read(&mut two), vec!["ROOM_PEER_MSG 1 {\"ice\": 1}"]);
    assert_eq!(read(&mut one), nothing());
    say(&mut server, 1, "ROOM_PEER_MSG 3 secret").unwrap();
    assert_eq!(read(&mut one), vec!["ERROR peer 3 not present in room 50"]);
    assert_eq!(read(&mut three), nothing());
    say(&mut server, 1, "ROOM_PEER_MSG 77 secret").unwrap();
    assert_eq!(read(&mut one), vec!["ERROR peer 77 not found"]);
    assert_eq!(read(&mut two), nothing());
    assert_eq!(read(&mut mcu), nothing());
}

#[test]
fn an_invitation_reaches_the_media_server_as_it_is() {
    let rt = runtime();
    let mut server = Server::new().unwrap();
    let mut mcu = join(&mut server, &rt, MCU);
    say(&mut server, 5, "SERVER_INVITE to 50").unwrap();
    assert_eq!(read(&mut mcu), vec!["SERVER_INVITE to 50"]);
}

#[test]
fn other_messages_are_ignored() {
    let rt = runtime();
    let mut server = Server::new().unwrap();
    let mut mcu = join(&mut server, &rt, MCU);
    let mut one = join(&mut server, &rt, 1);
    say(&mut server, 1, "How are you?").unwrap();
    assert_eq!(read(&mut one), nothing());
    assert_eq!(read(&mut mcu), nothing());
}

#[test]
fn what_cannot_be_read_cannot_be_handled() {
    let rt = runtime();
    let mut server = Server::new().unwrap();
    let _one = join(&mut server, &rt, 1);
    assert!(!server.can_handle_message("ROOM_PEER_MSG", 1));
    assert!(!server.can_handle_message("ROOM_PEER_MSG two hi", 1));
    assert!(!server.can_handle_message("ROOM_CMD_JOIN", 1));
    assert!(!server.can_handle_message("ROOM_CMD_JOIN 50", 2));
}

#[test]
fn a_message_without_a_body_fails() {
    let mut server = Server::new().unwrap();
    let error = say(&mut server, 1, "ROOM_PEER_MSG 2").unwrap_err();
    assert!(matches!(error, ServerError::MissingBody));
    assert_eq!(error.describe(), "Cannot parse peer message");
}

#[test]
fn a_message_from_outside_any_room_fails() {
    let rt = runtime();
    let mut server = Server::new().unwrap();
    let mut one = join(&mut server, &rt, 1);
    let mut two = join(&mut server, &rt, 2);
    let error = say(&mut server, 1, "ROOM_PEER_MSG 2 hi").unwrap_err();
    assert!(matches!(error, ServerError::NotInRoom { peer: 1 }));
    assert_eq!(error.describe(), "Peer 1 is not in a ROOM");
    assert_eq!(read(&mut one), nothing());
    assert_eq!(read(&mut two), nothing());
}

#[test]
fn a_room_command_from_inside_a_room_fails() {
    let rt = runtime();
    let mut server = Server::new().unwrap();
    let _mcu = join(&mut server, &rt, MCU);
    let mut one = join(&mut server, &rt, 1);
    say(&mut server, 1, "ROOM_CMD_CREATE 50").unwrap();
    read(&mut one);
    let error = say(&mut server, 1, "ROOM_CMD_JOIN 51").unwrap_err();
    assert!(matches!(error, ServerError::AlreadyInRoom { peer: 1, room_id: 50, .. }));
    assert_eq!(
        error.describe(),
        "Peer 1 is giving CMD_ROOM_JOIN but is already in ROOM 50"
    );
    let error = say(&mut server, 1, "ROOM_CMD_DANCE 51").unwrap_err();
    assert!(matches!(error, ServerError::AlreadyInRoom { peer: 1, room_id: 50, .. }));
    assert_eq!(read(&mut one), nothing());
}

#[test]
fn an_unknown_command_fails() {
    let rt = runtime();
    let mut server = Server::new().unwrap();
    let mut one = join(&mut server, &rt, 1);
    let error = say(&mut server, 1, "ROOM_CMD_DANCE 51").unwrap_err();
    assert_eq!(error.describe(), "Received invalid command message: DANCE");
    assert!(matches!(error, ServerError::InvalidCommand { .. }));
    assert_eq!(read(&mut one), nothing());
}

#[test]
fn an_answer_that_cannot_be_sent_fails_the_request() {
    let rt = runtime();
    let mut server = Server::new().unwrap();
    let one = join(&mut server, &rt, 1);
    drop(one);
    let error = say(&mut server, 1, "ROOM_CMD_JOIN 50").unwrap_err();
    assert!(matches!(error, ServerError::NotSent { to: 1, .. }));
    assert_eq!(
        error.describe(),
        "failed to send message on channel: ERROR ROOM 50 does not exist"
    );
}

#[test]
fn a_notice_that_cannot_be_sent_stops_the_request() {
    let rt = runtime();
    let mut server = Server::new().unwrap();
    let _mcu = join(&mut server, &rt, MCU);
    let one = join(&mut server, &rt, 1);
    let mut two = join(&mut server, &rt, 2);
    say(&mut server, 1, "ROOM_CMD_CREATE 50").unwrap();
    drop(one);
    let error = say(&mut server, 2, "ROOM_CMD_JOIN 50").unwrap_err();
    assert!(matches!(error, ServerError::NoticeNotSent { to: 1, .. }));
    assert_eq!(
        error.describe(),
        "failed to send message on channel: ROOM_PEER_JOINED 2"
    );
    assert_eq!(read(&mut two), nothing());
    let error = remove(&mut server, 2).unwrap_err();
    assert!(matches!(error, ServerError::FarewellNotSent { to: 1, .. }));
    assert_eq!(error.describe(), "Failed to send message on channel: ROOM_PEER_LEFT 2");
    assert!(!server.is_connected(2));
}

#[test]
fn leaving_is_announced_to_the_others_in_the_room() {
    let rt = runtime();
    let mut server = Server::new().unwrap();
    let mut mcu = join(&mut server, &rt, MCU);
    let mut one = join(&mut server, &rt, 1);
    let (mut two, watch) = connect(&mut server, &rt, 2);
    let mut three = join(&mut server, &rt, 3);
    let mut four = join(&mut server, &rt, 4);
    say(&mut server, 1, "ROOM_CMD_CREATE 50").unwrap();
    say(&mut server, 2, "ROOM_CMD_JOIN 50").unwrap();
    say(&mut server, 3, "ROOM_CMD_JOIN 50").unwrap();
    read(&mut mcu);
    read(&mut one);
    read(&mut two);
    read(&mut three);
    remove(&mut server, 2).unwrap();
    assert!(!server.is_connected(2));
    assert!(is_stopped(&rt, &watch));
    assert_eq!(read(&mut one), vec!["ROOM_PEER_LEFT 2"]);
    assert_eq!(read(&mut three), vec!["ROOM_PEER_LEFT 2"]);
    assert_eq!(read(&mut four), nothing());
    assert_eq!(read(&mut mcu), nothing());
    say(&mut server, 1, "ROOM_PEER_LIST").unwrap();
    assert_eq!(read(&mut one), vec!["ROOM_PEER_LIST 3"]);
    say(&mut server, 1, "ROOM_PEER_MSG 2 gone?").unwrap();
    assert_eq!(read(&mut one), vec!["ERROR peer 2 not found"]);
}

#[test]
fn a_peer_outside_any_room_leaves_in_silence() {
    let rt = runtime();
    let mut server = Server::new().unwrap();
    let mut one = join(&mut server, &rt, 1);
    let (_two, watch) = connect(&mut server, &rt, 2);
    remove(&mut server, 2).unwrap();
    assert!(!server.is_connected(2));
    assert!(is_stopped(&rt, &watch));
    assert_eq!(read(&mut one), nothing());
    assert!(!server.can_remove_peer(2));
}

#[test]
fn the_room_ends_with_its_last_peer_but_the_alias() {
    let rt = runtime();
    let mut server = Server::new().unwrap();
    let mut mcu = join(&mut server, &rt, MCU);
    let mut one = join(&mut server, &rt, 1);
    let mut two = join(&mut server, &rt, 2);
    say(&mut server, 1, "ROOM_CMD_CREATE 50").unwrap();
    assert_eq!(read(&mut mcu), vec!["SERVER_ALIAS 50"]);
    let (mut alias, watch) = connect(&mut server, &rt, 50);
    say(&mut server, 50, "ROOM_CMD_JOIN 50").unwrap();
    assert_eq!(read(&mut alias), vec!["ROOM_OK 1"]);
    assert_eq!(read(&mut one), vec!["ROOM_OK", "ROOM_PEER_JOINED 50"]);
    remove(&mut server, 1).unwrap();
    assert!(!server.is_connected(1));
    assert!(!server.is_connected(50));
    assert!(server.is_connected(MCU));
    assert!(is_stopped(&rt, &watch));
    assert_eq!(read(&mut alias), nothing());
    say(&mut server, 2, "ROOM_CMD_JOIN 50").unwrap();
    assert_eq!(read(&mut two), vec!["ERROR ROOM 50 does not exist"]);
    say(&mut server, 2, "ROOM_CMD_CREATE 50").unwrap();
    assert_eq!(read(&mut two), vec!["ROOM_OK"]);
}

#[test]
fn the_room_stays_when_the_alias_leaves() {
    let rt = runtime();
    let mut server = Server::new().unwrap();
    let _mcu = join(&mut server, &rt, MCU);
    let mut one = join(&mut server, &rt, 1);
    let _alias = join(&mut server, &rt, 50);
    say(&mut server, 1, "ROOM_CMD_CREATE 50").unwrap();
    say(&mut server, 50, "ROOM_CMD_JOIN 50").unwrap();
    read(&mut one);
    remove(&mut server, 50).unwrap();
    assert_eq!(read(&mut one), vec!["ROOM_PEER_LEFT 50"]);
    say(&mut server, 1, "ROOM_PEER_LIST").unwrap();
    assert_eq!(read(&mut one), vec!["ROOM_PEER_LIST "]);
}

#[test]
fn a_room_without_an_alias_outlives_its_peers() {
    let rt = runtime();
    let mut server = Server::new().unwrap();
    let _mcu = join(&mut server, &rt, MCU);
    let _one = join(&mut server, &rt, 1);
    let mut two = join(&mut server, &rt, 2);
    say(&mut server, 1, "ROOM_CMD_CREATE 50").unwrap();
    remove(&mut server, 1).unwrap();
    say(&mut server, 2, "ROOM_CMD_JOIN 50").unwrap();
    assert_eq!(read(&mut two), vec!["ROOM_OK "]);
}

#[test]
fn joining_and_leaving_restores_the_room() {
    let rt = runtime();
    let mut server = Server::new().unwrap();
    let _mcu = join(&mut server, &rt, MCU);
    let mut one = join(&mut server, &rt, 1);
    let _two = join(&mut server, &rt, 2);
    let _three = join(&mut server, &rt, 3);
    say(&mut server, 1, "ROOM_CMD_CREATE 50").unwrap();
    say(&mut server, 2, "ROOM_CMD_JOIN 50").unwrap();
    say(&mut server, 3, "ROOM_CMD_JOIN 50").unwrap();
    remove(&mut server, 3).unwrap();
    read(&mut one);
    say(&mut server, 1, "ROOM_PEER_LIST").unwrap();
    assert_eq!(read(&mut one), vec!["ROOM_PEER_LIST 2"]);
}

#[test]
fn a_second_registration_takes_the_place_of_the_first() {
    let rt = runtime();
    let mut server = Server::new().unwrap();
    let (mut first, first_watch) = connect(&mut server, &rt, 1);
    let (mut second, second_watch) = connect(&mut server, &rt, 1);
    assert!(is_stopped(&rt, &first_watch));
    assert!(!is_stopped(&rt, &second_watch));
    say(&mut server, 1, "ROOM_CMD_JOIN 50").unwrap();
    assert_eq!(read(&mut second), vec!["ERROR ROOM 50 does not exist"]);
    assert_eq!(read(&mut first), nothing());
}

#[test]
fn a_second_registration_from_a_room_leaves_the_name_behind() {
    let rt = runtime();
    let mut server = Server::new().unwrap();
    let _mcu = join(&mut server, &rt, MCU);
    let mut one = join(&mut server, &rt, 1);
    let _two = join(&mut server, &rt, 2);
    say(&mut server, 1, "ROOM_CMD_CREATE 50").unwrap();
    say(&mut server, 2, "ROOM_CMD_JOIN 50").unwrap();
    read(&mut one);
    let mut again = join(&mut server, &rt, 2);
    say(&mut server, 1, "ROOM_PEER_LIST").unwrap();
    assert_eq!(read(&mut one), vec!["ROOM_PEER_LIST 2"]);
    say(&mut server, 2, "ROOM_CMD_JOIN 50").unwrap();
    assert_eq!(read(&mut again), vec!["ROOM_OK 1"]);
    assert_eq!(read(&mut one), vec!["ROOM_PEER_JOINED 2"]);
    say(&mut server, 1, "ROOM_PEER_LIST").unwrap();
    assert_eq!(read(&mut one), vec!["ROOM_PEER_LIST 2 2"]);
    remove(&mut server, 2).unwrap();
    assert_eq!(read(&mut one), vec!["ROOM_PEER_LEFT 2"]);
    say(&mut server, 1, "ROOM_PEER_LIST").unwrap();
    assert_eq!(read(&mut one), vec!["ROOM_PEER_LIST "]);
}

#[test]
fn a_name_left_behind_keeps_the_room_from_being_told() {
    let rt = runtime();
    let mut server = Server::new().unwrap();
    let _mcu = join(&mut server, &rt, MCU);
    let _one = join(&mut server, &rt, 1);
    let _two = join(&mut server, &rt, 2);
    let _three = join(&mut server, &rt, 3);
    say(&mut server, 1, "ROOM_CMD_CREATE 50").unwrap();
    say(&mut server, 2, "ROOM_CMD_JOIN 50").unwrap();
    let _again = join(&mut server, &rt, 2);
    remove(&mut server, 2).unwrap();
    assert!(!server.can_remove_peer(1));
    assert!(!server.can_handle_message("ROOM_CMD_JOIN 50", 3));
    assert!(server.can_handle_message("ROOM_PEER_LIST", 1));
}

#[test]
fn serving_says_what_to_send() {
    let rt = runtime();
    let mut server = Server::new().unwrap();
    let mut mcu = join(&mut server, &rt, MCU);
    let mut one = join(&mut server, &rt, 1);
    let message = "ROOM_CMD_CREATE 50";
    let request = parse_request(message).unwrap();
    assert!(server.can_serve(&request, 1));
    let outgoing = server.serve(&request, message, 1).unwrap();
    assert_eq!(read(&mut mcu), nothing());
    assert_eq!(outgoing.len(), 2);
    assert_eq!((outgoing[0].to, outgoing[0].text.as_str()), (MCU, "SERVER_ALIAS 50"));
    assert_eq!(outgoing[0].delivery, Delivery::Notice);
    assert_eq!((outgoing[1].to, outgoing[1].text.as_str()), (1, "ROOM_OK"));
    assert_eq!(outgoing[1].delivery, Delivery::Direct);
    server.deliver(&outgoing).unwrap();
    assert_eq!(read(&mut mcu), vec!["SERVER_ALIAS 50"]);
    assert_eq!(read(&mut one), vec!["ROOM_OK"]);
}

#[test]
fn what_a_message_that_was_not_sent_comes_to() {
    let notice = Outgoing { to: 1, text: "a".to_string(), delivery: Delivery::Notice };
    let direct = Outgoing { to: 2, text: "b".to_string(), delivery: Delivery::Direct };
    assert!(notice.sending(true).is_ok());
    assert!(direct.sending(true).is_ok());
    match notice.sending(false) {
        Err(ServerError::NoticeNotSent { to, text }) => assert_eq!((to, text.as_str()), (1, "a")),
        other => panic!("{:?}", other),
    }
    let farewell = Outgoing { to: 3, text: "c".to_string(), delivery: Delivery::Farewell };
    assert!(farewell.sending(true).is_ok());
    match farewell.sending(false) {
        Err(ServerError::FarewellNotSent { to, text }) => assert_eq!((to, text.as_str()), (3, "c")),
        other => panic!("{:?}", other),
    }
    match direct.sending(false) {
        Err(ServerError::NotSent { to, text }) => assert_eq!((to, text.as_str()), (2, "b")),
        other => panic!("{:?}", other),
    }
}

#[test]
fn a_channel_that_is_closed_stays_closed() {
    let rt = runtime();
    let mut server = Server::new().unwrap();
    let one = join(&mut server, &rt, 1);
    say(&mut server, 1, "ROOM_CMD_JOIN 50").unwrap();
    drop(one);
    for _ in 0..3 {
        let error = say(&mut server, 1, "ROOM_CMD_JOIN 50").unwrap_err();
        assert!(matches!(error, ServerError::NotSent { to: 1, .. }));
    }
    let mut again = join(&mut server, &rt, 1);
    say(&mut server, 1, "ROOM_CMD_JOIN 50").unwrap();
    assert_eq!(read(&mut again), vec!["ERROR ROOM 50 does not exist"]);
}

#[test]
fn registering_and_leaving_leaves_no_trace() {
    let rt = runtime();
    let mut server = Server::new().unwrap();
    let mut mcu = join(&mut server, &rt, MCU);
    let mut one = join(&mut server, &rt, 1);
    say(&mut server, 1, "ROOM_CMD_CREATE 50").unwrap();
    assert_eq!(read(&mut mcu), vec!["SERVER_ALIAS 50"]);
    assert_eq!(read(&mut one), vec!["ROOM_OK"]);
    let (mut two, watch) = connect(&mut server, &rt, 2);
    assert!(!has_ended(&mut two));
    remove(&mut server, 2).unwrap();
    assert!(has_ended(&mut two));
    assert!(is_stopped(&rt, &watch));
    assert!(!server.is_connected(2));
    assert!(server.is_connected(MCU));
    assert_eq!(read(&mut mcu), nothing());
    assert_eq!(read(&mut one), nothing());
    say(&mut server, 1, "ROOM_PEER_LIST").unwrap();
    assert_eq!(read(&mut one), vec!["ROOM_PEER_LIST "]);
}

#[test]
fn a_second_registration_keeps_rooms_and_other_peers() {
    let rt = runtime();
    let mut server = Server::new().unwrap();
    let mut mcu = join(&mut server, &rt, MCU);
    let mut one = join(&mut server, &rt, 1);
    let mut first = join(&mut server, &rt, 2);
    say(&mut server, 1, "ROOM_CMD_CREATE 50").unwrap();
    say(&mut server, 2, "ROOM_CMD_JOIN 50").unwrap();
    assert_eq!(read(&mut one), vec!["ROOM_OK", "ROOM_PEER_JOINED 2"]);
    assert_eq!(read(&mut first), vec!["ROOM_OK 1"]);
    let (mut second, watch) = connect(&mut server, &rt, 2);
    assert!(has_ended(&mut first));
    assert!(!is_stopped(&rt, &watch));
    say(&mut server, 1, "ROOM_PEER_LIST").unwrap();
    assert_eq!(read(&mut one), vec!["ROOM_PEER_LIST 2"]);
    say(&mut server, 1, "ROOM_PEER_MSG 2 hi").unwrap();
    assert_eq!(read(&mut second), vec!["ROOM_PEER_MSG 1 hi"]);
    assert_eq!(
        say(&mut server, 2, "ROOM_PEER_MSG 1 hi").unwrap_err().describe(),
        "Peer 2 is not in a ROOM"
    );
    assert_eq!(read(&mut mcu), vec!["SERVER_ALIAS 50"]);
}

#[test]
fn a_connection_is_sent_what_is_addressed_to_it_in_order() {
    let rt = runtime();
    let mut server = Server::new().unwrap();
    let mut mcu = join(&mut server, &rt, MCU);
    let mut one = join(&mut server, &rt, 1);
    let mut two = join(&mut server, &rt, 2);
    say(&mut server, 1, "ROOM_CMD_CREATE 50").unwrap();
    say(&mut server, 2, "ROOM_CMD_JOIN 50").unwrap();
    let mut three = join(&mut server, &rt, 3);
    say(&mut server, 3, "ROOM_CMD_JOIN 50").unwrap();
    say(&mut server, 2, "ROOM_PEER_MSG 1 a").unwrap();
    say(&mut server, 3, "ROOM_PEER_MSG 2 b").unwrap();
    assert!(say(&mut server, 3, "ROOM_CMD_JOIN 50").is_err());
    say(&mut server, 1, "SERVER_INVITE 50").unwrap();
    remove(&mut server, 3).unwrap();
    say(&mut server, 2, "ROOM_PEER_MSG 1 c").unwrap();
    assert_eq!(
        read(&mut one),
        vec![
            "ROOM_OK",
            "ROOM_PEER_JOINED 2",
            "ROOM_PEER_JOINED 3",
            "ROOM_PEER_MSG 2 a",
            "ROOM_PEER_LEFT 3",
            "ROOM_PEER_MSG 2 c",
        ]
    );
    assert_eq!(
        read(&mut two),
        vec!["ROOM_OK 1", "ROOM_PEER_JOINED 3", "ROOM_PEER_MSG 3 b", "ROOM_PEER_LEFT 3"]
    );
    assert_eq!(read(&mut three), vec!["ROOM_OK 1 2"]);
    assert!(has_ended(&mut three));
    assert_eq!(read(&mut mcu), vec!["SERVER_ALIAS 50", "SERVER_INVITE 50"]);
}

#[test]
fn the_rooms_can_be_looked_up() {
    let rt = runtime();
    let mut server = Server::new().unwrap();
    let _mcu = join(&mut server, &rt, MCU);
    let _one = join(&mut server, &rt, 1);
    let _two = join(&mut server, &rt, 2);
    assert_eq!(server.status(1), None);
    assert_eq!(server.members(50), None);
    say(&mut server, 1, "ROOM_CMD_CREATE 50").unwrap();
    say(&mut server, 2, "ROOM_CMD_JOIN 50").unwrap();
    assert_eq!(server.status(1), Some(50));
    assert_eq!(server.status(2), Some(50));
    assert_eq!(server.status(MCU), None);
    assert_eq!(server.members(50), Some(&vec![1, 2]));
    remove(&mut server, 1).unwrap();
    assert_eq!(server.members(50), Some(&vec![2]));
}

#[test]
fn channels_stay_apart() {
    let rt = runtime();
    let mut server = Server::new().unwrap();
    let mut one = join(&mut server, &rt, 1);
    let mut two = join(&mut server, &rt, 2);
    say(&mut server, 1, "ROOM_CMD_JOIN 50").unwrap();
    assert_eq!(read(&mut one), vec!["ERROR ROOM 50 does not exist"]);
    assert_eq!(read(&mut two), nothing());
    let mut again = join(&mut server, &rt, 1);
    say(&mut server, 1, "ROOM_CMD_JOIN 60").unwrap();
    assert_eq!(read(&mut again), vec!["ERROR ROOM 60 does not exist"]);
    assert_eq!(read(&mut one), nothing());
    assert!(has_ended(&mut one));
    remove(&mut server, 1).unwrap();
    assert!(has_ended(&mut again));
    assert!(!has_ended(&mut two));
}
