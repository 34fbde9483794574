//! What the server does, request by request: whose inbox gets which text, who comes to be in which
//! room, and what is answered to what cannot be done.
use crate::connection;
use crate::connection::{Action, Event};
use crate::error::{ErrorModel, ServerError};
use crate::laws;
use crate::link;
use crate::message;
use crate::message::WsMessage;
use crate::model;
use crate::model::{Delivery, OutgoingModel, PeerModel, ServerModel};
use crate::peer::Peer;
use crate::protocol;
use crate::protocol::RequestModel;
use crate::server;
use crate::server::{Outgoing, Server};
use crate::text;
use crate::wording;
use futures::channel::mpsc::UnboundedReceiver;
use tokio::task::JoinHandle;
use tokio_tungstenite::tungstenite::Message;
use vstd::prelude::*;

verus! {

/// The others in a room are its members in their order, the peer itself left out each time.
pub proof fn law_the_others_are_all_but_the_peer(room: Seq<u32>, member: u32, id: u32)
    ensures
        model::others(Seq::empty(), id) == Seq::<u32>::empty(),
        model::others(room.push(member), id) == if member == id {
            model::others(room, id)
        } else {
            model::others(room, id).push(member)
        },
{
    reveal(Seq::filter);
    model::lemma_others_push(room, member, id);
}

/// Sending nothing changes nothing, and one more message is one more text at the end of the inbox of
/// the peer that it goes to.
pub proof fn law_message_ends_up_last_in_its_inbox(
    server: ServerModel,
    outgoing: Seq<OutgoingModel>,
    last: OutgoingModel,
)
    ensures
        server.delivered(Seq::empty()) == server,
        server.delivered(outgoing.push(last)) == (ServerModel {
            peers: server.delivered(outgoing).peers.insert(
                last.to,
                PeerModel {
                    inbox: server.delivered(outgoing).peers[last.to].inbox.push(last.text),
                    ..server.delivered(outgoing).peers[last.to]
                },
            ),
            ..server.delivered(outgoing)
        }),
{
    assert(outgoing.push(last).drop_last() =~= outgoing);
}

/// Sending either gets all messages into their inboxes, or ends at one that cannot be sent, with all
/// before it in their inboxes and an error that names it.
pub proof fn law_sending_ends_at_the_first_failure(
    server: ServerModel,
    outgoing: Seq<OutgoingModel>,
    after: ServerModel,
    result: Result<(), ErrorModel>,
) -> (k: nat)
    requires
        server.sent(outgoing, after, result),
    ensures
        k <= outgoing.len(),
        after == server.delivered(outgoing.take(k as int)),
        result is Ok <==> k == outgoing.len(),
        result matches Err(error) ==> error == match outgoing[k as int].delivery {
            Delivery::Notice => (ErrorModel::NoticeNotSent {
                to: outgoing[k as int].to,
                text: outgoing[k as int].text,
            }),
            Delivery::Farewell => (ErrorModel::FarewellNotSent {
                to: outgoing[k as int].to,
                text: outgoing[k as int].text,
            }),
            Delivery::Direct => (ErrorModel::NotSent {
                to: outgoing[k as int].to,
                text: outgoing[k as int].text,
            }),
        },
{
    match result {
        Ok(_) => {
            assert(outgoing.take(outgoing.len() as int) =~= outgoing);
            outgoing.len()
        },
        Err(error) => {
            let sent = choose|sent: int| #[trigger] server.cut_short(outgoing, sent, after, error);
            sent as nat
        },
    }
}

/// What one direct message comes to.
proof fn lemma_one(
    server: ServerModel,
    to: u32,
    words: Seq<char>,
    after: ServerModel,
    result: Result<(), ErrorModel>,
)
    requires
        server.sent(seq![model::direct(to, words)], after, result),
    ensures
        match result {
            Ok(_) => after == (ServerModel {
                peers: server.peers.insert(
                    to,
                    PeerModel { inbox: server.peers[to].inbox.push(words), ..server.peers[to] },
                ),
                ..server
            }),
            Err(error) => after == server && error == (ErrorModel::NotSent { to, text: words }),
        },
{
    let outgoing = seq![model::direct(to, words)];
    let k = law_sending_ends_at_the_first_failure(server, outgoing, after, result);
    assert(outgoing =~= Seq::<OutgoingModel>::empty().push(model::direct(to, words)));
    law_message_ends_up_last_in_its_inbox(server, Seq::empty(), model::direct(to, words));
    if k == 0 {
        assert(outgoing.take(0) =~= Seq::<OutgoingModel>::empty());
    } else {
        assert(outgoing.take(1) =~= outgoing);
    }
}

/// Whom a request takes: a message with a body and a room command take the sender; a room that is to
/// be created and an invitation take the media server; a room that is to be joined takes everybody
/// else in it; and only a peer in a room can ask who is there.
pub proof fn law_requests_take_these_peers(server: ServerModel, request: RequestModel, from: u32)
    ensures
        match request {
            RequestModel::PeerMessage { to, body } => server.can_serve(request, from) <==> (body
                is None || server.peers.contains_key(from)),
            RequestModel::RoomCommand { command, room_id } => server.can_serve(request, from)
                <==> server.peers.contains_key(from) && (server.peers[from].status is Some
                || if command == "CREATE"@ {
                server.rooms.contains_key(room_id) || server.peers.contains_key(protocol::MCU)
            } else if command == "JOIN"@ && server.rooms.contains_key(room_id) {
                forall|member: u32| #[trigger]
                    server.rooms[room_id].contains(member) && member != from
                        ==> server.peers.contains_key(member)
            } else {
                true
            }),
            RequestModel::PeerList => server.can_serve(request, from) <==> (
            server.peers.contains_key(from) && server.peers[from].status is Some),
            RequestModel::Invite => server.can_serve(request, from)
                <==> server.peers.contains_key(protocol::MCU),
            RequestModel::Unknown => server.can_serve(request, from),
        },
        protocol::MCU == 999,
{
    protocol::lemma_commands_differ();
    if let RequestModel::RoomCommand { command, room_id } = request {
        if server.rooms.contains_key(room_id) {
            lemma_others_are_connected(server, server.rooms[room_id], from);
        }
    }
}

/// The others in a room are all connected if every member but the peer is.
proof fn lemma_others_are_connected(server: ServerModel, room: Seq<u32>, id: u32)
    ensures
        server.connected(model::others(room, id)) <==> forall|member: u32| #[trigger]
            room.contains(member) && member != id ==> server.peers.contains_key(member),
{
    let present = model::others(room, id);
    if server.connected(present) {
        assert forall|member: u32| #[trigger]
            room.contains(member) && member != id implies server.peers.contains_key(member) by {
            model::lemma_others_contains(room, id, member);
            let i = choose|i: int| 0 <= i < present.len() && present[i] == member;
            assert(server.peers.contains_key(present[i]));
        }
    }
    if forall|member: u32| #[trigger]
        room.contains(member) && member != id ==> server.peers.contains_key(member) {
        assert forall|i: int| 0 <= i < present.len() implies server.peers.contains_key(
            #[trigger] present[i],
        ) by {
            assert(present.contains(present[i]));
            model::lemma_others_contains(room, id, present[i]);
            assert(room.contains(present[i]));
        }
    }
}

/// A message can be handled if it can be read and the server can serve what it asks for.
pub proof fn law_message_can_be_handled_if_it_can_be_served(
    server: ServerModel,
    message: Seq<char>,
    from: u32,
)
    ensures
        server.can_handle(message, from) <==> protocol::request_of(message) is Some
            && server.can_serve(protocol::request_of(message)->0, from),
{
}

/// What is refused leaves the server as it was, and each refusal has its own error: a message without
/// a body, a message from a peer in no room, a room command from a peer in a room, and a command that
/// is neither to create nor to join.
pub proof fn law_refusals(
    server: ServerModel,
    message: Seq<char>,
    from: u32,
    after: ServerModel,
    result: Result<(), ErrorModel>,
)
    requires
        server.handled(message, from, after, result),
    ensures
        match protocol::request_of(message) {
            Some(RequestModel::PeerMessage { to, body }) => {
                &&& body is None ==> after == server && result == Err::<(), ErrorModel>(
                    ErrorModel::MissingBody,
                )
                &&& body is Some && server.peers[from].status is None ==> after == server && result
                    == Err::<(), ErrorModel>((ErrorModel::NotInRoom { peer: from }))
            },
            Some(RequestModel::RoomCommand { command, room_id }) => {
                &&& server.peers[from].status is Some ==> after == server && result == Err::<
                    (),
                    ErrorModel,
                >(
                    (ErrorModel::AlreadyInRoom {
                        peer: from,
                        command,
                        room_id: server.peers[from].status->0,
                    }),
                )
                &&& server.peers[from].status is None && command != "CREATE"@ && command != "JOIN"@
                    ==> after == server && result == Err::<(), ErrorModel>(
                    (ErrorModel::InvalidCommand { command }),
                )
            },
            _ => true,
        },
{
}

/// A message to a peer in the sender's room is queued for that peer, as `ROOM_PEER_MSG <from> <body>`
/// with the body as it came; where nobody is connected under the id, or the peer is not in the room,
/// the sender is told so instead. Nothing else changes, and where the one text cannot be sent, nothing
/// at all.
pub proof fn law_peer_message_is_passed_on(
    server: ServerModel,
    message: Seq<char>,
    from: u32,
    to: u32,
    body: Seq<char>,
    room_id: u32,
    after: ServerModel,
    result: Result<(), ErrorModel>,
)
    requires
        protocol::request_of(message) == Some(
            (RequestModel::PeerMessage { to, body: Some(body) }),
        ),
        server.peers[from].status == Some(room_id),
        server.handled(message, from, after, result),
    ensures
        ({
            let (goes_to, words) = if !server.peers.contains_key(to) {
                (from, "ERROR peer "@ + text::decimal(to as nat) + " not found"@)
            } else if !server.rooms[room_id].contains(to) {
                (
                    from,
                    "ERROR peer "@ + text::decimal(to as nat) + " not present in room "@
                        + text::decimal(room_id as nat),
                )
            } else {
                (to, "ROOM_PEER_MSG "@ + text::decimal(from as nat) + " "@ + body)
            };
            match result {
                Ok(_) => after == (ServerModel {
                    peers: server.peers.insert(
                        goes_to,
                        PeerModel {
                            inbox: server.peers[goes_to].inbox.push(words),
                            ..server.peers[goes_to]
                        },
                    ),
                    ..server
                }),
                Err(error) => after == server && error == (ErrorModel::NotSent {
                    to: goes_to,
                    text: words,
                }),
            }
        }),
{
    let answer = server.routed(to, body, from, room_id);
    lemma_one(server, answer.to, answer.text, after, result);
}

/// Where `ROOM_PEER_MSG <to> <body>` from a peer in a room is handled, and the peer `to` is connected
/// and in that room, the inbox of `to` gets `ROOM_PEER_MSG <from> <body>`, the same body, and nobody
/// else gets anything.
pub proof fn law_body_arrives_as_it_was_sent(
    server: ServerModel,
    from: u32,
    to: u32,
    body: Seq<char>,
    room_id: u32,
    after: ServerModel,
)
    requires
        server.peers.contains_key(from),
        server.peers[from].status == Some(room_id),
        server.peers.contains_key(to),
        server.rooms[room_id].contains(to),
        server.handled(
            "ROOM_PEER_MSG "@ + text::decimal(to as nat) + " "@ + body,
            from,
            after,
            Ok(()),
        ),
    ensures
        server.can_handle("ROOM_PEER_MSG "@ + text::decimal(to as nat) + " "@ + body, from),
        after.peers[to].inbox == server.peers[to].inbox.push(
            "ROOM_PEER_MSG "@ + text::decimal(from as nat) + " "@ + body,
        ),
        after.peers == server.peers.insert(to, after.peers[to]),
        after.rooms == server.rooms,
{
    let message = "ROOM_PEER_MSG "@ + text::decimal(to as nat) + " "@ + body;
    wording::law_peer_message_reads_as_written(to, body);
    law_peer_message_is_passed_on(server, message, from, to, body, room_id, after, Ok(()));
}

/// To create a room that is there already is answered with an error, and nothing else changes.
pub proof fn law_room_is_created_once(
    server: ServerModel,
    message: Seq<char>,
    from: u32,
    room_id: u32,
    after: ServerModel,
    result: Result<(), ErrorModel>,
)
    requires
        protocol::request_of(message) == Some(
            (RequestModel::RoomCommand { command: "CREATE"@, room_id }),
        ),
        server.peers[from].status is None,
        server.rooms.contains_key(room_id),
        server.handled(message, from, after, result),
    ensures
        ({
            let words = "ERROR ROOM "@ + text::decimal(room_id as nat) + " already exists"@;
            match result {
                Ok(_) => after == (ServerModel {
                    peers: server.peers.insert(
                        from,
                        PeerModel {
                            inbox: server.peers[from].inbox.push(words),
                            ..server.peers[from]
                        },
                    ),
                    ..server
                }),
                Err(error) => after == server && error == (ErrorModel::NotSent {
                    to: from,
                    text: words,
                }),
            }
        }),
{
    let words = "ERROR ROOM "@ + text::decimal(room_id as nat) + " already exists"@;
    lemma_one(server, from, words, after, result);
}

/// The peer that creates a room is in it, alone; the media server is sent `SERVER_ALIAS <room>`, and
/// then the peer `ROOM_OK`. Where the media server cannot be sent its text, neither text is sent;
/// where the peer cannot, only the first. The room is there in any case.
pub proof fn law_creation_asks_for_an_alias_of_the_room(
    server: ServerModel,
    message: Seq<char>,
    from: u32,
    room_id: u32,
    after: ServerModel,
    result: Result<(), ErrorModel>,
)
    requires
        protocol::request_of(message) == Some(
            (RequestModel::RoomCommand { command: "CREATE"@, room_id }),
        ),
        server.peers[from].status is None,
        !server.rooms.contains_key(room_id),
        server.handled(message, from, after, result),
    ensures
        ({
            let wanted = "SERVER_ALIAS "@ + text::decimal(room_id as nat);
            let entered = server.peers.insert(
                from,
                PeerModel { status: Some(room_id), ..server.peers[from] },
            );
            let asked = entered.insert(
                999,
                PeerModel { inbox: entered[999].inbox.push(wanted), ..entered[999] },
            );
            let answered = asked.insert(
                from,
                PeerModel { inbox: asked[from].inbox.push("ROOM_OK"@), ..asked[from] },
            );
            &&& after.rooms == server.rooms.insert(room_id, seq![from])
            &&& after.room_servers == server.room_servers
            &&& match result {
                Ok(_) => after.peers == answered,
                Err(error) => {
                    ||| after.peers == entered && error == (ErrorModel::NoticeNotSent {
                        to: 999,
                        text: wanted,
                    })
                    ||| after.peers == asked && error == (ErrorModel::NotSent {
                        to: from,
                        text: "ROOM_OK"@,
                    })
                },
            }
        }),
{
    let (served, outgoing) = server.created(room_id, from);
    let k = law_sending_ends_at_the_first_failure(served, outgoing, after, result);
    let first = outgoing[0];
    let second = outgoing[1];
    assert(outgoing.len() == 2);
    law_message_ends_up_last_in_its_inbox(served, Seq::empty(), first);
    law_message_ends_up_last_in_its_inbox(served, Seq::empty().push(first), second);
    assert(outgoing.take(0) =~= Seq::<OutgoingModel>::empty());
    assert(outgoing.take(1) =~= Seq::<OutgoingModel>::empty().push(first));
    assert(outgoing.take(2) =~= Seq::<OutgoingModel>::empty().push(first).push(second));
}

/// To join a room that is not there is answered with an error, and nothing else changes.
pub proof fn law_missing_room_cannot_be_joined(
    server: ServerModel,
    message: Seq<char>,
    from: u32,
    room_id: u32,
    after: ServerModel,
    result: Result<(), ErrorModel>,
)
    requires
        protocol::request_of(message) == Some(
            (RequestModel::RoomCommand { command: "JOIN"@, room_id }),
        ),
        server.peers[from].status is None,
        !server.rooms.contains_key(room_id),
        server.handled(message, from, after, result),
    ensures
        ({
            let words = "ERROR ROOM "@ + text::decimal(room_id as nat) + " does not exist"@;
            match result {
                Ok(_) => after == (ServerModel {
                    peers: server.peers.insert(
                        from,
                        PeerModel {
                            inbox: server.peers[from].inbox.push(words),
                            ..server.peers[from]
                        },
                    ),
                    ..server
                }),
                Err(error) => after == server && error == (ErrorModel::NotSent {
                    to: from,
                    text: words,
                }),
            }
        }),
{
    protocol::lemma_commands_differ();
    let words = "ERROR ROOM "@ + text::decimal(room_id as nat) + " does not exist"@;
    lemma_one(server, from, words, after, result);
}

/// Of the same text to several peers, each gets it as often as it is among them.
proof fn lemma_addressed_count(
    members: Seq<u32>,
    words: Seq<char>,
    delivery: Delivery,
    id: u32,
)
    ensures
        model::addressed(model::notices(members, words, delivery), id) == Seq::new(
            members.to_multiset().count(id),
            |i: int| words,
        ),
    decreases members.len(),
{
    broadcast use vstd::seq_lib::group_to_multiset_ensures;

    let all = model::notices(members, words, delivery);
    if members.len() == 0 {
        assert(members =~= Seq::<u32>::empty());
        assert(members.to_multiset().count(id) == 0) by {
            if members.to_multiset().count(id) > 0 {
                assert(members.contains(id));
            }
        }
        assert(model::addressed(all, id) =~= Seq::new(
            members.to_multiset().count(id),
            |i: int| words,
        ));
    } else {
        let rest = members.drop_last();
        assert(rest.push(members.last()) =~= members);
        assert(all.drop_last() =~= model::notices(rest, words, delivery));
        lemma_addressed_count(rest, words, delivery, id);
        assert(members.to_multiset() =~= rest.to_multiset().insert(members.last()));
        assert(model::addressed(all, id) =~= Seq::new(
            members.to_multiset().count(id),
            |i: int| words,
        ));
    }
}

/// What a peer has in its inbox once the first `k` of some notices have been sent.
proof fn lemma_first_notices(
    server: ServerModel,
    members: Seq<u32>,
    words: Seq<char>,
    delivery: Delivery,
    k: nat,
    id: u32,
)
    requires
        k <= members.len(),
        server.reaches(model::notices(members, words, delivery)),
        server.peers.contains_key(id),
    ensures
        ({
            let first = model::notices(members, words, delivery).take(k as int);
            &&& server.reaches(first)
            &&& server.delivered(first).peers[id].inbox == server.peers[id].inbox + Seq::new(
                members.take(k as int).to_multiset().count(id),
                |i: int| words,
            )
        }),
{
    let all = model::notices(members, words, delivery);
    assert(all.take(k as int) =~= model::notices(members.take(k as int), words, delivery));
    model::lemma_reaches_take(server, all, k as int);
    laws::law_peer_receives_what_is_addressed_to_it(server, all.take(k as int), id);
    lemma_addressed_count(members.take(k as int), words, delivery, id);
}

/// When a peer joins a room, the others in it are sent `ROOM_PEER_JOINED <from>`, each once for every
/// time that it stands among them, and then the peer is sent `ROOM_OK` with the ids of all of them in
/// their order. `k` notices are sent; where all are, the answer may still fail. Nobody else is sent
/// anything, and the peer is in the room in any case, behind all others.
pub proof fn law_joining_tells_everybody_in_the_room(
    server: ServerModel,
    message: Seq<char>,
    from: u32,
    room_id: u32,
    present: Seq<u32>,
    after: ServerModel,
    result: Result<(), ErrorModel>,
) -> (k: nat)
    requires
        server.wf(),
        server.can_handle(message, from),
        protocol::request_of(message) == Some(
            (RequestModel::RoomCommand { command: "JOIN"@, room_id }),
        ),
        server.peers[from].status is None,
        server.rooms.contains_key(room_id),
        present == model::others(server.rooms[room_id], from),
        server.handled(message, from, after, result),
    ensures
        k <= present.len(),
        match result {
            Ok(_) => k == present.len(),
            Err(error) => if k < present.len() {
                error == (ErrorModel::NoticeNotSent {
                    to: present[k as int],
                    text: "ROOM_PEER_JOINED "@ + text::decimal(from as nat),
                })
            } else {
                error == (ErrorModel::NotSent {
                    to: from,
                    text: "ROOM_OK "@ + text::id_list(present),
                })
            },
        },
        after.rooms == server.rooms.insert(room_id, server.rooms[room_id].push(from)),
        after.room_servers == server.room_servers,
        after.peers.dom() == server.peers.dom(),
        forall|p: u32| #[trigger]
            server.peers.contains_key(p) ==> after.peers[p] == (PeerModel {
                status: if p == from {
                    Some(room_id)
                } else {
                    server.peers[p].status
                },
                inbox: server.peers[p].inbox + Seq::new(
                    present.take(k as int).to_multiset().count(p),
                    |i: int| "ROOM_PEER_JOINED "@ + text::decimal(from as nat),
                ) + if p == from && result is Ok {
                    seq!["ROOM_OK "@ + text::id_list(present)]
                } else {
                    Seq::empty()
                },
                ..server.peers[p]
            }),
{
    protocol::lemma_commands_differ();
    let request = protocol::request_of(message)->0;
    let notice = "ROOM_PEER_JOINED "@ + text::decimal(from as nat);
    let answer = model::direct(from, "ROOM_OK "@ + text::id_list(present));
    let all = model::notices(present, notice, Delivery::Notice);
    let (served, outgoing) = server.joined(room_id, from);
    model::lemma_outcome(server, request, message, from);
    let sent = law_sending_ends_at_the_first_failure(served, outgoing, after, result);
    let k: nat = if sent <= present.len() {
        sent
    } else {
        present.len()
    };
    assert(outgoing =~= all.push(answer));
    assert(outgoing.take(present.len() as int) =~= all);
    model::lemma_reaches_take(served, outgoing, present.len() as int);
    assert(outgoing.take(k as int) =~= all.take(k as int));
    if sent < present.len() {
        assert(outgoing[sent as int] == all[sent as int]);
    }
    model::lemma_reaches_take(served, outgoing, sent as int);
    model::lemma_delivered(served, outgoing.take(sent as int));
    assert(served.peers.dom() =~= server.peers.dom());
    assert forall|p: u32| #[trigger] server.peers.contains_key(p) implies after.peers[p] == (
    PeerModel {
        status: if p == from {
            Some(room_id)
        } else {
            server.peers[p].status
        },
        inbox: server.peers[p].inbox + Seq::new(
            present.take(k as int).to_multiset().count(p),
            |i: int| notice,
        ) + if p == from && result is Ok {
            seq!["ROOM_OK "@ + text::id_list(present)]
        } else {
            Seq::empty()
        },
        ..server.peers[p]
    }) by {
        assert(served.peers.contains_key(p));
        lemma_first_notices(served, present, notice, Delivery::Notice, k, p);
        let told = served.peers[p].inbox + Seq::new(
            present.take(k as int).to_multiset().count(p),
            |i: int| notice,
        );
        assert(told + Seq::<Seq<char>>::empty() =~= told);
        if sent > present.len() {
            assert(outgoing.take(sent as int) =~= all.push(answer));
            assert(all.take(k as int) =~= all);
            law_message_ends_up_last_in_its_inbox(served, all, answer);
            assert(told.push(answer.text) =~= told + seq![answer.text]);
        }
    }
    k
}

/// A peer in a room that asks who is there is sent `ROOM_PEER_LIST` with the ids of all others in
/// their order, and nothing else changes.
pub proof fn law_list_names_the_others_in_the_room(
    server: ServerModel,
    message: Seq<char>,
    from: u32,
    room_id: u32,
    after: ServerModel,
    result: Result<(), ErrorModel>,
)
    requires
        protocol::request_of(message) == Some(RequestModel::PeerList),
        server.peers[from].status == Some(room_id),
        server.handled(message, from, after, result),
    ensures
        ({
            let words = "ROOM_PEER_LIST "@ + text::id_list(
                model::others(server.rooms[room_id], from),
            );
            match result {
                Ok(_) => after == (ServerModel {
                    peers: server.peers.insert(
                        from,
                        PeerModel {
                            inbox: server.peers[from].inbox.push(words),
                            ..server.peers[from]
                        },
                    ),
                    ..server
                }),
                Err(error) => after == server && error == (ErrorModel::NotSent {
                    to: from,
                    text: words,
                }),
            }
        }),
{
    let words = "ROOM_PEER_LIST "@ + text::id_list(model::others(server.rooms[room_id], from));
    lemma_one(server, from, words, after, result);
}

/// An invitation is queued for the media server as it came, and nothing else changes; what is no
/// request changes nothing and succeeds.
pub proof fn law_invitations_go_to_the_media_server(
    server: ServerModel,
    message: Seq<char>,
    from: u32,
    after: ServerModel,
    result: Result<(), ErrorModel>,
)
    requires
        server.handled(message, from, after, result),
    ensures
        protocol::request_of(message) == Some(RequestModel::Invite) ==> match result {
            Ok(_) => after == (ServerModel {
                peers: server.peers.insert(
                    999,
                    PeerModel {
                        inbox: server.peers[999].inbox.push(message),
                        ..server.peers[999]
                    },
                ),
                ..server
            }),
            Err(error) => after == server && error == (ErrorModel::NotSent {
                to: 999,
                text: message,
            }),
        },
        protocol::request_of(message) == Some(RequestModel::Unknown) ==> after == server && result
            is Ok,
{
    if protocol::request_of(message) == Some(RequestModel::Invite) {
        lemma_one(server, 999, message, after, result);
    }
    if protocol::request_of(message) == Some(RequestModel::Unknown) {
        let k = law_sending_ends_at_the_first_failure(server, Seq::empty(), after, result);
        assert(Seq::<OutgoingModel>::empty().take(0) =~= Seq::<OutgoingModel>::empty());
    }
}

/// A peer can be removed if it is connected, and with it everybody else in its room, or if nobody is
/// left in the room but its alias.
pub proof fn law_removal_takes_these_peers(server: ServerModel, id: u32)
    ensures
        server.can_remove(id) <==> server.peers.contains_key(id) && (server.peers[id].status matches
            Some(room_id) ==> (model::others(server.rooms[room_id], id) == seq![room_id]
            || forall|member: u32| #[trigger]
            server.rooms[room_id].contains(member) && member != id ==> server.peers.contains_key(
                member,
            ))),
{
    if let Some(room_id) = server.peers[id].status {
        lemma_others_are_connected(server, server.rooms[room_id], id);
    }
}

/// A peer in no room is removed without a word. With the last peer but the alias the room goes and the
/// alias with it, without a word either. Both always succeed, and change nothing else.
pub proof fn law_quiet_removals(
    server: ServerModel,
    id: u32,
    after: ServerModel,
    result: Result<(), ErrorModel>,
)
    requires
        server.removed(id, after, result),
    ensures
        server.peers[id].status is None ==> result is Ok && after == (ServerModel {
            peers: server.peers.remove(id),
            ..server
        }),
        server.peers[id].status matches Some(room_id) && model::others(server.rooms[room_id], id)
            == seq![room_id] ==> result is Ok && after == (ServerModel {
            peers: server.peers.remove(server.peers[id].status->0).remove(id),
            rooms: server.rooms.remove(server.peers[id].status->0),
            room_servers: server.room_servers,
        }),
{
    let (emptied, outgoing) = server.left(id);
    if outgoing.len() == 0 {
        assert(emptied.delivered(outgoing) == emptied);
        if let Err(error) = result {
            let (sent, last) = choose|sent: int, last: ServerModel|
                {
                    &&& #[trigger] emptied.cut_short(outgoing, sent, last, error)
                    &&& after == last.disconnected(id)
                };
            assert(false);
        }
    }
}

/// When a peer is removed from a room where others remain, they are sent `ROOM_PEER_LEFT <id>`, each
/// once for every time that it stands among them, and the peer stands in the room no more. `k` notices
/// are sent. Nobody else is sent anything, and the peer is connected no more in any case.
pub proof fn law_leaving_tells_everybody_who_remains(
    server: ServerModel,
    id: u32,
    room_id: u32,
    remaining: Seq<u32>,
    after: ServerModel,
    result: Result<(), ErrorModel>,
) -> (k: nat)
    requires
        server.wf(),
        server.can_remove(id),
        server.peers[id].status == Some(room_id),
        remaining == model::others(server.rooms[room_id], id),
        remaining != seq![room_id],
        server.removed(id, after, result),
    ensures
        k <= remaining.len(),
        match result {
            Ok(_) => k == remaining.len(),
            Err(error) => k < remaining.len() && error == (ErrorModel::FarewellNotSent {
                to: remaining[k as int],
                text: "ROOM_PEER_LEFT "@ + text::decimal(id as nat),
            }),
        },
        after.rooms == server.rooms.insert(room_id, remaining),
        after.room_servers == server.room_servers,
        after.peers.dom() == server.peers.dom().remove(id),
        forall|p: u32| #[trigger]
            server.peers.contains_key(p) && p != id ==> after.peers[p] == (PeerModel {
                inbox: server.peers[p].inbox + Seq::new(
                    remaining.take(k as int).to_multiset().count(p),
                    |i: int| "ROOM_PEER_LEFT "@ + text::decimal(id as nat),
                ),
                ..server.peers[p]
            }),
{
    let notice = "ROOM_PEER_LEFT "@ + text::decimal(id as nat);
    let (emptied, outgoing) = server.left(id);
    model::lemma_left(server, id);
    let all = model::notices(remaining, notice, Delivery::Farewell);
    assert(outgoing =~= all);
    let (k, last): (nat, ServerModel) = match result {
        Ok(_) => (outgoing.len(), emptied.delivered(outgoing)),
        Err(error) => {
            let (sent, last) = choose|sent: int, last: ServerModel|
                {
                    &&& #[trigger] emptied.cut_short(outgoing, sent, last, error)
                    &&& after == last.disconnected(id)
                };
            (sent as nat, last)
        },
    };
    assert(outgoing.take(outgoing.len() as int) =~= outgoing);
    assert(last == emptied.delivered(outgoing.take(k as int)));
    model::lemma_reaches_take(emptied, outgoing, k as int);
    model::lemma_delivered(emptied, outgoing.take(k as int));
    assert(after.peers.dom() =~= server.peers.dom().remove(id));
    assert forall|p: u32| #[trigger]
        server.peers.contains_key(p) && p != id implies after.peers[p] == (PeerModel {
        inbox: server.peers[p].inbox + Seq::new(
            remaining.take(k as int).to_multiset().count(p),
            |i: int| notice,
        ),
        ..server.peers[p]
    }) by {
        assert(emptied.peers.contains_key(p));
        lemma_first_notices(emptied, remaining, notice, Delivery::Farewell, k, p);
    }
    k
}

/// Registration puts the peer under its id, leaves the rooms and everybody else as they are, and takes
/// note of a media server.
pub proof fn law_registration_adds_the_peer(server: ServerModel, peer: PeerModel)
    ensures
        server.registered(peer).peers == server.peers.insert(peer.id, peer),
        server.registered(peer).rooms == server.rooms,
        protocol::is_media_server(peer.id) ==> server.registered(peer).room_servers
            == server.room_servers.insert(peer.id, Seq::empty()),
        !protocol::is_media_server(peer.id) ==> server.registered(peer).room_servers
            == server.room_servers,
        ServerModel::empty().peers == Map::<u32, PeerModel>::empty(),
        ServerModel::empty().rooms == Map::<u32, Seq<u32>>::empty(),
        ServerModel::empty().room_servers == Map::<u32, Seq<u32>>::empty(),
{
}

/// A task that is said to stop has been asked to, through a later state of its own handle; and one
/// that has been asked to through its handle is said to stop.
pub proof fn law_tasks_stop_if_they_are_asked_to(task: JoinHandle<()>)
    ensures
        link::stops(task) ==> exists|later: JoinHandle<()>| #[trigger]
            link::asked_to_stop(later) && link::task_id(later) == link::task_id(task),
        link::asked_to_stop(task) ==> link::stops(task),
{
}

/// Where the tasks of the dismissed are said to stop, the task of everybody who is connected no more
/// after the removal has been asked to, through a later state of its own handle.
pub proof fn law_tasks_of_whoever_goes_are_asked_to_stop(
    server: ServerModel,
    id: u32,
    after: ServerModel,
    result: Result<(), ErrorModel>,
    gone: u32,
)
    requires
        server.wf(),
        server.can_remove(id),
        server.removed(id, after, result),
        server.dismissed_tasks_stop(id),
        server.peers.contains_key(gone),
        !after.peers.contains_key(gone),
    ensures
        exists|later: JoinHandle<()>| #[trigger]
            link::asked_to_stop(later) && link::task_id(later) == link::task_id(
                server.peers[gone].task->0,
            ),
{
    let peer = server.peers[gone];
    laws::law_removal_dismisses_whoever_goes(server, id, after, result, peer);
    let dismissed = server.dismissed(id);
    let i = choose|i: int| 0 <= i < dismissed.len() && dismissed[i] == peer;
    assert(link::stops(dismissed[i].task->0));
}

/// A text that a peer sends is handled, whatever it says and however long it is; a queued message is
/// written; any other message is passed over; a failure removes the peer; and at the end there is
/// nothing more to do.
pub proof fn law_events_are_answered(words: String, other: WsMessage)
    requires
        !(other is Text),
    ensures
        connection::action_for(Event::Received(WsMessage::Text(words))) == Action::Handle(words),
        connection::action_for(Event::Received(other)) == Action::Wait,
        connection::action_for(Event::Queued) == Action::Write,
        connection::action_for(Event::Failed) == Action::Remove,
        connection::action_for(Event::Finished) == Action::Stop,
{
}

/// What is done on a connection begins with what there is to do about the first event and goes on with
/// the others, until the connection fails or ends.
pub proof fn law_work_follows_the_events(words: String, other: WsMessage, rest: Seq<Event>)
    requires
        !(other is Text),
    ensures
        connection::work(Seq::empty()) == Seq::<Action>::empty(),
        connection::work(seq![Event::Received(WsMessage::Text(words))] + rest) == seq![
            Action::Handle(words),
        ] + connection::work(rest),
        connection::work(seq![Event::Received(other)] + rest) == connection::work(rest),
        connection::work(seq![Event::Queued] + rest) == seq![Action::Write] + connection::work(rest),
        connection::work(seq![Event::Failed] + rest) == seq![Action::Remove],
        connection::work(seq![Event::Finished] + rest) == seq![Action::Stop],
{
    let received = seq![Event::Received(WsMessage::Text(words))] + rest;
    let passed_over = seq![Event::Received(other)] + rest;
    let queued = seq![Event::Queued] + rest;
    assert(received.skip(1) =~= rest);
    assert(passed_over.skip(1) =~= rest);
    assert(queued.skip(1) =~= rest);
    assert((seq![Event::Failed] + rest)[0] == Event::Failed);
    assert((seq![Event::Finished] + rest)[0] == Event::Finished);
}

/// The texts that are handled on a connection, up to the event that ends it, are the texts that the
/// peer has sent until then, in order.
pub proof fn law_every_text_is_handled_in_order(events: Seq<Event>, tail: Seq<Event>)
    requires
        forall|i: int|
            0 <= i < events.len() ==> !(#[trigger] events[i] is Failed) && !(events[i] is Finished),
        tail.len() == 0 || tail[0] is Failed || tail[0] is Finished,
    ensures
        connection::work(events + tail).filter(|action: Action| action is Handle) == events.filter(
            |event: Event| event is Received && event->Received_0 is Text,
        ).map_values(|event: Event| Action::Handle(event->Received_0->Text_0)),
    decreases events.len(),
{
    reveal_with_fuel(Seq::filter, 2);
    let handled = |action: Action| action is Handle;
    let sent = |event: Event| event is Received && event->Received_0 is Text;
    let handling = |event: Event| Action::Handle(event->Received_0->Text_0);
    if events.len() == 0 {
        assert(events + tail =~= tail);
        if tail.len() > 0 {
            let done = connection::work(tail);
            assert(done.drop_last() =~= Seq::<Action>::empty());
            assert(done.filter(handled) =~= Seq::<Action>::empty());
        }
        assert(events.filter(sent).map_values(handling) =~= Seq::<Action>::empty());
    } else {
        let first = seq![events[0]];
        let rest = events.skip(1);
        let all = events + tail;
        assert forall|i: int| 0 <= i < rest.len() implies !(#[trigger] rest[i] is Failed) && !(
        rest[i] is Finished) by {
            assert(rest[i] == events[i + 1]);
        }
        law_every_text_is_handled_in_order(rest, tail);
        assert(all.skip(1) =~= rest + tail);
        assert(first + rest =~= events);
        assert(first.drop_last() =~= Seq::<Event>::empty());
        Seq::filter_distributes_over_add(first, rest, sent);
        let action = connection::action_for(events[0]);
        let later = connection::work(rest + tail);
        assert(seq![action].drop_last() =~= Seq::<Action>::empty());
        Seq::filter_distributes_over_add(seq![action], later, handled);
        if sent(events[0]) {
            assert(first.filter(sent) =~= first);
            assert(seq![action].filter(handled) =~= seq![action]);
        } else {
            assert(first.filter(sent) =~= Seq::<Event>::empty());
            assert(seq![action].filter(handled) =~= Seq::<Action>::empty());
        }
        assert((first.filter(sent) + rest.filter(sent)).map_values(handling) =~= first.filter(
            sent,
        ).map_values(handling) + rest.filter(sent).map_values(handling));
        assert(connection::work(all).filter(handled) =~= events.filter(sent).map_values(handling));
    }
}

/// A message that was not sent leaves the error of its kind, with the peer and the text.
pub proof fn law_lost_messages_leave_their_error(to: u32, words: Seq<char>)
    ensures
        model::send_failure((OutgoingModel { to, text: words, delivery: Delivery::Notice })) == (
        ErrorModel::NoticeNotSent { to, text: words }),
        model::send_failure((OutgoingModel { to, text: words, delivery: Delivery::Farewell })) == (
        ErrorModel::FarewellNotSent { to, text: words }),
        model::send_failure((OutgoingModel { to, text: words, delivery: Delivery::Direct })) == (
        ErrorModel::NotSent { to, text: words }),
{
}

/// Handling a message is to serve the request that it is and to send what comes of that; removing a
/// peer is to take it out of its room, to send what comes of that, and to disconnect it.
pub proof fn law_calls_send_what_their_requests_bring_about(
    server: ServerModel,
    message: Seq<char>,
    id: u32,
    after: ServerModel,
    result: Result<(), ErrorModel>,
    last: ServerModel,
)
    requires
        protocol::request_of(message) is Some,
    ensures
        match server.outcome(protocol::request_of(message)->0, message, id) {
            Ok((served, outgoing)) => server.handled(message, id, after, result) <==> served.sent(
                outgoing,
                after,
                result,
            ),
            Err(error) => server.handled(message, id, after, result) <==> after == server && result
                == Err::<(), ErrorModel>(error),
        },
        server.left(id).0.sent(server.left(id).1, last, result) ==> server.removed(
            id,
            ServerModel { peers: last.peers.remove(id), ..last },
            result,
        ),
{
    let (emptied, outgoing) = server.left(id);
    if emptied.sent(outgoing, last, result) {
        let disconnected = ServerModel { peers: last.peers.remove(id), ..last };
        assert(disconnected == last.disconnected(id));
        if let Err(error) = result {
            let sent = choose|sent: int| #[trigger] emptied.cut_short(outgoing, sent, last, error);
            assert(emptied.cut_short(outgoing, sent, last, error));
        }
    }
}

/// Messages reach their peers if each of these is connected.
pub proof fn law_messages_reach_connected_peers(
    server: ServerModel,
    outgoing: Seq<OutgoingModel>,
    last: OutgoingModel,
)
    ensures
        server.reaches(Seq::empty()),
        server.reaches(outgoing.push(last)) <==> server.reaches(outgoing)
            && server.peers.contains_key(last.to),
{
    let all = outgoing.push(last);
    if server.reaches(all) {
        assert(all[outgoing.len() as int] == last);
        assert(server.peers.contains_key(all[outgoing.len() as int].to));
        assert forall|i: int| 0 <= i < outgoing.len() implies server.peers.contains_key(
            #[trigger] outgoing[i].to,
        ) by {
            assert(all[i] == outgoing[i]);
        }
    }
}

/// A new channel that is separate from those of the server has a receiver in common with none.
pub proof fn law_separate_channels_share_no_receiver(
    server: ServerModel,
    peer: PeerModel,
    id: u32,
    rx: UnboundedReceiver<Message>,
)
    requires
        server.separate(peer),
        server.peers.contains_key(id),
    ensures
        !(server.peers[id].receivers.contains(rx) && peer.receivers.contains(rx)),
{
}

/// A list of messages has the model of each of them, a list of peers that of each peer, and a result
/// that of its error.
pub proof fn law_lists_are_modelled_one_by_one(
    outgoing: Seq<Outgoing>,
    peers: Seq<Peer>,
    error: ServerError,
    i: int,
)
    ensures
        server::outgoing_view(outgoing).len() == outgoing.len(),
        0 <= i < outgoing.len() ==> server::outgoing_view(outgoing)[i] == outgoing[i]@,
        server::peers_view(peers).len() == peers.len(),
        0 <= i < peers.len() ==> server::peers_view(peers)[i] == peers[i]@,
        server::result_view(Err(error)) == Err::<(), ErrorModel>(error@),
        server::result_view(Ok(())) == Ok::<(), ErrorModel>(()),
{
}

/// Whom a message introduces is what its text introduces; a message without text introduces nobody.
pub proof fn law_message_introduces_whom_its_text_introduces(message: WsMessage)
    ensures
        message::text_of(message) is Some ==> server::greeting_of(message) == protocol::greeting_id(
            message::text_of(message)->0,
        ),
        message::text_of(message) is None ==> server::greeting_of(message) is None,
{
}

/// A call whose messages may all be sent has none for a peer that is out of reach; a call that ends at
/// a message to a peer leaves that peer out of reach; and a peer that is out of reach stays so while it
/// is connected.
pub proof fn law_reach(
    before: &Server,
    after: &Server,
    outgoing: Seq<OutgoingModel>,
    i: int,
    to: u32,
    words: String,
)
    ensures
        before.may_reach(outgoing) && 0 <= i < outgoing.len() ==> !before.cannot_reach(
            outgoing[i].to,
        ),
        after.accounts_for(Err((ServerError::NotSent { to, text: words }))) ==> after.cannot_reach(
            to,
        ),
        after.accounts_for(Err((ServerError::NoticeNotSent { to, text: words })))
            ==> after.cannot_reach(to),
        after.accounts_for(Err((ServerError::FarewellNotSent { to, text: words })))
            ==> after.cannot_reach(to),
        before.channels_stay_closed(after) && before.cannot_reach(to) && after@.peers.contains_key(
            to,
        ) ==> after.cannot_reach(to),
{
}

} // verus!
