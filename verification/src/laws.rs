//! What holds of the protocol and of the server as a whole.
use crate::connection;
use crate::connection::Event;
use crate::error;
use crate::error::ErrorModel;
use crate::model;
use crate::model::{CallModel, Delivery, OutgoingModel, PeerModel, ServerModel};
use crate::protocol;
use crate::protocol::RequestModel;
use crate::text;
use futures::channel::mpsc::UnboundedReceiver;
use tokio_tungstenite::tungstenite::Message;
use vstd::prelude::*;

verus! {

/// The decimal form of a number is made of digits, and stands for the number.
pub(crate) proof fn lemma_decimal(n: nat)
    ensures
        text::decimal(n).len() > 0,
        text::all_digits(text::decimal(n)),
        text::digits_value(text::decimal(n)) == n,
    decreases n,
{
    if n < 10 {
        assert(text::decimal(n).drop_last() =~= Seq::<char>::empty());
        reveal_with_fuel(text::digits_value, 2);
    } else {
        lemma_decimal(n / 10);
        assert(text::decimal(n).drop_last() =~= text::decimal(n / 10));
    }
}

/// A digit is neither a space nor an underscore nor a plus sign.
pub(crate) proof fn lemma_decimal_holds_no(n: nat, c: char)
    requires
        !text::is_digit(c),
    ensures
        forall|i: int| 0 <= i < text::decimal(n).len() ==> text::decimal(n)[i] != c,
{
    lemma_decimal(n);
}

/// Reading a number from its decimal form gives the number back.
pub proof fn law_number_reads_back(n: u32)
    ensures
        text::parse_number(text::decimal(n as nat)) == Some(n),
{
    lemma_decimal(n as nat);
    lemma_decimal_holds_no(n as nat, '+');
}

/// Different ids have different decimal forms.
pub proof fn law_decimal_is_injective(a: u32, b: u32)
    ensures
        text::decimal(a as nat) == text::decimal(b as nat) <==> a == b,
{
    law_number_reads_back(a);
    law_number_reads_back(b);
}

/// In `head`, a `c` and `tail`, where `head` holds no `c`, the first `c` cuts `head` from `tail`.
pub(crate) proof fn lemma_cut(head: Seq<char>, c: char, tail: Seq<char>)
    requires
        forall|i: int| 0 <= i < head.len() ==> head[i] != c,
    ensures
        text::before(head + seq![c] + tail, c) == head,
        text::after(head + seq![c] + tail, c) == Some(tail),
{
    let s = head + seq![c] + tail;
    text::lemma_first_at(s, c, head.len() as int);
    assert(s.take(head.len() as int) =~= head);
    assert(s.skip(head.len() as int + 1) =~= tail);
}

/// A text begins with what it was put together from first.
pub(crate) proof fn lemma_starts_with(prefix: Seq<char>, rest: Seq<char>)
    ensures
        text::starts_with(prefix + rest, prefix),
        (prefix + rest).skip(prefix.len() as int) == rest,
{
    assert((prefix + rest).take(prefix.len() as int) =~= prefix);
    assert((prefix + rest).skip(prefix.len() as int) =~= rest);
}

/// A message that the server passes on from a peer reads like a request to write back to that
/// peer, with the same body.
pub proof fn law_forwarded_reads_back(from: u32, body: Seq<char>)
    ensures
        protocol::request_of(protocol::forwarded(from, body)) == Some(
            RequestModel::PeerMessage { to: from, body: Some(body) },
        ),
{
    reveal_strlit("ROOM_PEER_MSG ");
    reveal_strlit("ROOM_PEER_MSG");
    reveal_strlit(" ");
    let message = protocol::forwarded(from, body);
    let rest = text::decimal(from as nat) + seq![' '] + body;
    assert(" "@ =~= seq![' ']);
    assert("ROOM_PEER_MSG "@ =~= "ROOM_PEER_MSG"@ + seq![' ']);
    assert(message =~= "ROOM_PEER_MSG"@ + (seq![' '] + rest));
    lemma_starts_with("ROOM_PEER_MSG"@, seq![' '] + rest);
    assert(message.skip("ROOM_PEER_MSG"@.len() as int + 1) =~= rest);
    lemma_decimal_holds_no(from as nat, ' ');
    lemma_cut(text::decimal(from as nat), ' ', body);
    law_number_reads_back(from);
}

/// `Hello <id>`, with or without more behind a space, introduces the peer of that id.
pub proof fn law_greeting_reads_back(id: u32, more: Seq<char>)
    ensures
        protocol::greeting_id("Hello "@ + text::decimal(id as nat)) == Some(id),
        protocol::greeting_id("Hello "@ + text::decimal(id as nat) + seq![' '] + more) == Some(id),
{
    reveal_strlit("Hello ");
    reveal_strlit("Hello");
    let digits = text::decimal(id as nat);
    lemma_decimal_holds_no(id as nat, ' ');
    law_number_reads_back(id);
    assert("Hello "@ =~= "Hello"@ + seq![' ']);

    let short = "Hello "@ + digits;
    assert(short =~= "Hello"@ + (seq![' '] + digits));
    lemma_starts_with("Hello"@, seq![' '] + digits);
    assert(short.skip("Hello"@.len() as int + 1) =~= digits);
    text::lemma_first_absent(digits, ' ');

    let rest = digits + seq![' '] + more;
    let long = "Hello "@ + digits + seq![' '] + more;
    assert(long =~= "Hello"@ + (seq![' '] + rest));
    lemma_starts_with("Hello"@, seq![' '] + rest);
    assert(long.skip("Hello"@.len() as int + 1) =~= rest);
    lemma_cut(digits, ' ', more);
}

/// `ROOM_CMD_<command> <room>` asks for the command on the room, where the command holds neither
/// an underscore nor a space.
pub proof fn law_room_command_reads_back(command: Seq<char>, room_id: u32)
    requires
        forall|i: int| 0 <= i < command.len() ==> command[i] != '_' && command[i] != ' ',
    ensures
        protocol::request_of(
            "ROOM_CMD_"@ + command + seq![' '] + text::decimal(room_id as nat),
        ) == Some(RequestModel::RoomCommand { command, room_id }),
{
    reveal_strlit("ROOM_CMD_");
    reveal_strlit("ROOM_CMD");
    reveal_strlit("ROOM_PEER_MSG");
    let digits = text::decimal(room_id as nat);
    let words = command + seq![' '] + digits;
    let message = "ROOM_CMD_"@ + command + seq![' '] + digits;
    assert("ROOM_CMD_"@ =~= "ROOM_CMD"@ + seq!['_']);
    assert(message =~= "ROOM_CMD"@ + (seq!['_'] + words));
    lemma_starts_with("ROOM_CMD"@, seq!['_'] + words);
    assert(!text::starts_with(message, "ROOM_PEER_MSG"@)) by {
        assert(message[5] == 'C');
        assert("ROOM_PEER_MSG"@[5] == 'P');
        if text::starts_with(message, "ROOM_PEER_MSG"@) {
            assert(message.take("ROOM_PEER_MSG"@.len() as int)[5] == 'P');
        }
    }
    assert(seq!['_'] + words =~= Seq::<char>::empty() + seq!['_'] + words);
    lemma_cut(Seq::empty(), '_', words);
    lemma_decimal_holds_no(room_id as nat, '_');
    assert forall|i: int| 0 <= i < words.len() implies words[i] != '_' by {
        if i < command.len() {
            assert(words[i] == command[i]);
        } else if i > command.len() {
            assert(words[i] == digits[i - command.len() - 1]);
        }
    }
    text::lemma_first_absent(words, '_');
    lemma_cut(command, ' ', digits);
    law_number_reads_back(room_id);
}

/// A list of several ids is the first id, a space, and the list of the others.
proof fn lemma_id_list(ids: Seq<u32>)
    requires
        ids.len() > 1,
    ensures
        text::id_list(ids) == text::decimal(ids[0] as nat) + seq![' '] + text::id_list(ids.skip(1)),
    decreases ids.len(),
{
    let init = ids.drop_last();
    let rest = ids.skip(1);
    let last = text::decimal(ids.last() as nat);
    if ids.len() == 2 {
        assert(text::id_list(init) == text::decimal(ids[0] as nat));
        assert(text::id_list(rest) == last);
    } else {
        lemma_id_list(init);
        assert(init.skip(1) =~= rest.drop_last());
        assert(text::id_list(ids) =~= text::decimal(ids[0] as nat) + seq![' '] + (text::id_list(
            rest.drop_last(),
        ) + seq![' '] + last));
    }
}

/// A list of ids can be read back: up to the first space stands the first id, and behind it the
/// list of the others.
pub proof fn law_id_list_reads_back(ids: Seq<u32>)
    requires
        ids.len() > 0,
    ensures
        text::parse_number(text::before(text::id_list(ids), ' ')) == Some(ids[0]),
        text::after(text::id_list(ids), ' ') == if ids.len() > 1 {
            Some(text::id_list(ids.skip(1)))
        } else {
            None
        },
{
    lemma_decimal_holds_no(ids[0] as nat, ' ');
    law_number_reads_back(ids[0]);
    if ids.len() > 1 {
        lemma_id_list(ids);
        lemma_cut(text::decimal(ids[0] as nat), ' ', text::id_list(ids.skip(1)));
    } else {
        text::lemma_first_absent(text::decimal(ids[0] as nat), ' ');
    }
}

/// The media server that rooms ask for aliases registers as a media server.
pub proof fn law_mcu_is_a_media_server()
    ensures
        protocol::is_media_server(protocol::MCU),
{
    reveal_strlit("999");
    reveal_with_fuel(text::decimal, 3);
    assert(text::decimal(999) =~= seq!['9', '9', '9']);
    assert("999"@ =~= seq!['9', '9', '9']);
    assert(text::decimal(999).take(3) =~= "999"@);
}

/// Leaving a peer out makes no member of a room stand there twice.
proof fn lemma_others_no_duplicates(room: Seq<u32>, id: u32)
    requires
        room.no_duplicates(),
    ensures
        model::others(room, id).no_duplicates(),
    decreases room.len(),
{
    reveal(Seq::filter);
    if room.len() > 0 {
        let rest = room.drop_last();
        let last = room.last();
        assert(rest.push(last) =~= room);
        lemma_others_no_duplicates(rest, id);
        model::lemma_others_push(rest, last, id);
        model::lemma_others_contains(rest, id, last);
        assert(!rest.contains(last));
    }
}

/// Sending comes to a number of messages that have been queued.
pub(crate) proof fn lemma_sent(
    server: ServerModel,
    outgoing: Seq<OutgoingModel>,
    after: ServerModel,
    result: Result<(), ErrorModel>,
) -> (queued: Seq<OutgoingModel>)
    requires
        server.reaches(outgoing),
        server.sent(outgoing, after, result),
    ensures
        server.reaches(queued),
        after == server.delivered(queued),
        queued.is_prefix_of(outgoing),
        result is Ok ==> queued == outgoing,
{
    match result {
        Ok(_) => outgoing,
        Err(error) => {
            let sent = choose|sent: int| #[trigger] server.cut_short(outgoing, sent, after, error);
            model::lemma_reaches_take(server, outgoing, sent);
            outgoing.take(sent)
        },
    }
}

/// Messages leave a settled server settled.
proof fn lemma_delivered_settled(server: ServerModel, outgoing: Seq<OutgoingModel>)
    requires
        server.reaches(outgoing),
        server.settled(),
    ensures
        server.delivered(outgoing).settled(),
{
    model::lemma_delivered(server, outgoing);
    let after = server.delivered(outgoing);
    assert forall|room_id: u32, i: int|
        after.rooms.contains_key(room_id) && 0 <= i < after.rooms[room_id].len() implies {
        let member = #[trigger] after.rooms[room_id][i];
        &&& after.peers.contains_key(member)
        &&& after.peers[member].status == Some(room_id)
    } by {
        let member = server.rooms[room_id][i];
        assert(server.peers.contains_key(member));
        assert(after.peers.dom().contains(member));
    }
}

/// A server that nobody has connected to is settled.
pub proof fn law_empty_is_settled()
    ensures
        ServerModel::empty().settled(),
{
}

/// Registration leaves a settled server settled, unless the new peer takes the place of one that
/// is in a room.
pub proof fn law_registration_keeps_settled(server: ServerModel, peer: PeerModel)
    requires
        server.settled(),
        peer.status is None,
        server.peers.contains_key(peer.id) ==> server.peers[peer.id].status is None,
    ensures
        server.registered(peer).settled(),
{
    let after = server.registered(peer);
    assert forall|room_id: u32, i: int|
        after.rooms.contains_key(room_id) && 0 <= i < after.rooms[room_id].len() implies {
        let member = #[trigger] after.rooms[room_id][i];
        &&& after.peers.contains_key(member)
        &&& after.peers[member].status == Some(room_id)
    } by {
        assert(server.peers.contains_key(server.rooms[room_id][i]));
    }
}

/// A peer without a room that enters one leaves a settled server settled, where nothing but the
/// peer is new in the room.
proof fn lemma_entered_settled(server: ServerModel, id: u32, room_id: u32, members: Seq<u32>)
    requires
        server.settled(),
        server.peers.contains_key(id),
        server.peers[id].status is None,
        members == if server.rooms.contains_key(room_id) {
            server.rooms[room_id].push(id)
        } else {
            seq![id]
        },
    ensures
        server.entered(id, room_id, members).settled(),
{
    let after = server.entered(id, room_id, members);
    assert forall|r: u32| #[trigger] after.rooms.contains_key(r) implies {
        &&& after.rooms[r].no_duplicates()
        &&& forall|i: int|
            0 <= i < after.rooms[r].len() ==> {
                let member = #[trigger] after.rooms[r][i];
                &&& after.peers.contains_key(member)
                &&& after.peers[member].status == Some(r)
            }
    } by {
        if server.rooms.contains_key(r) {
            let earlier = server.rooms[r];
            assert forall|i: int| 0 <= i < earlier.len() implies {
                &&& server.peers.contains_key(#[trigger] earlier[i])
                &&& server.peers[earlier[i]].status == Some(r)
                &&& earlier[i] != id
            } by {}
            assert forall|i: int| 0 <= i < after.rooms[r].len() implies {
                let member = #[trigger] after.rooms[r][i];
                &&& after.peers.contains_key(member)
                &&& after.peers[member].status == Some(r)
            } by {
                if i < earlier.len() {
                    assert(after.rooms[r][i] == earlier[i]);
                }
            }
        }
    }
}

/// Handling a message leaves a settled server settled.
pub proof fn law_handling_keeps_settled(
    server: ServerModel,
    message: Seq<char>,
    from: u32,
    after: ServerModel,
    result: Result<(), ErrorModel>,
)
    requires
        server.wf(),
        server.settled(),
        server.can_handle(message, from),
        server.handled(message, from, after, result),
    ensures
        after.settled(),
{
    let request = protocol::request_of(message)->0;
    model::lemma_outcome(server, request, message, from);
    if let Ok((served, outgoing)) = server.outcome(request, message, from) {
        if let RequestModel::RoomCommand { command, room_id } = request {
            if command == "CREATE"@ {
                if !server.rooms.contains_key(room_id) {
                    lemma_entered_settled(server, from, room_id, seq![from]);
                }
            } else if server.rooms.contains_key(room_id) {
                lemma_entered_settled(
                    server,
                    from,
                    room_id,
                    server.rooms[room_id].push(from),
                );
            }
        }
        assert(served.settled());
        let queued = lemma_sent(served, outgoing, after, result);
        lemma_delivered_settled(served, queued);
    }
}

/// Being out of its room and disconnected, a peer leaves a settled server settled.
proof fn lemma_left_settled(server: ServerModel, id: u32)
    requires
        server.wf(),
        server.settled(),
        server.can_remove(id),
    ensures
        server.left(id).0.disconnected(id).settled(),
{
    let (emptied, outgoing) = server.left(id);
    let after = emptied.disconnected(id);
    assert forall|r: u32| #[trigger] after.rooms.contains_key(r) implies {
        &&& after.rooms[r].no_duplicates()
        &&& forall|i: int|
            0 <= i < after.rooms[r].len() ==> {
                let member = #[trigger] after.rooms[r][i];
                &&& after.peers.contains_key(member)
                &&& after.peers[member].status == Some(r)
            }
    } by {
        let earlier = server.rooms[r];
        assert(server.rooms.contains_key(r));
        if server.peers[id].status == Some(r) {
            lemma_others_no_duplicates(earlier, id);
        }
        assert forall|i: int| 0 <= i < after.rooms[r].len() implies {
            let member = #[trigger] after.rooms[r][i];
            &&& after.peers.contains_key(member)
            &&& after.peers[member].status == Some(r)
        } by {
            let member = after.rooms[r][i];
            if server.peers[id].status == Some(r) {
                assert(model::others(earlier, id).contains(member));
                model::lemma_others_contains(earlier, id, member);
            }
            assert(earlier.contains(member));
            let j = choose|j: int| 0 <= j < earlier.len() && earlier[j] == member;
            assert(server.peers.contains_key(earlier[j]));
            if let Some(room_id) = server.peers[id].status {
                if server.room_ends(room_id, id) && member == room_id {
                    assert(seq![room_id][0] == room_id);
                    model::lemma_others_contains(server.rooms[room_id], id, room_id);
                    let k = choose|k: int|
                        0 <= k < server.rooms[room_id].len() && server.rooms[room_id][k] == room_id;
                    assert(server.peers[server.rooms[room_id][k]].status == Some(room_id));
                }
            }
        }
    }
}

/// Removing a peer leaves a settled server settled.
pub proof fn law_removal_keeps_settled(
    server: ServerModel,
    id: u32,
    after: ServerModel,
    result: Result<(), ErrorModel>,
)
    requires
        server.wf(),
        server.settled(),
        server.can_remove(id),
        server.removed(id, after, result),
    ensures
        after.settled(),
{
    lemma_left_settled(server, id);
    let queued = lemma_removed_queue(server, id, after, result);
    let emptied = server.left(id).0;
    let gone = emptied.disconnected(id);
    model::lemma_delivered(emptied, queued);
    assert forall|r: u32, i: int|
        after.rooms.contains_key(r) && 0 <= i < after.rooms[r].len() implies {
        let member = #[trigger] after.rooms[r][i];
        &&& after.peers.contains_key(member)
        &&& after.peers[member].status == Some(r)
    } by {
        assert(gone.rooms.contains_key(r));
        let member = gone.rooms[r][i];
        assert(gone.peers.contains_key(member));
        assert(emptied.peers.contains_key(member));
        assert(emptied.delivered(queued).peers.dom().contains(member));
    }
}

/// Removing a peer comes to a number of notices that have been queued.
pub(crate) proof fn lemma_removed_queue(
    server: ServerModel,
    id: u32,
    after: ServerModel,
    result: Result<(), ErrorModel>,
) -> (queued: Seq<OutgoingModel>)
    requires
        server.wf(),
        server.can_remove(id),
        server.removed(id, after, result),
    ensures
        server.left(id).0.reaches(queued),
        after == server.left(id).0.delivered(queued).disconnected(id),
        queued.is_prefix_of(server.left(id).1),
        result is Ok ==> queued == server.left(id).1,
{
    let (emptied, outgoing) = server.left(id);
    model::lemma_left(server, id);
    match result {
        Ok(_) => outgoing,
        Err(error) => {
            let (sent, last) = choose|sent: int, last: ServerModel|
                {
                    &&& #[trigger] emptied.cut_short(outgoing, sent, last, error)
                    &&& after == last.disconnected(id)
                };
            model::lemma_reaches_take(emptied, outgoing, sent);
            outgoing.take(sent)
        },
    }
}

/// In a settled server the members of a room are the connected peers that have it for their own;
/// so no peer is in two rooms.
pub proof fn law_room_is_made_of_its_peers(server: ServerModel, room_id: u32, id: u32)
    requires
        server.wf(),
        server.settled(),
        server.rooms.contains_key(room_id),
    ensures
        server.rooms[room_id].contains(id) <==> server.peers.contains_key(id)
            && server.peers[id].status == Some(room_id),
{
    if server.rooms[room_id].contains(id) {
        let i = choose|i: int|
            0 <= i < server.rooms[room_id].len() && server.rooms[room_id][i] == id;
        assert(server.peers.contains_key(server.rooms[room_id][i]));
    }
}

/// In a settled server every connected peer can be removed.
pub proof fn law_settled_can_remove(server: ServerModel, id: u32)
    requires
        server.wf(),
        server.settled(),
        server.peers.contains_key(id),
    ensures
        server.can_remove(id),
{
    if let Some(room_id) = server.peers[id].status {
        lemma_others_connected(server, room_id, id);
    }
}

/// In a settled server the members of a room are connected.
proof fn lemma_others_connected(server: ServerModel, room_id: u32, id: u32)
    requires
        server.settled(),
        server.rooms.contains_key(room_id),
    ensures
        server.connected(model::others(server.rooms[room_id], id)),
{
    let room = server.rooms[room_id];
    let present = model::others(room, id);
    assert forall|i: int| 0 <= i < present.len() implies server.peers.contains_key(
        #[trigger] present[i],
    ) by {
        assert(present.contains(present[i]));
        model::lemma_others_contains(room, id, present[i]);
        let j = choose|j: int| 0 <= j < room.len() && room[j] == present[i];
        assert(server.peers.contains_key(room[j]));
    }
}

/// A settled server that the media server is connected to can serve every request of a connected
/// peer, except that only a peer in a room can ask who else is there.
pub proof fn law_settled_can_serve(server: ServerModel, request: RequestModel, from: u32)
    requires
        server.wf(),
        server.settled(),
        server.peers.contains_key(from),
        server.peers.contains_key(protocol::MCU),
        request is PeerList ==> server.peers[from].status is Some,
    ensures
        server.can_serve(request, from),
{
    if let RequestModel::RoomCommand { command, room_id } = request {
        if server.rooms.contains_key(room_id) {
            lemma_others_connected(server, room_id, from);
        }
    }
}

/// What a peer is sent is what is addressed to it, in order and behind all that it was sent before.
pub proof fn law_peer_receives_what_is_addressed_to_it(
    server: ServerModel,
    outgoing: Seq<OutgoingModel>,
    id: u32,
)
    requires
        server.reaches(outgoing),
        server.peers.contains_key(id),
    ensures
        server.delivered(outgoing).peers[id].inbox == server.peers[id].inbox + model::addressed(
            outgoing,
            id,
        ),
    decreases outgoing.len(),
{
    if outgoing.len() == 0 {
        assert(server.peers[id].inbox + Seq::<Seq<char>>::empty() =~= server.peers[id].inbox);
    } else {
        let rest = outgoing.drop_last();
        assert(rest =~= outgoing.take(outgoing.len() - 1));
        model::lemma_reaches_take(server, outgoing, outgoing.len() - 1);
        law_peer_receives_what_is_addressed_to_it(server, rest, id);
        let earlier = server.peers[id].inbox;
        let last = outgoing.last();
        assert(server.delivered(outgoing).peers[id].inbox =~= earlier + model::addressed(
            outgoing,
            id,
        ));
    }
}

/// Of the same notice to several peers, each of them gets one.
proof fn lemma_addressed_notices(
    members: Seq<u32>,
    words: Seq<char>,
    delivery: Delivery,
    id: u32,
)
    requires
        members.no_duplicates(),
    ensures
        model::addressed(model::notices(members, words, delivery), id) == if members.contains(id) {
            seq![words]
        } else {
            Seq::<Seq<char>>::empty()
        },
    decreases members.len(),
{
    let all = model::notices(members, words, delivery);
    if members.len() > 0 {
        let rest = members.drop_last();
        assert(all.drop_last() =~= model::notices(rest, words, delivery));
        lemma_addressed_notices(rest, words, delivery, id);
        assert(rest.push(members.last()) =~= members);
        if members.contains(id) {
            let i = choose|i: int| 0 <= i < members.len() && members[i] == id;
            if i < rest.len() {
                assert(rest[i] == id);
            }
        }
        if rest.contains(id) {
            let i = choose|i: int| 0 <= i < rest.len() && rest[i] == id;
            assert(members[i] == id);
        }
        assert(members[members.len() - 1] == members.last());
        assert(Seq::<Seq<char>>::empty().push(words) =~= seq![words]);
    }
}

/// One more message to a peer is one more text that is addressed to it.
proof fn lemma_addressed_push(outgoing: Seq<OutgoingModel>, last: OutgoingModel, id: u32)
    ensures
        model::addressed(outgoing.push(last), id) == if last.to == id {
            model::addressed(outgoing, id).push(last.text)
        } else {
            model::addressed(outgoing, id)
        },
{
    assert(outgoing.push(last).drop_last() =~= outgoing);
}

/// When a peer joins a room whose members stand there once, everybody else in the room is sent one
/// notice of it, the peer is sent the list of those who are there, and nobody else is sent
/// anything.
pub proof fn law_joining_is_announced(
    server: ServerModel,
    message: Seq<char>,
    from: u32,
    room_id: u32,
    after: ServerModel,
    id: u32,
)
    requires
        server.wf(),
        server.can_handle(message, from),
        server.peers[from].status is None,
        server.rooms.contains_key(room_id),
        model::others(server.rooms[room_id], from).no_duplicates(),
        protocol::request_of(message) == Some(
            RequestModel::RoomCommand { command: "JOIN"@, room_id },
        ),
        server.handled(message, from, after, Ok(())),
        server.peers.contains_key(id),
    ensures
        after.peers[id].inbox == server.peers[id].inbox + if id == from {
            seq![protocol::room_joined(model::others(server.rooms[room_id], from))]
        } else if server.rooms[room_id].contains(id) {
            seq![protocol::peer_joined(from)]
        } else {
            Seq::empty()
        },
{
    protocol::lemma_commands_differ();
    let room = server.rooms[room_id];
    let present = model::others(room, from);
    let (served, outgoing) = server.joined(room_id, from);
    let words = protocol::peer_joined(from);
    model::lemma_outcome(server, protocol::request_of(message)->0, message, from);
    model::lemma_others_contains(room, from, id);
    law_peer_receives_what_is_addressed_to_it(served, outgoing, id);
    lemma_addressed_notices(present, words, Delivery::Notice, id);
    lemma_addressed_push(
        model::notices(present, words, Delivery::Notice),
        model::direct(from, protocol::room_joined(present)),
        id,
    );
    assert(Seq::<Seq<char>>::empty().push(protocol::room_joined(present)) =~= seq![
        protocol::room_joined(present),
    ]);
}

/// Leaving out a peer that is not a member leaves the members as they are.
proof fn lemma_others_of_stranger(room: Seq<u32>, id: u32)
    requires
        !room.contains(id),
    ensures
        model::others(room, id) == room,
    decreases room.len(),
{
    reveal(Seq::filter);
    if room.len() > 0 {
        let rest = room.drop_last();
        assert(rest.push(room.last()) =~= room);
        assert(room[room.len() - 1] == room.last());
        if rest.contains(id) {
            let i = choose|i: int| 0 <= i < rest.len() && rest[i] == id;
            assert(room[i] == id);
        }
        lemma_others_of_stranger(rest, id);
        model::lemma_others_push(rest, room.last(), id);
    }
}

/// When a peer is removed that is in a room whose members stand there once, everybody else in the
/// room who stays connected is sent one notice of it, and nobody else is sent anything.
pub proof fn law_leaving_is_announced(
    server: ServerModel,
    id: u32,
    room_id: u32,
    after: ServerModel,
    other: u32,
)
    requires
        server.wf(),
        server.can_remove(id),
        server.peers[id].status == Some(room_id),
        model::others(server.rooms[room_id], id).no_duplicates(),
        server.removed(id, after, Ok(())),
        after.peers.contains_key(other),
    ensures
        server.peers.contains_key(other),
        after.peers[other].inbox == server.peers[other].inbox + if server.rooms[room_id].contains(
            other,
        ) {
            seq![protocol::peer_left(id)]
        } else {
            Seq::empty()
        },
{
    let (emptied, outgoing) = server.left(id);
    let room = server.rooms[room_id];
    model::lemma_left(server, id);
    model::lemma_delivered(emptied, outgoing);
    assert(emptied.delivered(outgoing).peers.dom().contains(other));
    assert(emptied.peers.contains_key(other));
    law_peer_receives_what_is_addressed_to_it(emptied, outgoing, other);
    model::lemma_others_contains(room, id, other);
    if server.room_ends(room_id, id) {
        if room.contains(other) {
            assert(seq![room_id].contains(other));
        }
    } else {
        lemma_addressed_notices(
            model::others(room, id),
            protocol::peer_left(id),
            Delivery::Farewell,
            other,
        );
    }
}

/// The removal of a peer that is in no room is announced to nobody, and changes nothing else.
pub proof fn law_peer_without_a_room_leaves_in_silence(
    server: ServerModel,
    id: u32,
    after: ServerModel,
    result: Result<(), ErrorModel>,
)
    requires
        server.can_remove(id),
        server.peers[id].status is None,
        server.removed(id, after, result),
    ensures
        result is Ok,
        after == server.disconnected(id),
{
    assert(server.delivered(Seq::empty()) == server);
    if let Err(error) = result {
        let (sent, last) = choose|sent: int, last: ServerModel|
            {
                &&& #[trigger] server.cut_short(Seq::empty(), sent, last, error)
                &&& after == last.disconnected(id)
            };
        assert(false);
    }
}

/// The messages that a request brings about go to the sender, to the media server, or to a peer
/// that is in the sender's room.
pub proof fn law_messages_stay_in_the_room(
    server: ServerModel,
    request: RequestModel,
    message: Seq<char>,
    from: u32,
    i: int,
)
    requires
        server.wf(),
        server.can_serve(request, from),
        server.outcome(request, message, from) is Ok,
        0 <= i < server.outcome(request, message, from)->Ok_0.1.len(),
    ensures
        ({
            let (served, outgoing) = server.outcome(request, message, from)->Ok_0;
            let to = outgoing[i].to;
            ||| to == from
            ||| to == protocol::MCU
            ||| {
                &&& served.peers[from].status is Some
                &&& served.rooms[served.peers[from].status->0].contains(to)
            }
        }),
{
    if let RequestModel::RoomCommand { command, room_id } = request {
        if command != "CREATE"@ && server.rooms.contains_key(room_id) {
            let room = server.rooms[room_id];
            let present = model::others(room, from);
            if i < present.len() {
                assert(present.contains(present[i]));
                model::lemma_others_contains(room, from, present[i]);
                let j = choose|j: int| 0 <= j < room.len() && room[j] == present[i];
                assert(room.push(from)[j] == present[i]);
            }
        }
    }
}

/// The body of a message to another peer reaches that peer, and nobody but that peer, if it is
/// connected and in the sender's room; otherwise the sender is sent an error and nobody gets the
/// body. Either way nothing but one inbox changes.
pub proof fn law_peer_message_reaches_its_addressee(
    server: ServerModel,
    message: Seq<char>,
    from: u32,
    to: u32,
    body: Seq<char>,
    room_id: u32,
    after: ServerModel,
)
    requires
        server.wf(),
        server.can_handle(message, from),
        protocol::request_of(message) == Some(
            RequestModel::PeerMessage { to, body: Some(body) },
        ),
        server.peers[from].status == Some(room_id),
        server.handled(message, from, after, Ok(())),
    ensures
        server.peers.contains_key(to) && server.rooms[room_id].contains(to) ==> after
            == server.received(to, protocol::forwarded(from, body)),
        server.peers.contains_key(to) && !server.rooms[room_id].contains(to) ==> after
            == server.received(from, protocol::peer_not_present(to, room_id)),
        !server.peers.contains_key(to) ==> after == server.received(
            from,
            protocol::peer_not_found(to),
        ),
{
    let outgoing = seq![server.routed(to, body, from, room_id)];
    assert(outgoing.drop_last() =~= Seq::<OutgoingModel>::empty());
    reveal_with_fuel(ServerModel::delivered, 2);
}

/// A request that fails before anything is sent changes nothing.
pub proof fn law_refused_request_changes_nothing(
    server: ServerModel,
    message: Seq<char>,
    from: u32,
    after: ServerModel,
    result: Result<(), ErrorModel>,
)
    requires
        server.wf(),
        server.can_handle(message, from),
        server.handled(message, from, after, result),
        result matches Err(error) && error::not_reached(error) is None,
    ensures
        after == server,
{
    let request = protocol::request_of(message)->0;
    if let Ok((served, outgoing)) = server.outcome(request, message, from) {
        let error = result->Err_0;
        let sent = choose|sent: int| #[trigger] served.cut_short(outgoing, sent, after, error);
        assert(error == model::send_failure(outgoing[sent]));
    }
}

/// A command to create a room that is there already, or to join one that is not, is answered with
/// an error and changes nothing else.
pub proof fn law_impossible_command_is_answered(
    server: ServerModel,
    message: Seq<char>,
    from: u32,
    command: Seq<char>,
    room_id: u32,
    after: ServerModel,
)
    requires
        server.wf(),
        server.can_handle(message, from),
        server.peers[from].status is None,
        protocol::request_of(message) == Some(RequestModel::RoomCommand { command, room_id }),
        server.handled(message, from, after, Ok(())),
    ensures
        command == "CREATE"@ && server.rooms.contains_key(room_id) ==> after == server.received(
            from,
            protocol::room_exists(room_id),
        ),
        command == "JOIN"@ && !server.rooms.contains_key(room_id) ==> after == server.received(
            from,
            protocol::room_missing(room_id),
        ),
{
    protocol::lemma_commands_differ();
    reveal_with_fuel(ServerModel::delivered, 2);
    let exists_already = seq![model::direct(from, protocol::room_exists(room_id))];
    let missing = seq![model::direct(from, protocol::room_missing(room_id))];
    assert(exists_already.drop_last() =~= Seq::<OutgoingModel>::empty());
    assert(missing.drop_last() =~= Seq::<OutgoingModel>::empty());
}

/// A message that is no request is ignored.
pub proof fn law_unknown_message_is_ignored(
    server: ServerModel,
    message: Seq<char>,
    from: u32,
    after: ServerModel,
    result: Result<(), ErrorModel>,
)
    requires
        !text::starts_with(message, "ROOM_PEER_MSG"@),
        !text::starts_with(message, "ROOM_CMD"@),
        !text::starts_with(message, "ROOM_PEER_LIST"@),
        !text::starts_with(message, "SERVER_INVITE"@),
    ensures
        server.can_handle(message, from),
        server.handled(message, from, after, result) <==> after == server && result is Ok,
{
    assert(server.delivered(Seq::empty()) == server);
}

/// An invitation reaches the media server as it is, whoever sends it.
pub proof fn law_invitation_reaches_the_media_server(
    server: ServerModel,
    message: Seq<char>,
    from: u32,
    after: ServerModel,
)
    requires
        server.can_handle(message, from),
        protocol::request_of(message) == Some(RequestModel::Invite),
        server.handled(message, from, after, Ok(())),
    ensures
        after == server.received(protocol::MCU, message),
{
    reveal_with_fuel(ServerModel::delivered, 2);
    let outgoing = seq![model::direct(protocol::MCU, message)];
    assert(outgoing.drop_last() =~= Seq::<OutgoingModel>::empty());
}

/// A peer that joins a room and is then removed leaves the rooms as they were, if it was not among
/// the members already and somebody besides the alias was there.
pub proof fn law_joining_and_leaving_restores_rooms(
    server: ServerModel,
    message: Seq<char>,
    from: u32,
    room_id: u32,
    joined: ServerModel,
    first: Result<(), ErrorModel>,
    after: ServerModel,
    second: Result<(), ErrorModel>,
)
    requires
        server.wf(),
        server.can_handle(message, from),
        server.peers[from].status is None,
        server.rooms.contains_key(room_id),
        !server.rooms[room_id].contains(from),
        server.rooms[room_id] != seq![room_id],
        protocol::request_of(message) == Some(
            RequestModel::RoomCommand { command: "JOIN"@, room_id },
        ),
        server.handled(message, from, joined, first),
        joined.can_remove(from),
        joined.removed(from, after, second),
    ensures
        after.rooms == server.rooms,
{
    let room = server.rooms[room_id];
    lemma_joined(server, message, from, room_id, joined, first);
    lemma_others_of_stranger(room, from);
    model::lemma_others_push(room, from, from);
    let queued = lemma_removed_queue(joined, from, after, second);
    model::lemma_delivered(joined.left(from).0, queued);
    assert(after.rooms =~= server.rooms);
}

/// A peer that joins a room which holds the alias alone and is then removed takes the room and the
/// alias with it.
pub proof fn law_joining_and_leaving_an_alias_ends_the_room(
    server: ServerModel,
    message: Seq<char>,
    from: u32,
    room_id: u32,
    joined: ServerModel,
    first: Result<(), ErrorModel>,
    after: ServerModel,
    second: Result<(), ErrorModel>,
)
    requires
        server.wf(),
        server.can_handle(message, from),
        server.peers[from].status is None,
        server.rooms.contains_key(room_id),
        server.rooms[room_id] == seq![room_id],
        from != room_id,
        protocol::request_of(message) == Some(
            RequestModel::RoomCommand { command: "JOIN"@, room_id },
        ),
        server.handled(message, from, joined, first),
        joined.can_remove(from),
        joined.removed(from, after, second),
    ensures
        after.rooms == server.rooms.remove(room_id),
        !after.peers.contains_key(room_id),
        second is Ok,
{
    let room = server.rooms[room_id];
    lemma_joined(server, message, from, room_id, joined, first);
    lemma_others_of_stranger(room, from);
    model::lemma_others_push(room, from, from);
    let queued = lemma_removed_queue(joined, from, after, second);
    model::lemma_delivered(joined.left(from).0, queued);
    assert(after.rooms =~= server.rooms.remove(room_id));
    if let Err(error) = second {
        let (sent, last) = choose|sent: int, last: ServerModel|
            {
                &&& #[trigger] joined.left(from).0.cut_short(Seq::empty(), sent, last, error)
                &&& after == last.disconnected(from)
            };
        assert(false);
    }
    assert(!joined.left(from).0.peers.dom().contains(room_id));
}

/// What has changed once a peer has joined a room.
proof fn lemma_joined(
    server: ServerModel,
    message: Seq<char>,
    from: u32,
    room_id: u32,
    joined: ServerModel,
    result: Result<(), ErrorModel>,
)
    requires
        server.wf(),
        server.can_handle(message, from),
        server.peers[from].status is None,
        server.rooms.contains_key(room_id),
        protocol::request_of(message) == Some(
            RequestModel::RoomCommand { command: "JOIN"@, room_id },
        ),
        server.handled(message, from, joined, result),
    ensures
        joined.wf(),
        joined.peers.contains_key(from),
        joined.peers[from].status == Some(room_id),
        joined.rooms == server.rooms.insert(room_id, server.rooms[room_id].push(from)),
{
    protocol::lemma_commands_differ();
    let request = protocol::request_of(message)->0;
    model::lemma_outcome(server, request, message, from);
    let (served, outgoing) = server.joined(room_id, from);
    let queued = lemma_sent(served, outgoing, joined, result);
    model::lemma_delivered(served, queued);
    assert(served.peers.contains_key(from));
    assert(joined.peers.dom().contains(from));
}

/// A peer that asks who else is in the room right after it has joined is told the same as when it
/// joined.
pub proof fn law_list_agrees_with_the_answer_to_joining(
    server: ServerModel,
    message: Seq<char>,
    from: u32,
    room_id: u32,
    joined: ServerModel,
    result: Result<(), ErrorModel>,
    question: Seq<char>,
)
    requires
        server.wf(),
        server.can_handle(message, from),
        server.peers[from].status is None,
        server.rooms.contains_key(room_id),
        protocol::request_of(message) == Some(
            RequestModel::RoomCommand { command: "JOIN"@, room_id },
        ),
        server.handled(message, from, joined, result),
    ensures
        server.joined(room_id, from).1.last() == model::direct(
            from,
            protocol::room_joined(model::others(server.rooms[room_id], from)),
        ),
        joined.can_serve(RequestModel::PeerList, from),
        joined.outcome(RequestModel::PeerList, question, from) == Ok::<
            (ServerModel, Seq<OutgoingModel>),
            ErrorModel,
        >(
            (
                joined,
                seq![
                    model::direct(
                        from,
                        protocol::room_peers(model::others(server.rooms[room_id], from)),
                    ),
                ],
            ),
        ),
{
    lemma_joined(server, message, from, room_id, joined, result);
    model::lemma_others_push(server.rooms[room_id], from, from);
}

/// The peer that creates a room is its only member, and the media server is asked for an alias
/// before the peer is told that the room is there.
pub proof fn law_creator_is_alone_in_the_room(
    server: ServerModel,
    message: Seq<char>,
    from: u32,
    room_id: u32,
    after: ServerModel,
)
    requires
        server.wf(),
        server.can_handle(message, from),
        server.peers[from].status is None,
        !server.rooms.contains_key(room_id),
        protocol::request_of(message) == Some(
            RequestModel::RoomCommand { command: "CREATE"@, room_id },
        ),
        server.handled(message, from, after, Ok(())),
    ensures
        after == server.entered(from, room_id, seq![from]).received(
            protocol::MCU,
            protocol::alias_wanted(room_id),
        ).received(from, protocol::room_created()),
{
    let (served, outgoing) = server.created(room_id, from);
    let request = model::notices(
        seq![protocol::MCU],
        protocol::alias_wanted(room_id),
        Delivery::Notice,
    );
    assert(outgoing.drop_last() =~= request);
    assert(request.drop_last() =~= Seq::<OutgoingModel>::empty());
    reveal_with_fuel(ServerModel::delivered, 3);
}

/// A removed peer is connected no more and in no room that it was in; every other peer keeps its
/// room, except that the alias goes with a room that ends.
pub proof fn law_removed_peer_is_gone(
    server: ServerModel,
    id: u32,
    after: ServerModel,
    result: Result<(), ErrorModel>,
)
    requires
        server.wf(),
        server.can_remove(id),
        server.removed(id, after, result),
    ensures
        !after.peers.contains_key(id),
        server.peers[id].status matches Some(room_id) ==> (after.rooms.contains_key(room_id)
            ==> !after.rooms[room_id].contains(id)),
        server.peers[id].status matches Some(room_id) ==> (after.rooms.contains_key(room_id)
            <==> !server.room_ends(room_id, id)),
        forall|other: u32| #[trigger]
            after.peers.contains_key(other) <==> {
                &&& server.peers.contains_key(other)
                &&& other != id
                &&& server.peers[id].status matches Some(room_id) ==> !(server.room_ends(
                    room_id,
                    id,
                ) && other == room_id)
            },
        forall|other: u32| #[trigger]
            after.peers.contains_key(other) ==> after.peers[other].status
                == server.peers[other].status,
{
    let emptied = server.left(id).0;
    let queued = lemma_removed_queue(server, id, after, result);
    model::lemma_delivered(emptied, queued);
    if let Some(room_id) = server.peers[id].status {
        model::lemma_others_contains(server.rooms[room_id], id, id);
    }
    assert forall|other: u32| #[trigger] after.peers.contains_key(other) <==> {
        emptied.peers.contains_key(other) && other != id
    } by {
        assert(emptied.delivered(queued).peers.dom().contains(other)
            == emptied.peers.dom().contains(other));
    }
}

/// Handling a message connects and disconnects nobody. No peer but the sender comes to another
/// room, each keeps its connection, and what it has been sent stays sent.
pub proof fn law_handling_keeps_connections(
    server: ServerModel,
    message: Seq<char>,
    from: u32,
    after: ServerModel,
    result: Result<(), ErrorModel>,
    id: u32,
)
    requires
        server.wf(),
        server.can_handle(message, from),
        server.handled(message, from, after, result),
    ensures
        after.peers.contains_key(id) <==> server.peers.contains_key(id),
        server.peers.contains_key(id) ==> {
            &&& after.peers[id] == (PeerModel {
                status: after.peers[id].status,
                inbox: after.peers[id].inbox,
                ..server.peers[id]
            })
            &&& id != from ==> after.peers[id].status == server.peers[id].status
            &&& server.peers[id].inbox.is_prefix_of(after.peers[id].inbox)
        },
        after.room_servers == server.room_servers,
{
    let request = protocol::request_of(message)->0;
    model::lemma_outcome(server, request, message, from);
    if let Ok((served, outgoing)) = server.outcome(request, message, from) {
        let queued = lemma_sent(served, outgoing, after, result);
        model::lemma_delivered(served, queued);
        assert(after.peers.dom().contains(id) == served.peers.dom().contains(id));
        if server.peers.contains_key(id) {
            assert(served.peers.contains_key(id));
            law_peer_receives_what_is_addressed_to_it(served, queued, id);
        }
    }
}

/// A peer that stays when another is removed keeps its connection, and what it has been sent stays
/// sent.
pub proof fn law_removal_keeps_connections(
    server: ServerModel,
    id: u32,
    after: ServerModel,
    result: Result<(), ErrorModel>,
    other: u32,
)
    requires
        server.wf(),
        server.can_remove(id),
        server.removed(id, after, result),
        after.peers.contains_key(other),
    ensures
        server.peers.contains_key(other),
        after.peers[other] == (PeerModel {
            inbox: after.peers[other].inbox,
            ..server.peers[other]
        }),
        server.peers[other].inbox.is_prefix_of(after.peers[other].inbox),
        after.room_servers == server.room_servers,
{
    let emptied = server.left(id).0;
    let queued = lemma_removed_queue(server, id, after, result);
    model::lemma_delivered(emptied, queued);
    assert(emptied.delivered(queued).peers.dom().contains(other));
    assert(emptied.peers.contains_key(other));
    law_peer_receives_what_is_addressed_to_it(emptied, queued, other);
}

/// A peer that registers under an id that nobody has and is then removed leaves nothing behind,
/// except that a media server stays on record. Nobody hears of it, the removal succeeds, and no
/// channel feeds a receiver any more that was fed by the peer's own.
pub proof fn law_registering_and_leaving_leaves_no_trace(
    server: ServerModel,
    peer: PeerModel,
    after: ServerModel,
    result: Result<(), ErrorModel>,
)
    requires
        !server.peers.contains_key(peer.id),
        peer.status is None,
        server.separate(peer),
        server.registered(peer).removed(peer.id, after, result),
    ensures
        server.registered(peer).can_remove(peer.id),
        result is Ok,
        after.peers == server.peers,
        after.rooms == server.rooms,
        after.room_servers == server.registered(peer).room_servers,
        !protocol::is_media_server(peer.id) ==> after == server,
        forall|rx: UnboundedReceiver<Message>|
            #![trigger peer.receivers.contains(rx)]
            #![trigger after.fed(rx)]
            peer.receivers.contains(rx) ==> !after.fed(rx),
{
    law_peer_without_a_room_leaves_in_silence(server.registered(peer), peer.id, after, result);
    assert(after.peers =~= server.peers);
}

/// A peer that registers under an id that another one has takes its place: it is in no room, and
/// what is sent to the id from then on is queued for it, in a channel that has no receiver in common
/// with the earlier one. The rooms, the media servers and the other peers stay as they are, and there
/// are as many peers as before.
pub proof fn law_second_registration_replaces_the_first(
    server: ServerModel,
    peer: PeerModel,
    words: Seq<char>,
)
    requires
        server.wf(),
        server.peers.contains_key(peer.id),
        peer.status is None,
        server.separate(peer),
    ensures
        server.peers[peer.id].receivers.disjoint(server.registered(peer).peers[peer.id].receivers),
        server.registered(peer) == (ServerModel {
            peers: server.peers.insert(peer.id, peer),
            ..server
        }),
        server.registered(peer).peers.dom() == server.peers.dom(),
        server.registered(peer).peers.len() == server.peers.len(),
        server.registered(peer).peers[peer.id] == peer,
        server.registered(peer).received(peer.id, words).peers[peer.id] == (PeerModel {
            inbox: peer.inbox.push(words),
            ..peer
        }),
        forall|id: u32| #[trigger]
            server.peers.contains_key(id) && id != peer.id ==> server.registered(peer).peers[id]
                == server.peers[id],
{
    let after = server.registered(peer);
    assert(after.peers.dom() =~= server.peers.dom());
    if protocol::is_media_server(peer.id) {
        assert(after.room_servers =~= server.room_servers);
    }
}

/// On a server that nobody has connected to no two peers have a receiver in common.
pub proof fn law_empty_is_apart()
    ensures
        ServerModel::empty().apart(),
{
}

/// Whatever call is made, no two connected peers come to have a receiver in common: what is queued
/// for one of them never comes out at the receiver of another.
pub proof fn law_calls_keep_channels_apart(server: ServerModel, call: CallModel, after: ServerModel)
    requires
        server.wf(),
        server.apart(),
        server.called(call, after),
    ensures
        after.apart(),
{
    assert forall|a: u32, b: u32|
        #![trigger after.peers.contains_key(a), after.peers.contains_key(b)]
        after.peers.contains_key(a) && after.peers.contains_key(b) && a != b
            implies after.peers[a].receivers.disjoint(after.peers[b].receivers) by {
        match call {
            CallModel::Register { peer } => {
                assert(a != peer.id ==> server.peers.contains_key(a));
                assert(b != peer.id ==> server.peers.contains_key(b));
            },
            CallModel::Handle { message, from, result } => {
                law_handling_keeps_connections(server, message, from, after, result, a);
                law_handling_keeps_connections(server, message, from, after, result, b);
            },
            CallModel::Remove { id, result } => {
                law_removal_keeps_connections(server, id, after, result, a);
                law_removal_keeps_connections(server, id, after, result, b);
            },
        }
    }
}

/// Once a peer is connected no more, be it the removed peer itself or the alias that goes with the
/// room, no channel of the server feeds a receiver that the peer's own fed.
pub proof fn law_receiver_of_a_removed_peer_is_fed_no_more(
    server: ServerModel,
    id: u32,
    after: ServerModel,
    result: Result<(), ErrorModel>,
    gone: u32,
    rx: UnboundedReceiver<Message>,
)
    requires
        server.wf(),
        server.apart(),
        server.can_remove(id),
        server.removed(id, after, result),
        server.peers.contains_key(gone),
        server.peers[gone].receivers.contains(rx),
        !after.peers.contains_key(gone),
    ensures
        !after.fed(rx),
{
    assert forall|other: u32| #[trigger] after.peers.contains_key(
        other,
    ) implies !after.peers[other].receivers.contains(rx) by {
        law_removal_keeps_connections(server, id, after, result, other);
    }
}

/// Once another peer has registered under the id of a peer, no channel of the server feeds a
/// receiver that the earlier peer's channel fed.
pub proof fn law_receiver_of_a_replaced_peer_is_fed_no_more(
    server: ServerModel,
    peer: PeerModel,
    rx: UnboundedReceiver<Message>,
)
    requires
        server.apart(),
        server.separate(peer),
        server.peers.contains_key(peer.id),
        server.peers[peer.id].receivers.contains(rx),
    ensures
        !server.registered(peer).fed(rx),
{
    let after = server.registered(peer);
    assert forall|other: u32| #[trigger] after.peers.contains_key(
        other,
    ) implies !after.peers[other].receivers.contains(rx) by {
        assert(server.peers.contains_key(other));
    }
}

/// A removal dismisses exactly the peers that are connected no more afterwards, each as it was: the
/// removed peer, and the alias where it goes with the room.
pub proof fn law_removal_dismisses_whoever_goes(
    server: ServerModel,
    id: u32,
    after: ServerModel,
    result: Result<(), ErrorModel>,
    peer: PeerModel,
)
    requires
        server.wf(),
        server.can_remove(id),
        server.removed(id, after, result),
    ensures
        server.dismissed(id).contains(peer) <==> {
            &&& server.peers.contains_key(peer.id)
            &&& server.peers[peer.id] == peer
            &&& !after.peers.contains_key(peer.id)
        },
{
    law_removed_peer_is_gone(server, id, after, result);
    let dismissed = server.dismissed(id);
    assert(dismissed[dismissed.len() - 1] == server.peers[id]);
    assert(server.peers[id].id == id);
    if let Some(room_id) = server.peers[id].status {
        if server.room_ends(room_id, id) && server.peers.contains_key(room_id) {
            assert(dismissed[0] == server.peers[room_id]);
            assert(server.peers[room_id].id == room_id);
        }
    }
}

/// A call keeps the invariant. A peer that is connected before and after it, and does not register
/// anew, keeps its connection and is sent what is addressed to it among the first messages of the
/// call, or among all of them where the call succeeds.
proof fn lemma_called(server: ServerModel, call: CallModel, after: ServerModel, id: u32) -> (count:
    nat)
    requires
        server.wf(),
        server.called(call, after),
        server.peers.contains_key(id),
        after.peers.contains_key(id),
        call matches CallModel::Register { peer } ==> peer.id != id,
    ensures
        after.wf(),
        count <= server.sends(call).len(),
        model::succeeded(call) ==> count == server.sends(call).len(),
        after.peers[id] == (PeerModel {
            status: after.peers[id].status,
            inbox: server.peers[id].inbox + model::addressed(
                server.sends(call).take(count as int),
                id,
            ),
            ..server.peers[id]
        }),
{
    let earlier = server.peers[id].inbox;
    assert(earlier + Seq::<Seq<char>>::empty() =~= earlier);
    let outgoing = server.sends(call);
    match call {
        CallModel::Register { peer } => {
            assert(outgoing.take(0) =~= outgoing);
            0
        },
        CallModel::Handle { message, from, result } => {
            let request = protocol::request_of(message)->0;
            model::lemma_outcome(server, request, message, from);
            match server.outcome(request, message, from) {
                Ok((served, _)) => {
                    let queued = lemma_sent(served, outgoing, after, result);
                    model::lemma_delivered(served, queued);
                    assert(served.peers.contains_key(id));
                    law_peer_receives_what_is_addressed_to_it(served, queued, id);
                    assert(queued =~= outgoing.take(queued.len() as int));
                    queued.len()
                },
                Err(_) => {
                    assert(outgoing.take(0) =~= outgoing);
                    0
                },
            }
        },
        CallModel::Remove { id: gone, result } => {
            let emptied = server.left(gone).0;
            model::lemma_removed(server, gone, after, result);
            let queued = lemma_removed_queue(server, gone, after, result);
            model::lemma_delivered(emptied, queued);
            assert(emptied.delivered(queued).peers.dom().contains(id));
            assert(emptied.peers.contains_key(id));
            law_peer_receives_what_is_addressed_to_it(emptied, queued, id);
            assert(queued =~= outgoing.take(queued.len() as int));
            queued.len()
        },
    }
}

/// However many calls are made while a peer stays connected under its id: its channel goes on
/// feeding the receivers that it fed, its task and its address stay the same, and it is sent what
/// the calls address to it, each text once and in order, and nothing that is meant for another
/// peer. A call that succeeds gets all of its messages sent, one that fails the first of them.
/// `counts` says of each call how many.
pub proof fn law_connection_is_sent_what_is_addressed_to_it(
    states: Seq<ServerModel>,
    calls: Seq<CallModel>,
    id: u32,
) -> (counts: Seq<nat>)
    requires
        model::run(states, calls),
        states[0].wf(),
        forall|i: int| 0 <= i < states.len() ==> (#[trigger] states[i]).peers.contains_key(id),
        forall|i: int|
            0 <= i < calls.len() ==> (#[trigger] calls[i] matches CallModel::Register { peer }
                ==> peer.id != id),
    ensures
        states.last().wf(),
        counts.len() == calls.len(),
        forall|i: int|
            #![trigger counts[i]]
            #![trigger calls[i]]
            0 <= i < calls.len() ==> {
                &&& counts[i] <= states[i].sends(calls[i]).len()
                &&& model::succeeded(calls[i]) ==> counts[i] == states[i].sends(calls[i]).len()
            },
        states.last().peers[id] == (PeerModel {
            status: states.last().peers[id].status,
            inbox: states[0].peers[id].inbox + model::texts_for(states, calls, counts, id),
            ..states[0].peers[id]
        }),
    decreases calls.len(),
{
    let earlier = states[0].peers[id].inbox;
    if calls.len() == 0 {
        assert(earlier + Seq::<Seq<char>>::empty() =~= earlier);
        Seq::empty()
    } else {
        let n = calls.len() - 1;
        let first_states = states.drop_last();
        let first_calls = calls.drop_last();
        assert(model::run(first_states, first_calls)) by {
            assert forall|i: int| 0 <= i < n implies first_states[i].called(
                #[trigger] first_calls[i],
                first_states[i + 1],
            ) by {
                assert(states[i].called(calls[i], states[i + 1]));
            }
        }
        assert forall|i: int| 0 <= i < first_states.len() implies (
        #[trigger] first_states[i]).peers.contains_key(id) by {
            assert(states[i].peers.contains_key(id));
        }
        assert forall|i: int| 0 <= i < n implies (#[trigger] first_calls[i] matches
            CallModel::Register { peer } ==> peer.id != id) by {
            assert(first_calls[i] == calls[i]);
        }
        let first_counts = law_connection_is_sent_what_is_addressed_to_it(
            first_states,
            first_calls,
            id,
        );
        assert(first_states.last() == states[n]);
        assert(states[n].called(calls[n], states[n + 1]));
        let count = lemma_called(states[n], calls[n], states[n + 1], id);
        let counts = first_counts.push(count);
        assert(counts.drop_last() =~= first_counts);
        assert forall|i: int| #![trigger counts[i]] #![trigger calls[i]] 0 <= i < calls.len() implies {
            &&& counts[i] <= states[i].sends(calls[i]).len()
            &&& model::succeeded(calls[i]) ==> counts[i] == states[i].sends(calls[i]).len()
        } by {
            if i < n {
                assert(first_calls[i] == calls[i]);
                assert(first_states[i] == states[i]);
                assert(first_counts[i] == counts[i]);
            }
        }
        let so_far = model::texts_for(first_states, first_calls, first_counts, id);
        let last = model::addressed(states[n].sends(calls[n]).take(count as int), id);
        assert(earlier + so_far + last =~= earlier + (so_far + last));
        counts
    }
}

/// The events that there is nothing to do about add nothing to what is done.
proof fn lemma_work(events: Seq<Event>)
    ensures
        connection::work(events) == connection::work(connection::relevant(events)),
    decreases events.len(),
{
    reveal_with_fuel(Seq::filter, 2);
    if events.len() > 0 {
        let head = seq![events[0]];
        let rest = events.skip(1);
        lemma_work(rest);
        assert(head + rest =~= events);
        Seq::filter_distributes_over_add(head, rest, |event: Event| connection::counts(event));
        assert(head.drop_last() =~= Seq::<Event>::empty());
        if connection::counts(events[0]) {
            assert(connection::relevant(head) =~= head);
            assert(connection::relevant(events) =~= head + connection::relevant(rest));
            assert(connection::relevant(events).skip(1) =~= connection::relevant(rest));
        } else {
            assert(connection::relevant(head) =~= Seq::empty());
            assert(connection::relevant(events) =~= connection::relevant(rest));
        }
    }
}

/// Messages other than text change nothing, wherever they come: on two connections where the same
/// happens but for such messages, the same is done.
pub proof fn law_only_text_counts(first: Seq<Event>, second: Seq<Event>)
    requires
        connection::relevant(first) == connection::relevant(second),
    ensures
        connection::work(first) == connection::work(second),
{
    lemma_work(first);
    lemma_work(second);
}

} // verus!
