//! The server as a mathematical object: who is connected, who is in which room, what each peer
//! has been sent, and how a request changes that.
use crate::error::ErrorModel;
use crate::link;
use crate::protocol;
use crate::protocol::RequestModel;
use futures::channel::mpsc::UnboundedReceiver;
use tokio::task::JoinHandle;
use tokio_tungstenite::tungstenite::Message;
use vstd::prelude::*;

verus! {

/// A connected peer.
#[verifier::ext_equal]
pub struct PeerModel {
    pub id: u32,
    /// The address that the peer connected from.
    pub addr: Seq<char>,
    /// The room that the peer is in.
    pub status: Option<u32>,
    /// The texts that have been queued for the peer, oldest first.
    pub inbox: Seq<Seq<char>>,
    /// The receivers that the peer's channel feeds.
    pub receivers: Set<UnboundedReceiver<Message>>,
    /// The task that serves the peer's connection, until it has been asked to stop.
    pub task: Option<JoinHandle<()>>,
}

/// What becomes of a request whose message finds the channel of its peer closed.
#[derive(Debug, Clone, Copy, PartialEq, Eq, Structural)]
pub enum Delivery {
    /// The server cannot go on: the peer is a member of the room, or the media server.
    Notice,
    /// The server cannot go on: the peer is a member of the room that another peer has left.
    Farewell,
    /// The request fails.
    Direct,
}

/// A message to a connected peer.
#[verifier::ext_equal]
pub struct OutgoingModel {
    pub to: u32,
    pub text: Seq<char>,
    pub delivery: Delivery,
}

/// What a request comes to: an error, which changes nothing, or the server that it leaves behind
/// and the messages to send from there, in order.
pub type OutcomeModel = Result<(ServerModel, Seq<OutgoingModel>), ErrorModel>;

/// A call that may change the server, with what it came to.
pub enum CallModel {
    /// A peer registers.
    Register { peer: PeerModel },
    /// A message of the peer `from` is handled.
    Handle { message: Seq<char>, from: u32, result: Result<(), ErrorModel> },
    /// The peer `id` is removed.
    Remove { id: u32, result: Result<(), ErrorModel> },
}

/// The server.
#[verifier::ext_equal]
pub struct ServerModel {
    /// The connected peers by id.
    pub peers: Map<u32, PeerModel>,
    /// The members of each room in the order in which they joined.
    pub rooms: Map<u32, Seq<u32>>,
    /// The media servers that have registered, each with the rooms that it serves.
    pub room_servers: Map<u32, Seq<u32>>,
}

/// The members of a room without the peer `id`.
pub open spec fn others(room: Seq<u32>, id: u32) -> Seq<u32> {
    room.filter(|member: u32| member != id)
}

/// One more member of a room is one more other, unless it is the peer `id` itself.
pub proof fn lemma_others_push(room: Seq<u32>, member: u32, id: u32)
    ensures
        others(room.push(member), id) == if member != id {
            others(room, id).push(member)
        } else {
            others(room, id)
        },
{
    reveal(Seq::filter);
    assert(room.push(member).drop_last() =~= room);
}

/// The others are the members that are not the peer `id`.
pub proof fn lemma_others_contains(room: Seq<u32>, id: u32, member: u32)
    ensures
        others(room, id).contains(member) <==> room.contains(member) && member != id,
    decreases room.len(),
{
    reveal(Seq::filter);
    if room.len() > 0 {
        let rest = room.drop_last();
        let last = room.last();
        lemma_others_contains(rest, id, member);
        lemma_others_push(rest, last, id);
        assert(rest.push(last) =~= room);
        lemma_contains_push(rest, last, member);
        lemma_contains_push(others(rest, id), last, member);
    }
}

/// What a sequence holds once `last` has been added.
proof fn lemma_contains_push(s: Seq<u32>, last: u32, x: u32)
    ensures
        s.push(last).contains(x) <==> s.contains(x) || x == last,
{
    if s.contains(x) {
        let i = choose|i: int| 0 <= i < s.len() && s[i] == x;
        assert(s.push(last)[i] == x);
    }
    assert(s.push(last)[s.len() as int] == last);
}

/// A message that answers a request.
pub open spec fn direct(to: u32, text: Seq<char>) -> OutgoingModel {
    OutgoingModel { to, text, delivery: Delivery::Direct }
}

/// The text `text` to each of `members`.
pub open spec fn notices(members: Seq<u32>, text: Seq<char>, delivery: Delivery) -> Seq<
    OutgoingModel,
> {
    members.map_values(|member: u32| OutgoingModel { to: member, text, delivery })
}

/// The texts among `outgoing` that go to the peer `id`, in order.
pub open spec fn addressed(outgoing: Seq<OutgoingModel>, id: u32) -> Seq<Seq<char>>
    decreases outgoing.len(),
{
    if outgoing.len() == 0 {
        Seq::empty()
    } else if outgoing.last().to == id {
        addressed(outgoing.drop_last(), id).push(outgoing.last().text)
    } else {
        addressed(outgoing.drop_last(), id)
    }
}

/// The error that a message leaves behind which could not be sent.
pub open spec fn send_failure(outgoing: OutgoingModel) -> ErrorModel {
    match outgoing.delivery {
        Delivery::Notice => ErrorModel::NoticeNotSent { to: outgoing.to, text: outgoing.text },
        Delivery::Farewell => ErrorModel::FarewellNotSent {
            to: outgoing.to,
            text: outgoing.text,
        },
        Delivery::Direct => ErrorModel::NotSent { to: outgoing.to, text: outgoing.text },
    }
}

impl ServerModel {
    /// The server that nobody has connected to.
    pub open spec fn empty() -> ServerModel {
        ServerModel { peers: Map::empty(), rooms: Map::empty(), room_servers: Map::empty() }
    }

    /// The invariant of the server. Every peer stands under its own id and has its task, a peer that
    /// has a room is among the members of that room, and `room_servers` holds the media servers that have ever
    /// registered, none of which serves a room.
    pub open spec fn wf(self) -> bool {
        &&& forall|id: u32| #[trigger]
            self.peers.contains_key(id) ==> {
                &&& self.peers[id].id == id
                &&& self.peers[id].task is Some
                &&& self.peers[id].status matches Some(room_id) ==> {
                    &&& self.rooms.contains_key(room_id)
                    &&& self.rooms[room_id].contains(id)
                }
                &&& protocol::is_media_server(id) ==> self.room_servers.contains_key(id)
            }
        &&& forall|id: u32| #[trigger]
            self.room_servers.contains_key(id) ==> {
                &&& protocol::is_media_server(id)
                &&& self.room_servers[id] == Seq::<u32>::empty()
            }
    }

    /// Whether all of `members` are connected.
    pub open spec fn connected(self, members: Seq<u32>) -> bool {
        forall|i: int| 0 <= i < members.len() ==> self.peers.contains_key(#[trigger] members[i])
    }

    /// The server after a peer that is not in a room has registered.
    pub open spec fn registered(self, peer: PeerModel) -> ServerModel {
        ServerModel {
            peers: self.peers.insert(peer.id, peer),
            rooms: self.rooms,
            room_servers: if protocol::is_media_server(peer.id) {
                self.room_servers.insert(peer.id, Seq::empty())
            } else {
                self.room_servers
            },
        }
    }

    /// The server after the peer `id` has entered `room_id`, whose members are then `members`.
    pub open spec fn entered(self, id: u32, room_id: u32, members: Seq<u32>) -> ServerModel {
        ServerModel {
            peers: self.peers.insert(
                id,
                PeerModel { status: Some(room_id), ..self.peers[id] },
            ),
            rooms: self.rooms.insert(room_id, members),
            ..self
        }
    }

    /// The server after `text` has been queued for the peer `to`.
    pub open spec fn received(self, to: u32, text: Seq<char>) -> ServerModel {
        ServerModel {
            peers: self.peers.insert(
                to,
                PeerModel { inbox: self.peers[to].inbox.push(text), ..self.peers[to] },
            ),
            ..self
        }
    }

    /// The server after all of `outgoing` has been queued, in order.
    pub open spec fn delivered(self, outgoing: Seq<OutgoingModel>) -> ServerModel
        decreases outgoing.len(),
    {
        if outgoing.len() == 0 {
            self
        } else {
            self.delivered(outgoing.drop_last()).received(
                outgoing.last().to,
                outgoing.last().text,
            )
        }
    }

    /// Whether `after` is the server once the first `sent` of `outgoing` have been queued and the
    /// next one could not be, which left `error` behind.
    pub open spec fn cut_short(
        self,
        outgoing: Seq<OutgoingModel>,
        sent: int,
        after: ServerModel,
        error: ErrorModel,
    ) -> bool {
        &&& 0 <= sent < outgoing.len()
        &&& after == self.delivered(outgoing.take(sent))
        &&& error == send_failure(outgoing[sent])
    }

    /// Whether sending `outgoing`, in order and up to the first message that cannot be sent, may
    /// leave the server `after` behind and come to `result`.
    pub open spec fn sent(
        self,
        outgoing: Seq<OutgoingModel>,
        after: ServerModel,
        result: Result<(), ErrorModel>,
    ) -> bool {
        match result {
            Ok(_) => after == self.delivered(outgoing),
            Err(error) => exists|sent: int| #[trigger]
                self.cut_short(outgoing, sent, after, error),
        }
    }

    /// Whether every message goes to a peer that is connected.
    pub open spec fn reaches(self, outgoing: Seq<OutgoingModel>) -> bool {
        forall|i: int| 0 <= i < outgoing.len() ==> self.peers.contains_key(
            #[trigger] outgoing[i].to,
        )
    }

    /// Whether the server can serve `request` of the peer `from`: everybody whom it takes is
    /// connected. That is the sender, for a request that is about its room; the media server, for
    /// an invitation and for a room that is to be created; and the members of a room that the
    /// sender is to join. Only a peer in a room can ask who else is there.
    pub open spec fn can_serve(self, request: RequestModel, from: u32) -> bool {
        match request {
            RequestModel::PeerMessage { to, body } => body is Some ==> self.peers.contains_key(
                from,
            ),
            RequestModel::RoomCommand { command, room_id } => {
                &&& self.peers.contains_key(from)
                &&& self.peers[from].status is None ==> {
                    &&& command == "CREATE"@ && !self.rooms.contains_key(room_id)
                        ==> self.peers.contains_key(protocol::MCU)
                    &&& command == "JOIN"@ && self.rooms.contains_key(room_id) ==> self.connected(
                        others(self.rooms[room_id], from),
                    )
                }
            },
            RequestModel::PeerList => self.peers.contains_key(from)
                && self.peers[from].status is Some,
            RequestModel::Invite => self.peers.contains_key(protocol::MCU),
            RequestModel::Unknown => true,
        }
    }

    /// The answer to a message for the peer `to` from the peer `from` in the room `room_id`.
    pub open spec fn routed(self, to: u32, body: Seq<char>, from: u32, room_id: u32)
        -> OutgoingModel {
        if !self.peers.contains_key(to) {
            direct(from, protocol::peer_not_found(to))
        } else if !self.rooms[room_id].contains(to) {
            direct(from, protocol::peer_not_present(to, room_id))
        } else {
            direct(to, protocol::forwarded(from, body))
        }
    }

    /// What the command to create a room comes to.
    pub open spec fn created(self, room_id: u32, from: u32) -> (ServerModel, Seq<OutgoingModel>) {
        if self.rooms.contains_key(room_id) {
            (self, seq![direct(from, protocol::room_exists(room_id))])
        } else {
            (
                self.entered(from, room_id, seq![from]),
                notices(
                    seq![protocol::MCU],
                    protocol::alias_wanted(room_id),
                    Delivery::Notice,
                ).push(direct(from, protocol::room_created())),
            )
        }
    }

    /// What the command to join a room comes to.
    pub open spec fn joined(self, room_id: u32, from: u32) -> (ServerModel, Seq<OutgoingModel>) {
        if self.rooms.contains_key(room_id) {
            let present = others(self.rooms[room_id], from);
            (
                self.entered(from, room_id, self.rooms[room_id].push(from)),
                notices(present, protocol::peer_joined(from), Delivery::Notice).push(
                    direct(from, protocol::room_joined(present)),
                ),
            )
        } else {
            (self, seq![direct(from, protocol::room_missing(room_id))])
        }
    }

    /// What `request` of the peer `from` comes to, where the server can serve it. `message` is the
    /// text that the request was read from.
    pub open spec fn outcome(self, request: RequestModel, message: Seq<char>, from: u32)
        -> OutcomeModel {
        match request {
            RequestModel::PeerMessage { to, body: None } => Err(ErrorModel::MissingBody),
            RequestModel::PeerMessage { to, body: Some(body) } => match self.peers[from].status {
                None => Err(ErrorModel::NotInRoom { peer: from }),
                Some(room_id) => Ok((self, seq![self.routed(to, body, from, room_id)])),
            },
            RequestModel::RoomCommand { command, room_id } => match self.peers[from].status {
                Some(current) => Err(
                    ErrorModel::AlreadyInRoom { peer: from, command, room_id: current },
                ),
                None => if command == "CREATE"@ {
                    Ok(self.created(room_id, from))
                } else if command == "JOIN"@ {
                    Ok(self.joined(room_id, from))
                } else {
                    Err(ErrorModel::InvalidCommand { command })
                },
            },
            RequestModel::PeerList => Ok(
                (
                    self,
                    seq![
                        direct(
                            from,
                            protocol::room_peers(
                                others(self.rooms[self.peers[from].status->0], from),
                            ),
                        ),
                    ],
                ),
            ),
            RequestModel::Invite => Ok((self, seq![direct(protocol::MCU, message)])),
            RequestModel::Unknown => Ok((self, Seq::empty())),
        }
    }

    /// Whether the server can handle `message` of the peer `from`: it can be read, and the server
    /// can serve what it asks for.
    pub open spec fn can_handle(self, message: Seq<char>, from: u32) -> bool {
        match protocol::request_of(message) {
            Some(request) => self.can_serve(request, from),
            None => false,
        }
    }

    /// Whether handling `message` of the peer `from` may leave the server `after` behind and come
    /// to `result`. What is not settled by the server and the message is which of the channels
    /// that the messages go to are still open.
    pub open spec fn handled(
        self,
        message: Seq<char>,
        from: u32,
        after: ServerModel,
        result: Result<(), ErrorModel>,
    ) -> bool {
        match self.outcome(protocol::request_of(message)->0, message, from) {
            Ok((served, outgoing)) => served.sent(outgoing, after, result),
            Err(error) => after == self && result == Err::<(), ErrorModel>(error),
        }
    }

    /// Whether the room `room_id` is at an end once the peer `id` has left it: nobody but the
    /// alias of the media server remains, which has the id of the room.
    pub open spec fn room_ends(self, room_id: u32, id: u32) -> bool {
        others(self.rooms[room_id], id) == seq![room_id]
    }

    /// Whether the server can remove the peer `id`: it is connected, and so is everybody who has
    /// to learn that it has left.
    pub open spec fn can_remove(self, id: u32) -> bool {
        &&& self.peers.contains_key(id)
        &&& self.peers[id].status matches Some(room_id) ==> self.room_ends(room_id, id)
            || self.connected(others(self.rooms[room_id], id))
    }

    /// The server once the peer `id` has left its room, where it is still connected, and the
    /// notices to those who remain. A room that is at an end goes, and the alias with it.
    pub open spec fn left(self, id: u32) -> (ServerModel, Seq<OutgoingModel>) {
        match self.peers[id].status {
            None => (self, Seq::empty()),
            Some(room_id) => if self.room_ends(room_id, id) {
                (
                    ServerModel {
                        peers: self.peers.remove(room_id),
                        rooms: self.rooms.remove(room_id),
                        ..self
                    },
                    Seq::empty(),
                )
            } else {
                let remaining = others(self.rooms[room_id], id);
                (
                    ServerModel { rooms: self.rooms.insert(room_id, remaining), ..self },
                    notices(remaining, protocol::peer_left(id), Delivery::Farewell),
                )
            },
        }
    }

    /// The peers that are connected no more once the peer `id` has been removed, as they were: the
    /// alias, where it goes with the room, and the peer.
    pub open spec fn dismissed(self, id: u32) -> Seq<PeerModel> {
        match self.peers[id].status {
            Some(room_id) => if self.room_ends(room_id, id) && self.peers.contains_key(room_id) {
                seq![self.peers[room_id], self.peers[id]]
            } else {
                seq![self.peers[id]]
            },
            None => seq![self.peers[id]],
        }
    }

    /// Whether the tasks of all who are connected no more once the peer `id` has been removed have
    /// been asked to stop.
    pub open spec fn dismissed_tasks_stop(self, id: u32) -> bool {
        forall|i: int|
            0 <= i < self.dismissed(id).len() ==> link::stops(
                (#[trigger] self.dismissed(id)[i]).task->0,
            )
    }

    /// The server after the peer `id` has been disconnected.
    pub open spec fn disconnected(self, id: u32) -> ServerModel {
        ServerModel { peers: self.peers.remove(id), ..self }
    }

    /// Whether a member of a room is a connected peer that has the room for its own, and stands in
    /// it once.
    pub open spec fn settled(self) -> bool {
        forall|room_id: u32| #[trigger]
            self.rooms.contains_key(room_id) ==> {
                &&& self.rooms[room_id].no_duplicates()
                &&& forall|i: int|
                    0 <= i < self.rooms[room_id].len() ==> {
                        let member = #[trigger] self.rooms[room_id][i];
                        &&& self.peers.contains_key(member)
                        &&& self.peers[member].status == Some(room_id)
                    }
            }
    }

    /// Whether the channel of `peer` has no receiver in common with that of a connected peer.
    pub open spec fn separate(self, peer: PeerModel) -> bool {
        forall|id: u32| #[trigger]
            self.peers.contains_key(id) ==> self.peers[id].receivers.disjoint(peer.receivers)
    }

    /// Whether no two connected peers have a receiver in common.
    pub open spec fn apart(self) -> bool {
        forall|a: u32, b: u32|
            #![trigger self.peers.contains_key(a), self.peers.contains_key(b)]
            self.peers.contains_key(a) && self.peers.contains_key(b) && a != b
                ==> self.peers[a].receivers.disjoint(self.peers[b].receivers)
    }

    /// Whether the channel of a connected peer feeds `rx`.
    pub open spec fn fed(self, rx: UnboundedReceiver<Message>) -> bool {
        exists|id: u32| #[trigger]
            self.peers.contains_key(id) && self.peers[id].receivers.contains(rx)
    }

    /// Whether removing the peer `id` may leave the server `after` behind and come to `result`.
    /// What is not settled by the server alone is which of the channels that the notices go to are
    /// still open. The peer is disconnected in any case.
    pub open spec fn removed(self, id: u32, after: ServerModel, result: Result<(), ErrorModel>)
        -> bool {
        let (emptied, outgoing) = self.left(id);
        match result {
            Ok(_) => after == emptied.delivered(outgoing).disconnected(id),
            Err(error) => exists|sent: int, last: ServerModel|
                {
                    &&& #[trigger] emptied.cut_short(outgoing, sent, last, error)
                    &&& after == last.disconnected(id)
                },
        }
    }

    /// Whether `call` may be made and may leave the server `after` behind.
    pub open spec fn called(self, call: CallModel, after: ServerModel) -> bool {
        match call {
            CallModel::Register { peer } => {
                &&& peer.status is None
                &&& peer.task is Some
                &&& self.separate(peer)
                &&& after == self.registered(peer)
            },
            CallModel::Handle { message, from, result } => {
                &&& self.can_handle(message, from)
                &&& self.handled(message, from, after, result)
            },
            CallModel::Remove { id, result } => {
                &&& self.can_remove(id)
                &&& self.removed(id, after, result)
            },
        }
    }

    /// The messages that `call` is to send, in order.
    pub open spec fn sends(self, call: CallModel) -> Seq<OutgoingModel> {
        match call {
            CallModel::Register { peer } => Seq::empty(),
            CallModel::Handle { message, from, result } => match self.outcome(
                protocol::request_of(message)->0,
                message,
                from,
            ) {
                Ok((served, outgoing)) => outgoing,
                Err(_) => Seq::empty(),
            },
            CallModel::Remove { id, result } => self.left(id).1,
        }
    }
}

/// Whether a call came to an end without an error.
pub open spec fn succeeded(call: CallModel) -> bool {
    match call {
        CallModel::Register { peer } => true,
        CallModel::Handle { message, from, result } => result is Ok,
        CallModel::Remove { id, result } => result is Ok,
    }
}

/// Whether the server goes through `states` where `calls` are made one after the other.
pub open spec fn run(states: Seq<ServerModel>, calls: Seq<CallModel>) -> bool {
    &&& states.len() == calls.len() + 1
    &&& forall|i: int|
        0 <= i < calls.len() ==> states[i].called(#[trigger] calls[i], states[i + 1])
}

/// The texts for the peer `id`, in order, where `calls` are made in `states` and each of them gets
/// as many of its messages sent as `counts` says.
pub open spec fn texts_for(
    states: Seq<ServerModel>,
    calls: Seq<CallModel>,
    counts: Seq<nat>,
    id: u32,
) -> Seq<Seq<char>>
    decreases calls.len(),
{
    if calls.len() == 0 {
        Seq::empty()
    } else {
        texts_for(states.drop_last(), calls.drop_last(), counts.drop_last(), id) + addressed(
            states[calls.len() - 1].sends(calls.last()).take(counts.last() as int),
            id,
        )
    }
}

/// Whoever goes when a peer is removed was connected.
pub proof fn lemma_dismissed(server: ServerModel, id: u32, i: int)
    requires
        server.wf(),
        server.can_remove(id),
        0 <= i < server.dismissed(id).len(),
    ensures
        server.dismissed(id)[i].task is Some,
{
    assert(server.peers.contains_key(id));
}

/// Messages change nothing but inboxes.
pub proof fn lemma_delivered(server: ServerModel, outgoing: Seq<OutgoingModel>)
    requires
        server.reaches(outgoing),
    ensures
        server.delivered(outgoing).rooms == server.rooms,
        server.delivered(outgoing).room_servers == server.room_servers,
        server.delivered(outgoing).peers.dom() == server.peers.dom(),
        forall|id: u32| #[trigger]
            server.peers.contains_key(id) ==> server.delivered(outgoing).peers[id] == (PeerModel {
                inbox: server.delivered(outgoing).peers[id].inbox,
                ..server.peers[id]
            }),
        server.wf() ==> server.delivered(outgoing).wf(),
    decreases outgoing.len(),
{
    if outgoing.len() > 0 {
        let rest = outgoing.drop_last();
        assert(server.reaches(rest)) by {
            assert forall|i: int| 0 <= i < rest.len() implies server.peers.contains_key(
                #[trigger] rest[i].to,
            ) by {
                assert(rest[i] == outgoing[i]);
            }
        }
        lemma_delivered(server, rest);
        assert(server.peers.contains_key(outgoing[outgoing.len() - 1].to));
        assert(server.delivered(outgoing).peers.dom() =~= server.peers.dom());
        assert forall|id: u32| #[trigger] server.delivered(outgoing).peers.contains_key(
            id,
        ) implies server.peers.contains_key(id) by {
            assert(server.delivered(outgoing).peers.dom().contains(id));
        }
    }
}

/// Messages to others leave a peer as it was.
pub proof fn lemma_unaddressed(server: ServerModel, outgoing: Seq<OutgoingModel>, id: u32)
    requires
        forall|i: int| 0 <= i < outgoing.len() ==> (#[trigger] outgoing[i]).to != id,
    ensures
        server.delivered(outgoing).peers.contains_key(id) == server.peers.contains_key(id),
        server.delivered(outgoing).peers[id] == server.peers[id],
    decreases outgoing.len(),
{
    if outgoing.len() > 0 {
        let rest = outgoing.drop_last();
        assert forall|i: int| 0 <= i < rest.len() implies (#[trigger] rest[i]).to != id by {
            assert(rest[i] == outgoing[i]);
        }
        lemma_unaddressed(server, rest, id);
        assert(outgoing[outgoing.len() - 1].to != id);
    }
}

/// A request that the server can serve leaves its invariant intact, and every message that it
/// brings about goes to a peer that is connected.
pub proof fn lemma_outcome(server: ServerModel, request: RequestModel, message: Seq<char>, from: u32)
    requires
        server.wf(),
        server.can_serve(request, from),
    ensures
        match server.outcome(request, message, from) {
            Ok((after, outgoing)) => after.wf() && after.reaches(outgoing),
            Err(_) => true,
        },
{
    if let Ok((after, outgoing)) = server.outcome(request, message, from) {
        if let RequestModel::RoomCommand { command, room_id } = request {
            let room = after.rooms[room_id];
            if command == "CREATE"@ {
                assert(seq![from][0] == from);
            } else if server.rooms.contains_key(room_id) {
                let members = server.rooms[room_id];
                let present = others(members, from);
                assert(members.push(from)[members.len() as int] == from);
                assert forall|id: u32| members.contains(id) implies #[trigger] members.push(
                    from,
                ).contains(id) by {
                    let i = choose|i: int| 0 <= i < members.len() && members[i] == id;
                    assert(members.push(from)[i] == id);
                }
                assert forall|i: int| 0 <= i < outgoing.len() implies after.peers.contains_key(
                    #[trigger] outgoing[i].to,
                ) by {
                    if i < present.len() {
                        assert(outgoing[i].to == present[i]);
                    }
                }
            }
        }
    }
}

/// The first messages of a list reach connected peers where all of them do.
pub proof fn lemma_reaches_take(server: ServerModel, outgoing: Seq<OutgoingModel>, n: int)
    requires
        server.reaches(outgoing),
        0 <= n <= outgoing.len(),
    ensures
        server.reaches(outgoing.take(n)),
{
    assert forall|i: int| 0 <= i < n implies server.peers.contains_key(
        #[trigger] outgoing.take(n)[i].to,
    ) by {
        assert(outgoing.take(n)[i] == outgoing[i]);
    }
}

/// What is left once a peer is out of its room and disconnected meets the invariant, and every
/// notice goes to a peer that is connected.
pub proof fn lemma_left(server: ServerModel, id: u32)
    requires
        server.wf(),
        server.can_remove(id),
    ensures
        server.left(id).0.reaches(server.left(id).1),
        server.left(id).0.disconnected(id).wf(),
{
    if let Some(room_id) = server.peers[id].status {
        let (emptied, outgoing) = server.left(id);
        let members = server.rooms[room_id];
        let remaining = others(members, id);
        let after = emptied.disconnected(id);
        assert forall|p: u32| #[trigger]
            after.peers.contains_key(p) && after.peers[p].status == Some(
                room_id,
            ) implies after.rooms.contains_key(room_id) && after.rooms[room_id].contains(p) by {
            assert(server.peers.contains_key(p));
            lemma_others_contains(members, id, p);
            if server.room_ends(room_id, id) {
                assert(seq![room_id].contains(p));
            }
        }
        assert forall|i: int| 0 <= i < outgoing.len() implies emptied.peers.contains_key(
            #[trigger] outgoing[i].to,
        ) by {
            assert(outgoing[i].to == remaining[i]);
        }
    }
}

/// The notices that a peer has left leave the peer itself as it was.
pub proof fn lemma_farewells(
    server: ServerModel,
    id: u32,
    last: ServerModel,
    result: Result<(), ErrorModel>,
)
    requires
        server.wf(),
        server.can_remove(id),
        server.left(id).0.sent(server.left(id).1, last, result),
    ensures
        last.peers.contains_key(id),
        last.peers[id] == server.peers[id],
{
    let (emptied, outgoing) = server.left(id);
    assert forall|i: int| 0 <= i < outgoing.len() implies (#[trigger] outgoing[i]).to != id by {
        let room = server.rooms[server.peers[id].status->0];
        assert(others(room, id).contains(others(room, id)[i]));
        lemma_others_contains(room, id, others(room, id)[i]);
    }
    if let Some(room_id) = server.peers[id].status {
        if server.room_ends(room_id, id) {
            assert(seq![room_id][0] == room_id);
            lemma_others_contains(server.rooms[room_id], id, room_id);
        }
    }
    match result {
        Ok(_) => {
            lemma_unaddressed(emptied, outgoing, id);
        },
        Err(error) => {
            let sent = choose|sent: int| #[trigger] emptied.cut_short(outgoing, sent, last, error);
            let queued = outgoing.take(sent);
            assert forall|i: int| 0 <= i < queued.len() implies (#[trigger] queued[i]).to != id by {
                assert(queued[i] == outgoing[i]);
            }
            lemma_unaddressed(emptied, queued, id);
        },
    }
}

/// Removing a peer leaves the invariant intact.
pub proof fn lemma_removed(
    server: ServerModel,
    id: u32,
    after: ServerModel,
    result: Result<(), ErrorModel>,
)
    requires
        server.wf(),
        server.can_remove(id),
        server.removed(id, after, result),
    ensures
        after.wf(),
        !after.peers.contains_key(id),
{
    let (emptied, outgoing) = server.left(id);
    lemma_left(server, id);
    let queued = match result {
        Ok(_) => outgoing,
        Err(error) => {
            let (sent, last) = choose|sent: int, last: ServerModel|
                {
                    &&& #[trigger] emptied.cut_short(outgoing, sent, last, error)
                    &&& after == last.disconnected(id)
                };
            lemma_reaches_take(emptied, outgoing, sent);
            outgoing.take(sent)
        },
    };
    let last = emptied.delivered(queued);
    lemma_delivered(emptied, queued);
    assert forall|p: u32| #[trigger] after.peers.contains_key(p) implies
        emptied.disconnected(id).peers.contains_key(p) && after.peers[p].status
            == emptied.disconnected(id).peers[p].status && after.peers[p].id
            == emptied.disconnected(id).peers[p].id && after.peers[p].task
            == emptied.disconnected(id).peers[p].task by {
        assert(last.peers.dom().contains(p));
        assert(emptied.peers.contains_key(p));
    }
}

} // verus!
