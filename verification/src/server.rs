//! The signalling server.
use crate::error;
use crate::error::{ErrorModel, ServerError};
use crate::link;
use crate::message;
use crate::message::WsMessage;
use crate::model;
use crate::model::{Delivery, OutgoingModel, PeerModel, ServerModel};
use crate::peer::Peer;
use crate::protocol;
use crate::protocol::Request;
use crate::text;
use futures::channel::mpsc::UnboundedReceiver;
use std::collections::HashMap;
use tokio::task::JoinHandle;
use tokio_tungstenite::tungstenite::Message;
use vstd::prelude::*;

verus! {

broadcast use vstd::std_specs::hash::group_hash_axioms;

/// A message to a connected peer.
#[derive(Debug)]
pub struct Outgoing {
    pub to: u32,
    pub text: String,
    pub delivery: Delivery,
}

impl View for Outgoing {
    type V = OutgoingModel;

    open spec fn view(&self) -> OutgoingModel {
        OutgoingModel { to: self.to, text: self.text@, delivery: self.delivery }
    }
}

/// The messages of a list.
pub open spec fn outgoing_view(outgoing: Seq<Outgoing>) -> Seq<OutgoingModel> {
    outgoing.map_values(|message: Outgoing| message@)
}

/// The peers of a list.
pub open spec fn peers_view(peers: Seq<Peer>) -> Seq<PeerModel> {
    peers.map_values(|peer: Peer| peer@)
}

/// What a result says.
pub open spec fn result_view(result: Result<(), ServerError>) -> Result<(), ErrorModel> {
    match result {
        Ok(_) => Ok(()),
        Err(error) => Err(error@),
    }
}

impl Outgoing {
    /// What sending the message came to: an error where it was not `sent`.
    pub fn sending(&self, sent: bool) -> (result: Result<(), ServerError>)
        ensures
            match result {
                Ok(_) => sent,
                Err(error) => !sent && error@ == model::send_failure(self@),
            },
    {
        if sent {
            return Ok(());
        }
        match self.delivery {
            Delivery::Notice => Err(
                ServerError::NoticeNotSent { to: self.to, text: self.text.clone() },
            ),
            Delivery::Farewell => Err(
                ServerError::FarewellNotSent { to: self.to, text: self.text.clone() },
            ),
            Delivery::Direct => Err(
                ServerError::NotSent { to: self.to, text: self.text.clone() },
            ),
        }
    }
}

/// The id with which a message introduces a peer, if the message carries a greeting.
pub open spec fn greeting_of(msg: WsMessage) -> Option<u32> {
    match message::text_of(msg) {
        Some(text) => protocol::greeting_id(text),
        None => None,
    }
}

/// The id with which a message introduces a peer, if the message carries a greeting.
pub fn greeting(msg: &WsMessage) -> (id: Option<u32>)
    ensures
        id == greeting_of(*msg),
{
    match msg.text() {
        Some(text) => protocol::parse_greeting(text.as_str()),
        None => None,
    }
}

/// The members of `room` without the peer `id`.
fn others(room: &Vec<u32>, id: u32) -> (members: Vec<u32>)
    ensures
        members@ == model::others(room@, id),
{
    let mut members: Vec<u32> = Vec::new();
    let mut i: usize = 0;
    proof {
        reveal(Seq::filter);
    }
    while i < room.len()
        invariant
            i <= room@.len(),
            members@ == model::others(room@.take(i as int), id),
        decreases room@.len() - i,
    {
        proof {
            assert(room@.take(i + 1) =~= room@.take(i as int).push(room@[i as int]));
            model::lemma_others_push(room@.take(i as int), room@[i as int], id);
        }
        if room[i] != id {
            members.push(room[i]);
        }
        i += 1;
    }
    assert(room@.take(room@.len() as int) =~= room@);
    members
}

/// Whether `id` is among `members`.
fn contains(members: &Vec<u32>, id: u32) -> (b: bool)
    ensures
        b == members@.contains(id),
{
    let mut i: usize = 0;
    while i < members.len()
        invariant
            i <= members@.len(),
            forall|j: int| 0 <= j < i ==> members@[j] != id,
        decreases members@.len() - i,
    {
        if members[i] == id {
            return true;
        }
        i += 1;
    }
    false
}

/// Whether `members` holds the alias of the media server, whose id is that of the room, and nobody
/// else.
fn is_alias_alone(members: &Vec<u32>, room_id: u32) -> (b: bool)
    ensures
        b == (members@ == seq![room_id]),
{
    if members.len() == 1 && members[0] == room_id {
        assert(members@ =~= seq![room_id]);
        true
    } else {
        assert(seq![room_id].len() == 1 && seq![room_id][0] == room_id);
        false
    }
}

/// The text `text` to each of `members`.
fn notices(members: &Vec<u32>, text: &str, delivery: Delivery) -> (outgoing: Vec<Outgoing>)
    ensures
        outgoing_view(outgoing@) == model::notices(members@, text@, delivery),
{
    let mut outgoing: Vec<Outgoing> = Vec::new();
    let mut i: usize = 0;
    while i < members.len()
        invariant
            i <= members@.len(),
            outgoing_view(outgoing@) == model::notices(members@, text@, delivery).take(i as int),
        decreases members@.len() - i,
    {
        let ghost before = outgoing@;
        outgoing.push(Outgoing { to: members[i], text: text.to_owned(), delivery });
        assert(outgoing_view(outgoing@) =~= outgoing_view(before).push(outgoing@.last()@));
        assert(outgoing_view(outgoing@) =~= model::notices(members@, text@, delivery).take(i + 1));
        i += 1;
    }
    assert(model::notices(members@, text@, delivery).take(members@.len() as int)
        =~= model::notices(members@, text@, delivery));
    outgoing
}

/// Asks the tasks of `peers` to stop, in order, and lets the peers go.
fn stop_all(peers: Vec<Peer>)
    requires
        forall|i: int| 0 <= i < peers@.len() ==> (#[trigger] peers@[i])@.task is Some,
    ensures
        forall|i: int| 0 <= i < peers@.len() ==> link::stops((#[trigger] peers@[i])@.task->0),
{
    let mut rest: Vec<Peer> = peers;
    let ghost mut stopped: int = 0;
    while rest.len() > 0
        invariant
            0 <= stopped <= peers@.len(),
            rest@ == peers@.skip(stopped),
            forall|i: int| 0 <= i < peers@.len() ==> (#[trigger] peers@[i])@.task is Some,
            forall|i: int| 0 <= i < stopped ==> link::stops((#[trigger] peers@[i])@.task->0),
        decreases rest@.len(),
    {
        let peer: Peer = rest.remove(0);
        assert(peer == peers@[stopped]);
        peer.stop();
        proof {
            stopped = stopped + 1;
            assert(rest@ =~= peers@.skip(stopped));
        }
    }
}

/// A message that answers a request.
fn direct(to: u32, text: String) -> (outgoing: Outgoing)
    ensures
        outgoing@ == model::direct(to, text@),
{
    Outgoing { to, text, delivery: Delivery::Direct }
}

/// The signalling server: the peers that are connected and the rooms that they are in.
#[derive(Debug)]
pub struct Server {
    peers: HashMap<u32, Peer>,
    rooms: HashMap<u32, Vec<u32>>,
    room_servers: HashMap<u32, Vec<u32>>,
}

impl View for Server {
    type V = ServerModel;

    closed spec fn view(&self) -> ServerModel {
        ServerModel {
            peers: self.peers@.map_values(|peer: Peer| peer@),
            rooms: self.rooms@.map_values(|members: Vec<u32>| members@),
            room_servers: self.room_servers@.map_values(|served: Vec<u32>| served@),
        }
    }
}

impl Server {
    /// Whether the peer `id` is connected and its channel was closed when it was last used.
    pub closed spec fn cannot_reach(&self, id: u32) -> bool {
        self.peers@.contains_key(id) && self.peers@[id].unreachable()
    }

    /// The model of the server has all peers, rooms and media servers of the server, each under its id
    /// and as it is; and a peer is out of reach exactly where its own channel says so.
    proof fn law_model_leaves_nothing_out(&self, id: u32)
        ensures
            self@.peers.contains_key(id) <==> self.peers@.contains_key(id),
            self@.peers.contains_key(id) ==> self@.peers[id] == self.peers@[id]@,
            self@.rooms.contains_key(id) <==> self.rooms@.contains_key(id),
            self@.rooms.contains_key(id) ==> self@.rooms[id] == self.rooms@[id]@,
            self@.room_servers.contains_key(id) <==> self.room_servers@.contains_key(id),
            self@.room_servers.contains_key(id) ==> self@.room_servers[id] == self.room_servers@[id]@,
            self.cannot_reach(id) <==> self.peers@.contains_key(id)
                && self.peers@[id].unreachable(),
    {
    }

    /// Only a connected peer is said to be out of reach.
    pub proof fn lemma_cannot_reach(&self, id: u32)
        ensures
            self.cannot_reach(id) ==> self@.peers.contains_key(id),
    {
    }

    /// Whether every channel that was closed for `self` is closed for `after`, unless its peer is
    /// no longer connected.
    pub open spec fn channels_stay_closed(&self, after: &Server) -> bool {
        forall|id: u32|
            #![trigger after.cannot_reach(id)]
            #![trigger self.cannot_reach(id)]
            self.cannot_reach(id) && after@.peers.contains_key(id) ==> after.cannot_reach(id)
    }

    /// Whether none of `outgoing` goes to a peer whose channel was closed when it was last used.
    pub open spec fn may_reach(&self, outgoing: Seq<OutgoingModel>) -> bool {
        forall|i: int|
            0 <= i < outgoing.len() ==> !self.cannot_reach((#[trigger] outgoing[i]).to)
    }

    /// Whether the channel of the peer that an error says was not reached is closed.
    pub open spec fn accounts_for(&self, result: Result<(), ServerError>) -> bool {
        result matches Err(error) ==> (error::not_reached(error@) matches Some(to)
            ==> self.cannot_reach(to))
    }

    /// A server that nobody has connected to.
    pub fn new() -> (server: Result<Server, ServerError>)
        ensures
            server is Ok,
            server->Ok_0@ == ServerModel::empty(),
            server->Ok_0@.wf(),
            forall|id: u32| !(#[trigger] server->Ok_0.cannot_reach(id)),
    {
        let server = Server {
            peers: HashMap::new(),
            rooms: HashMap::new(),
            room_servers: HashMap::new(),
        };
        assert(server@ =~= ServerModel::empty());
        Ok(server)
    }

    /// Connects the peer that `msg` introduces and returns its id together with the receiver of
    /// what the peer will be sent. A peer that was connected under the same id makes way for it:
    /// `connect` hands it back as it was, its task is asked to stop, and it is dropped here, its
    /// channel with it.
    pub fn register_peer(&mut self, msg: WsMessage, addr: String, task_handle: JoinHandle<()>)
        -> (registered: Result<(u32, UnboundedReceiver<Message>), ServerError>)
        requires
            old(self)@.wf(),
            greeting_of(msg) is Some,
        ensures
            final(self)@.wf(),
            registered is Ok,
            greeting_of(msg) == Some(registered->Ok_0.0),
            ({
                let (id, rx) = registered->Ok_0;
                let peer = final(self)@.peers[id];
                &&& peer.receivers.contains(rx)
                &&& peer == (PeerModel {
                    id,
                    addr: addr@,
                    status: None,
                    inbox: Seq::empty(),
                    receivers: peer.receivers,
                    task: Some(task_handle),
                })
                &&& old(self)@.separate(peer)
                &&& final(self)@ == old(self)@.registered(peer)
                &&& forall|other: u32|
                    #![trigger final(self).cannot_reach(other)]
                    #![trigger old(self).cannot_reach(other)]
                    final(self).cannot_reach(other) == (other != id && old(self).cannot_reach(
                        other,
                    ))
                &&& old(self)@.peers.contains_key(id) ==> link::stops(
                    old(self)@.peers[id].task->0,
                )
            }),
    {
        let id: u32 = greeting(&msg).unwrap();
        if protocol::registers_media_server(id) {
            let served: Vec<u32> = Vec::new();
            self.room_servers.insert(id, served);
        }
        let ghost noted = self@;
        let (rx, replaced) = self.connect(id, addr, task_handle);
        if let Some(earlier) = replaced {
            earlier.stop();
        }
        assert(self@ =~= old(self)@.registered(self@.peers[id]));
        assert(forall|other: u32| #[trigger]
            old(self)@.peers.contains_key(other) ==> noted.peers.contains_key(other)
                && noted.peers[other] == old(self)@.peers[other]);
        Ok((id, rx))
    }

    /// Connects a new peer under `id`. Returns the receiver of what the peer will be sent, and the
    /// peer that was connected under the id before, as it was.
    fn connect(&mut self, id: u32, addr: String, task_handle: JoinHandle<()>) -> (connected: (
        UnboundedReceiver<Message>,
        Option<Peer>,
    ))
        ensures
            ({
                let (rx, replaced) = connected;
                let peer = final(self)@.peers[id];
                &&& peer.receivers.contains(rx)
                &&& peer == (PeerModel {
                    id,
                    addr: addr@,
                    status: None,
                    inbox: Seq::empty(),
                    receivers: peer.receivers,
                    task: Some(task_handle),
                })
                &&& old(self)@.separate(peer)
                &&& final(self)@ == (ServerModel {
                    peers: old(self)@.peers.insert(id, peer),
                    ..old(self)@
                })
                &&& match replaced {
                    Some(earlier) => old(self)@.peers.contains_key(id) && earlier@
                        == old(self)@.peers[id],
                    None => !old(self)@.peers.contains_key(id),
                }
            }),
            forall|other: u32|
                #![trigger final(self).cannot_reach(other)]
                #![trigger old(self).cannot_reach(other)]
                final(self).cannot_reach(other) == (other != id && old(self).cannot_reach(other)),
    {
        let (peer, rx) = Peer::new(id, addr, None, task_handle, &self.peers);
        let ghost model = peer@;
        let replaced: Option<Peer> = self.peers.insert(id, peer);
        assert(self@.peers =~= old(self)@.peers.insert(id, model));
        (rx, replaced)
    }

    /// Puts the peer `id` into `room_id`, whose members are then `members`.
    fn enter(&mut self, id: u32, room_id: u32, members: Vec<u32>)
        requires
            old(self)@.peers.contains_key(id),
        ensures
            final(self)@ == old(self)@.entered(id, room_id, members@),
            forall|other: u32|
                #![trigger final(self).cannot_reach(other)]
                #![trigger old(self).cannot_reach(other)]
                final(self).cannot_reach(other) == old(self).cannot_reach(other),
    {
        let mut peer: Peer = self.peers.remove(&id).unwrap();
        peer.set_status(Some(room_id));
        self.peers.insert(id, peer);
        self.rooms.insert(room_id, members);
        assert(self@ =~= old(self)@.entered(id, room_id, members@));
    }

    /// Queues `text` for the peer `to` and says whether that was possible. It is not once the
    /// channel to the peer is closed, and only then.
    fn send_to(&mut self, to: u32, text: &str) -> (sent: bool)
        requires
            old(self)@.peers.contains_key(to),
        ensures
            final(self)@ == if sent {
                old(self)@.received(to, text@)
            } else {
                old(self)@
            },
            !sent ==> final(self).cannot_reach(to),
            old(self).cannot_reach(to) ==> !sent,
            forall|other: u32|
                #![trigger final(self).cannot_reach(other)]
                #![trigger old(self).cannot_reach(other)]
                other != to ==> final(self).cannot_reach(other) == old(self).cannot_reach(other),
    {
        let mut peer: Peer = self.peers.remove(&to).unwrap();
        let sent: bool = peer.send(text);
        self.peers.insert(to, peer);
        assert(self@ =~= if sent {
            old(self)@.received(to, text@)
        } else {
            old(self)@
        });
        sent
    }

    /// Sends `outgoing`, in order and up to the first message that cannot be sent, which is one to a
    /// peer whose channel is closed.
    pub fn deliver(&mut self, outgoing: &Vec<Outgoing>) -> (result: Result<(), ServerError>)
        requires
            old(self)@.reaches(outgoing_view(outgoing@)),
        ensures
            old(self)@.wf() ==> final(self)@.wf(),
            old(self)@.sent(
                outgoing_view(outgoing@),
                final(self)@,
                result_view(result),
            ),
            old(self).channels_stay_closed(final(self)),
            final(self).accounts_for(result),
            result is Ok ==> old(self).may_reach(outgoing_view(outgoing@)),
    {
        let ghost all = outgoing_view(outgoing@);
        let mut i: usize = 0;
        assert(all.take(0) =~= Seq::<OutgoingModel>::empty());
        while i < outgoing.len()
            invariant
                i <= outgoing@.len(),
                all == outgoing_view(outgoing@),
                old(self)@.reaches(all),
                self@ == old(self)@.delivered(all.take(i as int)),
                old(self).channels_stay_closed(self),
                forall|j: int| 0 <= j < i ==> !old(self).cannot_reach((#[trigger] all[j]).to),
            decreases outgoing@.len() - i,
        {
            proof {
                let rest = all.take(i as int);
                assert forall|j: int| 0 <= j < rest.len() implies old(self)@.peers.contains_key(
                    #[trigger] rest[j].to,
                ) by {
                    assert(rest[j] == all[j]);
                }
                model::lemma_delivered(old(self)@, rest);
                assert(old(self)@.peers.contains_key(all[i as int].to));
                assert(old(self)@.peers.dom().contains(all[i as int].to));
                assert(all.take(i + 1).drop_last() =~= rest);
            }
            let sent: bool = self.send_to(outgoing[i].to, outgoing[i].text.as_str());
            match outgoing[i].sending(sent) {
                Ok(()) => {},
                Err(error) => {
                    assert(old(self)@.cut_short(all, i as int, self@, error@));
                    return Err(error);
                },
            }
            i += 1;
        }
        proof {
            assert(all.take(all.len() as int) =~= all);
            model::lemma_delivered(old(self)@, all);
        }
        Ok(())
    }

    /// The room that the connected peer `id` is in.
    pub fn status(&self, id: u32) -> (status: Option<u32>)
        requires
            self@.peers.contains_key(id),
        ensures
            status == self@.peers[id].status,
    {
        self.peers.get(&id).unwrap().status()
    }

    /// The members of the room `room_id`, if there is such a room.
    pub fn members(&self, room_id: u32) -> (members: Option<&Vec<u32>>)
        ensures
            match members {
                Some(members) => self@.rooms.contains_key(room_id) && self@.rooms[room_id]
                    == members@,
                None => !self@.rooms.contains_key(room_id),
            },
    {
        self.rooms.get(&room_id)
    }

    /// Whether a peer is connected under `id`.
    pub fn is_connected(&self, id: u32) -> (b: bool)
        ensures
            b == self@.peers.contains_key(id),
    {
        self.peers.contains_key(&id)
    }

    /// Whether all of `members` are connected.
    fn are_connected(&self, members: &Vec<u32>) -> (b: bool)
        ensures
            b == self@.connected(members@),
    {
        let mut i: usize = 0;
        while i < members.len()
            invariant
                i <= members@.len(),
                forall|j: int| 0 <= j < i ==> self@.peers.contains_key(#[trigger] members@[j]),
            decreases members@.len() - i,
        {
            if !self.is_connected(members[i]) {
                return false;
            }
            i += 1;
        }
        true
    }

    /// Whether the server can serve `request` of the peer `from_id`.
    pub fn can_serve(&self, request: &Request, from_id: u32) -> (b: bool)
        ensures
            b == self@.can_serve(request@, from_id),
    {
        match request {
            Request::PeerMessage { to: _, body: None } => true,
            Request::PeerMessage { to: _, body: Some(_) } => self.is_connected(from_id),
            Request::RoomCommand { command, room_id } => {
                if !self.is_connected(from_id) {
                    return false;
                }
                if self.status(from_id).is_some() {
                    return true;
                }
                let create: bool = text::same_text(command.as_str(), "CREATE");
                let join: bool = text::same_text(command.as_str(), "JOIN");
                proof {
                    protocol::lemma_commands_differ();
                }
                match self.members(*room_id) {
                    Some(members) => !join || self.are_connected(&others(members, from_id)),
                    None => !create || self.is_connected(protocol::MCU),
                }
            },
            Request::PeerList => self.is_connected(from_id) && self.status(from_id).is_some(),
            Request::Invite => self.is_connected(protocol::MCU),
            Request::Unknown => true,
        }
    }

    /// Answers a message for the peer `to` from the peer `from_id` in the room `room_id`.
    fn route(&self, to: u32, body: &str, from_id: u32, room_id: u32) -> (outgoing: Outgoing)
        requires
            self@.rooms.contains_key(room_id),
        ensures
            outgoing@ == self@.routed(to, body@, from_id, room_id),
    {
        if !self.is_connected(to) {
            direct(from_id, protocol::peer_not_found_text(to))
        } else if !contains(self.members(room_id).unwrap(), to) {
            direct(from_id, protocol::peer_not_present_text(to, room_id))
        } else {
            direct(to, protocol::forwarded_text(from_id, body))
        }
    }

    /// Creates the room `room_id` for the peer `from_id`, unless it is there already.
    fn create_room(&mut self, room_id: u32, from_id: u32) -> (outgoing: Vec<Outgoing>)
        requires
            old(self)@.peers.contains_key(from_id),
        ensures
            (final(self)@, outgoing_view(outgoing@)) == old(self)@.created(room_id, from_id),
            forall|other: u32|
                #![trigger final(self).cannot_reach(other)]
                #![trigger old(self).cannot_reach(other)]
                final(self).cannot_reach(other) == old(self).cannot_reach(other),
    {
        if self.rooms.contains_key(&room_id) {
            let outgoing: Vec<Outgoing> = vec![
                direct(from_id, protocol::room_exists_text(room_id)),
            ];
            assert(outgoing_view(outgoing@) =~= old(self)@.created(room_id, from_id).1);
            outgoing
        } else {
            let members: Vec<u32> = vec![from_id];
            assert(members@ =~= seq![from_id]);
            self.enter(from_id, room_id, members);
            let media_server: Vec<u32> = vec![protocol::MCU];
            assert(media_server@ =~= seq![protocol::MCU]);
            let mut outgoing: Vec<Outgoing> = notices(
                &media_server,
                protocol::alias_wanted_text(room_id).as_str(),
                Delivery::Notice,
            );
            outgoing.push(direct(from_id, protocol::room_created_text()));
            assert(outgoing_view(outgoing@) =~= old(self)@.created(room_id, from_id).1);
            outgoing
        }
    }

    /// Puts the peer `from_id` into the room `room_id`, if there is such a room.
    fn join_room(&mut self, room_id: u32, from_id: u32) -> (outgoing: Vec<Outgoing>)
        requires
            old(self)@.peers.contains_key(from_id),
        ensures
            (final(self)@, outgoing_view(outgoing@)) == old(self)@.joined(room_id, from_id),
            forall|other: u32|
                #![trigger final(self).cannot_reach(other)]
                #![trigger old(self).cannot_reach(other)]
                final(self).cannot_reach(other) == old(self).cannot_reach(other),
    {
        match self.rooms.remove(&room_id) {
            Some(mut members) => {
                let present: Vec<u32> = others(&members, from_id);
                members.push(from_id);
                self.enter(from_id, room_id, members);
                assert(self@ =~= old(self)@.joined(room_id, from_id).0);
                let mut outgoing: Vec<Outgoing> = notices(
                    &present,
                    protocol::peer_joined_text(from_id).as_str(),
                    Delivery::Notice,
                );
                outgoing.push(direct(from_id, protocol::room_joined_text(&present)));
                assert(outgoing_view(outgoing@) =~= old(self)@.joined(room_id, from_id).1);
                outgoing
            },
            None => {
                let outgoing: Vec<Outgoing> = vec![
                    direct(from_id, protocol::room_missing_text(room_id)),
                ];
                assert(self@ =~= old(self)@);
                assert(outgoing_view(outgoing@) =~= old(self)@.joined(room_id, from_id).1);
                outgoing
            },
        }
    }

    /// Carries out `request` of the peer `from_id`, which was read from `message`, and returns the
    /// messages to send.
    pub fn serve(&mut self, request: &Request, message: &str, from_id: u32) -> (result: Result<
        Vec<Outgoing>,
        ServerError,
    >)
        requires
            old(self)@.wf(),
            old(self)@.can_serve(request@, from_id),
        ensures
            final(self)@.wf(),
            match old(self)@.outcome(request@, message@, from_id) {
                Ok((after, outgoing)) => {
                    &&& final(self)@ == after
                    &&& final(self)@.reaches(outgoing)
                    &&& result is Ok
                    &&& outgoing_view(result->Ok_0@) == outgoing
                },
                Err(error) => {
                    &&& final(self)@ == old(self)@
                    &&& result is Err
                    &&& result->Err_0@ == error
                },
            },
            forall|other: u32|
                #![trigger final(self).cannot_reach(other)]
                #![trigger old(self).cannot_reach(other)]
                final(self).cannot_reach(other) == old(self).cannot_reach(other),
    {
        let ghost expected = self@.outcome(request@, message@, from_id);
        proof {
            model::lemma_outcome(self@, request@, message@, from_id);
        }
        let outgoing: Vec<Outgoing> = match request {
            Request::PeerMessage { to: _, body: None } => {
                return Err(ServerError::MissingBody);
            },
            Request::PeerMessage { to, body: Some(body) } => match self.status(from_id) {
                None => {
                    return Err(ServerError::NotInRoom { peer: from_id });
                },
                Some(room_id) => vec![self.route(*to, body.as_str(), from_id, room_id)],
            },
            Request::RoomCommand { command, room_id } => match self.status(from_id) {
                Some(current) => {
                    return Err(
                        ServerError::AlreadyInRoom {
                            peer: from_id,
                            command: command.clone(),
                            room_id: current,
                        },
                    );
                },
                None => if text::same_text(command.as_str(), "CREATE") {
                    self.create_room(*room_id, from_id)
                } else if text::same_text(command.as_str(), "JOIN") {
                    self.join_room(*room_id, from_id)
                } else {
                    return Err(ServerError::InvalidCommand { command: command.clone() });
                },
            },
            Request::PeerList => {
                let room_id: u32 = self.status(from_id).unwrap();
                let present: Vec<u32> = others(self.members(room_id).unwrap(), from_id);
                vec![direct(from_id, protocol::room_peers_text(&present))]
            },
            Request::Invite => vec![direct(protocol::MCU, message.to_owned())],
            Request::Unknown => Vec::new(),
        };
        assert(outgoing_view(outgoing@) =~= expected->Ok_0.1);
        Ok(outgoing)
    }

    /// Whether the server can handle `message` of the peer `from_id`: it can be read, and the
    /// server can serve what it asks for.
    pub fn can_handle_message(&self, message: &str, from_id: u32) -> (b: bool)
        ensures
            b == self@.can_handle(message@, from_id),
    {
        match protocol::parse_request(message) {
            Some(request) => self.can_serve(&request, from_id),
            None => false,
        }
    }

    /// Does what `message` of the peer `from_id` asks for and sends the messages that come of it.
    pub fn handle_message(&mut self, message: &str, from_id: u32) -> (result: Result<
        (),
        ServerError,
    >)
        requires
            old(self)@.wf(),
            old(self)@.can_handle(message@, from_id),
        ensures
            final(self)@.wf(),
            old(self)@.handled(
                message@,
                from_id,
                final(self)@,
                result_view(result),
            ),
            old(self).channels_stay_closed(final(self)),
            final(self).accounts_for(result),
            result is Ok ==> old(self).may_reach(
                old(self)@.outcome(protocol::request_of(message@)->0, message@, from_id)->Ok_0.1,
            ),
    {
        let request: Request = protocol::parse_request(message).unwrap();
        match self.serve(&request, message, from_id) {
            Ok(outgoing) => self.deliver(&outgoing),
            Err(error) => Err(error),
        }
    }

    /// Whether the server can remove the peer `peer_id`.
    pub fn can_remove_peer(&self, peer_id: u32) -> (b: bool)
        requires
            self@.wf(),
        ensures
            b == self@.can_remove(peer_id),
    {
        if !self.is_connected(peer_id) {
            return false;
        }
        match self.status(peer_id) {
            Some(room_id) => {
                let remaining: Vec<u32> = others(self.members(room_id).unwrap(), peer_id);
                is_alias_alone(&remaining, room_id) || self.are_connected(&remaining)
            },
            None => true,
        }
    }

    /// Takes the peer `peer_id` out of its room. Returns the notices to those who remain, and the
    /// alias, as it was, where it goes with the room.
    fn leave_room(&mut self, peer_id: u32) -> (left: (Vec<Outgoing>, Option<Peer>))
        requires
            old(self)@.wf(),
            old(self)@.can_remove(peer_id),
        ensures
            (final(self)@, outgoing_view(left.0@)) == old(self)@.left(peer_id),
            old(self)@.dismissed(peer_id) == match left.1 {
                Some(alias) => seq![alias@, old(self)@.peers[peer_id]],
                None => seq![old(self)@.peers[peer_id]],
            },
            old(self).channels_stay_closed(final(self)),
    {
        match self.status(peer_id) {
            Some(room_id) => {
                let members: Vec<u32> = self.rooms.remove(&room_id).unwrap();
                let remaining: Vec<u32> = others(&members, peer_id);
                if is_alias_alone(&remaining, room_id) {
                    let alias: Option<Peer> = self.peers.remove(&room_id);
                    let outgoing: Vec<Outgoing> = Vec::new();
                    assert(self@ =~= old(self)@.left(peer_id).0);
                    assert(outgoing_view(outgoing@) =~= Seq::<OutgoingModel>::empty());
                    (outgoing, alias)
                } else {
                    let outgoing: Vec<Outgoing> = notices(
                        &remaining,
                        protocol::peer_left_text(peer_id).as_str(),
                        Delivery::Farewell,
                    );
                    self.rooms.insert(room_id, remaining);
                    assert(self@ =~= old(self)@.left(peer_id).0);
                    (outgoing, None)
                }
            },
            None => {
                let outgoing: Vec<Outgoing> = Vec::new();
                assert(outgoing_view(outgoing@) =~= Seq::<OutgoingModel>::empty());
                (outgoing, None)
            },
        }
    }

    /// Disconnects the peer `peer_id`. If it is in a room it leaves the room, and the others learn
    /// of that; the room ends with the last peer but the alias of the media server, and the alias
    /// is disconnected as well. `dismiss` hands back whoever is disconnected, their tasks are asked to
    /// stop, and they are dropped here, their channels with them.
    pub fn remove_peer(&mut self, peer_id: u32) -> (result: Result<(), ServerError>)
        requires
            old(self)@.wf(),
            old(self)@.can_remove(peer_id),
        ensures
            final(self)@.wf(),
            old(self)@.removed(
                peer_id,
                final(self)@,
                result_view(result),
            ),
            old(self).channels_stay_closed(final(self)),
            final(self).accounts_for(result),
            result is Ok ==> old(self).may_reach(old(self)@.left(peer_id).1),
            old(self)@.dismissed_tasks_stop(peer_id),
    {
        let (result, gone) = self.dismiss(peer_id);
        let ghost handed_back = gone@;
        let ghost dismissed = old(self)@.dismissed(peer_id);
        assert forall|i: int| 0 <= i < handed_back.len() implies (
        #[trigger] handed_back[i])@.task is Some by {
            assert(dismissed[i] == handed_back[i]@);
            model::lemma_dismissed(old(self)@, peer_id, i);
        }
        stop_all(gone);
        assert forall|i: int| 0 <= i < dismissed.len() implies link::stops(
            (#[trigger] dismissed[i]).task->0,
        ) by {
            assert(dismissed[i] == handed_back[i]@);
        }
        result
    }

    /// Disconnects the peer `peer_id` and hands back the peers that are connected no more, as they
    /// were: the alias of the media server, where it goes with the room, and the peer.
    fn dismiss(&mut self, peer_id: u32) -> (dismissed: (Result<(), ServerError>, Vec<Peer>))
        requires
            old(self)@.wf(),
            old(self)@.can_remove(peer_id),
        ensures
            final(self)@.wf(),
            old(self)@.removed(
                peer_id,
                final(self)@,
                result_view(dismissed.0),
            ),
            peers_view(dismissed.1@) == old(self)@.dismissed(peer_id),
            old(self).channels_stay_closed(final(self)),
            final(self).accounts_for(dismissed.0),
            dismissed.0 is Ok ==> old(self).may_reach(old(self)@.left(peer_id).1),
    {
        proof {
            model::lemma_left(self@, peer_id);
        }
        let (outgoing, alias) = self.leave_room(peer_id);
        let result: Result<(), ServerError> = self.deliver(&outgoing);
        let ghost last = self@;
        proof {
            model::lemma_farewells(old(self)@, peer_id, last, result_view(result));
        }
        let peer: Peer = self.peers.remove(&peer_id).unwrap();
        let gone: Vec<Peer> = match alias {
            Some(alias) => vec![alias, peer],
            None => vec![peer],
        };
        proof {
            assert(self@ =~= last.disconnected(peer_id));
            model::lemma_removed(
                old(self)@,
                peer_id,
                self@,
                result_view(result),
            );
            assert(peers_view(gone@) =~= old(self)@.dismissed(peer_id));
        }
        (result, gone)
    }
}

} // verus!
