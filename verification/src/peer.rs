//! A connected peer.
use crate::link;
use crate::model::PeerModel;
use futures::channel::mpsc::{UnboundedReceiver, UnboundedSender};
use std::collections::HashMap;
use tokio::task::JoinHandle;
use tokio_tungstenite::tungstenite::Message;
use vstd::prelude::*;

verus! {

/// A connected peer. Dropping it asks the task that serves its connection to stop, unless it has
/// been asked already.
#[derive(Debug)]
pub struct Peer {
    id: u32,
    addr: String,
    status: Option<u32>,
    tx: UnboundedSender<Message>,
    task_handle: Option<JoinHandle<()>>,
}

impl View for Peer {
    type V = PeerModel;

    closed spec fn view(&self) -> PeerModel {
        PeerModel {
            id: self.id,
            addr: self.addr@,
            status: self.status,
            inbox: link::queued(self.tx),
            receivers: Set::new(|rx: UnboundedReceiver<Message>| link::feeds(self.tx, rx)),
            task: self.task_handle,
        }
    }
}

impl Drop for Peer {
    /// Asks the task that serves the connection to stop, unless it has been asked already. When it
    /// does is the runtime's matter.
    fn drop(&mut self)
        ensures
            match old(self)@.task {
                Some(task) => {
                    &&& final(self)@.task is Some
                    &&& link::task_id(final(self)@.task->0) == link::task_id(task)
                    &&& link::asked_to_stop(final(self)@.task->0)
                },
                None => final(self)@.task is None,
            },
            final(self)@ == (PeerModel { task: final(self)@.task, ..old(self)@ }),
        opens_invariants none
        no_unwind
    {
        match &mut self.task_handle {
            Some(task) => link::abort_task(task),
            None => {},
        }
    }
}

impl Peer {
    /// Whether the channel to the peer was closed when it was last used.
    pub closed spec fn unreachable(&self) -> bool {
        link::closed(self.tx)
    }

    /// The model of the peer has every part of it: what its sender has queued, the receivers that the
    /// sender feeds, and the task.
    proof fn law_model_leaves_nothing_out(&self, rx: UnboundedReceiver<Message>)
        ensures
            self@.id == self.id,
            self@.addr == self.addr@,
            self@.status == self.status,
            self@.inbox == link::queued(self.tx),
            self@.receivers.contains(rx) <==> link::feeds(self.tx, rx),
            self@.task == self.task_handle,
            self.unreachable() <==> link::closed(self.tx),
    {
    }

    /// A peer that has been sent nothing yet, and the receiver of what it will be sent. Its channel
    /// has no receiver in common with those of `peers`, the peers that are there already.
    pub(crate) fn new(
        id: u32,
        addr: String,
        status: Option<u32>,
        task_handle: JoinHandle<()>,
        peers: &HashMap<u32, Peer>,
    ) -> (ends: (Peer, UnboundedReceiver<Message>))
        ensures
            ends.0@ == (PeerModel {
                id,
                addr: addr@,
                status,
                inbox: Seq::empty(),
                receivers: ends.0@.receivers,
                task: Some(task_handle),
            }),
            ends.0@.receivers.contains(ends.1),
            !ends.0.unreachable(),
            forall|other: u32| #[trigger]
                peers@.contains_key(other) ==> peers@[other]@.receivers.disjoint(
                    ends.0@.receivers,
                ),
    {
        let (tx, rx) = link::open_channel(peers);
        (Peer { id, addr, status, tx, task_handle: Some(task_handle) }, rx)
    }

    /// Asks the task that serves the peer's connection to stop, and lets the peer go.
    pub(crate) fn stop(self)
        requires
            self@.task is Some,
        ensures
            link::stops(self@.task->0),
    {
        let mut peer = self;
        let mut task: JoinHandle<()> = peer.task_handle.take().unwrap();
        link::abort_task(&mut task);
        assert(link::asked_to_stop(task));
    }

    /// The room that the peer is in.
    pub fn status(&self) -> (status: Option<u32>)
        ensures
            status == self@.status,
    {
        self.status
    }

    /// Notes the room that the peer is in.
    pub(crate) fn set_status(&mut self, status: Option<u32>)
        ensures
            final(self)@ == (PeerModel { status, ..old(self)@ }),
            final(self).unreachable() == old(self).unreachable(),
    {
        self.status = status;
    }

    /// Queues `text` for the peer and says whether that was possible. It is not once the channel to
    /// the peer is closed, and only then.
    pub(crate) fn send(&mut self, text: &str) -> (sent: bool)
        ensures
            final(self)@ == (PeerModel {
                inbox: if sent {
                    old(self)@.inbox.push(text@)
                } else {
                    old(self)@.inbox
                },
                ..old(self)@
            }),
            !sent ==> final(self).unreachable(),
            old(self).unreachable() ==> !sent,
    {
        let sent: bool = match link::queue_text(&mut self.tx, text) {
            Ok(()) => true,
            Err(_) => false,
        };
        assert(self@.receivers =~= old(self)@.receivers);
        sent
    }
}

} // verus!
