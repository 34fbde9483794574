//! The channel that leads to a peer's connection, and the task that serves the connection.
use crate::peer::Peer;
use futures::channel::mpsc::{TrySendError, UnboundedReceiver, UnboundedSender};
use std::collections::HashMap;
use tokio::task::JoinHandle;
use tokio_tungstenite::tungstenite::Message;
use vstd::prelude::*;

verus! {

/// The sending half of a channel, opaque here.
#[verifier::external_type_specification]
#[verifier::external_body]
#[verifier::reject_recursive_types(T)]
pub struct ExUnboundedSender<T>(futures::channel::mpsc::UnboundedSender<T>);

/// The receiving half of a channel, opaque here.
#[verifier::external_type_specification]
#[verifier::external_body]
#[verifier::reject_recursive_types(T)]
pub struct ExUnboundedReceiver<T>(futures::channel::mpsc::UnboundedReceiver<T>);

/// What a failed send hands back, opaque here.
#[verifier::external_type_specification]
#[verifier::external_body]
#[verifier::reject_recursive_types(T)]
pub struct ExTrySendError<T>(futures::channel::mpsc::TrySendError<T>);

/// The handle of a task, opaque here.
#[verifier::external_type_specification]
#[verifier::external_body]
#[verifier::reject_recursive_types(T)]
pub struct ExJoinHandle<T>(tokio::task::JoinHandle<T>);

/// What a task that failed comes to, opaque here; `JoinHandle` mentions it.
#[verifier::external_type_specification]
#[verifier::external_body]
pub struct ExJoinError(tokio::task::JoinError);

/// The texts that have been queued through a sender since `mpsc::unbounded` made it, oldest first.
pub uninterp spec fn queued(tx: UnboundedSender<Message>) -> Seq<Seq<char>>;

/// Whether what goes in at the sender comes out at the receiver, in order and each once, as
/// `is_connected_to` has it for the two halves that `mpsc::unbounded` returns.
pub uninterp spec fn feeds(tx: UnboundedSender<Message>, rx: UnboundedReceiver<Message>) -> bool;

/// Whether the channel of a sender was closed, as `is_closed` has it, when the last call through
/// the sender returned.
pub uninterp spec fn closed(tx: UnboundedSender<Message>) -> bool;

/// The number of the task that a handle belongs to, as `JoinHandle::id` tells tasks apart: no two
/// tasks have the same number while there is a handle of each.
pub uninterp spec fn task_id(task: JoinHandle<()>) -> nat;

/// Whether `abort` has been called through the handle of a task.
pub uninterp spec fn asked_to_stop(task: JoinHandle<()>) -> bool;

/// Whether the task of a handle has been asked to stop: `abort` has been called through the handle,
/// in a later state of it.
pub open spec fn stops(task: JoinHandle<()>) -> bool {
    exists|later: JoinHandle<()>| #[trigger]
        asked_to_stop(later) && task_id(later) == task_id(task)
}

/// Calls `futures::channel::mpsc::unbounded`.
///
/// Trusted: the sender feeds the receiver, the channel is open, and nothing has been queued yet.
/// The channel is a new one: its sender feeds no receiver that the channel of one of `peers` feeds,
/// for the peers were there before it. `peers` says whom the contract speaks of; the call does not
/// look at it. What the receiver hands out when it is polled, and when it ends, is left unsaid: that
/// is settled by what both halves go through later, and a contract speaks of what a call is given
/// and returns.
#[verifier::external_body]
#[allow(unused_variables)]
pub(crate) fn open_channel(peers: &HashMap<u32, Peer>) -> (ends: (
    UnboundedSender<Message>,
    UnboundedReceiver<Message>,
))
    ensures
        queued(ends.0) == Seq::<Seq<char>>::empty(),
        feeds(ends.0, ends.1),
        !closed(ends.0),
        forall|id: u32, rx: UnboundedReceiver<Message>|
            #![trigger peers@[id]@.receivers.contains(rx)]
            peers@.contains_key(id) && peers@[id]@.receivers.contains(rx) ==> !feeds(ends.0, rx),
{
    futures::channel::mpsc::unbounded::<Message>()
}

/// Calls `UnboundedSender::unbounded_send` with a text message.
///
/// Trusted: where the call succeeds the text is queued behind all that the sender queued before,
/// and where it fails nothing is; the sender goes on feeding the receiver that it fed. The call
/// fails only where the receiver has been closed or dropped, and then always: a closed channel
/// never opens again. A channel that was open may have been closed since, which nothing here can
/// tell in advance, so that the call succeeds is promised nowhere. The queue is bounded by memory
/// alone: the counter of queued messages does not run over before memory runs out.
#[verifier::external_body]
pub(crate) fn queue_text(tx: &mut UnboundedSender<Message>, text: &str) -> (sent: Result<
    (),
    TrySendError<Message>,
>)
    ensures
        queued(*final(tx)) == (if sent is Ok {
            queued(*old(tx)).push(text@)
        } else {
            queued(*old(tx))
        }),
        forall|rx: UnboundedReceiver<Message>|
            #![trigger feeds(*final(tx), rx)]
            #![trigger feeds(*old(tx), rx)]
            feeds(*final(tx), rx) == feeds(*old(tx), rx),
        sent is Err ==> closed(*final(tx)),
        closed(*old(tx)) ==> sent is Err,
{
    tx.unbounded_send(Message::Text(text.to_owned()))
}

/// Calls `tokio::task::JoinHandle::abort`.
///
/// Trusted: the call is made, through the handle of the same task, and returns without unwinding. It
/// asks the runtime to cancel the task; when the task stops, and whether it had come to its end
/// before, is the runtime's matter.
#[verifier::external_body]
pub(crate) fn abort_task(task: &mut JoinHandle<()>)
    ensures
        task_id(*final(task)) == task_id(*old(task)),
        asked_to_stop(*final(task)),
    opens_invariants none
    no_unwind
{
    task.abort()
}

} // verus!
