//! What the server does with a connection once its peer has registered.
use crate::message::WsMessage;
use vstd::prelude::*;

verus! {

/// What happens on the connection of a registered peer.
#[derive(Debug)]
pub enum Event {
    /// The peer has sent a message.
    Received(WsMessage),
    /// A message has been queued for the peer.
    Queued,
    /// The connection, or a request of the peer, has failed.
    Failed,
    /// The peer has hung up and nothing more can be queued for it.
    Finished,
}

/// What there is to do about an event.
#[derive(Debug)]
pub enum Action {
    /// Handle the text as a message of the peer.
    Handle(String),
    /// Write the queued message to the connection.
    Write,
    /// Wait for the next event.
    Wait,
    /// Remove the peer and stop.
    Remove,
    /// Stop.
    Stop,
}

/// What there is to do about `event`: of all that a peer sends only text counts, and only a
/// connection that fails costs the peer its registration.
pub open spec fn action_for(event: Event) -> Action {
    match event {
        Event::Received(WsMessage::Text(text)) => Action::Handle(text),
        Event::Received(_) => Action::Wait,
        Event::Queued => Action::Write,
        Event::Failed => Action::Remove,
        Event::Finished => Action::Stop,
    }
}

/// Whether there is anything to do about `event`: a message other than text is passed over.
pub open spec fn counts(event: Event) -> bool {
    event matches Event::Received(message) ==> message is Text
}

/// The events that there is anything to do about, in order.
pub open spec fn relevant(events: Seq<Event>) -> Seq<Event> {
    events.filter(|event: Event| counts(event))
}

/// What is done on a connection where `events` happen, in order and without the waiting, up to the
/// action that ends the connection.
pub open spec fn work(events: Seq<Event>) -> Seq<Action>
    decreases events.len(),
{
    if events.len() == 0 {
        Seq::empty()
    } else {
        match action_for(events[0]) {
            Action::Wait => work(events.skip(1)),
            Action::Remove => seq![Action::Remove],
            Action::Stop => seq![Action::Stop],
            action => seq![action] + work(events.skip(1)),
        }
    }
}

/// What there is to do about `event`.
pub fn next_action(event: Event) -> (action: Action)
    ensures
        action == action_for(event),
{
    match event {
        Event::Received(WsMessage::Text(text)) => Action::Handle(text),
        Event::Received(_) => Action::Wait,
        Event::Queued => Action::Write,
        Event::Failed => Action::Remove,
        Event::Finished => Action::Stop,
    }
}

} // verus!
