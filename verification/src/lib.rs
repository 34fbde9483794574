//! A signalling server for conferences: peers connect over WebSockets, meet in rooms, and pass
//! messages on to one another; a media server joins each room under an alias.
//!
//! `server` holds the server itself. Its contracts speak of the model in `model`; `protocol` says
//! what the messages mean, and `laws` what holds of it all. `wording` and `behaviour` write out what
//! stands on the wire and what the server does, request by request.
pub mod behaviour;
pub mod connection;
pub mod error;
pub mod laws;
pub mod link;
pub mod message;
pub mod model;
pub mod peer;
pub mod protocol;
pub mod server;
pub mod text;
pub mod wording;

pub use crate::error::ServerError;
pub use crate::message::{CloseReason, WsMessage};
pub use crate::peer::Peer;
pub use crate::server::Server;
