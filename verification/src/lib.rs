//! Live file-tracking and change-propagation engine for a markdown preview
//! server: an in-memory store of tracked files with cached rendered output,
//! a normalizer that turns raw filesystem notifications into semantic
//! intents, and a bounded fan-out broadcaster for change notifications.

use vstd::prelude::*;

pub mod fanout;
pub mod paths;
pub mod render;
pub mod scan;
pub mod store;
pub mod template;
pub mod text;
pub mod watch;

verus! {

/// A change notification pushed to connected viewers.
#[derive(Clone, Copy, Debug, PartialEq, Eq, Structural)]
pub enum ServerMessage {
    Reload,
    Pong,
}

/// A message a viewer may send to the server.
#[derive(Clone, Copy, Debug, PartialEq, Eq, Structural)]
pub enum ClientMessage {
    Ping,
    RequestRefresh,
}

} // verus!
