//! Frames carried by Nostr relays: what a relay says, and the links, the
//! bookkeeping and the news of the transport.

pub mod answers;
pub mod links;
pub mod message;
pub mod news;
pub mod relay;
pub mod state;
