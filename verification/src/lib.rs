//! Transports that carry sealed frames between peers: the frame format on the
//! wire, letters that carry frames by mail, and the rules each transport follows.

pub mod bluetooth;
pub mod chatmail;
pub mod deferred;
pub mod encoding;
pub mod lan;
pub mod link;
pub mod multi;
pub mod nostr;
pub mod octets;
pub mod onion;
pub mod runner;
pub mod sorted;
pub mod switched;
pub mod table;
pub mod text;
pub mod tls;
pub mod wire;
