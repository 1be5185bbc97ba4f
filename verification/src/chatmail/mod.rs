//! Frames carried by mail: the letters, the accounts and the servers.

pub mod answer;
pub mod checksum;
pub mod chunks;
pub mod envelope;
pub mod http;
pub mod imap;
pub mod json;
pub mod letter;
pub mod round_trip;
pub mod runner;
pub mod smtp;

pub use letter::{
    build_message, parse_message, MessageError, CONTENT_TYPE, MAX_MESSAGE_BYTES, SUBJECT,
};
