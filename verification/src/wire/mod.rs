//! The frame format: a fixed header, a sealed body and three fixed sizes.

pub mod error;
pub mod frame;
pub mod header;
pub mod pad;
pub mod size_class;

pub use error::WireError;
pub use frame::{assemble, assemble_into, parse, FrameView};
pub use header::{
    FrameType, Header, HANDSHAKE_SESSION_ID, HEADER_LEN, NONCE_LEN, TAG_LEN, WIRE_VERSION,
};
pub use pad::{pad_into, pad_to, unpad, PAD_MARKER};
pub use size_class::SizeClass;
