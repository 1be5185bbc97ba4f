//! The three sizes that a frame can have.

use crate::wire::error::WireError;
use crate::wire::header::{HEADER_LEN, TAG_LEN};
use crate::wire::pad::PAD_MARKER_LEN;
use vstd::prelude::*;

verus! {

/// The size of a frame. There are three, so that the size of what is said
/// shows little of what was said.
#[derive(Debug, Clone, Copy, PartialEq, Eq, PartialOrd, Ord, Hash, Structural)]
pub enum SizeClass {
    /// 4 KiB: text and receipts.
    S,
    /// 64 KiB: pictures and sync.
    M,
    /// 1 MiB: pieces of files.
    L,
}

impl SizeClass {
    /// The classes, smallest first.
    pub const ALL: [SizeClass; 3] = [SizeClass::S, SizeClass::M, SizeClass::L];

    /// The length of a frame of the class.
    pub open spec fn frame_size(self) -> nat {
        match self {
            SizeClass::S => 4096,
            SizeClass::M => 65536,
            SizeClass::L => 1048576,
        }
    }

    /// The length of the sealed part: what the header leaves.
    pub open spec fn sealed_size(self) -> nat {
        (self.frame_size() - HEADER_LEN) as nat
    }

    /// The length of the padded plaintext: what the tag leaves of the sealed part.
    pub open spec fn plaintext_size(self) -> nat {
        (self.sealed_size() - TAG_LEN) as nat
    }

    /// The longest payload: what the padding marker leaves of the plaintext.
    pub open spec fn payload_limit(self) -> nat {
        (self.plaintext_size() - PAD_MARKER_LEN) as nat
    }

    /// The length of a frame of the class.
    #[must_use]
    pub fn frame_len(self) -> (n: usize)
        ensures
            n == self.frame_size(),
    {
        match self {
            SizeClass::S => 4 * 1024,
            SizeClass::M => 64 * 1024,
            SizeClass::L => 1024 * 1024,
        }
    }

    /// The length of the sealed part.
    #[must_use]
    pub fn sealed_len(self) -> (n: usize)
        ensures
            n == self.sealed_size(),
    {
        self.frame_len() - HEADER_LEN
    }

    /// The length of the padded plaintext.
    #[must_use]
    pub fn plaintext_len(self) -> (n: usize)
        ensures
            n == self.plaintext_size(),
    {
        self.sealed_len() - TAG_LEN
    }

    /// The longest payload that fits.
    #[must_use]
    pub fn max_payload(self) -> (n: usize)
        ensures
            n == self.payload_limit(),
    {
        self.plaintext_len() - PAD_MARKER_LEN
    }

    /// The smallest class that holds a payload, if one does.
    #[must_use]
    pub fn smallest_for(payload_len: usize) -> (r: Option<SizeClass>)
        ensures
            r matches Some(c) ==> payload_len <= c.payload_limit() && forall|d: SizeClass|
                payload_len <= d.payload_limit() ==> c.payload_limit() <= #[trigger] d.payload_limit(),
            r is None ==> forall|d: SizeClass| payload_len > #[trigger] d.payload_limit(),
    {
        if payload_len <= SizeClass::S.max_payload() {
            Some(SizeClass::S)
        } else if payload_len <= SizeClass::M.max_payload() {
            Some(SizeClass::M)
        } else if payload_len <= SizeClass::L.max_payload() {
            Some(SizeClass::L)
        } else {
            None
        }
    }

    /// The class whose frames have this length.
    pub fn from_frame_len(len: usize) -> (r: Result<SizeClass, WireError>)
        ensures
            r matches Ok(c) ==> c.frame_size() == len,
            r matches Err(e) ==> e == (WireError::BadFrameLength { got: len }),
            r is Ok <==> exists|c: SizeClass| #[trigger] c.frame_size() == len,
    {
        if len == SizeClass::S.frame_len() {
            Ok(SizeClass::S)
        } else if len == SizeClass::M.frame_len() {
            Ok(SizeClass::M)
        } else if len == SizeClass::L.frame_len() {
            Ok(SizeClass::L)
        } else {
            Err(WireError::BadFrameLength { got: len })
        }
    }
}

/// A length belongs to at most one class.
pub proof fn lemma_class_is_unique(a: SizeClass, b: SizeClass)
    requires
        a.frame_size() == b.frame_size() || a.sealed_size() == b.sealed_size(),
    ensures
        a == b,
{
}

/// The parts of a frame add up: header, plaintext and tag make the frame, a
/// payload and its marker make the plaintext.
pub proof fn lemma_layout_adds_up(c: SizeClass)
    ensures
        c.frame_size() == HEADER_LEN + c.plaintext_size() + TAG_LEN,
        c.payload_limit() + PAD_MARKER_LEN == c.plaintext_size(),
{
}

/// The sizes of frames in bytes, and the room they leave for what is said.
pub proof fn lemma_sizes_in_bytes()
    ensures
        SizeClass::S.frame_size() == 4096,
        SizeClass::M.frame_size() == 65536,
        SizeClass::L.frame_size() == 1048576,
        forall|c: SizeClass| #[trigger] c.sealed_size() == c.frame_size() - 42,
        forall|c: SizeClass| #[trigger] c.plaintext_size() == c.frame_size() - 58,
        forall|c: SizeClass| #[trigger] c.payload_limit() == c.frame_size() - 59,
{
}

} // verus!
