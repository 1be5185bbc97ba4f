//! The header of a frame.

use crate::octets;
use crate::wire::error::WireError;
use vstd::prelude::*;

verus! {

/// The version of the format.
pub const WIRE_VERSION: u8 = 0;

/// The length of a nonce.
pub const NONCE_LEN: usize = 24;

/// The length of the authentication tag at the end of the sealed part.
pub const TAG_LEN: usize = 16;

/// The length of a header: version, type, session, counter, nonce.
pub const HEADER_LEN: usize = 1 + 1 + 8 + 8 + NONCE_LEN;

/// The session number of a handshake frame.
pub const HANDSHAKE_SESSION_ID: u64 = 0;

/// What a frame is for.
#[derive(Debug, Clone, Copy, PartialEq, Eq, Hash, Structural)]
pub enum FrameType {
    /// Sets a session up.
    Handshake,
    /// Carries data within a session.
    Data,
}

impl FrameType {
    /// The byte that stands for the type.
    pub open spec fn byte(self) -> u8 {
        match self {
            FrameType::Handshake => 0x01,
            FrameType::Data => 0x02,
        }
    }

    /// The byte that stands for the type.
    #[must_use]
    pub fn to_byte(self) -> (b: u8)
        ensures
            b == self.byte(),
    {
        match self {
            FrameType::Handshake => 0x01,
            FrameType::Data => 0x02,
        }
    }

    /// The type that a byte stands for.
    pub fn from_byte(b: u8) -> (r: Result<FrameType, WireError>)
        ensures
            r matches Ok(t) ==> t.byte() == b,
            r matches Err(e) ==> e == (WireError::UnknownFrameType { got: b }),
            r is Ok <==> (b == 0x01 || b == 0x02),
    {
        if b == 0x01 {
            Ok(FrameType::Handshake)
        } else if b == 0x02 {
            Ok(FrameType::Data)
        } else {
            Err(WireError::UnknownFrameType { got: b })
        }
    }
}

/// The header of a frame.
#[derive(Debug, Clone, Copy, PartialEq, Eq)]
pub struct Header {
    pub version: u8,
    pub frame_type: FrameType,
    pub session_id: u64,
    pub counter: u64,
    pub nonce: [u8; NONCE_LEN],
}

/// `bytes` is the encoding of `header`: one byte of version, one of type, the
/// session and the counter in eight big-endian bytes each, the nonce.
pub open spec fn encodes(bytes: Seq<u8>, header: Header) -> bool {
    &&& bytes.len() == HEADER_LEN
    &&& bytes[0] == header.version
    &&& bytes[1] == header.frame_type.byte()
    &&& octets::be(bytes.subrange(2, 10)) == header.session_id
    &&& octets::be(bytes.subrange(10, 18)) == header.counter
    &&& bytes.subrange(18, 42) == header.nonce@
}

impl Header {
    /// A header of the current version.
    #[must_use]
    pub fn new(
        frame_type: FrameType,
        session_id: u64,
        counter: u64,
        nonce: [u8; NONCE_LEN],
    ) -> (h: Header)
        ensures
            h == (Header { version: WIRE_VERSION, frame_type, session_id, counter, nonce }),
    {
        Header { version: WIRE_VERSION, frame_type, session_id, counter, nonce }
    }

    /// The header of a handshake frame: no session yet, nothing counted.
    #[must_use]
    pub fn handshake(nonce: [u8; NONCE_LEN]) -> (h: Header)
        ensures
            h == (Header {
                version: WIRE_VERSION,
                frame_type: FrameType::Handshake,
                session_id: HANDSHAKE_SESSION_ID,
                counter: 0,
                nonce,
            }),
    {
        Header::new(FrameType::Handshake, HANDSHAKE_SESSION_ID, 0, nonce)
    }

    /// The bytes of the header.
    #[must_use]
    pub fn encode(&self) -> (out: [u8; HEADER_LEN])
        ensures
            encodes(out@, *self),
    {
        let session = octets::be_bytes_u64(self.session_id);
        let counter = octets::be_bytes_u64(self.counter);
        let mut out: [u8; HEADER_LEN] = [0; HEADER_LEN];
        out[0] = self.version;
        out[1] = self.frame_type.to_byte();
        let mut i: usize = 0;
        while i < 8
            invariant
                i <= 8,
                out@.len() == HEADER_LEN,
                out@[0] == self.version,
                out@[1] == self.frame_type.byte(),
                forall|k: int| 2 <= k < 2 + i ==> out@[k] == session@[k - 2],
                forall|k: int| 10 <= k < 10 + i ==> out@[k] == counter@[k - 10],
            decreases 8 - i,
        {
            out[2 + i] = session[i];
            out[10 + i] = counter[i];
            i = i + 1;
        }
        let mut j: usize = 0;
        while j < NONCE_LEN
            invariant
                j <= NONCE_LEN,
                out@.len() == HEADER_LEN,
                out@[0] == self.version,
                out@[1] == self.frame_type.byte(),
                forall|k: int| 2 <= k < 10 ==> out@[k] == session@[k - 2],
                forall|k: int| 10 <= k < 18 ==> out@[k] == counter@[k - 10],
                forall|k: int| 18 <= k < 18 + j ==> out@[k] == self.nonce@[k - 18],
            decreases NONCE_LEN - j,
        {
            out[18 + j] = self.nonce[j];
            j = j + 1;
        }
        assert(out@.subrange(2, 10) =~= session@);
        assert(out@.subrange(10, 18) =~= counter@);
        assert(out@.subrange(18, 42) =~= self.nonce@);
        out
    }

    /// Reads a header. The length is looked at first, then the version, then the type.
    pub fn decode(bytes: &[u8]) -> (r: Result<Header, WireError>)
        ensures
            r matches Ok(h) ==> encodes(bytes@, h) && h.version == WIRE_VERSION,
            r matches Err(e) ==> decode_error(bytes@) == Some(e),
            r is Ok <==> decode_error(bytes@) is None,
    {
        if bytes.len() != HEADER_LEN {
            return Err(WireError::SealedLengthMismatch { got: bytes.len(), want: HEADER_LEN });
        }
        let version: u8 = bytes[0];
        if version != WIRE_VERSION {
            return Err(WireError::UnsupportedVersion { got: version });
        }
        let frame_type = match FrameType::from_byte(bytes[1]) {
            Ok(t) => t,
            Err(e) => {
                return Err(e);
            },
        };
        let session_id: u64 = octets::be_value(vstd::slice::slice_subrange(bytes, 2, 10));
        let counter: u64 = octets::be_value(vstd::slice::slice_subrange(bytes, 10, 18));
        let mut nonce: [u8; NONCE_LEN] = [0; NONCE_LEN];
        let mut i: usize = 0;
        while i < NONCE_LEN
            invariant
                i <= NONCE_LEN,
                bytes@.len() == HEADER_LEN,
                nonce@.len() == NONCE_LEN,
                forall|k: int| 0 <= k < i ==> nonce@[k] == bytes@[18 + k],
            decreases NONCE_LEN - i,
        {
            nonce[i] = bytes[18 + i];
            i = i + 1;
        }
        assert(bytes@.subrange(18, 42) =~= nonce@);
        Ok(Header { version, frame_type, session_id, counter, nonce })
    }

    /// Whether the frame sets a session up.
    #[must_use]
    pub fn is_handshake(&self) -> (r: bool)
        ensures
            r == (self.frame_type is Handshake),
    {
        matches!(self.frame_type, FrameType::Handshake)
    }
}

/// Why `bytes` is no header, if it is none.
pub open spec fn decode_error(bytes: Seq<u8>) -> Option<WireError> {
    if bytes.len() != HEADER_LEN {
        Some(WireError::SealedLengthMismatch { got: bytes.len() as usize, want: HEADER_LEN })
    } else if bytes[0] != WIRE_VERSION {
        Some(WireError::UnsupportedVersion { got: bytes[0] })
    } else if bytes[1] != 0x01 && bytes[1] != 0x02 {
        Some(WireError::UnknownFrameType { got: bytes[1] })
    } else {
        None
    }
}

/// A header has one encoding.
pub proof fn lemma_encoding_is_unique(a: Seq<u8>, b: Seq<u8>, header: Header)
    requires
        encodes(a, header),
        encodes(b, header),
    ensures
        a == b,
{
    octets::lemma_be_injective(a.subrange(2, 10), b.subrange(2, 10));
    octets::lemma_be_injective(a.subrange(10, 18), b.subrange(10, 18));
    assert(forall|i: int| 2 <= i < 10 ==> a[i] == a.subrange(2, 10)[i - 2]);
    assert(forall|i: int| 2 <= i < 10 ==> b[i] == b.subrange(2, 10)[i - 2]);
    assert(forall|i: int| 10 <= i < 18 ==> a[i] == a.subrange(10, 18)[i - 10]);
    assert(forall|i: int| 10 <= i < 18 ==> b[i] == b.subrange(10, 18)[i - 10]);
    assert(forall|i: int| 18 <= i < 42 ==> a[i] == a.subrange(18, 42)[i - 18]);
    assert(forall|i: int| 18 <= i < 42 ==> b[i] == b.subrange(18, 42)[i - 18]);
    assert(a =~= b);
}

/// One encoding reads as one header.
pub proof fn lemma_header_is_unique(bytes: Seq<u8>, a: Header, b: Header)
    requires
        encodes(bytes, a),
        encodes(bytes, b),
    ensures
        a == b,
{
    assert(a.nonce =~= b.nonce);
}

/// What is encoded under the current version is read back: `decode` accepts it,
/// and by the uniqueness of the header gives it back.
pub proof fn lemma_encoding_is_readable(bytes: Seq<u8>, header: Header)
    requires
        encodes(bytes, header),
        header.version == WIRE_VERSION,
    ensures
        decode_error(bytes) is None,
{
}

/// A header is refused for the first thing that is wrong with it: its length, then
/// its version, then its type. Nothing else is wrong with one.
pub proof fn lemma_a_header_is_refused_in_order(bytes: Seq<u8>)
    requires
        bytes.len() <= usize::MAX,
    ensures
        decode_error(bytes) is None <==> bytes.len() == 42 && bytes[0] == 0 && (bytes[1] == 1
            || bytes[1] == 2),
        bytes.len() != 42 ==> decode_error(bytes) == Some(
            WireError::SealedLengthMismatch { got: bytes.len() as usize, want: 42 },
        ),
        bytes.len() == 42 && bytes[0] != 0 ==> decode_error(bytes) == Some(
            WireError::UnsupportedVersion { got: bytes[0] },
        ),
        bytes.len() == 42 && bytes[0] == 0 && bytes[1] != 1 && bytes[1] != 2 ==> decode_error(bytes)
            == Some(WireError::UnknownFrameType { got: bytes[1] }),
{
}

/// The bytes of a header, one by one: the version, the type, the session and the
/// counter with their highest byte first, and the nonce as it is.
pub proof fn lemma_a_header_is_laid_out(bytes: Seq<u8>, header: Header)
    requires
        encodes(bytes, header),
    ensures
        bytes.len() == 42,
        bytes[0] == header.version,
        header.frame_type is Handshake ==> bytes[1] == 1,
        header.frame_type is Data ==> bytes[1] == 2,
        header.session_id == bytes[2] * 0x100_0000_0000_0000 + bytes[3] * 0x1_0000_0000_0000
            + bytes[4] * 0x100_0000_0000 + bytes[5] * 0x1_0000_0000 + bytes[6] * 0x100_0000
            + bytes[7] * 0x1_0000 + bytes[8] * 0x100 + bytes[9],
        header.counter == bytes[10] * 0x100_0000_0000_0000 + bytes[11] * 0x1_0000_0000_0000
            + bytes[12] * 0x100_0000_0000 + bytes[13] * 0x1_0000_0000 + bytes[14] * 0x100_0000
            + bytes[15] * 0x1_0000 + bytes[16] * 0x100 + bytes[17],
        forall|i: int| 0 <= i < 24 ==> bytes[18 + i] == #[trigger] header.nonce@[i],
{
    octets::lemma_be_of_eight(bytes.subrange(2, 10));
    octets::lemma_be_of_eight(bytes.subrange(10, 18));
    assert forall|i: int| 0 <= i < 24 implies bytes[18 + i] == #[trigger] header.nonce@[i] by {
        assert(bytes.subrange(18, 42)[i] == bytes[18 + i]);
    }
}

} // verus!
