//! A frame: a header and a sealed part.

use crate::wire::error::WireError;
use crate::wire::header;
use crate::wire::header::{Header, HEADER_LEN};
use crate::wire::size_class;
use crate::wire::size_class::SizeClass;
use vstd::prelude::*;

verus! {

/// A frame that has been read.
#[derive(Debug, Clone, Copy, PartialEq, Eq)]
pub struct FrameView<'a> {
    pub header: Header,
    pub sealed: &'a [u8],
    pub class: SizeClass,
}

/// `bytes` is the frame of `header` and `sealed`, of size `class`.
pub open spec fn is_frame(bytes: Seq<u8>, header: Header, sealed: Seq<u8>, class: SizeClass) -> bool {
    &&& bytes.len() == class.frame_size()
    &&& header::encodes(bytes.subrange(0, HEADER_LEN as int), header)
    &&& bytes.subrange(HEADER_LEN as int, bytes.len() as int) == sealed
}

/// Why `bytes` is no frame, if it is none.
pub open spec fn parse_error(bytes: Seq<u8>) -> Option<WireError> {
    if !(exists|c: SizeClass| #[trigger] c.frame_size() == bytes.len()) {
        Some(WireError::BadFrameLength { got: bytes.len() as usize })
    } else {
        header::decode_error(bytes.subrange(0, HEADER_LEN as int))
    }
}

impl<'a> FrameView<'a> {
    /// What the seal is bound to: the bytes of the header.
    #[must_use]
    pub fn aad(&self) -> (out: [u8; HEADER_LEN])
        ensures
            header::encodes(out@, self.header),
    {
        self.header.encode()
    }
}

/// Reads a frame. The length is looked at first, then the header.
pub fn parse(bytes: &[u8]) -> (r: Result<FrameView<'_>, WireError>)
    ensures
        r matches Ok(v) ==> is_frame(bytes@, v.header, v.sealed@, v.class) && v.header.version
            == header::WIRE_VERSION,
        r matches Err(e) ==> parse_error(bytes@) == Some(e),
        r is Ok <==> parse_error(bytes@) is None,
{
    let class = match SizeClass::from_frame_len(bytes.len()) {
        Ok(c) => c,
        Err(e) => {
            return Err(e);
        },
    };
    let header = match Header::decode(vstd::slice::slice_subrange(bytes, 0, HEADER_LEN)) {
        Ok(h) => h,
        Err(e) => {
            return Err(e);
        },
    };
    let sealed = vstd::slice::slice_subrange(bytes, HEADER_LEN, bytes.len());
    Ok(FrameView { header, sealed, class })
}

/// Makes a frame.
pub fn assemble(header: &Header, sealed: &[u8]) -> (r: Result<Vec<u8>, WireError>)
    ensures
        r is Ok <==> exists|c: SizeClass| #[trigger] c.sealed_size() == sealed@.len(),
        r matches Ok(out) ==> forall|c: SizeClass| #[trigger]
            c.sealed_size() == sealed@.len() ==> is_frame(out@, *header, sealed@, c),
        r matches Ok(out) ==> forall|head: Seq<u8>| #[trigger]
            header::encodes(head, *header) ==> out@ == head + sealed@,
        r matches Err(e) ==> e == (WireError::SealedLengthMismatch {
            got: sealed@.len() as usize,
            want: SizeClass::S.sealed_size() as usize,
        }),
{
    let mut out: Vec<u8> = Vec::new();
    let done = assemble_into(header, sealed, &mut out);
    if let Err(e) = done {
        return Err(e);
    }
    proof {
        assert(out@.subrange(0, out@.len() as int) =~= out@);
        assert forall|head: Seq<u8>| #[trigger] header::encodes(head, *header) implies out@ == head
            + sealed@ by {
            assert(seq![] + head + sealed@ =~= head + sealed@);
        }
    }
    Ok(out)
}

/// Appends a frame.
pub fn assemble_into(header: &Header, sealed: &[u8], out: &mut Vec<u8>) -> (r: Result<
    (),
    WireError,
>)
    requires
        (exists|c: SizeClass| #[trigger] c.sealed_size() == sealed@.len()) ==> old(out)@.len()
            + HEADER_LEN + sealed@.len() <= usize::MAX,
    ensures
        r is Ok <==> exists|c: SizeClass| #[trigger] c.sealed_size() == sealed@.len(),
        r is Ok ==> {
            &&& final(out)@.len() == old(out)@.len() + HEADER_LEN + sealed@.len()
            &&& final(out)@.subrange(0, old(out)@.len() as int) == old(out)@
            &&& forall|c: SizeClass| #[trigger]
                c.sealed_size() == sealed@.len() ==> is_frame(
                    final(out)@.subrange(old(out)@.len() as int, final(out)@.len() as int),
                    *header,
                    sealed@,
                    c,
                )
        },
        r is Ok ==> forall|head: Seq<u8>| #[trigger]
            header::encodes(head, *header) ==> final(out)@ == old(out)@ + head + sealed@,
        r matches Err(e) ==> final(out)@ == old(out)@ && e == (WireError::SealedLengthMismatch {
            got: sealed@.len() as usize,
            want: SizeClass::S.sealed_size() as usize,
        }),
{
    let fits = sealed.len() == SizeClass::S.sealed_len() || sealed.len()
        == SizeClass::M.sealed_len() || sealed.len() == SizeClass::L.sealed_len();
    assert(fits ==> exists|c: SizeClass| #[trigger] c.sealed_size() == sealed@.len()) by {
        assert(SizeClass::S.sealed_size() == sealed@.len() || SizeClass::M.sealed_size()
            == sealed@.len() || SizeClass::L.sealed_size() == sealed@.len() || !fits);
    }
    if !fits {
        return Err(
            WireError::SealedLengthMismatch {
                got: sealed.len(),
                want: SizeClass::S.sealed_len(),
            },
        );
    }
    let head = header.encode();
    out.reserve(HEADER_LEN + sealed.len());
    out.extend_from_slice(head.as_slice());
    out.extend_from_slice(sealed);
    proof {
        let start = old(out)@.len() as int;
        let frame = out@.subrange(start, out@.len() as int);
        assert(out@ =~= old(out)@ + head@ + sealed@);
        assert(out@.subrange(0, start) =~= old(out)@);
        assert(frame.subrange(0, HEADER_LEN as int) =~= head@);
        assert(frame.subrange(HEADER_LEN as int, frame.len() as int) =~= sealed@);
        assert forall|other: Seq<u8>| #[trigger] header::encodes(other, *header) implies out@
            == old(out)@ + other + sealed@ by {
            header::lemma_encoding_is_unique(head@, other, *header);
        }
    }
    Ok(())
}

/// A frame is the bytes of its header and, behind them, the sealed part; and
/// these, where a size class has room for just that sealed part, are a frame.
pub proof fn lemma_frame_is_header_and_sealed(
    bytes: Seq<u8>,
    header: Header,
    head: Seq<u8>,
    sealed: Seq<u8>,
    class: SizeClass,
)
    requires
        header::encodes(head, header),
    ensures
        is_frame(bytes, header, sealed, class) <==> bytes == head + sealed && sealed.len()
            == class.sealed_size(),
{
    let n = HEADER_LEN as int;
    let whole = head + sealed;
    assert(whole.subrange(0, n) =~= head);
    assert(whole.subrange(n, whole.len() as int) =~= sealed);
    if is_frame(bytes, header, sealed, class) {
        header::lemma_encoding_is_unique(head, bytes.subrange(0, n), header);
        assert(bytes =~= bytes.subrange(0, n) + sealed);
    }
}

/// A frame of the current version that was made can be read, and reads as what
/// it was made of.
pub proof fn lemma_made_frame_is_read(
    bytes: Seq<u8>,
    header: Header,
    sealed: Seq<u8>,
    class: SizeClass,
    header2: Header,
    sealed2: Seq<u8>,
    class2: SizeClass,
)
    requires
        is_frame(bytes, header, sealed, class),
        header.version == header::WIRE_VERSION,
        is_frame(bytes, header2, sealed2, class2),
    ensures
        parse_error(bytes) is None,
        header == header2,
        sealed == sealed2,
        class == class2,
{
    header::lemma_encoding_is_readable(bytes.subrange(0, HEADER_LEN as int), header);
    header::lemma_header_is_unique(bytes.subrange(0, HEADER_LEN as int), header, header2);
    size_class::lemma_class_is_unique(class, class2);
}

/// A frame that was read, made again from its parts, is the same bytes.
pub proof fn lemma_read_frame_is_remade(
    bytes: Seq<u8>,
    again: Seq<u8>,
    header: Header,
    sealed: Seq<u8>,
    class: SizeClass,
    class2: SizeClass,
)
    requires
        is_frame(bytes, header, sealed, class),
        is_frame(again, header, sealed, class2),
    ensures
        bytes == again,
{
    let n = HEADER_LEN as int;
    header::lemma_encoding_is_unique(bytes.subrange(0, n), again.subrange(0, n), header);
    assert(bytes =~= bytes.subrange(0, n) + sealed);
    assert(again =~= again.subrange(0, n) + sealed);
}

/// What the seal of a read frame is bound to is the header as it came.
pub proof fn lemma_aad_is_the_header_as_read(
    bytes: Seq<u8>,
    header: Header,
    sealed: Seq<u8>,
    class: SizeClass,
    aad: Seq<u8>,
)
    requires
        is_frame(bytes, header, sealed, class),
        header::encodes(aad, header),
    ensures
        aad == bytes.subrange(0, HEADER_LEN as int),
{
    header::lemma_encoding_is_unique(aad, bytes.subrange(0, HEADER_LEN as int), header);
}

/// Bytes are refused for their length where it is that of no size, and else for what
/// is wrong with the header they begin with; nothing is wrong with what follows it.
pub proof fn lemma_a_frame_is_refused_in_order(bytes: Seq<u8>)
    ensures
        bytes.len() != 4096 && bytes.len() != 65536 && bytes.len() != 1048576 ==> parse_error(bytes)
            == Some(WireError::BadFrameLength { got: bytes.len() as usize }),
        bytes.len() == 4096 || bytes.len() == 65536 || bytes.len() == 1048576 ==> parse_error(bytes)
            == header::decode_error(bytes.take(42)),
{
    if exists|c: SizeClass| #[trigger] c.frame_size() == bytes.len() {
        let c = choose|c: SizeClass| #[trigger] c.frame_size() == bytes.len();
        assert(c.frame_size() == 4096 || c.frame_size() == 65536 || c.frame_size() == 1048576);
    }
    assert(SizeClass::S.frame_size() == 4096);
    assert(SizeClass::M.frame_size() == 65536);
    assert(SizeClass::L.frame_size() == 1048576);
    if bytes.len() >= 42 {
        assert(bytes.take(42) =~= bytes.subrange(0, HEADER_LEN as int));
    }
}

} // verus!
