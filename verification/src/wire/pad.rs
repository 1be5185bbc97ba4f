//! Padding that hides how long a payload is: a marker byte and zeroes.

use crate::wire::error::WireError;
use crate::wire::size_class::SizeClass;
use vstd::prelude::*;

verus! {

/// The byte that ends the payload.
pub const PAD_MARKER: u8 = 0x80;

/// The length of the marker.
pub const PAD_MARKER_LEN: usize = 1;

/// The payload, the marker, and `zeroes` zero bytes.
pub open spec fn padded(payload: Seq<u8>, zeroes: nat) -> Seq<u8> {
    payload.push(PAD_MARKER) + Seq::new(zeroes, |i: int| 0u8)
}

/// Appends the payload padded to the plaintext length of the class.
pub fn pad_into(payload: &[u8], class: SizeClass, out: &mut Vec<u8>) -> (r: Result<(), WireError>)
    requires
        payload@.len() <= class.payload_limit() ==> old(out)@.len() + class.plaintext_size()
            <= usize::MAX,
    ensures
        r is Ok <==> payload@.len() <= class.payload_limit(),
        r is Ok ==> final(out)@ == old(out)@ + padded(
            payload@,
            (class.payload_limit() - payload@.len()) as nat,
        ),
        r matches Err(e) ==> final(out)@ == old(out)@ && e == (WireError::PayloadTooLarge {
            got: payload@.len() as usize,
            max: class.payload_limit() as usize,
        }),
{
    pad_to(payload, class.plaintext_len(), out)
}

/// Appends the payload padded to `total_len` bytes.
pub fn pad_to(payload: &[u8], total_len: usize, out: &mut Vec<u8>) -> (r: Result<(), WireError>)
    requires
        payload@.len() < total_len ==> old(out)@.len() + total_len <= usize::MAX,
    ensures
        r is Ok <==> payload@.len() < total_len,
        r is Ok ==> final(out)@ == old(out)@ + padded(
            payload@,
            (total_len - 1 - payload@.len()) as nat,
        ),
        r matches Err(e) ==> final(out)@ == old(out)@ && e == (WireError::PayloadTooLarge {
            got: payload@.len() as usize,
            max: if total_len == 0 {
                0
            } else {
                (total_len - 1) as usize
            },
        }),
{
    if total_len < PAD_MARKER_LEN {
        return Err(WireError::PayloadTooLarge { got: payload.len(), max: 0 });
    }
    let max: usize = total_len - PAD_MARKER_LEN;
    if payload.len() > max {
        return Err(WireError::PayloadTooLarge { got: payload.len(), max });
    }
    out.reserve(total_len);
    out.extend_from_slice(payload);
    assert(out@ =~= old(out)@ + payload@);
    out.push(PAD_MARKER);
    let ghost marked = out@;
    let full: usize = out.len() + (max - payload.len());
    out.resize(full, 0u8);
    assert(out@ =~= marked + Seq::new((max - payload@.len()) as nat, |i: int| 0u8));
    assert(out@ =~= old(out)@ + padded(payload@, (total_len - 1 - payload@.len()) as nat));
    Ok(())
}

/// Takes the padding off.
pub fn unpad(plaintext: &[u8]) -> (r: Result<&[u8], WireError>)
    ensures
        r matches Ok(payload) ==> payload@.len() < plaintext@.len() && plaintext@ == padded(
            payload@,
            (plaintext@.len() - 1 - payload@.len()) as nat,
        ),
        r matches Err(e) ==> e == WireError::MalformedPadding && forall|payload: Seq<u8>, n: nat|
            plaintext@ != #[trigger] padded(payload, n),
{
    let mut end: usize = plaintext.len();
    while end > 0 && plaintext[end - 1] == 0
        invariant
            end <= plaintext@.len(),
            forall|i: int| end <= i < plaintext@.len() ==> plaintext@[i] == 0,
        decreases end,
    {
        end = end - 1;
    }
    if end == 0 || plaintext[end - 1] != PAD_MARKER {
        proof {
            assert forall|payload: Seq<u8>, n: nat| plaintext@ != #[trigger] padded(payload, n) by {
                let p = padded(payload, n);
                assert(p[payload.len() as int] == PAD_MARKER);
                assert(forall|i: int| payload.len() < i < p.len() ==> p[i] == 0);
                if plaintext@ == p {
                    assert(end == payload.len() + 1);
                }
            }
        }
        return Err(WireError::MalformedPadding);
    }
    let payload = vstd::slice::slice_subrange(plaintext, 0, end - 1);
    assert(plaintext@ =~= padded(payload@, (plaintext@.len() - 1 - payload@.len()) as nat));
    Ok(payload)
}

/// Taking the padding off gives back what was padded, whatever the payload
/// ends in: padded bytes are the padding of one payload only.
pub proof fn lemma_padding_is_reversible(a: Seq<u8>, n: nat, b: Seq<u8>, m: nat)
    requires
        padded(a, n) == padded(b, m),
    ensures
        a == b,
        n == m,
{
    let p = padded(a, n);
    let q = padded(b, m);
    assert(p[a.len() as int] == PAD_MARKER && q[b.len() as int] == PAD_MARKER);
    assert(forall|i: int| a.len() < i < p.len() ==> p[i] == 0);
    assert(forall|i: int| b.len() < i < q.len() ==> q[i] == 0);
    assert(a.len() == b.len());
    assert(forall|i: int| 0 <= i < a.len() ==> p[i] == a[i] && q[i] == b[i]);
    assert(a =~= b);
    assert(p.len() == a.len() + 1 + n && q.len() == b.len() + 1 + m);
}

/// Padded, a payload stands first and whole; the marker follows it, and behind that
/// there is nothing but zeroes.
pub proof fn lemma_padding_is_laid_out(payload: Seq<u8>, zeroes: nat)
    ensures
        padded(payload, zeroes).len() == payload.len() + 1 + zeroes,
        padded(payload, zeroes).take(payload.len() as int) == payload,
        padded(payload, zeroes)[payload.len() as int] == 0x80,
        forall|i: int|
            payload.len() < i < payload.len() + 1 + zeroes ==> #[trigger] padded(
                payload,
                zeroes,
            )[i] == 0,
{
    assert(padded(payload, zeroes).take(payload.len() as int) =~= payload);
}

} // verus!
