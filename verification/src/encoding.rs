//! Bytes written as text.

use vstd::prelude::*;
use vstd::string::*;

verus! {

/// The base64 digit of a number below sixty-four.
pub open spec fn base64_digit(n: nat) -> char {
    if n < 26 {
        ('A' as u32 + n) as char
    } else if n < 52 {
        ('a' as u32 + n - 26) as char
    } else if n < 62 {
        ('0' as u32 + n - 52) as char
    } else if n == 62 {
        '+'
    } else {
        '/'
    }
}

/// The byte at a place, or zero behind the end.
pub open spec fn byte_or_zero(data: Seq<u8>, i: int) -> nat {
    if i < data.len() {
        data[i] as nat
    } else {
        0
    }
}

/// The character at a place of the base64 text of some bytes: four characters stand
/// for three bytes, each for six bits of them, the highest first. Where the bytes
/// end inside a three, a padding sign stands for what is not there.
pub open spec fn base64_char(data: Seq<u8>, i: int) -> char {
    let at = i / 4 * 3;
    let bits = byte_or_zero(data, at) * 65536 + byte_or_zero(data, at + 1) * 256 + byte_or_zero(
        data,
        at + 2,
    );
    if i % 4 == 0 {
        base64_digit(bits / 262144)
    } else if i % 4 == 1 {
        base64_digit(bits / 4096 % 64)
    } else if i % 4 == 2 {
        if at + 1 < data.len() {
            base64_digit(bits / 64 % 64)
        } else {
            '='
        }
    } else {
        if at + 2 < data.len() {
            base64_digit(bits % 64)
        } else {
            '='
        }
    }
}

/// The bytes in base64, with padding.
pub open spec fn base64_text(data: Seq<u8>) -> Seq<char> {
    Seq::new(4 * ((data.len() + 2) / 3), |i: int| base64_char(data, i))
}

/// What `BASE64.decode` of `data_encoding` reads in the text; nothing where it
/// returns an error.
pub uninterp spec fn base64_bytes(text: Seq<char>) -> Option<Seq<u8>>;

/// A character of the base64 alphabet.
pub open spec fn in_base64_alphabet(c: char) -> bool {
    'A' <= c <= 'Z' || 'a' <= c <= 'z' || '0' <= c <= '9' || c == '+' || c == '/'
}

/// The base64 of bytes is four characters for every three bytes begun, of the
/// alphabet but for at most two padding signs at the end.
pub proof fn lemma_base64_shape(data: Seq<u8>)
    ensures
        base64_text(data).len() == 4 * ((data.len() + 2) / 3),
        forall|i: int|
            0 <= i < base64_text(data).len() ==> #[trigger] in_base64_alphabet(base64_text(data)[i])
                || (base64_text(data)[i] == '=' && i >= base64_text(data).len() - 2),
{
    let text = base64_text(data);
    assert forall|i: int| 0 <= i < text.len() implies #[trigger] in_base64_alphabet(text[i]) || (
    text[i] == '=' && i >= text.len() - 2) by {
        let at = i / 4 * 3;
        assert(text[i] == base64_char(data, i));
        assert(0 <= at < data.len());
    }
}

/// `BASE64.encode` of `data_encoding`: the base64 text of the bytes, with
/// padding. What it writes, `BASE64.decode` reads back. The call panics on more
/// than `usize::MAX / 512` bytes.
#[verifier::external_body]
pub(crate) fn base64_encode(data: &[u8]) -> (text: String)
    requires
        data@.len() <= usize::MAX / 512,
    ensures
        text@ == base64_text(data@),
        base64_bytes(text@) == Some(data@),
{
    data_encoding::BASE64.encode(data)
}

/// `BASE64.decode` of `data_encoding`: the bytes that a base64 text stands for,
/// and nothing where it refuses the text. The call panics on more than
/// `usize::MAX / 8` bytes of text.
#[verifier::external_body]
pub(crate) fn base64_decode(text: &str) -> (r: Option<Vec<u8>>)
    requires
        text.spec_bytes().len() <= usize::MAX / 8,
    ensures
        r matches Some(data) ==> base64_bytes(text@) == Some(data@),
        r is None ==> base64_bytes(text@) is None,
{
    data_encoding::BASE64.decode(text.as_bytes()).ok()
}

/// The hexadecimal digit of a number below sixteen.
pub open spec fn hex_digit(n: nat) -> char {
    if n < 10 {
        ('0' as u32 + n) as char
    } else {
        ('a' as u32 + n - 10) as char
    }
}

/// The bytes in hexadecimal, two small digits for each.
pub open spec fn hex_text(data: Seq<u8>) -> Seq<char> {
    Seq::new(
        2 * data.len(),
        |i: int|
            hex_digit(
                if i % 2 == 0 {
                    data[i / 2] as nat / 16
                } else {
                    data[i / 2] as nat % 16
                },
            ),
    )
}

/// The number that a small hexadecimal digit stands for.
pub open spec fn hex_value(c: char) -> Option<nat> {
    if '0' <= c <= '9' {
        Some((c as int - '0' as int) as nat)
    } else if 'a' <= c <= 'f' {
        Some((c as int - 'a' as int + 10) as nat)
    } else {
        None
    }
}

/// The bytes that hexadecimal text spells: two small digits for each, and
/// nothing else.
pub open spec fn hex_bytes(text: Seq<char>) -> Option<Seq<u8>> {
    if text.len() % 2 == 0 && forall|i: int|
        0 <= i < text.len() ==> hex_value(#[trigger] text[i]) is Some {
        Some(
            Seq::new(
                text.len() / 2,
                |i: int| (hex_value(text[2 * i])->0 * 16 + hex_value(text[2 * i + 1])->0) as u8,
            ),
        )
    } else {
        None
    }
}

/// `HEXLOWER.encode` of `data_encoding`: two small hexadecimal digits for each
/// byte, the high half first. The call panics on more than `usize::MAX / 512`
/// bytes.
#[verifier::external_body]
pub(crate) fn hex_encode(data: &[u8]) -> (text: String)
    requires
        data@.len() <= usize::MAX / 512,
    ensures
        text@ == hex_text(data@),
{
    data_encoding::HEXLOWER.encode(data)
}

/// `HEXLOWER.decode` of `data_encoding`: the bytes that pairs of small
/// hexadecimal digits spell; any other text is refused. The call panics on more
/// than `usize::MAX / 8` bytes of text.
#[verifier::external_body]
pub(crate) fn hex_decode(text: &str) -> (r: Option<Vec<u8>>)
    requires
        text.spec_bytes().len() <= usize::MAX / 8,
    ensures
        r matches Some(data) ==> hex_bytes(text@) == Some(data@),
        r is None ==> hex_bytes(text@) is None,
{
    data_encoding::HEXLOWER.decode(text.as_bytes()).ok()
}

/// `OsRng::try_fill_bytes` of `rand_core`: bytes by chance, and nothing where the
/// system has none to give. Nothing is claimed of the bytes, nor of when they come:
/// both rest on chance and on the system.
#[verifier::external_body]
pub(crate) fn random_bytes<const N: usize>() -> (r: Option<[u8; N]>) {
    let mut bytes = [0u8; N];
    match rand_core::RngCore::try_fill_bytes(&mut rand_core::OsRng, &mut bytes) {
        Ok(()) => Some(bytes),
        Err(_) => None,
    }
}

/// Hexadecimal text reads back.
pub proof fn lemma_hex_round_trip(data: Seq<u8>)
    ensures
        hex_bytes(hex_text(data)) == Some(data),
{
    let text = hex_text(data);
    assert forall|i: int| 0 <= i < text.len() implies hex_value(#[trigger] text[i]) == Some(
        if i % 2 == 0 {
            data[i / 2] as nat / 16
        } else {
            data[i / 2] as nat % 16
        },
    ) by {}
    assert forall|i: int| 0 <= i < data.len() implies (hex_value(#[trigger] text[2 * i])->0 * 16
        + hex_value(text[2 * i + 1])->0) as u8 == data[i] by {
        assert((2 * i) / 2 == i && (2 * i) % 2 == 0);
        assert((2 * i + 1) / 2 == i && (2 * i + 1) % 2 == 1);
    }
    assert(hex_bytes(text)->0 =~= data);
}

} // verus!
