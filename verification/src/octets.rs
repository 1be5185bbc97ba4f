//! Big-endian integers over byte sequences.

use vstd::arithmetic::power;
use vstd::prelude::*;

verus! {

/// The number that a byte sequence spells, most significant byte first.
pub open spec fn be(s: Seq<u8>) -> nat
    decreases s.len(),
{
    if s.len() == 0 {
        0
    } else {
        be(s.drop_last()) * 256 + s.last() as nat
    }
}

/// Two byte sequences of one length that spell the same number are the same.
pub proof fn lemma_be_injective(a: Seq<u8>, b: Seq<u8>)
    requires
        a.len() == b.len(),
        be(a) == be(b),
    ensures
        a == b,
    decreases a.len(),
{
    if a.len() > 0 {
        assert(a.last() == b.last() && be(a.drop_last()) == be(b.drop_last()));
        lemma_be_injective(a.drop_last(), b.drop_last());
        assert(a =~= a.drop_last().push(a.last()));
        assert(b =~= b.drop_last().push(b.last()));
    }
}

/// The number after one more byte.
proof fn lemma_be_push(s: Seq<u8>, byte: u8)
    ensures
        be(s.push(byte)) == be(s) * 256 + byte as nat,
{
    assert(s.push(byte).drop_last() =~= s);
}

/// Each byte counts two hundred and fifty-six times what it would count one place
/// further behind.
pub proof fn lemma_be_by_place(front: Seq<u8>, back: Seq<u8>)
    ensures
        be(front + back) == be(front) * power::pow(256, back.len()) + be(back),
        back.len() == 1 ==> be(back) == back[0],
    decreases back.len(),
{
    if back.len() == 0 {
        assert(front + back =~= front);
        power::lemma_pow0(256);
    } else {
        let shorter = back.drop_last();
        lemma_be_by_place(front, shorter);
        assert((front + back).drop_last() =~= front + shorter);
        assert((front + back).last() == back.last());
        let f = be(front) as int;
        let p = power::pow(256, shorter.len());
        assert(power::pow(256, back.len()) == 256 * p) by {
            reveal(power::pow);
        }
        assert((f * p + be(shorter)) * 256 == f * (256 * p) + be(shorter) * 256) by (nonlinear_arith);
        if back.len() == 1 {
            assert(shorter.len() == 0);
            assert(be(shorter) == 0);
        }
    }
}

/// What eight bytes spell, byte by byte.
pub proof fn lemma_be_of_eight(s: Seq<u8>)
    requires
        s.len() == 8,
    ensures
        be(s) == s[0] * 0x100_0000_0000_0000 + s[1] * 0x1_0000_0000_0000 + s[2] * 0x100_0000_0000
            + s[3] * 0x1_0000_0000 + s[4] * 0x100_0000 + s[5] * 0x1_0000 + s[6] * 0x100 + s[7],
{
    reveal_with_fuel(be, 9);
}

/// The eight bytes of a 64-bit number, most significant first.
pub fn be_bytes_u64(value: u64) -> (bytes: [u8; 8])
    ensures
        be(bytes@) == value,
{
    let mut rest: [u64; 8] = [0; 8];
    rest[7] = value;
    rest[6] = rest[7] / 256;
    rest[5] = rest[6] / 256;
    rest[4] = rest[5] / 256;
    rest[3] = rest[4] / 256;
    rest[2] = rest[3] / 256;
    rest[1] = rest[2] / 256;
    rest[0] = rest[1] / 256;
    let bytes: [u8; 8] = [
        (rest[0] % 256) as u8,
        (rest[1] % 256) as u8,
        (rest[2] % 256) as u8,
        (rest[3] % 256) as u8,
        (rest[4] % 256) as u8,
        (rest[5] % 256) as u8,
        (rest[6] % 256) as u8,
        (rest[7] % 256) as u8,
    ];
    proof {
        let s = bytes@;
        let e = Seq::<u8>::empty();
        lemma_be_push(e, s[0]);
        lemma_be_push(e.push(s[0]), s[1]);
        lemma_be_push(e.push(s[0]).push(s[1]), s[2]);
        lemma_be_push(e.push(s[0]).push(s[1]).push(s[2]), s[3]);
        lemma_be_push(e.push(s[0]).push(s[1]).push(s[2]).push(s[3]), s[4]);
        lemma_be_push(e.push(s[0]).push(s[1]).push(s[2]).push(s[3]).push(s[4]), s[5]);
        lemma_be_push(e.push(s[0]).push(s[1]).push(s[2]).push(s[3]).push(s[4]).push(s[5]), s[6]);
        lemma_be_push(
            e.push(s[0]).push(s[1]).push(s[2]).push(s[3]).push(s[4]).push(s[5]).push(s[6]),
            s[7],
        );
        assert(s =~= e.push(s[0]).push(s[1]).push(s[2]).push(s[3]).push(s[4]).push(s[5]).push(
            s[6],
        ).push(s[7]));
    }
    bytes
}

/// The four bytes of a number, most significant first.
pub open spec fn be4(value: nat) -> Seq<u8> {
    seq![
        (value / 16777216 % 256) as u8,
        (value / 65536 % 256) as u8,
        (value / 256 % 256) as u8,
        (value % 256) as u8,
    ]
}

/// Four bytes spell the number they were made from.
pub proof fn lemma_be4(value: nat)
    requires
        value <= 0xffff_ffff,
    ensures
        be(be4(value)) == value,
{
    let s = be4(value);
    let e = Seq::<u8>::empty();
    lemma_be_push(e, s[0]);
    lemma_be_push(e.push(s[0]), s[1]);
    lemma_be_push(e.push(s[0]).push(s[1]), s[2]);
    lemma_be_push(e.push(s[0]).push(s[1]).push(s[2]), s[3]);
    assert(s =~= e.push(s[0]).push(s[1]).push(s[2]).push(s[3]));
}

/// The four bytes of a 32-bit number, most significant first.
pub fn be_bytes_u32(value: u32) -> (bytes: [u8; 4])
    ensures
        bytes@ == be4(value as nat),
{
    let bytes: [u8; 4] = [
        (value / 16777216 % 256) as u8,
        (value / 65536 % 256) as u8,
        (value / 256 % 256) as u8,
        (value % 256) as u8,
    ];
    assert(bytes@ =~= be4(value as nat));
    bytes
}

/// The bound on what `len` bytes can spell.
pub proof fn lemma_be_bound(s: Seq<u8>)
    ensures
        s.len() <= 4 ==> be(s) <= 0xffff_ffff,
        s.len() <= 8 ==> be(s) <= 0xffff_ffff_ffff_ffff,
{
    reveal_with_fuel(be, 10);
}

/// The number that up to eight bytes spell, most significant first.
pub fn be_value(bytes: &[u8]) -> (value: u64)
    requires
        bytes@.len() <= 8,
    ensures
        value == be(bytes@),
{
    let mut value: u64 = 0;
    let mut i: usize = 0;
    while i < bytes.len()
        invariant
            i <= bytes@.len() <= 8,
            value == be(bytes@.subrange(0, i as int)),
        decreases bytes@.len() - i,
    {
        proof {
            lemma_be_push(bytes@.subrange(0, i as int), bytes@[i as int]);
            assert(bytes@.subrange(0, i as int + 1) =~= bytes@.subrange(0, i as int).push(
                bytes@[i as int],
            ));
            lemma_be_bound(bytes@.subrange(0, i as int + 1));
        }
        value = value * 256 + bytes[i] as u64;
        i = i + 1;
    }
    assert(bytes@.subrange(0, i as int) =~= bytes@);
    value
}

} // verus!
