//! What the checksum of an armor is: a remainder of polynomials over the field of
//! two elements, and what follows for a reader of the armor.

use crate::chatmail::letter;
use vstd::prelude::*;

verus! {

/// The sum of two polynomials of one length. A polynomial is the row of its
/// coefficients, the highest power first.
pub open spec fn plus(a: Seq<bool>, b: Seq<bool>) -> Seq<bool> {
    Seq::new(a.len(), |i: int| a[i] != b[i])
}

/// So many coefficients that are nought.
pub open spec fn nought(n: nat) -> Seq<bool> {
    Seq::new(n, |i: int| false)
}

/// The product of two polynomials: by each coefficient of the first, what there is
/// so far is raised by one power, and the second is added where it is one.
pub open spec fn times(q: Seq<bool>, g: Seq<bool>) -> Seq<bool>
    decreases q.len(),
{
    if q.len() == 0 {
        nought((g.len() - 1) as nat)
    } else {
        let raised = times(q.drop_last(), g).push(false);
        if q.last() {
            plus(raised, nought((q.len() - 1) as nat) + g)
        } else {
            raised
        }
    }
}

/// The low bits of a number as a polynomial.
pub open spec fn bits(value: u32, width: nat) -> Seq<bool> {
    Seq::new(width, |i: int| (value >> ((width - 1 - i) as u32)) & 1 == 1)
}

/// The bits of some bytes as a polynomial.
pub open spec fn bits_of(data: Seq<u8>) -> Seq<bool> {
    Seq::new(8 * data.len(), |i: int| (data[i / 8] >> ((7 - i % 8) as u8)) & 1 == 1)
}

/// The generator of the checksum: the power of twenty-four, and the rest.
pub open spec fn generator() -> Seq<bool> {
    seq![true] + bits(0x0086_4CFB, 24)
}

/// What is divided: the start value raised by all the bits of the data, and the
/// data raised by twenty-four.
pub open spec fn dividend(data: Seq<u8>) -> Seq<bool> {
    plus(bits(0x00B7_04CE, 24) + nought(8 * data.len()), bits_of(data) + nought(24))
}

proof fn lemma_times_len(q: Seq<bool>, g: Seq<bool>)
    requires
        g.len() > 0,
    ensures
        times(q, g).len() == q.len() + g.len() - 1,
    decreases q.len(),
{
    if q.len() > 0 {
        lemma_times_len(q.drop_last(), g);
    }
}

/// The product is linear in its first factor: of two rows, one behind the other, it
/// is the sum of the two products, each raised to its place.
proof fn lemma_times_concat(a: Seq<bool>, b: Seq<bool>, g: Seq<bool>)
    requires
        g.len() > 0,
    ensures
        times(a + b, g) == plus(times(a, g) + nought(b.len()), nought(a.len()) + times(b, g)),
    decreases b.len(),
{
    lemma_times_len(a, g);
    lemma_times_len(b, g);
    lemma_times_len(a + b, g);
    if b.len() == 0 {
        assert(a + b =~= a);
        assert(times(a + b, g) =~= plus(
            times(a, g) + nought(b.len()),
            nought(a.len()) + times(b, g),
        ));
    } else {
        let fewer = b.drop_last();
        assert((a + b).drop_last() =~= a + fewer);
        assert((a + b).last() == b.last());
        lemma_times_concat(a, fewer, g);
        lemma_times_len(fewer, g);
        lemma_times_len(a + fewer, g);
        let whole = times(a + b, g);
        let parts = plus(times(a, g) + nought(b.len()), nought(a.len()) + times(b, g));
        assert(whole.len() == parts.len());
        assert forall|i: int| 0 <= i < whole.len() implies whole[i] == parts[i] by {
            let before = times(a + fewer, g);
            let before_parts = plus(
                times(a, g) + nought(fewer.len()),
                nought(a.len()) + times(fewer, g),
            );
            if i < before.len() {
                assert(before[i] == before_parts[i]);
            }
        }
        assert(whole =~= parts);
    }
}

/// The step of one bit: raised by one power, and less the generator where it has
/// run over.
proof fn lemma_one_bit(c: u32)
    requires
        c < 0x0100_0000,
    ensures
        letter::crc_bit(c) < 0x0100_0000,
        ({
            let over = bits(c, 24)[0];
            bits(c, 24).push(false) == plus(
                if over {
                    generator()
                } else {
                    nought(25)
                },
                seq![false] + bits(letter::crc_bit(c), 24),
            )
        }),
{
    let next = letter::crc_bit(c);
    let over = bits(c, 24)[0];
    assert(next < 0x0100_0000 && (over <==> (c >> 23) & 1 == 1)) by {
        assert(({
            let shifted = c << 1;
            let n = if shifted & 0x0100_0000 != 0 {
                shifted ^ 0x0186_4CFB
            } else {
                shifted
            };
            n < 0x0100_0000
        })) by (bit_vector)
            requires
                c < 0x0100_0000,
        ;
    }
    let left = bits(c, 24).push(false);
    let right = plus(
        if over {
            generator()
        } else {
            nought(25)
        },
        seq![false] + bits(next, 24),
    );
    assert forall|i: int| 0 <= i < 25 implies left[i] == right[i] by {
        let k = (24 - i) as u32;
        if i == 0 {
        } else {
            let j = (23 - (i - 1)) as u32;
            assert(generator()[i] == bits(0x0086_4CFB, 24)[i - 1]);
            assert(bits(next, 24)[i - 1] == ((next >> j) & 1 == 1));
            if i < 24 {
                let up = (23 - i) as u32;
                assert(left[i] == ((c >> up) & 1 == 1));
                assert(((c >> up) & 1 == 1) == ({
                    let shifted = c << 1;
                    let n = if shifted & 0x0100_0000 != 0 {
                        shifted ^ 0x0186_4CFB
                    } else {
                        shifted
                    };
                    (((c >> 23) & 1 == 1) && ((0x0086_4CFBu32 >> j) & 1 == 1)) != ((n >> j) & 1
                        == 1)
                })) by (bit_vector)
                    requires
                        c < 0x0100_0000,
                        j == up + 1,
                        up <= 22,
                ;
            } else {
                assert(!left[i]);
                assert(j == 0);
                assert(!(({
                    let shifted = c << 1;
                    let n = if shifted & 0x0100_0000 != 0 {
                        shifted ^ 0x0186_4CFB
                    } else {
                        shifted
                    };
                    (((c >> 23) & 1 == 1) && ((0x0086_4CFBu32 >> j) & 1 == 1)) != ((n >> j) & 1
                        == 1)
                }))) by (bit_vector)
                    requires
                        c < 0x0100_0000,
                        j == 0,
                ;
            }
        }
    }
    assert(left =~= right);
}

/// The steps of `n` bits: raised by `n` powers, less a multiple of the generator.
proof fn lemma_some_bits(c: u32, n: nat) -> (q: Seq<bool>)
    requires
        c < 0x0100_0000,
    ensures
        letter::crc_bits(c, n) < 0x0100_0000,
        q.len() == n,
        bits(c, 24) + nought(n) == plus(
            times(q, generator()),
            nought(n) + bits(letter::crc_bits(c, n), 24),
        ),
    decreases n,
{
    if n == 0 {
        let q = Seq::<bool>::empty();
        assert(bits(c, 24) + nought(n) =~= plus(
            times(q, generator()),
            nought(n) + bits(letter::crc_bits(c, n), 24),
        ));
        q
    } else {
        let m = (n - 1) as nat;
        let before = lemma_some_bits(c, m);
        let old_crc = letter::crc_bits(c, m);
        lemma_one_bit(old_crc);
        let over = bits(old_crc, 24)[0];
        let q = before.push(over);
        assert(q.drop_last() =~= before);
        lemma_times_len(before, generator());
        lemma_times_len(q, generator());
        let left = bits(c, 24) + nought(n);
        let right = plus(times(q, generator()), nought(n) + bits(letter::crc_bits(c, n), 24));
        let raised = times(before, generator()).push(false);
        let step_left = bits(old_crc, 24).push(false);
        let step_right = plus(
            if over {
                generator()
            } else {
                nought(25)
            },
            seq![false] + bits(letter::crc_bit(old_crc), 24),
        );
        assert(step_left == step_right);
        let last_left = bits(c, 24) + nought(m);
        let last_right = plus(times(before, generator()), nought(m) + bits(old_crc, 24));
        assert forall|i: int| 0 <= i < left.len() implies left[i] == right[i] by {
            if i < last_left.len() {
                assert(left[i] == last_left[i]);
                assert(last_left[i] == last_right[i]);
            }
            if i >= m {
                assert(step_left[i - m] == step_right[i - m]);
            }
        }
        assert(left =~= right);
        q
    }
}

/// One byte more: it is added at the top of the register before its eight steps.
proof fn lemma_one_byte(c: u32, byte: u8)
    requires
        c < 0x0100_0000,
    ensures
        c ^ ((byte as u32) << 16) < 0x0100_0000,
        bits(c ^ ((byte as u32) << 16), 24) + nought(8) == plus(
            bits(c, 24) + nought(8),
            bits_of(seq![byte]) + nought(24),
        ),
{
    let mixed = c ^ ((byte as u32) << 16);
    assert(c ^ ((byte as u32) << 16) < 0x0100_0000) by (bit_vector)
        requires
            c < 0x0100_0000,
    ;
    let left = bits(mixed, 24) + nought(8);
    let right = plus(bits(c, 24) + nought(8), bits_of(seq![byte]) + nought(24));
    assert forall|i: int| 0 <= i < 32 implies left[i] == right[i] by {
        if i < 24 {
            let k = (23 - i) as u32;
            assert(left[i] == ((mixed >> k) & 1 == 1));
            if i < 8 {
                let b = (7 - i) as u8;
                assert(i / 8 == 0 && i % 8 == i);
                assert(bits_of(seq![byte])[i] == ((byte >> b) & 1 == 1));
                assert((((c ^ ((byte as u32) << 16)) >> k) & 1 == 1) == (((c >> k) & 1 == 1) != ((byte
                    >> b) & 1 == 1))) by (bit_vector)
                    requires
                        b <= 7,
                        k == b + 16,
                ;
            } else {
                assert((((c ^ ((byte as u32) << 16)) >> k) & 1 == 1) == ((c >> k) & 1 == 1))
                    by (bit_vector)
                    requires
                        k < 16,
                ;
            }
        }
    }
    assert(left =~= right);
}

/// What is divided once there is one byte more.
proof fn lemma_dividend_grows(data: Seq<u8>)
    requires
        data.len() > 0,
    ensures
        dividend(data) == plus(
            dividend(data.drop_last()) + nought(8),
            nought((8 * (data.len() - 1)) as nat) + bits_of(seq![data.last()]) + nought(24),
        ),
{
    let fewer = data.drop_last();
    let one = seq![data.last()];
    let n = (8 * fewer.len()) as nat;
    assert(bits_of(data) =~= bits_of(fewer) + bits_of(one)) by {
        assert forall|i: int| 0 <= i < 8 * data.len() implies bits_of(data)[i] == (bits_of(fewer)
            + bits_of(one))[i] by {
            if i >= n {
                assert((i - n) / 8 == 0 && (i - n) % 8 == i % 8 && i / 8 == fewer.len());
            } else {
                assert(fewer[i / 8] == data[i / 8]);
            }
        }
    }
    assert(dividend(data) =~= plus(
        dividend(fewer) + nought(8),
        nought(n) + bits_of(one) + nought(24),
    ));
}

/// The division: the quotient, and what is left over.
proof fn lemma_division(data: Seq<u8>) -> (q: Seq<bool>)
    ensures
        letter::crc24_of(data) < 0x0100_0000,
        q.len() == 8 * data.len(),
        dividend(data) == plus(
            times(q, generator()),
            nought(8 * data.len()) + bits(letter::crc24_of(data), 24),
        ),
    decreases data.len(),
{
    if data.len() == 0 {
        let q = Seq::<bool>::empty();
        assert(dividend(data) =~= plus(
            times(q, generator()),
            nought(8 * data.len()) + bits(letter::crc24_of(data), 24),
        ));
        q
    } else {
        let fewer = data.drop_last();
        let n = (8 * fewer.len()) as nat;
        let before = lemma_division(fewer);
        let c = letter::crc24_of(fewer);
        let mixed = c ^ ((data.last() as u32) << 16);
        lemma_one_byte(c, data.last());
        let more = lemma_some_bits(mixed, 8);
        let now = letter::crc24_of(data);
        assert(now == letter::crc_bits(mixed, 8));
        let q = before + more;
        lemma_times_concat(before, more, generator());
        lemma_times_len(before, generator());
        lemma_times_len(more, generator());
        lemma_times_len(q, generator());
        lemma_dividend_grows(data);
        let left = dividend(data);
        let right = plus(times(q, generator()), nought(8 * data.len()) + bits(now, 24));
        let grown = plus(
            dividend(fewer) + nought(8),
            nought(n) + bits_of(seq![data.last()]) + nought(24),
        );
        let last_right = plus(times(before, generator()), nought(n) + bits(c, 24));
        let mix_left = bits(mixed, 24) + nought(8);
        let mix_right = plus(bits(c, 24) + nought(8), bits_of(seq![data.last()]) + nought(24));
        let step_right = plus(times(more, generator()), nought(8) + bits(now, 24));
        let product = plus(
            times(before, generator()) + nought(8),
            nought(n) + times(more, generator()),
        );
        assert(left.len() == n + 32 && right.len() == n + 32);
        assert forall|i: int| 0 <= i < left.len() implies left[i] == right[i] by {
            assert(left[i] == grown[i]);
            if i < n + 24 {
                assert(dividend(fewer)[i] == last_right[i]);
            }
            if i >= n {
                assert(mix_left[i - n] == mix_right[i - n]);
                assert(mix_left[i - n] == step_right[i - n]);
            }
            assert(times(q, generator())[i] == product[i]);
        }
        assert(left =~= right);
        q
    }
}

/// The three bytes are the register.
proof fn lemma_three_bytes(data: Seq<u8>)
    ensures
        letter::crc24_bytes(data).len() == 3,
        letter::crc24_of(data) < 0x0100_0000 ==> bits_of(letter::crc24_bytes(data)) == bits(
            letter::crc24_of(data),
            24,
        ),
{
    let whole = letter::crc24_of(data);
    let three = letter::crc24_bytes(data);
    if whole < 0x0100_0000 {
        assert(whole & 0x00FF_FFFF == whole) by (bit_vector)
            requires
                whole < 0x0100_0000,
        ;
        let high = three[0];
        let middle = three[1];
        let low = three[2];
        assert(whole == high * 65536 + middle * 256 + low);
        let left = bits_of(three);
        let right = bits(whole, 24);
        assert forall|i: int| 0 <= i < 24 implies left[i] == right[i] by {
            let k = (23 - i) as u32;
            let b = (7 - i % 8) as u8;
            assert(right[i] == ((whole >> k) & 1 == 1));
            if i < 8 {
                assert(left[i] == ((high >> b) & 1 == 1));
                assert(((whole >> k) & 1 == 1) == ((high >> b) & 1 == 1)) by (bit_vector)
                    requires
                        whole == high * 65536 + middle * 256 + low,
                        b <= 7,
                        k == b + 16,
                ;
            } else if i < 16 {
                assert(left[i] == ((middle >> b) & 1 == 1));
                assert(((whole >> k) & 1 == 1) == ((middle >> b) & 1 == 1)) by (bit_vector)
                    requires
                        whole == high * 65536 + middle * 256 + low,
                        b <= 7,
                        k == b + 8,
                ;
            } else {
                assert(left[i] == ((low >> b) & 1 == 1));
                assert(((whole >> k) & 1 == 1) == ((low >> b) & 1 == 1)) by (bit_vector)
                    requires
                        whole == high * 65536 + middle * 256 + low,
                        b <= 7,
                        k == b,
                ;
            }
        }
        assert(left =~= right);
    }
}

/// The checksum is a remainder: the start value raised by the length of the data,
/// and the data raised by twenty-four, are a multiple of the generator and the
/// checksum, read as polynomials over the field of two elements.
pub proof fn lemma_the_checksum_is_a_remainder(data: Seq<u8>)
    ensures
        letter::crc24_bytes(data).len() == 3,
        exists|q: Seq<bool>|
            q.len() == 8 * data.len() && plus(
                bits(0x00B7_04CE, 24) + nought(8 * data.len()),
                bits_of(data) + nought(24),
            ) == plus(
                #[trigger] times(q, seq![true] + bits(0x0086_4CFB, 24)),
                nought(8 * data.len()) + bits_of(letter::crc24_bytes(data)),
            ),
{
    let q = lemma_division(data);
    lemma_three_bytes(data);
    assert(times(q, generator()) == times(q, seq![true] + bits(0x0086_4CFB, 24)));
}

/// What does not reach the top of the register in eight steps is only raised.
proof fn lemma_low_bits_are_raised(x: u32, n: nat)
    requires
        x < 0x0001_0000,
        n <= 8,
    ensures
        letter::crc_bits(x, n) == x << (n as u32),
    decreases n,
{
    if n == 0 {
        assert(x << 0u32 == x) by (bit_vector);
    } else {
        lemma_low_bits_are_raised(x, (n - 1) as nat);
        let m = (n - 1) as u32;
        let k = n as u32;
        assert(((x << m) << 1) == x << k && ((x << m) << 1) & 0x0100_0000 == 0) by (bit_vector)
            requires
                x < 0x0001_0000,
                m <= 7,
                k == m + 1,
        ;
    }
}

/// Data with its own checksum behind it has the checksum nought.
pub proof fn lemma_data_with_its_checksum_leaves_nothing(data: Seq<u8>)
    ensures
        letter::crc24_bytes(data + letter::crc24_bytes(data)) == seq![0u8, 0u8, 0u8],
{
    let _ = lemma_division(data);
    let c = letter::crc24_of(data);
    let three = letter::crc24_bytes(data);
    assert(c & 0x00FF_FFFF == c) by (bit_vector)
        requires
            c < 0x0100_0000,
    ;
    let high = three[0];
    let middle = three[1];
    let low = three[2];
    assert(c == high * 65536 + middle * 256 + low);
    let one = data.push(high);
    let two = one.push(middle);
    let all = two.push(low);
    assert(data + three =~= all);
    assert(one.drop_last() =~= data && two.drop_last() =~= one && all.drop_last() =~= two);
    let x = (middle * 256 + low) as u32;
    assert(c ^ ((high as u32) << 16) == x) by (bit_vector)
        requires
            c == high * 65536 + middle * 256 + low,
            x == middle * 256 + low,
    ;
    lemma_low_bits_are_raised(x, 8);
    assert(letter::crc24_of(one) == x << 8);
    let y = (low * 256) as u32;
    assert((x << 8) ^ ((middle as u32) << 16) == y) by (bit_vector)
        requires
            x == middle * 256 + low,
            y == low * 256,
    ;
    lemma_low_bits_are_raised(y, 8);
    assert(letter::crc24_of(two) == y << 8);
    assert((y << 8) ^ ((low as u32) << 16) == 0) by (bit_vector)
        requires
            y == low * 256,
    ;
    lemma_low_bits_are_raised(0, 8);
    assert(0u32 << 8u32 == 0) by (bit_vector);
    assert(letter::crc24_of(all) == 0);
    assert(0u32 & 0x00FF_FFFF == 0) by (bit_vector);
}

/// One bit at the top of the register, or none.
spec fn top(bit: bool) -> u32 {
    if bit {
        0x0080_0000
    } else {
        0
    }
}

/// The register after some bits, each added at the top before its step.
spec fn register(c: u32, message: Seq<bool>) -> u32
    decreases message.len(),
{
    if message.len() == 0 {
        c
    } else {
        letter::crc_bit(register(c, message.drop_last()) ^ top(message.last()))
    }
}

/// What one step of the register is: it stays below twenty-four bits, is linear, and
/// leaves nothing only of nothing.
proof fn lemma_step_is_linear(x: u32, y: u32)
    requires
        x < 0x0100_0000,
        y < 0x0100_0000,
    ensures
        letter::crc_bit(x) < 0x0100_0000,
        x ^ y < 0x0100_0000,
        letter::crc_bit(x) ^ letter::crc_bit(y) == letter::crc_bit(x ^ y),
        letter::crc_bit(x) == 0 <==> x == 0,
{
    lemma_one_bit(x);
    assert(x ^ y < 0x0100_0000) by (bit_vector)
        requires
            x < 0x0100_0000,
            y < 0x0100_0000,
    ;
    assert(({
        let a = if (x << 1) & 0x0100_0000 != 0 {
            (x << 1) ^ 0x0186_4CFB
        } else {
            x << 1
        };
        let b = if (y << 1) & 0x0100_0000 != 0 {
            (y << 1) ^ 0x0186_4CFB
        } else {
            y << 1
        };
        let both = if ((x ^ y) << 1) & 0x0100_0000 != 0 {
            ((x ^ y) << 1) ^ 0x0186_4CFB
        } else {
            (x ^ y) << 1
        };
        a ^ b == both && (a == 0 <==> x == 0)
    })) by (bit_vector)
        requires
            x < 0x0100_0000,
            y < 0x0100_0000,
    ;
}

/// The register stays below twenty-four bits.
proof fn lemma_register_bound(c: u32, message: Seq<bool>)
    requires
        c < 0x0100_0000,
    ensures
        register(c, message) < 0x0100_0000,
    decreases message.len(),
{
    if message.len() > 0 {
        let before = register(c, message.drop_last());
        lemma_register_bound(c, message.drop_last());
        lemma_step_is_linear(before, top(message.last()));
        lemma_step_is_linear(before ^ top(message.last()), 0);
    }
}

/// Bits one behind the other are those of the front, and then of the back.
proof fn lemma_register_concat(c: u32, front: Seq<bool>, back: Seq<bool>)
    ensures
        register(c, front + back) == register(register(c, front), back),
    decreases back.len(),
{
    if back.len() == 0 {
        assert(front + back =~= front);
    } else {
        lemma_register_concat(c, front, back.drop_last());
        assert((front + back).drop_last() =~= front + back.drop_last());
        assert((front + back).last() == back.last());
    }
}

/// Two registers differ by the register of the difference.
proof fn lemma_register_is_linear(x: u32, y: u32, a: Seq<bool>, b: Seq<bool>)
    requires
        x < 0x0100_0000,
        y < 0x0100_0000,
        a.len() == b.len(),
    ensures
        register(x, a) ^ register(y, b) == register(x ^ y, plus(a, b)),
    decreases a.len(),
{
    if a.len() > 0 {
        let (fa, fb) = (a.drop_last(), b.drop_last());
        lemma_register_is_linear(x, y, fa, fb);
        lemma_register_bound(x, fa);
        lemma_register_bound(y, fb);
        assert(plus(a, b).drop_last() =~= plus(fa, fb));
        let (p, q) = (register(x, fa), register(y, fb));
        let (s, t) = (top(a.last()), top(b.last()));
        lemma_step_is_linear(p, s);
        lemma_step_is_linear(q, t);
        lemma_step_is_linear(p ^ s, q ^ t);
        assert((p ^ s) ^ (q ^ t) == (p ^ q) ^ (s ^ t)) by (bit_vector);
        assert(s ^ t == top(a.last() != b.last())) by {
            assert(0x0080_0000u32 ^ 0x0080_0000u32 == 0 && 0u32 ^ 0u32 == 0 && 0x0080_0000u32 ^ 0u32
                == 0x0080_0000u32 && 0u32 ^ 0x0080_0000u32 == 0x0080_0000u32) by (bit_vector);
        }
    }
}

/// Bits added all at once, above each other, come to what they come to one by one:
/// after some steps those are left that were not yet at the top.
proof fn lemma_bits_at_once(c: u32, w: u32, n: nat)
    requires
        c < 0x0100_0000,
        w < 0x0100_0000,
        n <= 24,
    ensures
        letter::crc_bits(c ^ w, n) == register(c, bits(w, 24).take(n as int)) ^ ((w << (n as u32))
            & 0x00FF_FFFF),
    decreases n,
{
    if n == 0 {
        assert((w << 0u32) & 0x00FF_FFFF == w) by (bit_vector)
            requires
                w < 0x0100_0000,
        ;
    } else {
        let m = (n - 1) as nat;
        lemma_bits_at_once(c, w, m);
        let (k, next) = (m as u32, n as u32);
        let done = bits(w, 24).take(n as int);
        assert(done.drop_last() =~= bits(w, 24).take(m as int));
        let bit = done.last();
        let at = (23 - m) as u32;
        assert(bit == ((w >> at) & 1 == 1));
        let r = register(c, done.drop_last());
        lemma_register_bound(c, done.drop_last());
        let rest = (w << k) & 0x00FF_FFFF;
        let low = rest ^ top(bit);
        let later = (w << next) & 0x00FF_FFFF;
        assert(low < 0x0080_0000 && low << 1 == later) by {
            let t = top(bit);
            assert((((w << k) & 0x00FF_FFFF) ^ t) < 0x0080_0000 && (((w << k) & 0x00FF_FFFF) ^ t)
                << 1 == (w << next) & 0x00FF_FFFF) by (bit_vector)
                requires
                    w < 0x0100_0000,
                    k <= 23,
                    next == k + 1,
                    at == 23 - k,
                    t == (if (w >> at) & 1 == 1 {
                        0x0080_0000u32
                    } else {
                        0u32
                    }),
            ;
        }
        let t = top(bit);
        assert(r ^ rest == (r ^ t) ^ low) by (bit_vector)
            requires
                low == rest ^ t,
        ;
        lemma_step_is_linear(r, t);
        lemma_step_is_linear(r ^ t, low);
        assert(letter::crc_bit(low) == low << 1) by {
            assert((low << 1) & 0x0100_0000 == 0) by (bit_vector)
                requires
                    low < 0x0080_0000,
            ;
        }
    }
}

/// The checksum is the register after all the bits of the data.
proof fn lemma_checksum_is_the_register(data: Seq<u8>)
    ensures
        letter::crc24_of(data) < 0x0100_0000,
        letter::crc24_of(data) == register(0x00B7_04CE, bits_of(data)),
    decreases data.len(),
{
    if data.len() == 0 {
        assert(bits_of(data) =~= Seq::<bool>::empty());
    } else {
        let fewer = data.drop_last();
        lemma_checksum_is_the_register(fewer);
        let byte = data.last();
        let one = seq![byte];
        let c = letter::crc24_of(fewer);
        let w = (byte as u32) << 16;
        assert(w < 0x0100_0000 && (w << 8) & 0x00FF_FFFF == 0) by (bit_vector)
            requires
                w == (byte as u32) << 16,
        ;
        lemma_bits_at_once(c, w, 8);
        assert(bits(w, 24).take(8) =~= bits_of(one)) by {
            assert forall|i: int| 0 <= i < 8 implies bits(w, 24)[i] == bits_of(one)[i] by {
                let k = (23 - i) as u32;
                let b = (7 - i) as u8;
                assert(i / 8 == 0 && i % 8 == i);
                assert(((((byte as u32) << 16) >> k) & 1 == 1) == ((byte >> b) & 1 == 1))
                    by (bit_vector)
                    requires
                        b <= 7,
                        k == b + 16,
                ;
            }
        }
        let r = register(c, bits_of(one));
        assert(r ^ 0 == r) by (bit_vector);
        lemma_bytes_behind(fewer, byte);
        assert(fewer.push(byte) =~= data);
        assert(letter::crc24_of(data) == letter::crc_bits(c ^ w, 8));
        assert(letter::crc24_of(data) == r);
        lemma_register_concat(0x00B7_04CE, bits_of(fewer), bits_of(one));
        lemma_register_bound(c, bits_of(one));
    }
}

/// The bits of bytes are those of all but the last, and then of the last.
proof fn lemma_bytes_behind(fewer: Seq<u8>, byte: u8)
    ensures
        bits_of(fewer.push(byte)) == bits_of(fewer) + bits_of(seq![byte]),
{
    let data = fewer.push(byte);
    let n = (8 * fewer.len()) as int;
    assert forall|i: int| 0 <= i < 8 * data.len() implies bits_of(data)[i] == (bits_of(fewer)
        + bits_of(seq![byte]))[i] by {
        if i >= n {
            assert((i - n) / 8 == 0 && (i - n) % 8 == i % 8 && i / 8 == fewer.len());
        } else {
            assert(fewer[i / 8] == data[i / 8]);
        }
    }
    assert(bits_of(data) =~= bits_of(fewer) + bits_of(seq![byte]));
}

/// The number that some bits spell.
spec fn number_of(w: Seq<bool>) -> u32
    decreases w.len(),
{
    if w.len() == 0 {
        0
    } else {
        (2 * number_of(w.drop_last()) + if w.last() {
            1int
        } else {
            0int
        }) as u32
    }
}

/// A number has the bits that spell it.
proof fn lemma_number_of(w: Seq<bool>)
    requires
        w.len() <= 24,
    ensures
        number_of(w) < (1u32 << (w.len() as u32)),
        bits(number_of(w), w.len()) == w,
    decreases w.len(),
{
    let n = w.len() as u32;
    if w.len() == 0 {
        assert(1u32 << 0u32 == 1) by (bit_vector);
        assert(bits(number_of(w), w.len()) =~= w);
    } else {
        let fewer = w.drop_last();
        lemma_number_of(fewer);
        let m = (n - 1) as u32;
        let v = number_of(fewer);
        let now = number_of(w);
        let b: u32 = if w.last() {
            1
        } else {
            0
        };
        assert(v < 0x0100_0000) by {
            assert((1u32 << m) <= 0x0080_0000) by (bit_vector)
                requires
                    m <= 23,
            ;
        }
        assert(now == 2 * v + b);
        assert(now < (1u32 << n)) by (bit_vector)
            requires
                v < (1u32 << m),
                m <= 23,
                n == m + 1,
                b <= 1,
                now == 2 * v + b,
        ;
        let left = bits(now, w.len());
        assert forall|i: int| 0 <= i < w.len() implies left[i] == w[i] by {
            let k = (w.len() - 1 - i) as u32;
            assert(left[i] == ((now >> k) & 1 == 1));
            if i == w.len() - 1 {
                assert(((now >> k) & 1 == 1) == (b == 1)) by (bit_vector)
                    requires
                        k == 0,
                        b <= 1,
                        v < 0x0100_0000,
                        now == 2 * v + b,
                ;
            } else {
                let j = (fewer.len() - 1 - i) as u32;
                assert(bits(v, fewer.len())[i] == ((v >> j) & 1 == 1));
                assert(fewer[i] == w[i]);
                assert(((now >> k) & 1 == 1) == ((v >> j) & 1 == 1)) by (bit_vector)
                    requires
                        k == j + 1,
                        j <= 23,
                        b <= 1,
                        v < 0x0100_0000,
                        now == 2 * v + b,
                ;
            }
        }
        assert(left =~= w);
    }
}

/// Steps without a bit leave nothing only of nothing.
proof fn lemma_nothing_comes_of_nothing(x: u32, n: nat)
    requires
        x < 0x0100_0000,
    ensures
        register(x, nought(n)) == 0 <==> x == 0,
        letter::crc_bits(x, n) < 0x0100_0000,
        letter::crc_bits(x, n) == 0 <==> x == 0,
    decreases n,
{
    if n > 0 {
        let m = (n - 1) as nat;
        lemma_nothing_comes_of_nothing(x, m);
        assert(nought(n).drop_last() =~= nought(m));
        let r = register(x, nought(m));
        lemma_register_bound(x, nought(m));
        assert(r ^ 0 == r) by (bit_vector);
        lemma_step_is_linear(r, 0);
        lemma_step_is_linear(letter::crc_bits(x, m), 0);
    }
}

/// Twenty-four bits that are not all nought leave something.
proof fn lemma_a_burst_shows(w: Seq<bool>)
    requires
        w.len() == 24,
        register(0, w) == 0,
    ensures
        forall|i: int| 0 <= i < 24 ==> !#[trigger] w[i],
{
    lemma_number_of(w);
    let v = number_of(w);
    assert(1u32 << 24u32 == 0x0100_0000) by (bit_vector);
    lemma_bits_at_once(0, v, 24);
    assert(bits(v, 24).take(24) =~= w);
    assert(0 ^ v == v && (v << 24u32) & 0x00FF_FFFF == 0 && 0u32 ^ 0u32 == 0) by (bit_vector);
    lemma_nothing_comes_of_nothing(v, 24);
    assert(v == 0);
    assert forall|i: int| 0 <= i < 24 implies !#[trigger] w[i] by {
        let k = (23 - i) as u32;
        assert(bits(v, 24)[i] == ((v >> k) & 1 == 1));
        assert((0u32 >> k) & 1 == 0) by (bit_vector);
    }
}

/// Where bytes have the same bits, so has each of them.
proof fn lemma_same_bit(a: Seq<u8>, b: Seq<u8>, i: int, j: int)
    requires
        a.len() == b.len(),
        bits_of(a) == bits_of(b),
        0 <= i < a.len(),
        0 <= j < 8,
    ensures
        ((a[i] >> ((7 - j) as u8)) & 1 == 1) == ((b[i] >> ((7 - j) as u8)) & 1 == 1),
{
    let k = 8 * i + j;
    assert(k / 8 == i && k % 8 == j);
    assert(0 <= k < 8 * a.len());
    assert(bits_of(a)[k] == ((a[k / 8] >> ((7 - k % 8) as u8)) & 1 == 1));
    assert(bits_of(b)[k] == ((b[k / 8] >> ((7 - k % 8) as u8)) & 1 == 1));
}

/// Bytes that have the same bits are the same.
proof fn lemma_bits_tell_bytes(a: Seq<u8>, b: Seq<u8>)
    requires
        a.len() == b.len(),
        bits_of(a) == bits_of(b),
    ensures
        a == b,
{
    assert forall|i: int| 0 <= i < a.len() implies a[i] == b[i] by {
        let (x, y) = (a[i], b[i]);
        lemma_same_bit(a, b, i, 0);
        lemma_same_bit(a, b, i, 1);
        lemma_same_bit(a, b, i, 2);
        lemma_same_bit(a, b, i, 3);
        lemma_same_bit(a, b, i, 4);
        lemma_same_bit(a, b, i, 5);
        lemma_same_bit(a, b, i, 6);
        lemma_same_bit(a, b, i, 7);
        assert(x == y) by (bit_vector)
            requires
                ((x >> 7u8) & 1 == 1) == ((y >> 7u8) & 1 == 1),
                ((x >> 6u8) & 1 == 1) == ((y >> 6u8) & 1 == 1),
                ((x >> 5u8) & 1 == 1) == ((y >> 5u8) & 1 == 1),
                ((x >> 4u8) & 1 == 1) == ((y >> 4u8) & 1 == 1),
                ((x >> 3u8) & 1 == 1) == ((y >> 3u8) & 1 == 1),
                ((x >> 2u8) & 1 == 1) == ((y >> 2u8) & 1 == 1),
                ((x >> 1u8) & 1 == 1) == ((y >> 1u8) & 1 == 1),
                ((x >> 0u8) & 1 == 1) == ((y >> 0u8) & 1 == 1),
        ;
    }
    assert(a =~= b);
}

/// Two data of one length that differ only within twenty-four neighbouring bits have
/// different checksums.
pub proof fn lemma_a_short_burst_is_noticed(a: Seq<u8>, b: Seq<u8>, k: int)
    requires
        a.len() == b.len(),
        a != b,
        0 <= k,
        forall|i: int|
            0 <= i < 8 * a.len() && !(k <= i < k + 24) ==> #[trigger] bits_of(a)[i]
                == bits_of(b)[i],
    ensures
        letter::crc24_bytes(a) != letter::crc24_bytes(b),
{
    if letter::crc24_bytes(a) == letter::crc24_bytes(b) {
        lemma_checksum_is_the_register(a);
        lemma_checksum_is_the_register(b);
        let (p, q) = (letter::crc24_of(a), letter::crc24_of(b));
        lemma_same_bytes_same_register(a, b);
        let d = plus(bits_of(a), bits_of(b));
        lemma_register_is_linear(0x00B7_04CE, 0x00B7_04CE, bits_of(a), bits_of(b));
        assert(p ^ p == 0) by (bit_vector);
        assert(0x00B7_04CEu32 ^ 0x00B7_04CEu32 == 0) by (bit_vector);
        assert(register(0, d) == 0);
        let long = nought(24) + d;
        lemma_register_concat(0, nought(24), d);
        lemma_nothing_comes_of_nothing(0, 24);
        assert(register(0, long) == 0);
        let end: int = if k + 48 <= long.len() {
            k + 48
        } else {
            long.len() as int
        };
        let front = nought((end - 24) as nat);
        let burst = long.subrange(end - 24, end);
        let back = nought((long.len() - end) as nat);
        assert forall|i: int| 0 <= i < long.len() && !(end - 24 <= i < end) implies !#[trigger] long[i] by {
            if i >= 24 {
                assert(bits_of(a)[i - 24] == bits_of(b)[i - 24]);
            }
        }
        assert(long =~= front + burst + back);
        lemma_register_concat(0, front + burst, back);
        lemma_register_concat(0, front, burst);
        lemma_nothing_comes_of_nothing(0, front.len());
        let middle = register(0, burst);
        lemma_register_bound(0, burst);
        lemma_nothing_comes_of_nothing(middle, back.len());
        assert(middle == 0);
        lemma_a_burst_shows(burst);
        assert forall|i: int| 0 <= i < bits_of(a).len() implies bits_of(a)[i] == bits_of(b)[i] by {
            assert(long[i + 24] == d[i]);
            if end - 24 <= i + 24 < end {
                assert(!burst[i + 24 - (end - 24)]);
            }
        }
        assert(bits_of(a) =~= bits_of(b));
        lemma_bits_tell_bytes(a, b);
    }
}

/// The same three bytes are the same register.
proof fn lemma_same_bytes_same_register(a: Seq<u8>, b: Seq<u8>)
    requires
        letter::crc24_of(a) < 0x0100_0000,
        letter::crc24_of(b) < 0x0100_0000,
        letter::crc24_bytes(a) == letter::crc24_bytes(b),
    ensures
        letter::crc24_of(a) == letter::crc24_of(b),
{
    let (p, q) = (letter::crc24_of(a), letter::crc24_of(b));
    let (s, t) = (letter::crc24_bytes(a), letter::crc24_bytes(b));
    assert(p & 0x00FF_FFFF == p) by (bit_vector)
        requires
            p < 0x0100_0000,
    ;
    assert(q & 0x00FF_FFFF == q) by (bit_vector)
        requires
            q < 0x0100_0000,
    ;
    assert(s[0] == t[0] && s[1] == t[1] && s[2] == t[2]);
    assert(p == s[0] * 65536 + s[1] * 256 + s[2]);
    assert(q == t[0] * 65536 + t[1] * 256 + t[2]);
}

} // verus!
