//! What a letter carries is read back: from the letter as it was made, and from
//! one that lost its carriage returns on the way.

use crate::chatmail::letter;
use crate::chatmail::letter::{MessageError, ARMOR_BEGIN, ARMOR_END, BOUNDARY, CONTENT_TYPE, LINE_LEN, SUBJECT};
use crate::encoding;
use crate::text;
use crate::wire::SizeClass;
use vstd::prelude::*;
use vstd::string::*;
use vstd::utf8::{encode_utf8, is_ascii_chars};

verus! {

broadcast use vstd::string::group_string_axioms;

/// Text unfolds piece by piece, unless the cut goes through a pair.
proof fn lemma_unfolded_concat(a: Seq<char>, b: Seq<char>)
    requires
        !(a.len() > 0 && b.len() > 0 && a.last() == '\r' && b[0] == '\n'),
    ensures
        letter::unfolded(a + b) == letter::unfolded(a) + letter::unfolded(b),
    decreases a.len(),
{
    let s = a + b;
    if a.len() == 0 {
        assert(s =~= b);
        assert(letter::unfolded(a) + letter::unfolded(b) =~= letter::unfolded(b));
    } else if a.len() >= 2 && a[0] == '\r' && a[1] == '\n' {
        let rest = a.subrange(2, a.len() as int);
        lemma_unfolded_concat(rest, b);
        assert(s.subrange(2, s.len() as int) =~= rest + b);
        assert(letter::unfolded(s) =~= letter::unfolded(a) + letter::unfolded(b));
    } else {
        let rest = a.subrange(1, a.len() as int);
        lemma_unfolded_concat(rest, b);
        assert(s.subrange(1, s.len() as int) =~= rest + b);
        if a.len() == 1 && b.len() > 0 {
            assert(s[1] == b[0]);
        }
        assert(letter::unfolded(s) =~= letter::unfolded(a) + letter::unfolded(b));
    }
}

/// Text without carriage returns is left as it is.
proof fn lemma_unfolded_same(s: Seq<char>)
    requires
        forall|i: int| 0 <= i < s.len() ==> s[i] != '\r',
    ensures
        letter::unfolded(s) == s,
    decreases s.len(),
{
    if s.len() > 0 {
        let rest = s.subrange(1, s.len() as int);
        lemma_unfolded_same(rest);
        assert(seq![s[0]] + rest =~= s);
    }
}

/// No line break stands in `needle`.
spec fn on_one_line(needle: Seq<char>) -> bool {
    forall|i: int| 0 <= i < needle.len() ==> needle[i] != '\r' && needle[i] != '\n'
}

/// What unfolded text starts with, if it is on one line, the text starts with too.
proof fn lemma_unfolded_prefix(s: Seq<char>, needle: Seq<char>)
    requires
        on_one_line(needle),
        text::occurs_at(letter::unfolded(s), needle, 0),
    ensures
        text::occurs_at(s, needle, 0),
    decreases s.len(),
{
    let u = letter::unfolded(s);
    if needle.len() == 0 {
        assert(s.subrange(0, 0) =~= needle);
    } else {
        assert(u.subrange(0, needle.len() as int)[0] == needle[0]);
        assert(u[0] == needle[0]);
        assert(s.len() > 0);
        assert(!(s.len() >= 2 && s[0] == '\r' && s[1] == '\n'));
        let rest = s.subrange(1, s.len() as int);
        let tail = needle.subrange(1, needle.len() as int);
        let urest = letter::unfolded(rest);
        assert(u == seq![s[0]] + urest);
        assert(urest.subrange(0, tail.len() as int) =~= tail) by {
            assert forall|i: int| 0 <= i < tail.len() implies urest[i] == tail[i] by {
                assert(u.subrange(0, needle.len() as int)[i + 1] == needle[i + 1]);
            }
        }
        lemma_unfolded_prefix(rest, tail);
        assert(s.subrange(0, needle.len() as int) =~= needle) by {
            assert forall|i: int| 0 <= i < needle.len() implies s[i] == needle[i] by {
                if i > 0 {
                    assert(rest.subrange(0, tail.len() as int)[i - 1] == tail[i - 1]);
                }
            }
        }
    }
}

/// What stands in unfolded text, if it is on one line, stood in the text before.
proof fn lemma_unfolded_occurs(s: Seq<char>, needle: Seq<char>, at: int)
    requires
        on_one_line(needle),
        needle.len() > 0,
        text::occurs_at(letter::unfolded(s), needle, at),
    ensures
        text::occurs(s, needle),
    decreases s.len(),
{
    let u = letter::unfolded(s);
    assert(s.len() > 0);
    if at == 0 {
        lemma_unfolded_prefix(s, needle);
    } else {
        let skip: int = if s.len() >= 2 && s[0] == '\r' && s[1] == '\n' {
            2
        } else {
            1
        };
        let rest = s.subrange(skip, s.len() as int);
        let urest = letter::unfolded(rest);
        assert(u.len() == urest.len() + 1);
        assert(urest.subrange(at - 1, at - 1 + needle.len()) =~= u.subrange(
            at,
            at + needle.len(),
        ));
        lemma_unfolded_occurs(rest, needle, at - 1);
        let k = choose|k: int| text::occurs_at(rest, needle, k);
        assert(s.subrange(k + skip, k + skip + needle.len()) =~= rest.subrange(
            k,
            k + needle.len(),
        ));
        assert(text::occurs_at(s, needle, k + skip));
    }
}

/// Unfolding makes no text longer in bytes.
proof fn lemma_unfolded_bytes(s: Seq<char>)
    ensures
        encode_utf8(letter::unfolded(s)).len() <= encode_utf8(s).len(),
    decreases s.len(),
{
    if s.len() == 0 {
    } else if s.len() >= 2 && s[0] == '\r' && s[1] == '\n' {
        let rest = s.subrange(2, s.len() as int);
        lemma_unfolded_bytes(rest);
        assert(s.drop_first().drop_first() =~= rest);
        let u = letter::unfolded(s);
        assert(u.drop_first() =~= letter::unfolded(rest));
        assert(encode_utf8(s).len() >= 1 + encode_utf8(s.drop_first()).len());
        assert(encode_utf8(s.drop_first()).len() >= 1 + encode_utf8(rest).len());
        assert(encode_utf8(u) == vstd::utf8::encode_scalar('\n' as u32) + encode_utf8(
            letter::unfolded(rest),
        ));
    } else {
        let rest = s.subrange(1, s.len() as int);
        lemma_unfolded_bytes(rest);
        assert(s.drop_first() =~= rest);
        let u = letter::unfolded(s);
        assert(u.drop_first() =~= letter::unfolded(rest));
    }
}

/// The text cut into lines of `LINE_LEN` characters with `eol` between them.
spec fn wrapped_chars(t: Seq<char>, eol: Seq<char>) -> Seq<char>
    decreases t.len(),
{
    if t.len() <= LINE_LEN {
        t
    } else {
        t.subrange(0, LINE_LEN as int) + eol + wrapped_chars(
            t.subrange(LINE_LEN as int, t.len() as int),
            eol,
        )
    }
}

/// Text of ASCII is cut by characters as it is by bytes.
proof fn lemma_wrapped_ascii(t: Seq<char>)
    requires
        is_ascii_chars(t),
    ensures
        letter::wrapped(encode_utf8(t)) == wrapped_chars(t, "\r\n"@),
    decreases t.len(),
{
    let n = LINE_LEN as int;
    let bytes = encode_utf8(t);
    vstd::utf8::is_ascii_chars_encode_utf8(t);
    if t.len() <= LINE_LEN {
        text::lemma_utf8_round_trip(t);
    } else {
        let head = t.subrange(0, n);
        let rest = t.subrange(n, t.len() as int);
        assert(is_ascii_chars(head) && is_ascii_chars(rest));
        vstd::utf8::is_ascii_chars_encode_utf8(head);
        vstd::utf8::is_ascii_chars_encode_utf8(rest);
        assert(bytes.subrange(0, n) =~= encode_utf8(head));
        assert(bytes.subrange(n, bytes.len() as int) =~= encode_utf8(rest));
        text::lemma_utf8_round_trip(head);
        lemma_wrapped_ascii(rest);
    }
}

/// Base64 text: whole groups of four, of the alphabet but for at most two
/// padding signs at the end.
spec fn is_base64_text(t: Seq<char>) -> bool {
    &&& t.len() > 0
    &&& t.len() % 4 == 0
    &&& forall|i: int|
        0 <= i < t.len() ==> #[trigger] encoding::in_base64_alphabet(t[i]) || (t[i] == '=' && i
            >= t.len() - 2)
}

/// What base64 text has none of.
proof fn lemma_base64_chars(t: Seq<char>)
    requires
        is_base64_text(t),
    ensures
        is_ascii_chars(t),
        forall|i: int|
            0 <= i < t.len() ==> t[i] != '\r' && t[i] != '\n' && t[i] != '-' && !text::is_space(
                t[i],
            ),
        t[0] != '=',
{
    assert forall|i: int| 0 <= i < t.len() implies t[i] != '\r' && t[i] != '\n' && t[i] != '-'
        && !text::is_space(t[i]) && '\0' <= t[i] <= '\u{7f}' by {
        assert(encoding::in_base64_alphabet(t[i]) || t[i] == '=');
    }
    assert(encoding::in_base64_alphabet(t[0]) || 0 >= t.len() - 2);
}

/// Wrapped base64 unfolds to itself with line feeds between the lines.
proof fn lemma_wrapped_unfolds(t: Seq<char>)
    requires
        forall|i: int| 0 <= i < t.len() ==> t[i] != '\r' && t[i] != '\n',
    ensures
        letter::unfolded(wrapped_chars(t, "\r\n"@)) == wrapped_chars(t, "\n"@),
        t.len() > 0 ==> wrapped_chars(t, "\r\n"@).len() > 0 && wrapped_chars(t, "\r\n"@)[0] == t[0],
        t.len() > 0 ==> wrapped_chars(t, "\n"@).len() > 0 && wrapped_chars(t, "\n"@)[0] == t[0]
            && wrapped_chars(t, "\n"@).last() != '\n',
        forall|i: int|
            0 <= i < wrapped_chars(t, "\n"@).len() ==> (#[trigger] wrapped_chars(t, "\n"@)[i])
                == '\n' || t.contains(wrapped_chars(t, "\n"@)[i]),
        forall|i: int|
            0 <= i < wrapped_chars(t, "\n"@).len() - 1 && (#[trigger] wrapped_chars(t, "\n"@)[i])
                == '\n' ==> wrapped_chars(t, "\n"@)[i + 1] != '\n',
        t.len() <= wrapped_chars(t, "\r\n"@).len(),
    decreases t.len(),
{
    reveal_strlit("\r\n");
    reveal_strlit("\n");
    if t.len() <= LINE_LEN {
        lemma_unfolded_same(t);
        assert forall|i: int| 0 <= i < t.len() implies t.contains(#[trigger] t[i]) by {}
    } else {
        let n = LINE_LEN as int;
        let head = t.subrange(0, n);
        let rest = t.subrange(n, t.len() as int);
        lemma_wrapped_unfolds(rest);
        lemma_unfolded_same(head);
        lemma_crlf_unfolds();
        let wr = wrapped_chars(rest, "\r\n"@);
        lemma_unfolded_concat("\r\n"@, wr);
        lemma_unfolded_concat(head, "\r\n"@ + wr);
        assert(wrapped_chars(t, "\r\n"@) =~= head + ("\r\n"@ + wr));
        assert(wrapped_chars(t, "\n"@) =~= head + ("\n"@ + wrapped_chars(rest, "\n"@)));
        let w = wrapped_chars(t, "\n"@);
        let wl = wrapped_chars(rest, "\n"@);
        assert forall|i: int| 0 <= i < w.len() implies (#[trigger] w[i]) == '\n' || t.contains(
            w[i],
        ) by {
            if i < n {
                assert(w[i] == t[i]);
            } else if i > n {
                assert(w[i] == wl[i - n - 1]);
                if wl[i - n - 1] != '\n' {
                    assert(rest.contains(wl[i - n - 1]));
                    let k = choose|k: int| 0 <= k < rest.len() && rest[k] == wl[i - n - 1];
                    assert(t[k + n] == w[i]);
                }
            }
        }
        assert forall|i: int| 0 <= i < w.len() - 1 && (#[trigger] w[i]) == '\n' implies w[i + 1]
            != '\n' by {
            if i < n {
                assert(w[i] == t[i]);
            } else if i == n {
                assert(w[i + 1] == wl[0]);
                assert(rest[0] == t[n]);
            } else {
                assert(w[i] == wl[i - n - 1]);
                assert(w[i + 1] == wl[i - n - 1 + 1]);
            }
        }
        assert(w.last() == wl.last());
    }
}

/// A line break unfolds to a line feed.
proof fn lemma_crlf_unfolds()
    ensures
        letter::unfolded("\r\n"@) == "\n"@,
{
    reveal_strlit("\r\n");
    reveal_strlit("\n");
    let s = "\r\n"@;
    assert(s.subrange(2, 2) =~= seq![]);
    assert(letter::unfolded(s.subrange(2, 2)) =~= seq![]);
    assert(letter::unfolded(s) =~= "\n"@);
}

/// The characters of a line that the base64 is made of.
spec fn kept(line: Seq<char>) -> Seq<char> {
    if letter::is_checksum_line(line) {
        seq![]
    } else {
        letter::squeezed(line)
    }
}

/// The base64 of a line and what follows it.
proof fn lemma_base64_lines_step(line: Seq<char>, rest: Seq<char>)
    requires
        forall|i: int| 0 <= i < line.len() ==> line[i] != '\n',
    ensures
        letter::base64_lines(line + seq!['\n'] + rest) == kept(line) + letter::base64_lines(rest),
{
    let data = line + seq!['\n'] + rest;
    lemma_line_end_at(data, 0, line.len() as int);
    assert(data.subrange(0, line.len() as int) =~= line);
    assert(data.subrange(line.len() as int + 1, data.len() as int) =~= rest);
}

/// A line ends where its line feed stands.
proof fn lemma_line_end_at(s: Seq<char>, from: int, at: int)
    requires
        0 <= from <= at < s.len(),
        s[at] == '\n',
        forall|i: int| from <= i < at ==> s[i] != '\n',
    ensures
        text::line_end(s, from) == at,
    decreases at - from,
{
    if from < at {
        lemma_line_end_at(s, from + 1, at);
    }
}

/// Text without white space is left as it is by squeezing.
proof fn lemma_squeezed_same(s: Seq<char>)
    requires
        forall|i: int| 0 <= i < s.len() ==> !text::is_space(s[i]),
    ensures
        letter::squeezed(s) == s,
    decreases s.len(),
{
    if s.len() > 0 {
        lemma_squeezed_same(s.drop_last());
        assert(s.drop_last().push(s.last()) =~= s);
    }
}

/// The lines of wrapped base64 give the base64 back.
proof fn lemma_base64_lines_of_wrapped(t: Seq<char>, rest: Seq<char>)
    requires
        is_base64_text(t),
    ensures
        letter::base64_lines(wrapped_chars(t, "\n"@) + seq!['\n'] + rest) == t
            + letter::base64_lines(rest),
    decreases t.len(),
{
    reveal_strlit("\n");
    lemma_base64_chars(t);
    if t.len() <= LINE_LEN {
        lemma_squeezed_same(t);
        lemma_base64_lines_step(t, rest);
    } else {
        let n = LINE_LEN as int;
        let head = t.subrange(0, n);
        let tail = t.subrange(n, t.len() as int);
        assert(is_base64_text(tail)) by {
            assert forall|i: int| 0 <= i < tail.len() implies (
            #[trigger] encoding::in_base64_alphabet(tail[i]) || (tail[i] == '=' && i >= tail.len()
                - 2)) by {
                assert(tail[i] == t[i + n]);
                assert(encoding::in_base64_alphabet(t[i + n]) || (t[i + n] == '=' && i + n
                    >= t.len() - 2));
            }
        }
        lemma_base64_lines_of_wrapped(tail, rest);
        lemma_squeezed_same(head);
        let more = wrapped_chars(tail, "\n"@) + seq!['\n'] + rest;
        lemma_base64_lines_step(head, more);
        assert(wrapped_chars(t, "\n"@) + seq!['\n'] + rest =~= head + seq!['\n'] + more);
        assert(head + (tail + letter::base64_lines(rest)) =~= t + letter::base64_lines(rest));
    }
}

/// What stands between the marks of an armor, with line feeds for line breaks.
spec fn inside_lf(frame: Seq<u8>) -> Seq<char> {
    let packet = letter::packet_bytes(frame);
    seq!['\n', '\n'] + wrapped_chars(encoding::base64_text(packet), "\n"@) + seq!['\n', '=']
        + encoding::base64_text(letter::crc24_bytes(packet)) + seq!['\n']
}

/// An armor with line feeds for line breaks.
spec fn armor_lf(frame: Seq<u8>) -> Seq<char> {
    ARMOR_BEGIN@ + inside_lf(frame) + ARMOR_END@
}

/// The base64 of a packet and of its checksum are base64 text.
proof fn lemma_armor_texts(frame: Seq<u8>)
    ensures
        is_base64_text(encoding::base64_text(letter::packet_bytes(frame))),
        is_base64_text(encoding::base64_text(letter::crc24_bytes(letter::packet_bytes(frame)))),
        encoding::base64_text(letter::packet_bytes(frame)).len() >= frame.len(),
{
    let packet = letter::packet_bytes(frame);
    encoding::lemma_base64_shape(packet);
    encoding::lemma_base64_shape(letter::crc24_bytes(packet));
}

/// The frame comes out of its armor.
proof fn lemma_inside_is_unarmored(frame: Seq<u8>)
    requires
        letter::armor_is_faithful(frame),
        frame.len() + 1 <= 0xffff_ffff,
    ensures
        letter::unarmored(inside_lf(frame)) == Ok::<Seq<u8>, MessageError>(frame),
        forall|i: int| 0 <= i < inside_lf(frame).len() ==> inside_lf(frame)[i] != '-',
        forall|i: int| 0 <= i < inside_lf(frame).len() ==> inside_lf(frame)[i] != '\r',
{
    reveal_strlit("\n");
    reveal_strlit("\n\n");
    let packet = letter::packet_bytes(frame);
    let t = encoding::base64_text(packet);
    let sum = encoding::base64_text(letter::crc24_bytes(packet));
    let w = wrapped_chars(t, "\n"@);
    let inside = inside_lf(frame);
    lemma_armor_texts(frame);
    lemma_base64_chars(t);
    lemma_base64_chars(sum);
    lemma_wrapped_unfolds(t);
    let body = w + seq!['\n', '='] + sum + seq!['\n'];
    assert forall|i: int| 0 <= i < w.len() implies #[trigger] w[i] != '-' && w[i] != '\r' by {
        if w[i] != '\n' {
            assert(t.contains(w[i]));
        }
    }
    assert(inside =~= seq!['\n', '\n'] + body);
    assert forall|i: int| 0 <= i < inside.len() implies inside[i] != '-' && inside[i] != '\r' by {
        if i >= 2 {
            assert(inside[i] == body[i - 2]);
            if i - 2 < w.len() {
                assert(body[i - 2] == w[i - 2]);
            } else if w.len() + 2 <= i - 2 < w.len() + 2 + sum.len() {
                assert(body[i - 2] == sum[i - 2 - w.len() - 2]);
            }
        }
    }
    assert(letter::without_leading_breaks(inside) == body) by {
        assert(inside.subrange(1, inside.len() as int) =~= seq!['\n'] + body);
        let once = inside.subrange(1, inside.len() as int);
        assert(once.subrange(1, once.len() as int) =~= body);
        assert(body[0] == w[0]);
        assert(letter::without_leading_breaks(body) == body);
        assert(letter::without_leading_breaks(once) == body);
    }
    assert(text::first(body, "\n\n"@) is None) by {
        text::lemma_first_from(body, "\n\n"@, 0);
        assert forall|k: int| 0 <= k implies !text::occurs_at(body, "\n\n"@, k) by {
            if text::occurs_at(body, "\n\n"@, k) {
                assert(body.subrange(k, k + 2)[0] == '\n' && body.subrange(k, k + 2)[1] == '\n');
                assert(body[k] == '\n' && body[k + 1] == '\n');
                if k + 1 < w.len() {
                    assert(w[k] == '\n' && w[k + 1] == '\n');
                } else if k + 1 == w.len() {
                    assert(w.last() == body[k]);
                } else if k == w.len() {
                    assert(body[k + 1] == '=');
                } else if k == w.len() + 1 {
                    assert(body[k] == '=');
                } else if k < w.len() + 2 + sum.len() {
                    assert(body[k] == sum[k - w.len() - 2]);
                }
            }
        }
    }
    assert(letter::armor_data(inside) == inside);
    assert(letter::base64_lines(inside) == t) by {
        let none: Seq<char> = seq![];
        let last: Seq<char> = seq!['='] + sum;
        lemma_base64_lines_step(none, seq!['\n'] + body);
        assert(none + seq!['\n'] + (seq!['\n'] + body) =~= inside);
        lemma_base64_lines_step(none, body);
        assert(none + seq!['\n'] + body =~= seq!['\n'] + body);
        lemma_base64_lines_of_wrapped(t, last + seq!['\n'] + none);
        assert(w + seq!['\n'] + (last + seq!['\n'] + none) =~= body);
        lemma_base64_lines_step(last, none);
        assert(letter::is_checksum_line(last));
        assert(letter::base64_lines(none) =~= none) by {
            assert(none.subrange(0, 0) =~= none);
        }
        assert(kept(none) =~= none);
        assert(kept(last) =~= none);
        assert(none + none =~= none);
        assert(t + none =~= t);
        assert(none + t =~= t);
    }
    letter::lemma_packet_round_trip(frame);
}

/// Armors with line feeds for line breaks.
spec fn armors_lf(frames: Seq<Seq<u8>>) -> Seq<char>
    decreases frames.len(),
{
    if frames.len() == 0 {
        seq![]
    } else if frames.len() == 1 {
        armor_lf(frames[0])
    } else {
        armor_lf(frames[0]) + seq!['\n'] + armors_lf(frames.subrange(1, frames.len() as int))
    }
}

/// The marks of an armor, as far as the proofs need them.
proof fn lemma_marks()
    ensures
        ARMOR_BEGIN@.len() == 27,
        ARMOR_BEGIN@[0] == '-',
        ARMOR_BEGIN@[7] == 'G',
        on_one_line(ARMOR_BEGIN@),
        ARMOR_END@.len() == 25,
        ARMOR_END@[0] == '-',
        on_one_line(ARMOR_END@),
        ARMOR_END@.last() == '-',
{
    reveal_strlit("-----BEGIN PGP MESSAGE-----");
    reveal_strlit("-----END PGP MESSAGE-----");
}

/// An armor unfolds to itself with line feeds.
proof fn lemma_armor_unfolds(frame: Seq<u8>)
    requires
        letter::armor_is_faithful(frame),
    ensures
        letter::unfolded(letter::armor_text(frame)) == armor_lf(frame),
        letter::armor_text(frame).len() > 0 && letter::armor_text(frame)[0] == '-',
        letter::armor_text(frame).last() == '-',
        letter::armor_text(frame).len() >= frame.len(),
{
    reveal_strlit("\r\n");
    reveal_strlit("\r\n=");
    reveal_strlit("\r\n\r\n");
    reveal_strlit("\n");
    let packet = letter::packet_bytes(frame);
    let t = encoding::base64_text(packet);
    let sum = encoding::base64_text(letter::crc24_bytes(packet));
    lemma_armor_texts(frame);
    lemma_base64_chars(t);
    lemma_base64_chars(sum);
    lemma_wrapped_ascii(t);
    lemma_wrapped_unfolds(t);
    lemma_marks();
    lemma_crlf_unfolds();
    let crlf = "\r\n"@;
    let wc = wrapped_chars(t, crlf);
    let wl = wrapped_chars(t, "\n"@);
    lemma_unfolded_same(ARMOR_BEGIN@);
    lemma_unfolded_same(ARMOR_END@);
    lemma_unfolded_same(seq!['='] + sum);
    let s6 = crlf + ARMOR_END@;
    lemma_unfolded_concat(crlf, ARMOR_END@);
    let s5 = (seq!['='] + sum) + s6;
    lemma_unfolded_concat(seq!['='] + sum, s6);
    let s4 = crlf + s5;
    lemma_unfolded_concat(crlf, s5);
    let s3 = wc + s4;
    assert(wc.last() != '\r' || s4[0] != '\n');
    lemma_unfolded_concat(wc, s4);
    let s2 = crlf + s3;
    assert(s3[0] == t[0]);
    lemma_unfolded_concat(crlf, s3);
    let s1 = crlf + s2;
    lemma_unfolded_concat(crlf, s2);
    lemma_unfolded_concat(ARMOR_BEGIN@, s1);
    assert(letter::armor_text(frame) =~= ARMOR_BEGIN@ + s1);
    assert(letter::unfolded(ARMOR_BEGIN@ + s1) =~= armor_lf(frame));
    assert(letter::armor_text(frame)[0] == ARMOR_BEGIN@[0]);
    assert(letter::armor_text(frame).last() == ARMOR_END@.last());
}

/// Armors unfold to themselves with line feeds.
proof fn lemma_armors_unfold(frames: Seq<Seq<u8>>)
    requires
        frames.len() > 0,
        forall|i: int| 0 <= i < frames.len() ==> letter::armor_is_faithful(#[trigger] frames[i]),
    ensures
        letter::unfolded(letter::armors_text(frames)) == armors_lf(frames),
        letter::armors_text(frames).len() > 0,
        letter::armors_text(frames)[0] == '-',
        letter::armors_text(frames).last() == '-',
        forall|i: int|
            0 <= i < frames.len() ==> letter::armors_text(frames).len() >= (
            #[trigger] frames[i]).len(),
    decreases frames.len(),
{
    lemma_armor_unfolds(frames[0]);
    if frames.len() > 1 {
        reveal_strlit("\r\n");
        reveal_strlit("\n");
        lemma_crlf_unfolds();
        let rest = frames.subrange(1, frames.len() as int);
        lemma_armors_unfold(rest);
        let more = letter::armors_text(rest);
        lemma_unfolded_concat("\r\n"@, more);
        lemma_unfolded_concat(letter::armor_text(frames[0]), "\r\n"@ + more);
        assert(letter::armors_text(frames) =~= letter::armor_text(frames[0]) + ("\r\n"@ + more));
        assert(letter::unfolded(letter::armors_text(frames)) =~= armors_lf(frames));
        assert forall|i: int| 0 <= i < frames.len() implies letter::armors_text(frames).len() >= (
        #[trigger] frames[i]).len() by {
            if i > 0 {
                assert(frames[i] == rest[i - 1]);
            }
        }
    }
}

/// Armors with line feeds hold no carriage return, and start and end with a dash.
proof fn lemma_armors_lf_chars(frames: Seq<Seq<u8>>)
    requires
        forall|i: int| 0 <= i < frames.len() ==> letter::armor_is_faithful(#[trigger] frames[i]),
        forall|i: int| 0 <= i < frames.len() ==> (#[trigger] frames[i]).len() + 1 <= 0xffff_ffff,
    ensures
        forall|i: int| 0 <= i < armors_lf(frames).len() ==> armors_lf(frames)[i] != '\r',
        frames.len() > 0 ==> armors_lf(frames).len() > 0 && armors_lf(frames)[0] == '-'
            && armors_lf(frames).last() == '-',
    decreases frames.len(),
{
    if frames.len() > 0 {
        lemma_inside_is_unarmored(frames[0]);
        lemma_marks();
        if frames.len() > 1 {
            let rest = frames.subrange(1, frames.len() as int);
            assert forall|i: int| 0 <= i < rest.len() implies letter::armor_is_faithful(
                #[trigger] rest[i],
            ) && rest[i].len() + 1 <= 0xffff_ffff by {
                assert(rest[i] == frames[i + 1]);
            }
            lemma_armors_lf_chars(rest);
        }
    }
}

/// Something on one line that stands in two pieces of text, the first of which
/// ends a line, stands in one of them.
proof fn lemma_occurs_in_a_piece(a: Seq<char>, b: Seq<char>, needle: Seq<char>, at: int)
    requires
        a.len() == 0 || a.last() == '\n',
        on_one_line(needle),
        needle.len() > 0,
        text::occurs_at(a + b, needle, at),
    ensures
        at + needle.len() <= a.len() ==> text::occurs_at(a, needle, at),
        at + needle.len() > a.len() ==> at >= a.len() && text::occurs_at(
            b,
            needle,
            at - a.len(),
        ),
{
    let s = a + b;
    if at + needle.len() <= a.len() {
        assert(a.subrange(at, at + needle.len()) =~= s.subrange(at, at + needle.len()));
    } else {
        if at < a.len() {
            let k = a.len() - 1 - at;
            assert(s.subrange(at, at + needle.len())[k] == needle[k]);
            assert(s[a.len() - 1] == '\n');
        }
        let at2 = at - a.len();
        assert(b.subrange(at2, at2 + needle.len()) =~= s.subrange(at, at + needle.len()));
    }
}

/// The first armor of a text gives the first frame.
proof fn lemma_first_armor_is_found(
    before: Seq<char>,
    inside: Seq<char>,
    more: Seq<char>,
    frame: Seq<u8>,
)
    requires
        before.len() == 0 || before.last() == '\n',
        !text::occurs(before, ARMOR_BEGIN@),
        forall|i: int| 0 <= i < inside.len() ==> inside[i] != '-',
        letter::unarmored(inside) == Ok::<Seq<u8>, MessageError>(frame),
    ensures
        letter::frames_in(before + (ARMOR_BEGIN@ + (inside + (ARMOR_END@ + more)))) == (
        match letter::frames_in(more) {
            Ok(frames) => Ok::<Seq<Seq<u8>>, MessageError>(seq![frame] + frames),
            Err(e) => Err(e),
        }),
{
    lemma_marks();
    let behind_begin = inside + (ARMOR_END@ + more);
    let all = before + (ARMOR_BEGIN@ + behind_begin);
    let start = before.len() as int;
    assert(text::first(all, ARMOR_BEGIN@) == Some(start)) by {
        assert(all.subrange(start, start + 27) =~= ARMOR_BEGIN@);
        assert forall|k: int| 0 <= k < start implies !text::occurs_at(all, ARMOR_BEGIN@, k) by {
            if text::occurs_at(all, ARMOR_BEGIN@, k) {
                lemma_occurs_in_a_piece(before, ARMOR_BEGIN@ + behind_begin, ARMOR_BEGIN@, k);
            }
        }
        text::lemma_first_is(all, ARMOR_BEGIN@, 0, start);
    }
    let after = all.subrange(start + 27, all.len() as int);
    assert(after =~= behind_begin);
    let end = inside.len() as int;
    assert(text::first(after, ARMOR_END@) == Some(end)) by {
        assert(after.subrange(end, end + 25) =~= ARMOR_END@);
        assert forall|k: int| 0 <= k < end implies !text::occurs_at(after, ARMOR_END@, k) by {
            if text::occurs_at(after, ARMOR_END@, k) {
                assert(after.subrange(k, k + 25)[0] == '-');
                assert(after[k] == inside[k]);
            }
        }
        text::lemma_first_is(after, ARMOR_END@, 0, end);
    }
    assert(after.subrange(0, end) =~= inside);
    assert(after.subrange(end + 25, after.len() as int) =~= more);
}

/// The frames come out of a text that holds their armors between other lines.
proof fn lemma_frames_are_found(before: Seq<char>, frames: Seq<Seq<u8>>, behind: Seq<char>)
    requires
        before.len() == 0 || before.last() == '\n',
        !text::occurs(before, ARMOR_BEGIN@),
        !text::occurs(behind, ARMOR_BEGIN@),
        forall|i: int| 0 <= i < frames.len() ==> letter::armor_is_faithful(#[trigger] frames[i]),
        forall|i: int| 0 <= i < frames.len() ==> (#[trigger] frames[i]).len() + 1 <= 0xffff_ffff,
    ensures
        letter::frames_in(before + armors_lf(frames) + behind) == Ok::<
            Seq<Seq<u8>>,
            MessageError,
        >(frames),
    decreases frames.len(),
{
    let all = before + armors_lf(frames) + behind;
    lemma_marks();
    if frames.len() == 0 {
        assert(all =~= before + behind);
        text::lemma_first_from(all, ARMOR_BEGIN@, 0);
        if let Some(at) = text::first(all, ARMOR_BEGIN@) {
            lemma_occurs_in_a_piece(before, behind, ARMOR_BEGIN@, at);
        }
        assert(frames =~= seq![]);
    } else {
        let frame = frames[0];
        let inside = inside_lf(frame);
        let left = frames.subrange(1, frames.len() as int);
        let gap: Seq<char> = if frames.len() == 1 {
            seq![]
        } else {
            seq!['\n']
        };
        assert forall|i: int| 0 <= i < left.len() implies letter::armor_is_faithful(
            #[trigger] left[i],
        ) && left[i].len() + 1 <= 0xffff_ffff by {
            assert(left[i] == frames[i + 1]);
        }
        assert(!text::occurs(gap, ARMOR_BEGIN@));
        lemma_frames_are_found(gap, left, behind);
        lemma_inside_is_unarmored(frame);
        let more = gap + armors_lf(left) + behind;
        lemma_first_armor_is_found(before, inside, more, frame);
        assert(all =~= before + (ARMOR_BEGIN@ + (inside + (ARMOR_END@ + more))));
        assert(seq![frame] + left =~= frames);
    }
}

/// No capital G stands in the text.
spec fn without_g(s: Seq<char>) -> bool {
    forall|i: int| 0 <= i < s.len() ==> s[i] != 'G'
}

/// The words of the envelope hold no capital G.
proof fn lemma_envelope_is_without_g()
    ensures
        without_g("Subject: "@),
        without_g(SUBJECT@),
        without_g(BOUNDARY@),
        without_g(CONTENT_TYPE@),
        without_g(
            "\r\nMIME-Version: 1.0\r\nContent-Type: multipart/encrypted; protocol=\"application/pgp-encrypted\"; boundary=\""@,
        ),
        without_g("\"\r\n\r\n--"@),
        without_g(
            "\r\nContent-Type: application/pgp-encrypted; charset=\"utf-8\"\r\nContent-Transfer-Encoding: 7bit\r\n\r\nVersion: 1\r\n--"@,
        ),
        without_g("\r\nContent-Type: "@),
        without_g("; charset=\"utf-8\"\r\nContent-Transfer-Encoding: 7bit\r\n\r\n"@),
        without_g("\r\n--"@),
        without_g("--\r\n"@),
{
    reveal_strlit("Subject: ");
    reveal_strlit("[...]");
    reveal_strlit("ratatosk-boundary");
    reveal_strlit("application/octet-stream");
    reveal_strlit("\"\r\n\r\n--");
    reveal_strlit("\r\nContent-Type: ");
    reveal_strlit("\r\n--");
    reveal_strlit("--\r\n");
    assert(without_g("; charset=\"utf-8\"\r\nContent-Transfer-Encoding: 7bit\r\n\r\n"@)) by {
        reveal_strlit("; charset=\"utf-8\"\r\nContent-Transfer-Encoding: 7bit\r\n\r\n");
    }
    assert(without_g(
        "\r\nMIME-Version: 1.0\r\nContent-Type: multipart/encrypted; protocol=\"application/pgp-encrypted\"; boundary=\""@,
    )) by {
        reveal_strlit(
            "\r\nMIME-Version: 1.0\r\nContent-Type: multipart/encrypted; protocol=\"application/pgp-encrypted\"; boundary=\"",
        );
    }
    assert(without_g(
        "\r\nContent-Type: application/pgp-encrypted; charset=\"utf-8\"\r\nContent-Transfer-Encoding: 7bit\r\n\r\nVersion: 1\r\n--"@,
    )) by {
        reveal_strlit(
            "\r\nContent-Type: application/pgp-encrypted; charset=\"utf-8\"\r\nContent-Transfer-Encoding: 7bit\r\n\r\nVersion: 1\r\n--",
        );
    }
}

/// An opening mark stands nowhere where there is no capital G.
proof fn lemma_no_begin_without_g(s: Seq<char>)
    requires
        without_g(s),
    ensures
        !text::occurs(s, ARMOR_BEGIN@),
{
    lemma_marks();
    if text::occurs(s, ARMOR_BEGIN@) {
        let at = choose|at: int| text::occurs_at(s, ARMOR_BEGIN@, at);
        assert(s.subrange(at, at + 27)[7] == 'G');
    }
}

/// A header line holds an opening mark only where its value does.
proof fn lemma_header_line(label: Seq<char>, value: Seq<char>)
    requires
        forall|i: int| 0 <= i < label.len() ==> label[i] != '-',
        !text::occurs(value, ARMOR_BEGIN@),
    ensures
        !text::occurs(label + value + "\r\n"@, ARMOR_BEGIN@),
{
    lemma_marks();
    reveal_strlit("\r\n");
    let s = label + value + "\r\n"@;
    if text::occurs(s, ARMOR_BEGIN@) {
        let at = choose|at: int| text::occurs_at(s, ARMOR_BEGIN@, at);
        assert(s.subrange(at, at + 27)[0] == '-');
        assert(at >= label.len());
        let at2 = at - label.len();
        let cr = (label.len() + value.len()) as int;
        if at + 27 > cr {
            assert(s[cr] == '\r' && s[cr + 1] == '\n');
            if at <= cr {
                assert(s.subrange(at, at + 27)[cr - at] == ARMOR_BEGIN@[cr - at]);
            }
        }
        assert(value.subrange(at2, at2 + 27) =~= s.subrange(at, at + 27));
        assert(text::occurs_at(value, ARMOR_BEGIN@, at2));
    }
}

/// What of the head follows the addresses.
spec fn head_rest() -> Seq<char> {
    "Subject: "@ + SUBJECT@
        + "\r\nMIME-Version: 1.0\r\nContent-Type: multipart/encrypted; protocol=\"application/pgp-encrypted\"; boundary=\""@
        + BOUNDARY@ + "\"\r\n\r\n--"@ + BOUNDARY@
        + "\r\nContent-Type: application/pgp-encrypted; charset=\"utf-8\"\r\nContent-Transfer-Encoding: 7bit\r\n\r\nVersion: 1\r\n--"@
        + BOUNDARY@ + "\r\nContent-Type: "@ + CONTENT_TYPE@
        + "; charset=\"utf-8\"\r\nContent-Transfer-Encoding: 7bit\r\n\r\n"@
}

/// The head is two header lines and the rest.
proof fn lemma_head_pieces(from: Seq<char>, to: Seq<char>)
    ensures
        letter::head_text(from, to) == ("From: "@ + from + "\r\n"@) + (("To: "@ + to + "\r\n"@)
            + head_rest()),
        letter::head_text(from, to).len() > 0 && letter::head_text(from, to).last() == '\n',
{
    assert("\r\nTo: "@ =~= "\r\n"@ + "To: "@) by {
        reveal_strlit("\r\nTo: ");
        reveal_strlit("\r\n");
        reveal_strlit("To: ");
    }
    assert("\r\nSubject: "@ =~= "\r\n"@ + "Subject: "@) by {
        reveal_strlit("\r\nSubject: ");
        reveal_strlit("\r\n");
        reveal_strlit("Subject: ");
    }
    let last = "; charset=\"utf-8\"\r\nContent-Transfer-Encoding: 7bit\r\n\r\n"@;
    assert(last.len() > 0 && last.last() == '\n') by {
        reveal_strlit("; charset=\"utf-8\"\r\nContent-Transfer-Encoding: 7bit\r\n\r\n");
    }
    let head = letter::head_text(from, to);
    assert(head =~= ("From: "@ + from + "\r\n"@) + (("To: "@ + to + "\r\n"@) + head_rest()));
    assert(head.last() == last.last());
}

/// The head holds an opening mark only where an address does.
proof fn lemma_head_is_clean(from: Seq<char>, to: Seq<char>)
    requires
        !text::occurs(from, ARMOR_BEGIN@),
        !text::occurs(to, ARMOR_BEGIN@),
    ensures
        !text::occurs(letter::head_text(from, to), ARMOR_BEGIN@),
{
    lemma_marks();
    lemma_head_pieces(from, to);
    lemma_envelope_is_without_g();
    let rest = head_rest();
    assert(without_g(rest));
    lemma_no_begin_without_g(rest);
    let a = "From: "@ + from + "\r\n"@;
    let b = "To: "@ + to + "\r\n"@;
    assert(forall|i: int| 0 <= i < "From: "@.len() ==> "From: "@[i] != '-') by {
        reveal_strlit("From: ");
    }
    assert(forall|i: int| 0 <= i < "To: "@.len() ==> "To: "@[i] != '-') by {
        reveal_strlit("To: ");
    }
    lemma_header_line("From: "@, from);
    lemma_header_line("To: "@, to);
    assert(a.last() == '\n' && b.last() == '\n' && a.len() > 0 && b.len() > 0) by {
        reveal_strlit("\r\n");
    }
    if text::occurs(a + (b + rest), ARMOR_BEGIN@) {
        let at = choose|at: int| text::occurs_at(a + (b + rest), ARMOR_BEGIN@, at);
        lemma_occurs_in_a_piece(a, b + rest, ARMOR_BEGIN@, at);
        if at + 27 > a.len() {
            lemma_occurs_in_a_piece(b, rest, ARMOR_BEGIN@, at - a.len());
        }
    }
}

/// Unfolded text that ends a line still does.
proof fn lemma_unfolded_last(s: Seq<char>)
    requires
        s.len() > 0,
    ensures
        letter::unfolded(s).len() > 0,
        letter::unfolded(s).last() == s.last(),
    decreases s.len(),
{
    if s.len() >= 2 && s[0] == '\r' && s[1] == '\n' {
        let rest = s.subrange(2, s.len() as int);
        if rest.len() > 0 {
            lemma_unfolded_last(rest);
        } else {
            assert(letter::unfolded(rest) =~= seq![]);
        }
    } else {
        let rest = s.subrange(1, s.len() as int);
        if rest.len() > 0 {
            lemma_unfolded_last(rest);
        } else {
            assert(letter::unfolded(rest) =~= seq![]);
        }
    }
}

/// No opening mark stands in the tail.
proof fn lemma_tail()
    ensures
        !text::occurs(letter::tail_text(), ARMOR_BEGIN@),
{
    lemma_envelope_is_without_g();
    assert(without_g(letter::tail_text()));
    lemma_no_begin_without_g(letter::tail_text());
}

/// Unfolding puts no opening mark into a text.
proof fn lemma_unfolded_is_clean(s: Seq<char>)
    requires
        !text::occurs(s, ARMOR_BEGIN@),
    ensures
        !text::occurs(letter::unfolded(s), ARMOR_BEGIN@),
{
    lemma_marks();
    if text::occurs(letter::unfolded(s), ARMOR_BEGIN@) {
        let at = choose|at: int| text::occurs_at(letter::unfolded(s), ARMOR_BEGIN@, at);
        lemma_unfolded_occurs(s, ARMOR_BEGIN@, at);
    }
}

/// A letter gives back the frames it was made of, in order, as it was made and
/// with every pair of carriage return and line feed made a line feed, unless an
/// address holds the line that opens an armor.
pub proof fn lemma_letter_is_read_back(from: Seq<char>, to: Seq<char>, frames: Seq<Seq<u8>>)
    requires
        letter::build_error(from, to, frames) is None,
        forall|i: int| 0 <= i < frames.len() ==> letter::armor_is_faithful(#[trigger] frames[i]),
        !text::occurs(from, ARMOR_BEGIN@),
        !text::occurs(to, ARMOR_BEGIN@),
    ensures
        letter::frames_of(encode_utf8(letter::letter_text(from, to, frames))) == Ok::<
            Seq<Seq<u8>>,
            MessageError,
        >(frames),
        letter::frames_of(encode_utf8(letter::unfolded(letter::letter_text(from, to, frames))))
            == Ok::<Seq<Seq<u8>>, MessageError>(frames),
{
    let head = letter::head_text(from, to);
    let armors = letter::armors_text(frames);
    let tail = letter::tail_text();
    let whole = letter::letter_text(from, to, frames);
    lemma_head_pieces(from, to);
    lemma_head_is_clean(from, to);
    lemma_tail();
    lemma_armors_unfold(frames);
    text::lemma_utf8_len(whole);
    assert(whole =~= head + (armors + tail));
    assert forall|i: int| 0 <= i < frames.len() implies (#[trigger] frames[i]).len() + 1
        <= 0xffff_ffff by {
        assert(armors.len() >= frames[i].len());
    }
    lemma_armors_lf_chars(frames);

    let h1 = letter::unfolded(head);
    let lf = armors_lf(frames);
    let t1 = letter::unfolded(tail);
    lemma_unfolded_concat(armors, tail);
    lemma_unfolded_concat(head, armors + tail);
    let once = letter::unfolded(whole);
    assert(once =~= h1 + lf + t1);
    lemma_unfolded_last(head);
    lemma_unfolded_is_clean(head);
    lemma_unfolded_is_clean(tail);
    lemma_frames_are_found(h1, frames, t1);
    text::lemma_utf8_round_trip(whole);

    let h2 = letter::unfolded(h1);
    let t2 = letter::unfolded(t1);
    lemma_unfolded_same(lf);
    lemma_unfolded_concat(lf, t1);
    assert(once =~= h1 + (lf + t1));
    lemma_unfolded_concat(h1, lf + t1);
    let twice = letter::unfolded(once);
    assert(twice =~= h2 + lf + t2);
    lemma_unfolded_last(h1);
    lemma_unfolded_is_clean(h1);
    lemma_unfolded_is_clean(t1);
    lemma_frames_are_found(h2, frames, t2);
    text::lemma_utf8_round_trip(once);
    lemma_unfolded_bytes(whole);
}

/// No line of wrapped text is longer than `LINE_LEN`: a stretch of it without
/// line breaks never is.
pub proof fn lemma_wrapped_lines_are_short(bytes: Seq<u8>, i: int, j: int)
    requires
        0 <= i <= j <= letter::wrapped(bytes).len(),
        forall|k: int|
            i <= k < j ==> letter::wrapped(bytes)[k] != '\r' && letter::wrapped(bytes)[k] != '\n',
    ensures
        j - i <= LINE_LEN,
    decreases bytes.len(),
{
    let w = letter::wrapped(bytes);
    let n = LINE_LEN as int;
    if bytes.len() <= LINE_LEN {
        lemma_wrapped_line_len(bytes);
    } else {
        let head = bytes.subrange(0, n);
        let rest = bytes.subrange(n, bytes.len() as int);
        let line = letter::wrapped_line(head);
        lemma_wrapped_line_len(head);
        reveal_strlit("\r\n");
        let l = line.len() as int;
        assert(w[l] == '\r' && w[l + 1] == '\n');
        if j > l {
            assert(i > l + 1 || i == j);
            if i > l + 1 {
                assert forall|k: int| i - l - 2 <= k < j - l - 2 implies letter::wrapped(rest)[k]
                    != '\r' && letter::wrapped(rest)[k] != '\n' by {
                    assert(w[k + l + 2] == letter::wrapped(rest)[k]);
                }
                lemma_wrapped_lines_are_short(rest, i - l - 2, j - l - 2);
            }
        }
    }
}

/// A line has no more characters than bytes.
proof fn lemma_wrapped_line_len(bytes: Seq<u8>)
    ensures
        letter::wrapped_line(bytes).len() <= bytes.len(),
{
    if let Some(line) = text::utf8_text(bytes) {
        vstd::utf8::decode_utf8_encode_utf8(bytes);
        text::lemma_utf8_len(line);
    }
}

/// How long wrapped text gets: a line break behind every full line but the last.
proof fn lemma_wrapped_len(t: Seq<char>)
    requires
        is_ascii_chars(t),
    ensures
        is_ascii_chars(wrapped_chars(t, "\r\n"@)),
        wrapped_chars(t, "\r\n"@).len() <= t.len() + 2 * (t.len() / LINE_LEN as nat),
    decreases t.len(),
{
    reveal_strlit("\r\n");
    if t.len() > LINE_LEN {
        let n = LINE_LEN as int;
        let rest = t.subrange(n, t.len() as int);
        lemma_wrapped_len(rest);
        assert(rest.len() / LINE_LEN as nat == t.len() / LINE_LEN as nat - 1);
    }
}

/// How long an armor gets, in bytes.
proof fn lemma_armor_len(frame: Seq<u8>)
    requires
        frame.len() <= SizeClass::L.frame_size(),
    ensures
        encode_utf8(letter::armor_text(frame)).len() <= 1_500_000,
{
    let packet = letter::packet_bytes(frame);
    let t = encoding::base64_text(packet);
    let sum = encoding::base64_text(letter::crc24_bytes(packet));
    lemma_armor_texts(frame);
    lemma_base64_chars(t);
    lemma_base64_chars(sum);
    lemma_wrapped_ascii(t);
    lemma_wrapped_len(t);
    lemma_marks();
    reveal_strlit("\r\n");
    reveal_strlit("\r\n=");
    reveal_strlit("\r\n\r\n");
    reveal_strlit("-----BEGIN PGP MESSAGE-----");
    reveal_strlit("-----END PGP MESSAGE-----");
    assert(packet.len() == frame.len() + letter::PACKET_HEADER_LEN);
    assert(is_ascii_chars(letter::armor_text(frame)));
    vstd::utf8::is_ascii_chars_encode_utf8(letter::armor_text(frame));
}

/// How long the head of a letter gets, in bytes.
proof fn lemma_head_len(from: Seq<char>, to: Seq<char>)
    ensures
        encode_utf8(letter::head_text(from, to)).len() <= encode_utf8(from).len() + encode_utf8(
            to,
        ).len() + 4000,
{
    reveal_strlit("From: ");
    reveal_strlit("\r\nTo: ");
    let rest = "\r\nSubject: "@ + SUBJECT@
        + "\r\nMIME-Version: 1.0\r\nContent-Type: multipart/encrypted; protocol=\"application/pgp-encrypted\"; boundary=\""@
        + BOUNDARY@ + "\"\r\n\r\n--"@ + BOUNDARY@
        + "\r\nContent-Type: application/pgp-encrypted; charset=\"utf-8\"\r\nContent-Transfer-Encoding: 7bit\r\n\r\nVersion: 1\r\n--"@
        + BOUNDARY@ + "\r\nContent-Type: "@ + CONTENT_TYPE@
        + "; charset=\"utf-8\"\r\nContent-Transfer-Encoding: 7bit\r\n\r\n"@;
    assert(rest.len() <= 800) by {
        reveal_strlit("\r\nSubject: ");
        reveal_strlit("[...]");
        reveal_strlit(
            "\r\nMIME-Version: 1.0\r\nContent-Type: multipart/encrypted; protocol=\"application/pgp-encrypted\"; boundary=\"",
        );
        reveal_strlit("ratatosk-boundary");
        reveal_strlit("\"\r\n\r\n--");
        reveal_strlit(
            "\r\nContent-Type: application/pgp-encrypted; charset=\"utf-8\"\r\nContent-Transfer-Encoding: 7bit\r\n\r\nVersion: 1\r\n--",
        );
        reveal_strlit("\r\nContent-Type: ");
        reveal_strlit("application/octet-stream");
        reveal_strlit("; charset=\"utf-8\"\r\nContent-Transfer-Encoding: 7bit\r\n\r\n");
    }
    let (a, b) = ("From: "@, "\r\nTo: "@);
    assert(letter::head_text(from, to) =~= a + from + b + to + rest);
    text::lemma_utf8_concat(a + from + b + to, rest);
    text::lemma_utf8_concat(a + from + b, to);
    text::lemma_utf8_concat(a + from, b);
    text::lemma_utf8_concat(a, from);
    text::lemma_utf8_len(a);
    text::lemma_utf8_len(b);
    text::lemma_utf8_len(rest);
}

/// A frame of any size fits a letter, whoever writes to whom: the addresses need
/// only leave the letter room for twice the largest frame.
pub proof fn lemma_largest_frame_fits(from: Seq<char>, to: Seq<char>, frame: Seq<u8>)
    requires
        frame.len() <= SizeClass::L.frame_size(),
        letter::leave_room(from, to),
    ensures
        letter::build_error(from, to, seq![frame]) is None,
{
    let frames = seq![frame];
    let (a, b, c) = (letter::head_text(from, to), letter::armors_text(frames), letter::tail_text());
    text::lemma_utf8_concat(a + b, c);
    text::lemma_utf8_concat(a, b);
    assert(b == letter::armor_text(frame));
    lemma_armor_len(frame);
    lemma_head_len(from, to);
    reveal_strlit("\r\n--");
    reveal_strlit("ratatosk-boundary");
    reveal_strlit("--\r\n");
    text::lemma_utf8_len(c);
}

} // verus!
