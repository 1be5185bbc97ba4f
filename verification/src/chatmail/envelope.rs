//! How a letter is laid out and what of one that comes is read: the packet, the
//! armor, the lines of the armor, and the text around it.

use crate::chatmail::letter;
use crate::chatmail::letter::{MessageError, ARMOR_BEGIN, ARMOR_END};
use crate::encoding;
use crate::octets;
use crate::text;
use vstd::prelude::*;
use vstd::string::*;
use vstd::utf8::encode_utf8;

verus! {

broadcast use vstd::string::group_string_axioms;

/// A packet is its tag, the sign of a long length, the length in four bytes, the
/// version, and the frame: the length counts what follows it.
pub proof fn lemma_a_packet_is_laid_out(frame: Seq<u8>)
    ensures
        letter::packet_bytes(frame).len() == frame.len() + 7,
        letter::packet_bytes(frame)[0] == 0xD2,
        letter::packet_bytes(frame)[1] == 0xFF,
        frame.len() + 1 <= 0xffff_ffff ==> octets::be(letter::packet_bytes(frame).subrange(2, 6))
            == frame.len() + 1,
        frame.len() + 1 > 0xffff_ffff ==> octets::be(letter::packet_bytes(frame).subrange(2, 6))
            == 0xffff_ffff,
        letter::packet_bytes(frame)[6] == 1,
        letter::packet_bytes(frame).skip(7) == frame,
{
    let p = letter::packet_bytes(frame);
    octets::lemma_be4(letter::declared_len(frame));
    assert(p.subrange(2, 6) =~= octets::be4(letter::declared_len(frame)));
    assert(p.skip(7) =~= frame);
}

/// A frame is read only out of the packet that it is put in: nothing that differs
/// from it in a byte is taken for it, and nothing else is taken at all.
pub proof fn lemma_only_our_packets_are_read(packet: Seq<u8>)
    ensures
        letter::packet_frame(packet) matches Ok(frame) ==> packet == letter::packet_bytes(frame),
        letter::packet_frame(packet) matches Err(e) ==> e == MessageError::NotOurPacket
            && forall|frame: Seq<u8>|
            frame.len() + 1 <= 0xffff_ffff ==> #[trigger] letter::packet_bytes(frame) != packet,
{
    if let Ok(frame) = letter::packet_frame(packet) {
        let made = letter::packet_bytes(frame);
        let four = packet.subrange(2, 6);
        octets::lemma_be_bound(four);
        assert(octets::be(four) == frame.len() + 1);
        octets::lemma_be4(letter::declared_len(frame));
        octets::lemma_be_injective(four, octets::be4(letter::declared_len(frame)));
        assert forall|i: int| 0 <= i < packet.len() implies packet[i] == made[i] by {
            if 2 <= i < 6 {
                assert(four[i - 2] == packet[i]);
            } else if i >= 7 {
                assert(frame[i - 7] == packet[i]);
            }
        }
        assert(packet =~= made);
    } else {
        assert forall|frame: Seq<u8>|
            frame.len() + 1 <= 0xffff_ffff implies #[trigger] letter::packet_bytes(frame)
            != packet by {
            letter::lemma_packet_round_trip(frame);
        }
    }
}

/// Squeezed, a text is all of it but its white space, in order.
pub proof fn lemma_only_white_space_is_squeezed_out(s: Seq<char>)
    ensures
        letter::squeezed(s) == s.filter(|c: char| !text::is_space(c)),
    decreases s.len(),
{
    reveal(Seq::filter);
    if s.len() > 0 {
        lemma_only_white_space_is_squeezed_out(s.drop_last());
    }
}

/// A line break of two signs is read as one line feed, wherever it stands, and
/// nothing else is changed.
pub proof fn lemma_line_breaks_are_unfolded(front: Seq<char>, back: Seq<char>)
    ensures
        letter::unfolded(front + seq!['\r', '\n'] + back) == letter::unfolded(front) + seq!['\n']
            + letter::unfolded(back),
        !text::occurs(front, seq!['\r', '\n']) ==> letter::unfolded(front) == front,
    decreases front.len(),
{
    let pair = seq!['\r', '\n'];
    let s = front + pair + back;
    if front.len() == 0 {
        assert(s[0] == '\r' && s[1] == '\n');
        assert(s.subrange(2, s.len() as int) =~= back);
        assert(letter::unfolded(s) =~= letter::unfolded(front) + seq!['\n'] + letter::unfolded(
            back,
        ));
        assert(letter::unfolded(front) =~= front);
    } else {
        let folds = front.len() >= 2 && front[0] == '\r' && front[1] == '\n';
        let n: int = if folds {
            2
        } else {
            1
        };
        let rest = front.subrange(n, front.len() as int);
        lemma_line_breaks_are_unfolded(rest, back);
        assert(s[0] == front[0]);
        assert(s.subrange(n, s.len() as int) =~= rest + pair + back);
        if front.len() == 1 {
            assert(s[1] == '\r');
        } else {
            assert(s[1] == front[1]);
        }
        assert(letter::unfolded(s) =~= letter::unfolded(front) + seq!['\n'] + letter::unfolded(
            back,
        ));
        if !text::occurs(front, pair) {
            assert(!folds) by {
                if folds {
                    assert(front.subrange(0, 2) =~= pair);
                    assert(text::occurs_at(front, pair, 0));
                }
            }
            assert(!text::occurs(rest, pair)) by {
                if text::occurs(rest, pair) {
                    let at = choose|at: int| text::occurs_at(rest, pair, at);
                    assert(front.subrange(at + 1, at + 3) =~= rest.subrange(at, at + 2));
                    assert(text::occurs_at(front, pair, at + 1));
                }
            }
            assert(letter::unfolded(front) =~= front);
        }
    }
}

/// What stands under an armor above the first empty line are headers, and what
/// follows that line is the data. Line feeds ahead of the headers do not count, and
/// without an empty line all of it is data.
pub proof fn lemma_headers_end_at_the_first_empty_line(
    breaks: nat,
    headers: Seq<char>,
    data: Seq<char>,
)
    requires
        headers.len() > 0,
        headers[0] != '\n',
        !text::occurs(headers.push('\n'), seq!['\n', '\n']),
    ensures
        letter::armor_data(Seq::new(breaks, |i: int| '\n') + (headers + seq!['\n', '\n'] + data))
            == data,
        letter::armor_data(Seq::new(breaks, |i: int| '\n') + headers) == Seq::new(
            breaks,
            |i: int| '\n',
        ) + headers,
{
    reveal_strlit("\n\n");
    let empty = seq!['\n', '\n'];
    assert("\n\n"@ =~= empty);
    let lead = Seq::new(breaks, |i: int| '\n');
    let body = headers + empty + data;
    lemma_leading_breaks_go(breaks, body);
    lemma_leading_breaks_go(breaks, headers);
    let at = headers.len() as int;
    assert(body.subrange(at, at + 2) =~= empty);
    assert forall|k: int| 0 <= k < at implies !text::occurs_at(body, empty, k) by {
        if text::occurs_at(body, empty, k) {
            assert(body.subrange(k, k + 2) =~= headers.push('\n').subrange(k, k + 2));
            assert(text::occurs_at(headers.push('\n'), empty, k));
        }
    }
    text::lemma_first_is(body, empty, 0, at);
    assert(body.subrange(at + 2, body.len() as int) =~= data);
    text::lemma_first_from(headers, empty, 0);
    if let Some(k) = text::first(headers, empty) {
        assert(headers.subrange(k, k + 2) =~= headers.push('\n').subrange(k, k + 2));
        assert(text::occurs_at(headers.push('\n'), empty, k));
    }
}

proof fn lemma_leading_breaks_go(breaks: nat, s: Seq<char>)
    requires
        s.len() > 0,
        s[0] != '\n',
    ensures
        letter::without_leading_breaks(Seq::new(breaks, |i: int| '\n') + s) == s,
    decreases breaks,
{
    let all = Seq::new(breaks, |i: int| '\n') + s;
    if breaks == 0 {
        assert(all =~= s);
    } else {
        let fewer = (breaks - 1) as nat;
        lemma_leading_breaks_go(fewer, s);
        assert(all[0] == '\n');
        assert(all.subrange(1, all.len() as int) =~= Seq::new(fewer, |i: int| '\n') + s);
    }
}

/// Armored data is read line by line: of each line all but its white space, of a line
/// that begins with an equals sign nothing. The last line needs no break behind it.
pub proof fn lemma_armored_data_is_read_by_lines(line: Seq<char>, rest: Seq<char>)
    requires
        !line.contains('\n'),
    ensures
        ({
            let start = text::trimmed_start(line);
            let kept = if start.len() > 0 && start[0] == '=' {
                seq![]
            } else {
                line.filter(|c: char| !text::is_space(c))
            };
            &&& letter::base64_lines(line + seq!['\n'] + rest) == kept + letter::base64_lines(rest)
            &&& letter::base64_lines(line) == kept
        }),
{
    lemma_only_white_space_is_squeezed_out(line);
    let s = line + seq!['\n'] + rest;
    let n = line.len() as int;
    text::lemma_line_end(s, 0);
    text::lemma_line_end(line, 0);
    let end = text::line_end(s, 0);
    if end < n {
        assert(s[end] == line[end]);
        assert(line.contains('\n'));
    }
    if end > n {
        assert(s[n] == '\n');
    }
    assert(s.subrange(0, n) =~= line);
    assert(s.subrange(n + 1, s.len() as int) =~= rest);
    let own_end = text::line_end(line, 0);
    if own_end < n {
        assert(line.contains('\n'));
    }
    assert(line.subrange(0, n) =~= line);
}

/// Under an armor stands the frame in the packet that its lines spell in base64:
/// nothing there is nothing to read, and what is no base64 or no packet of ours is
/// refused as such.
pub proof fn lemma_an_armor_holds_its_packet(inside: Seq<char>)
    ensures
        ({
            let encoded = letter::base64_lines(letter::armor_data(inside));
            let packet = encoding::base64_bytes(encoded);
            &&& encoded.len() == 0 <==> letter::unarmored(inside) == Err::<Seq<u8>, MessageError>(
                MessageError::Empty,
            )
            &&& encoded.len() > 0 && packet is None <==> letter::unarmored(inside) == Err::<
                Seq<u8>,
                MessageError,
            >(MessageError::NotBase64)
            &&& letter::unarmored(inside) matches Ok(frame) ==> packet == Some(
                letter::packet_bytes(frame),
            )
            &&& encoded.len() > 0 && packet is Some ==> letter::unarmored(inside)
                == letter::packet_frame(packet->0)
        }),
{
    let encoded = letter::base64_lines(letter::armor_data(inside));
    if let Some(packet) = encoding::base64_bytes(encoded) {
        lemma_only_our_packets_are_read(packet);
    }
}

/// Frames stand under armors, in the order of these; what stands around the armors
/// does not matter. The first armor that holds no frame spoils the whole, and so does
/// one that is not closed.
pub proof fn lemma_frames_are_read_armor_by_armor(
    front: Seq<char>,
    inside: Seq<char>,
    rest: Seq<char>,
)
    requires
        text::first(front + ARMOR_BEGIN@ + inside + ARMOR_END@ + rest, ARMOR_BEGIN@) == Some(
            front.len() as int,
        ),
        text::first(inside + ARMOR_END@ + rest, ARMOR_END@) == Some(inside.len() as int),
    ensures
        ({
            let whole = letter::frames_in(front + ARMOR_BEGIN@ + inside + ARMOR_END@ + rest);
            &&& letter::unarmored(inside) matches Err(e) ==> whole == Err::<
                Seq<Seq<u8>>,
                MessageError,
            >(e)
            &&& letter::unarmored(inside) is Ok && letter::frames_in(rest) is Err ==> whole
                == letter::frames_in(rest)
            &&& letter::unarmored(inside) is Ok && letter::frames_in(rest) is Ok ==> whole == Ok::<
                Seq<Seq<u8>>,
                MessageError,
            >(seq![letter::unarmored(inside)->Ok_0] + letter::frames_in(rest)->Ok_0)
        }),
{
    let s = front + ARMOR_BEGIN@ + inside + ARMOR_END@ + rest;
    let start = front.len() as int;
    let after = s.subrange(start + ARMOR_BEGIN@.len(), s.len() as int);
    assert(after =~= inside + ARMOR_END@ + rest);
    assert(after.subrange(0, inside.len() as int) =~= inside);
    assert(after.subrange((inside.len() + ARMOR_END@.len()) as int, after.len() as int) =~= rest);
}

/// Text without an armor holds no frame, and an armor that is not closed spoils the
/// whole.
pub proof fn lemma_no_frame_without_a_closed_armor(front: Seq<char>, rest: Seq<char>)
    ensures
        !text::occurs(front, ARMOR_BEGIN@) ==> letter::frames_in(front) == Ok::<
            Seq<Seq<u8>>,
            MessageError,
        >(seq![]),
        text::first(front + ARMOR_BEGIN@ + rest, ARMOR_BEGIN@) == Some(front.len() as int)
            && !text::occurs(rest, ARMOR_END@) ==> letter::frames_in(front + ARMOR_BEGIN@ + rest)
            == Err::<Seq<Seq<u8>>, MessageError>(MessageError::NoBody),
{
    text::lemma_first_from(front, ARMOR_BEGIN@, 0);
    if let Some(at) = text::first(front, ARMOR_BEGIN@) {
        assert(text::occurs_at(front, ARMOR_BEGIN@, at));
    }
    let s = front + ARMOR_BEGIN@ + rest;
    let start = front.len() as int;
    assert(s.subrange(start + ARMOR_BEGIN@.len(), s.len() as int) =~= rest);
    text::lemma_first_from(rest, ARMOR_END@, 0);
    if let Some(at) = text::first(rest, ARMOR_END@) {
        assert(text::occurs_at(rest, ARMOR_END@, at));
    }
}

/// A letter is read where it is not over thirty mebibytes, is text and holds a frame:
/// its frames are those in its text once the line breaks are unfolded.
pub proof fn lemma_a_letter_is_read_by_its_text(message: Seq<u8>)
    ensures
        letter::frames_of(message) == Err::<Seq<Seq<u8>>, MessageError>(MessageError::TooLarge)
            ==> message.len() > 31_457_280,
        message.len() > 31_457_280 ==> letter::frames_of(message) == Err::<
            Seq<Seq<u8>>,
            MessageError,
        >(MessageError::TooLarge),
        message.len() <= 31_457_280 && text::utf8_text(message) is None ==> letter::frames_of(
            message,
        ) == Err::<Seq<Seq<u8>>, MessageError>(MessageError::NotBase64),
        message.len() <= 31_457_280 && text::utf8_text(message) is Some ==> {
            let found = letter::frames_in(letter::unfolded(text::utf8_text(message)->0));
            &&& found is Err ==> letter::frames_of(message) == found
            &&& found is Ok && found->Ok_0.len() == 0 ==> letter::frames_of(message) == Err::<
                Seq<Seq<u8>>,
                MessageError,
            >(MessageError::NoBody)
            &&& found is Ok && found->Ok_0.len() > 0 ==> letter::frames_of(message) == found
        },
{
    lemma_a_text_is_never_too_large(message);
}

/// Reading text never finds it too large: that is said of the letter as a whole.
proof fn lemma_a_text_is_never_too_large(message: Seq<u8>)
    ensures
        message.len() <= 31_457_280 ==> letter::frames_of(message) != Err::<
            Seq<Seq<u8>>,
            MessageError,
        >(MessageError::TooLarge),
{
    if let Some(chars) = text::utf8_text(message) {
        lemma_frames_in_is_never_too_large(letter::unfolded(chars));
    }
}

proof fn lemma_frames_in_is_never_too_large(s: Seq<char>)
    ensures
        letter::frames_in(s) != Err::<Seq<Seq<u8>>, MessageError>(MessageError::TooLarge),
    decreases s.len(),
{
    reveal_strlit("-----BEGIN PGP MESSAGE-----");
    text::lemma_first_from(s, ARMOR_BEGIN@, 0);
    if let Some(start) = text::first(s, ARMOR_BEGIN@) {
        let after = s.subrange(start + ARMOR_BEGIN@.len(), s.len() as int);
        text::lemma_first_from(after, ARMOR_END@, 0);
        if let Some(end) = text::first(after, ARMOR_END@) {
            lemma_frames_in_is_never_too_large(
                after.subrange(end + ARMOR_END@.len(), after.len() as int),
            );
        }
    }
}

/// A letter is refused where there is nothing to send, and where it would be over
/// thirty mebibytes; else it is made.
pub proof fn lemma_a_letter_is_refused_for_its_size(
    from: Seq<char>,
    to: Seq<char>,
    frames: Seq<Seq<u8>>,
)
    ensures
        letter::build_error(from, to, frames) == Some(MessageError::Empty) <==> frames.len() == 0,
        letter::build_error(from, to, frames) == Some(MessageError::TooLarge) <==> frames.len() > 0
            && encode_utf8(letter::letter_text(from, to, frames)).len() > 31_457_280,
        letter::build_error(from, to, frames) is None <==> frames.len() > 0 && encode_utf8(
            letter::letter_text(from, to, frames),
        ).len() <= 31_457_280,
{
}

/// A letter says first from whom it is, to whom, and under the one subject of all
/// letters; it ends with the closing boundary.
pub proof fn lemma_a_letter_names_its_ends(
    from: Seq<char>,
    to: Seq<char>,
    frames: Seq<Seq<u8>>,
)
    ensures
        ({
            let whole = letter::letter_text(from, to, frames);
            let first = from.len() as int + 6;
            let second = first + 6 + to.len();
            &&& text::occurs_at(whole, "From: "@, 0)
            &&& text::occurs_at(whole, from, 6)
            &&& text::occurs_at(whole, "\r\nTo: "@, first)
            &&& text::occurs_at(whole, to, first + 6)
            &&& text::occurs_at(whole, "\r\nSubject: [...]\r\nMIME-Version: 1.0\r\n"@, second)
            &&& text::occurs_at(
                whole,
                "\r\n--ratatosk-boundary--\r\n"@,
                whole.len() - 25,
            )
        }),
{
    let whole = letter::letter_text(from, to, frames);
    reveal_strlit("From: ");
    reveal_strlit("\r\nTo: ");
    reveal_strlit("\r\nSubject: ");
    reveal_strlit("[...]");
    reveal_strlit(
        "\r\nMIME-Version: 1.0\r\nContent-Type: multipart/encrypted; protocol=\"application/pgp-encrypted\"; boundary=\"",
    );
    reveal_strlit("\r\nSubject: [...]\r\nMIME-Version: 1.0\r\n");
    reveal_strlit("\r\n--");
    reveal_strlit("ratatosk-boundary");
    reveal_strlit("--\r\n");
    reveal_strlit("\r\n--ratatosk-boundary--\r\n");
    let first = (from.len() + 6) as int;
    let second = (first + 6 + to.len()) as int;
    let head = letter::head_text(from, to);
    assert(head.subrange(0, 6) =~= "From: "@);
    assert(head.subrange(6, first) =~= from);
    assert(head.subrange(first, first + 6) =~= "\r\nTo: "@);
    assert(head.subrange(first + 6, second) =~= to);
    assert(head.subrange(second, second + 37)
        =~= "\r\nSubject: [...]\r\nMIME-Version: 1.0\r\n"@);
    assert(whole.subrange(0, 6) =~= head.subrange(0, 6));
    assert(whole.subrange(6, first) =~= head.subrange(6, first));
    assert(whole.subrange(first, first + 6) =~= head.subrange(first, first + 6));
    assert(whole.subrange(first + 6, second) =~= head.subrange(first + 6, second));
    assert(whole.subrange(second, second + 37) =~= head.subrange(second, second + 37));
    let tail = letter::tail_text();
    assert(tail =~= "\r\n--ratatosk-boundary--\r\n"@);
    assert(whole.subrange(whole.len() - 25, whole.len() as int) =~= tail);
}

/// An armor opens with its line and an empty one, and closes with the base64 of the
/// checksum of the packet behind an equals sign, and its line.
pub proof fn lemma_an_armor_is_laid_out(frame: Seq<u8>)
    ensures
        ({
            let armor = letter::armor_text(frame);
            let packet = letter::packet_bytes(frame);
            let lines = letter::wrapped(encode_utf8(encoding::base64_text(packet)));
            let sum = encoding::base64_text(letter::crc24_bytes(packet));
            let n = 31 + lines.len() as int;
            let m = n + 3 + sum.len();
            &&& text::occurs_at(armor, "-----BEGIN PGP MESSAGE-----"@, 0)
            &&& text::occurs_at(armor, "\r\n\r\n"@, 27)
            &&& text::occurs_at(armor, lines, 31)
            &&& text::occurs_at(armor, "\r\n="@, n)
            &&& text::occurs_at(armor, sum, n + 3)
            &&& text::occurs_at(armor, "\r\n"@, m)
            &&& text::occurs_at(armor, "-----END PGP MESSAGE-----"@, m + 2)
            &&& armor.len() == m + 27
        }),
{
    let armor = letter::armor_text(frame);
    let packet = letter::packet_bytes(frame);
    let lines = letter::wrapped(encode_utf8(encoding::base64_text(packet)));
    let sum = encoding::base64_text(letter::crc24_bytes(packet));
    reveal_strlit("-----BEGIN PGP MESSAGE-----");
    reveal_strlit("\r\n\r\n");
    reveal_strlit("\r\n=");
    reveal_strlit("\r\n");
    reveal_strlit("-----END PGP MESSAGE-----");
    let n = (31 + lines.len()) as int;
    let m = (n + 3 + sum.len()) as int;
    assert(armor.subrange(0, 27) =~= "-----BEGIN PGP MESSAGE-----"@);
    assert(armor.subrange(27, 31) =~= "\r\n\r\n"@);
    assert(armor.subrange(31, n) =~= lines);
    assert(armor.subrange(n, n + 3) =~= "\r\n="@);
    assert(armor.subrange(n + 3, m) =~= sum);
    assert(armor.subrange(m, m + 2) =~= "\r\n"@);
    assert(armor.subrange(m + 2, m + 27) =~= "-----END PGP MESSAGE-----"@);
}

/// Between its head and its tail a letter holds the armors of its frames, in their
/// order, a line break between two.
pub proof fn lemma_a_letter_holds_its_armors(
    from: Seq<char>,
    to: Seq<char>,
    front: Seq<Seq<u8>>,
    back: Seq<Seq<u8>>,
)
    requires
        front.len() > 0,
        back.len() > 0,
    ensures
        letter::letter_text(from, to, front + back) == letter::head_text(from, to)
            + letter::armors_text(front) + "\r\n"@ + letter::armors_text(back)
            + letter::tail_text(),
        front.len() == 1 ==> letter::armors_text(front) == letter::armor_text(front[0]),
{
    lemma_armors_are_joined(front, back);
    assert(letter::letter_text(from, to, front + back) =~= letter::head_text(from, to)
        + letter::armors_text(front) + "\r\n"@ + letter::armors_text(back) + letter::tail_text());
}

proof fn lemma_armors_are_joined(front: Seq<Seq<u8>>, back: Seq<Seq<u8>>)
    requires
        front.len() > 0,
        back.len() > 0,
    ensures
        letter::armors_text(front + back) == letter::armors_text(front) + "\r\n"@
            + letter::armors_text(back),
    decreases front.len(),
{
    let all = front + back;
    let rest = front.subrange(1, front.len() as int);
    assert(all[0] == front[0]);
    assert(all.subrange(1, all.len() as int) =~= rest + back);
    if front.len() == 1 {
        assert(rest + back =~= back);
        assert(letter::armors_text(all) =~= letter::armors_text(front) + "\r\n"@
            + letter::armors_text(back));
    } else {
        lemma_armors_are_joined(rest, back);
        assert(letter::armors_text(all) =~= letter::armors_text(front) + "\r\n"@
            + letter::armors_text(back));
    }
}

/// A text of ASCII is cut into lines of seventy-six characters: the first of these,
/// a line break, and the rest cut likewise; what is no longer than that is one line.
pub proof fn lemma_lines_are_seventy_six_long(t: Seq<char>)
    requires
        vstd::utf8::is_ascii_chars(t),
    ensures
        t.len() <= 76 ==> letter::wrapped(encode_utf8(t)) == t,
        t.len() > 76 ==> letter::wrapped(encode_utf8(t)) == t.take(76) + "\r\n"@ + letter::wrapped(
            encode_utf8(t.skip(76)),
        ),
{
    vstd::utf8::is_ascii_chars_encode_utf8(t);
    if t.len() <= 76 {
        text::lemma_utf8_round_trip(t);
    } else {
        let front = t.take(76);
        let back = t.skip(76);
        assert(vstd::utf8::is_ascii_chars(front));
        vstd::utf8::is_ascii_chars_encode_utf8(front);
        assert(front + back =~= t);
        text::lemma_utf8_concat(front, back);
        let bytes = encode_utf8(t);
        assert(bytes.subrange(0, 76) =~= encode_utf8(front));
        assert(bytes.subrange(76, bytes.len() as int) =~= encode_utf8(back));
        text::lemma_utf8_round_trip(front);
    }
}

} // verus!
