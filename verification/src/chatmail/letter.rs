//! A letter that carries frames: each frame an OpenPGP packet in ASCII armor,
//! the whole in the envelope that a chatmail server lets through.

use crate::chatmail::round_trip;
use crate::encoding;
use crate::octets;
use crate::text;
use crate::wire::SizeClass;
use vstd::prelude::*;
use vstd::string::*;
use vstd::utf8::encode_utf8;

verus! {

broadcast use vstd::string::group_string_axioms;

/// The subject of every letter.
pub const SUBJECT: &'static str = "[...]";

/// What the letter says the frames are.
pub const CONTENT_TYPE: &'static str = "application/octet-stream";

/// What stands between the parts of the letter.
pub const BOUNDARY: &'static str = "ratatosk-boundary";

/// The line that opens an armor.
pub const ARMOR_BEGIN: &'static str = "-----BEGIN PGP MESSAGE-----";

/// The line that closes an armor.
pub const ARMOR_END: &'static str = "-----END PGP MESSAGE-----";

/// The longest letter, in bytes. Files are cut to fit it by a crate of the project
/// that stands elsewhere: the number mirrors the limit there, and must change with
/// it.
pub const MAX_MESSAGE_BYTES: u64 = 31_457_280;

/// The least and the greatest length of the local part of an address that a
/// server gives out.
pub const LOCAL_PART_LEN: (usize, usize) = (6, 8);

/// The length of a line of base64.
pub const LINE_LEN: usize = 76;

/// The tag of the packet: integrity protected, encrypted data.
pub const PACKET_SEIPD: u8 = 0xD2;

/// Says that the length follows in four bytes.
pub const PACKET_FIVE_OCTET_LENGTH: u8 = 0xFF;

/// The version of the packet.
pub const PACKET_VERSION: u8 = 1;

/// The length of what stands before the frame in a packet.
pub const PACKET_HEADER_LEN: usize = 7;

/// Why a letter cannot be made or read.
#[derive(Debug, Clone, Copy, PartialEq, Eq, Structural)]
pub enum MessageError {
    /// There is no armor in the letter, or one that is not closed.
    NoBody,
    /// What is under the armor is not base64, or the letter is not text.
    NotBase64,
    /// The letter is longer than the limit.
    TooLarge,
    /// There is nothing to send, or nothing under the armor.
    Empty,
    /// What is under the armor is not a packet of ours.
    NotOurPacket,
}

impl MessageError {
    /// The error in words.
    pub open spec fn words(&self) -> Seq<char> {
        match self {
            MessageError::NoBody => "письмо без тела"@,
            MessageError::NotBase64 => "тело не base64"@,
            MessageError::TooLarge => "письмо длиннее предела"@,
            MessageError::Empty => "в письме нет кадров"@,
            MessageError::NotOurPacket => "под бронёй не наш пакет"@,
        }
    }

    /// The error in words.
    pub fn text(&self) -> (s: &'static str)
        ensures
            s@ == self.words(),
    {
        match self {
            MessageError::NoBody => "письмо без тела",
            MessageError::NotBase64 => "тело не base64",
            MessageError::TooLarge => "письмо длиннее предела",
            MessageError::Empty => "в письме нет кадров",
            MessageError::NotOurPacket => "под бронёй не наш пакет",
        }
    }
}

/// The bytes of each frame.
pub open spec fn contents(frames: Seq<Vec<u8>>) -> Seq<Seq<u8>> {
    frames.map_values(|f: Vec<u8>| f@)
}

/// The length that a packet declares: that of the frame and the version byte,
/// or the largest that four bytes can say.
pub open spec fn declared_len(frame: Seq<u8>) -> nat {
    if frame.len() + 1 <= 0xffff_ffff {
        frame.len() + 1
    } else {
        0xffff_ffff
    }
}

/// The packet of a frame.
pub open spec fn packet_bytes(frame: Seq<u8>) -> Seq<u8> {
    seq![PACKET_SEIPD, PACKET_FIVE_OCTET_LENGTH] + octets::be4(declared_len(frame))
        + seq![PACKET_VERSION] + frame
}

/// The frame in a packet of ours.
pub open spec fn packet_frame(packet: Seq<u8>) -> Result<Seq<u8>, MessageError> {
    if packet.len() >= PACKET_HEADER_LEN && packet[0] == PACKET_SEIPD && packet[1]
        == PACKET_FIVE_OCTET_LENGTH && packet[6] == PACKET_VERSION && octets::be(
        packet.subrange(2, 6),
    ) == packet.len() - PACKET_HEADER_LEN + 1 {
        Ok(packet.subrange(PACKET_HEADER_LEN as int, packet.len() as int))
    } else {
        Err(MessageError::NotOurPacket)
    }
}

/// Whether a letter of this length is over the limit.
pub fn too_large(len: usize) -> (r: bool)
    ensures
        r == (len > MAX_MESSAGE_BYTES),
{
    len as u64 > MAX_MESSAGE_BYTES
}

/// The packet of a frame.
pub fn packet(frame: &[u8]) -> (packet: Vec<u8>)
    requires
        frame@.len() + PACKET_HEADER_LEN <= usize::MAX,
    ensures
        packet@ == packet_bytes(frame@),
{
    let full: u64 = frame.len() as u64;
    let body_len: u32 = if full < 0xffff_ffff {
        (full + 1) as u32
    } else {
        0xffff_ffff
    };
    let mut packet: Vec<u8> = Vec::with_capacity(PACKET_HEADER_LEN + frame.len());
    packet.push(PACKET_SEIPD);
    packet.push(PACKET_FIVE_OCTET_LENGTH);
    let len_bytes = octets::be_bytes_u32(body_len);
    packet.extend_from_slice(len_bytes.as_slice());
    packet.push(PACKET_VERSION);
    packet.extend_from_slice(frame);
    assert(packet@ =~= packet_bytes(frame@));
    packet
}

/// The frame in a packet of ours.
pub fn unpacket(packet: &[u8]) -> (r: Result<Vec<u8>, MessageError>)
    ensures
        r matches Ok(frame) ==> packet_frame(packet@) == Ok::<Seq<u8>, MessageError>(frame@),
        r matches Err(e) ==> packet_frame(packet@) == Err::<Seq<u8>, MessageError>(e),
{
    if packet.len() < PACKET_HEADER_LEN || packet[0] != PACKET_SEIPD || packet[1]
        != PACKET_FIVE_OCTET_LENGTH || packet[6] != PACKET_VERSION {
        return Err(MessageError::NotOurPacket);
    }
    let declared: u64 = octets::be_value(vstd::slice::slice_subrange(packet, 2, 6));
    if declared != (packet.len() - PACKET_HEADER_LEN) as u64 + 1 {
        return Err(MessageError::NotOurPacket);
    }
    let frame = vstd::slice::slice_subrange(packet, PACKET_HEADER_LEN, packet.len());
    Ok(vstd::slice::slice_to_vec(frame))
}

/// A packet gives its frame back, unless the frame is too long for four bytes
/// to say its length.
pub proof fn lemma_packet_round_trip(frame: Seq<u8>)
    requires
        frame.len() + 1 <= 0xffff_ffff,
    ensures
        packet_frame(packet_bytes(frame)) == Ok::<Seq<u8>, MessageError>(frame),
{
    let p = packet_bytes(frame);
    octets::lemma_be4(declared_len(frame));
    assert(p.subrange(2, 6) =~= octets::be4(declared_len(frame)));
    assert(p.subrange(7, p.len() as int) =~= frame);
}

/// The checksum after one more bit: shifted, and reduced by the generator where
/// a bit runs over.
pub open spec fn crc_bit(crc: u32) -> u32 {
    let shifted = crc << 1;
    if shifted & 0x0100_0000 != 0 {
        shifted ^ 0x0186_4CFB
    } else {
        shifted
    }
}

/// The checksum after `n` more bits.
pub open spec fn crc_bits(crc: u32, n: nat) -> u32
    decreases n,
{
    if n == 0 {
        crc
    } else {
        crc_bit(crc_bits(crc, (n - 1) as nat))
    }
}

/// The checksum of OpenPGP armor over the data.
pub open spec fn crc24_of(data: Seq<u8>) -> u32
    decreases data.len(),
{
    if data.len() == 0 {
        0x00B7_04CE
    } else {
        crc_bits(crc24_of(data.drop_last()) ^ ((data.last() as u32) << 16), 8)
    }
}

/// The three bytes of a checksum, most significant first.
pub open spec fn crc24_bytes(data: Seq<u8>) -> Seq<u8> {
    let crc = crc24_of(data) & 0x00FF_FFFF;
    seq![(crc / 65536) as u8, (crc / 256 % 256) as u8, (crc % 256) as u8]
}

/// The checksum of OpenPGP armor.
pub fn crc24(data: &[u8]) -> (sum: [u8; 3])
    ensures
        sum@ == crc24_bytes(data@),
{
    let mut crc: u32 = 0x00B7_04CE;
    let mut i: usize = 0;
    while i < data.len()
        invariant
            i <= data@.len(),
            crc == crc24_of(data@.subrange(0, i as int)),
        decreases data@.len() - i,
    {
        let ghost upto = data@.subrange(0, i as int + 1);
        assert(upto.drop_last() =~= data@.subrange(0, i as int));
        crc = crc ^ ((data[i] as u32) << 16);
        let ghost start = crc;
        let mut bit: u32 = 0;
        while bit < 8
            invariant
                bit <= 8,
                crc == crc_bits(start, bit as nat),
            decreases 8 - bit,
        {
            crc = crc << 1;
            if crc & 0x0100_0000 != 0 {
                crc = crc ^ 0x0186_4CFB;
            }
            bit = bit + 1;
        }
        assert(crc == crc24_of(upto));
        i = i + 1;
    }
    assert(data@.subrange(0, i as int) =~= data@);
    let crc: u32 = crc & 0x00FF_FFFF;
    assert(crc <= 0x00FF_FFFF) by {
        let whole = crc24_of(data@);
        assert(whole & 0x00FF_FFFF <= 0x00FF_FFFF) by (bit_vector);
    }
    let sum: [u8; 3] = [(crc / 65536) as u8, (crc / 256 % 256) as u8, (crc % 256) as u8];
    assert(sum@ =~= crc24_bytes(data@));
    sum
}

/// One line of wrapped text: the text of the bytes, or nothing where the cut
/// went through a character.
pub open spec fn wrapped_line(bytes: Seq<u8>) -> Seq<char> {
    match text::utf8_text(bytes) {
        Some(line) => line,
        None => seq![],
    }
}

/// The bytes of a text cut into lines.
pub open spec fn wrapped(bytes: Seq<u8>) -> Seq<char>
    decreases bytes.len(),
{
    if bytes.len() <= LINE_LEN {
        wrapped_line(bytes)
    } else {
        wrapped_line(bytes.subrange(0, LINE_LEN as int)) + "\r\n"@ + wrapped(
            bytes.subrange(LINE_LEN as int, bytes.len() as int),
        )
    }
}

/// Cuts a text into lines of `LINE_LEN` bytes.
pub fn wrap(encoded: &str) -> (lines: String)
    ensures
        lines@ == wrapped(encode_utf8(encoded@)),
{
    let bytes = encoded.as_bytes();
    let mut lines = String::new();
    let mut at: usize = 0;
    assert(bytes@.subrange(0, bytes@.len() as int) =~= bytes@);
    assert(lines@ + wrapped(bytes@) =~= wrapped(bytes@));
    while bytes.len() - at > LINE_LEN
        invariant
            at <= bytes@.len(),
            lines@ + wrapped(bytes@.subrange(at as int, bytes@.len() as int)) == wrapped(bytes@),
        decreases bytes@.len() - at,
    {
        let ghost rest = bytes@.subrange(at as int, bytes@.len() as int);
        let chunk = vstd::slice::slice_subrange(bytes, at, at + LINE_LEN);
        assert(chunk@ =~= rest.subrange(0, LINE_LEN as int));
        if let Some(line) = text::utf8_chars(chunk) {
            lines.append(text::text_of(line.as_slice()).as_str());
        }
        lines.append("\r\n");
        at = at + LINE_LEN;
        assert(rest.subrange(LINE_LEN as int, rest.len() as int) =~= bytes@.subrange(
            at as int,
            bytes@.len() as int,
        ));
    }
    let chunk = vstd::slice::slice_subrange(bytes, at, bytes.len());
    if let Some(line) = text::utf8_chars(chunk) {
        lines.append(text::text_of(line.as_slice()).as_str());
    }
    lines
}

/// The armor of a frame.
pub open spec fn armor_text(frame: Seq<u8>) -> Seq<char> {
    let packet = packet_bytes(frame);
    ARMOR_BEGIN@ + "\r\n\r\n"@ + wrapped(encode_utf8(encoding::base64_text(packet))) + "\r\n="@
        + encoding::base64_text(crc24_bytes(packet)) + "\r\n"@ + ARMOR_END@
}

/// The armor of a frame.
fn armor(frame: &[u8]) -> (text: String)
    requires
        frame@.len() + PACKET_HEADER_LEN <= usize::MAX / 512,
    ensures
        text@ == armor_text(frame@),
        armor_is_faithful(frame@),
{
    let packet = packet(frame);
    let body = wrap(encoding::base64_encode(packet.as_slice()).as_str());
    let sum = crc24(packet.as_slice());
    let checksum = encoding::base64_encode(sum.as_slice());
    let mut text = String::new();
    text.append(ARMOR_BEGIN);
    text.append("\r\n\r\n");
    text.append(body.as_str());
    text.append("\r\n=");
    text.append(checksum.as_str());
    text.append("\r\n");
    text.append(ARMOR_END);
    text
}

/// The armors of the frames, a line break between two.
pub open spec fn armors_text(frames: Seq<Seq<u8>>) -> Seq<char>
    decreases frames.len(),
{
    if frames.len() == 0 {
        seq![]
    } else if frames.len() == 1 {
        armor_text(frames[0])
    } else {
        armor_text(frames[0]) + "\r\n"@ + armors_text(frames.subrange(1, frames.len() as int))
    }
}

/// What stands before the armors: who writes to whom, and that the rest is
/// encrypted. Nothing else of the conversation is said.
pub open spec fn head_text(from: Seq<char>, to: Seq<char>) -> Seq<char> {
    "From: "@ + from + "\r\nTo: "@ + to + "\r\nSubject: "@ + SUBJECT@
        + "\r\nMIME-Version: 1.0\r\nContent-Type: multipart/encrypted; protocol=\"application/pgp-encrypted\"; boundary=\""@
        + BOUNDARY@ + "\"\r\n\r\n--"@ + BOUNDARY@
        + "\r\nContent-Type: application/pgp-encrypted; charset=\"utf-8\"\r\nContent-Transfer-Encoding: 7bit\r\n\r\nVersion: 1\r\n--"@
        + BOUNDARY@ + "\r\nContent-Type: "@ + CONTENT_TYPE@
        + "; charset=\"utf-8\"\r\nContent-Transfer-Encoding: 7bit\r\n\r\n"@
}

/// What stands behind the armors.
pub open spec fn tail_text() -> Seq<char> {
    "\r\n--"@ + BOUNDARY@ + "--\r\n"@
}

/// The letter that carries the frames.
pub open spec fn letter_text(from: Seq<char>, to: Seq<char>, frames: Seq<Seq<u8>>) -> Seq<char> {
    head_text(from, to) + armors_text(frames) + tail_text()
}

/// What stands before the armors says nothing about the frames: two letters
/// between the same addresses start the same, whatever they carry.
pub proof fn lemma_headers_do_not_tell(
    from: Seq<char>,
    to: Seq<char>,
    frames: Seq<Seq<u8>>,
    others: Seq<Seq<u8>>,
)
    ensures
        letter_text(from, to, frames).subrange(0, head_text(from, to).len() as int) == letter_text(
            from,
            to,
            others,
        ).subrange(0, head_text(from, to).len() as int),
{
    let head = head_text(from, to);
    assert(letter_text(from, to, frames).subrange(0, head.len() as int) =~= head);
    assert(letter_text(from, to, others).subrange(0, head.len() as int) =~= head);
}

/// The text with each pair of carriage return and line feed made a line feed.
pub open spec fn unfolded(s: Seq<char>) -> Seq<char>
    decreases s.len(),
{
    if s.len() == 0 {
        seq![]
    } else if s.len() >= 2 && s[0] == '\r' && s[1] == '\n' {
        seq!['\n'] + unfolded(s.subrange(2, s.len() as int))
    } else {
        seq![s[0]] + unfolded(s.subrange(1, s.len() as int))
    }
}

/// The text with each pair of carriage return and line feed made a line feed.
fn unfold(s: &[char]) -> (out: Vec<char>)
    ensures
        out@ == unfolded(s@),
{
    let mut out: Vec<char> = Vec::new();
    let mut at: usize = 0;
    assert(s@.subrange(0, s@.len() as int) =~= s@);
    assert(out@ + unfolded(s@) =~= unfolded(s@));
    while at < s.len()
        invariant
            at <= s@.len(),
            out@ + unfolded(s@.subrange(at as int, s@.len() as int)) == unfolded(s@),
        decreases s@.len() - at,
    {
        let ghost rest = s@.subrange(at as int, s@.len() as int);
        let ghost before = out@;
        if s.len() - at >= 2 && s[at] == '\r' && s[at + 1] == '\n' {
            out.push('\n');
            at = at + 2;
            assert(rest.subrange(2, rest.len() as int) =~= s@.subrange(at as int, s@.len() as int));
            assert(out@ =~= before + seq!['\n']);
        } else {
            out.push(s[at]);
            assert(out@ =~= before + seq![rest[0]]);
            at = at + 1;
            assert(rest.subrange(1, rest.len() as int) =~= s@.subrange(at as int, s@.len() as int));
        }
        assert(out@ + unfolded(s@.subrange(at as int, s@.len() as int)) =~= before + unfolded(rest));
    }
    assert(out@ =~= unfolded(s@));
    out
}

/// The text without the line feeds that it starts with.
pub open spec fn without_leading_breaks(s: Seq<char>) -> Seq<char>
    decreases s.len(),
{
    if s.len() == 0 || s[0] != '\n' {
        s
    } else {
        without_leading_breaks(s.subrange(1, s.len() as int))
    }
}

/// What is left under an armor once the headers are gone: what follows the
/// first empty line, or everything where there is no header.
pub open spec fn armor_data(inside: Seq<char>) -> Seq<char> {
    let body = without_leading_breaks(inside);
    match text::first(body, "\n\n"@) {
        Some(at) => body.subrange(at + 2, body.len() as int),
        None => inside,
    }
}

/// A line of a checksum: the first thing on it is an equals sign.
pub open spec fn is_checksum_line(line: Seq<char>) -> bool {
    let start = text::trimmed_start(line);
    start.len() > 0 && start[0] == '='
}

/// The text without its white space.
pub open spec fn squeezed(s: Seq<char>) -> Seq<char>
    decreases s.len(),
{
    if s.len() == 0 {
        seq![]
    } else if text::is_space(s.last()) {
        squeezed(s.drop_last())
    } else {
        squeezed(s.drop_last()).push(s.last())
    }
}

/// The base64 in armored data: all lines but those of a checksum, without white
/// space.
pub open spec fn base64_lines(data: Seq<char>) -> Seq<char>
    decreases data.len(),
    via base64_lines_end
{
    let end = text::line_end(data, 0);
    let line = data.subrange(0, end);
    let kept = if is_checksum_line(line) {
        seq![]
    } else {
        squeezed(line)
    };
    if end >= data.len() {
        kept
    } else {
        kept + base64_lines(data.subrange(end + 1, data.len() as int))
    }
}

#[via_fn]
proof fn base64_lines_end(data: Seq<char>) {
    text::lemma_line_end(data, 0);
}

/// The frame under an armor.
pub open spec fn unarmored(inside: Seq<char>) -> Result<Seq<u8>, MessageError> {
    let encoded = base64_lines(armor_data(inside));
    if encoded.len() == 0 {
        Err(MessageError::Empty)
    } else {
        match encoding::base64_bytes(encoded) {
            None => Err(MessageError::NotBase64),
            Some(packet) => packet_frame(packet),
        }
    }
}

/// The frames in a text: those under its armors, in order. An armor that is not
/// closed, or that holds no frame of ours, spoils the whole.
pub open spec fn frames_in(text: Seq<char>) -> Result<Seq<Seq<u8>>, MessageError>
    decreases text.len(),
    via frames_in_shorter
{
    match text::first(text, ARMOR_BEGIN@) {
        None => Ok(seq![]),
        Some(start) => {
            let after = text.subrange(start + ARMOR_BEGIN@.len(), text.len() as int);
            match text::first(after, ARMOR_END@) {
                None => Err(MessageError::NoBody),
                Some(end) => match unarmored(after.subrange(0, end)) {
                    Err(e) => Err(e),
                    Ok(frame) => match frames_in(
                        after.subrange(end + ARMOR_END@.len(), after.len() as int),
                    ) {
                        Err(e) => Err(e),
                        Ok(frames) => Ok(seq![frame] + frames),
                    },
                },
            }
        },
    }
}

#[via_fn]
proof fn frames_in_shorter(text: Seq<char>) {
    reveal_strlit("-----BEGIN PGP MESSAGE-----");
    text::lemma_first_from(text, ARMOR_BEGIN@, 0);
    if let Some(start) = text::first(text, ARMOR_BEGIN@) {
        let after = text.subrange(start + ARMOR_BEGIN@.len(), text.len() as int);
        text::lemma_first_from(after, ARMOR_END@, 0);
    }
}

/// The frames that a letter carries, as it came: not over the limit, text, and
/// with a frame in it.
pub open spec fn frames_of(message: Seq<u8>) -> Result<Seq<Seq<u8>>, MessageError> {
    if message.len() > MAX_MESSAGE_BYTES {
        Err(MessageError::TooLarge)
    } else {
        match text::utf8_text(message) {
            None => Err(MessageError::NotBase64),
            Some(text) => match frames_in(unfolded(text)) {
                Err(e) => Err(e),
                Ok(frames) => if frames.len() == 0 {
                    Err(MessageError::NoBody)
                } else {
                    Ok(frames)
                },
            },
        }
    }
}

/// Squeezing text leaves no more of it than there was.
proof fn lemma_squeezed_len(s: Seq<char>)
    ensures
        squeezed(s).len() <= s.len(),
    decreases s.len(),
{
    if s.len() > 0 {
        lemma_squeezed_len(s.drop_last());
    }
}

/// Appends the text without its white space.
fn squeeze_into(s: &[char], out: &mut Vec<char>)
    ensures
        final(out)@ == old(out)@ + squeezed(s@),
{
    let mut i: usize = 0;
    assert(out@ =~= old(out)@ + squeezed(s@.subrange(0, 0)));
    while i < s.len()
        invariant
            i <= s@.len(),
            out@ == old(out)@ + squeezed(s@.subrange(0, i as int)),
        decreases s@.len() - i,
    {
        let ghost upto = s@.subrange(0, i as int + 1);
        assert(upto.drop_last() =~= s@.subrange(0, i as int));
        let c: char = s[i];
        if !text::space(c) {
            out.push(c);
        }
        assert(out@ =~= old(out)@ + squeezed(upto));
        i = i + 1;
    }
    assert(s@.subrange(0, i as int) =~= s@);
}

/// What is left under an armor once the headers are gone.
fn armored_data(inside: &[char]) -> (data: &[char])
    ensures
        data@ == armor_data(inside@),
        data@.len() <= inside@.len(),
{
    let mut body = inside;
    while body.len() > 0 && body[0] == '\n'
        invariant
            body@.len() <= inside@.len(),
            without_leading_breaks(body@) == without_leading_breaks(inside@),
        decreases body@.len(),
    {
        body = vstd::slice::slice_subrange(body, 1, body.len());
    }
    let empty_line: [char; 2] = ['\n', '\n'];
    proof {
        reveal_strlit("\n\n");
        assert(empty_line@ =~= "\n\n"@);
        text::lemma_first_from(body@, "\n\n"@, 0);
    }
    match text::find_chars(body, empty_line.as_slice(), 0) {
        Some(at) => vstd::slice::slice_subrange(body, at + 2, body.len()),
        None => inside,
    }
}

/// Takes the frame out of an armor.
fn unarmor(inside: &[char]) -> (r: Result<Vec<u8>, MessageError>)
    requires
        inside@.len() <= usize::MAX / 32,
    ensures
        r matches Ok(frame) ==> unarmored(inside@) == Ok::<Seq<u8>, MessageError>(frame@),
        r matches Err(e) ==> unarmored(inside@) == Err::<Seq<u8>, MessageError>(e),
{
    let data = armored_data(inside);
    let mut encoded: Vec<char> = Vec::new();
    let mut from: usize = 0;
    let mut done = false;
    assert(data@.subrange(0, data@.len() as int) =~= data@);
    while !done
        invariant
            from <= data@.len(),
            encoded@.len() <= data@.len(),
            !done ==> encoded@.len() <= from,
            !done ==> encoded@ + base64_lines(data@.subrange(from as int, data@.len() as int))
                == base64_lines(data@),
            done ==> encoded@ == base64_lines(data@),
        decreases data@.len() - from, if done { 0int } else { 1int },
    {
        let ghost rest = data@.subrange(from as int, data@.len() as int);
        let end: usize = text::end_of_line(data, from);
        let line = vstd::slice::slice_subrange(data, from, end);
        proof {
            text::lemma_line_end_shifts(data@, from as int, from as int);
            assert(line@ =~= rest.subrange(0, text::line_end(rest, 0)));
        }
        let start = text::trim_start(line);
        let checksum = start.len() > 0 && start[0] == '=';
        let ghost before = encoded@;
        if !checksum {
            squeeze_into(line, &mut encoded);
        }
        let ghost kept = if is_checksum_line(line@) {
            seq![]
        } else {
            squeezed(line@)
        };
        assert(encoded@ =~= before + kept);
        proof {
            lemma_squeezed_len(line@);
        }
        if end >= data.len() {
            done = true;
            assert(encoded@ =~= base64_lines(data@));
        } else {
            from = end + 1;
            assert(rest.subrange(text::line_end(rest, 0) + 1, rest.len() as int) =~= data@.subrange(
                from as int,
                data@.len() as int,
            ));
            assert(before + (kept + base64_lines(data@.subrange(from as int, data@.len() as int)))
                =~= encoded@ + base64_lines(data@.subrange(from as int, data@.len() as int)));
        }
    }
    if encoded.len() == 0 {
        return Err(MessageError::Empty);
    }
    let encoded_text = text::text_of(encoded.as_slice());
    proof {
        text::lemma_utf8_len(encoded_text@);
    }
    match encoding::base64_decode(encoded_text.as_str()) {
        Some(packet) => unpacket(packet.as_slice()),
        None => Err(MessageError::NotBase64),
    }
}

/// Unfolding makes no text longer.
proof fn lemma_unfolded_len(s: Seq<char>)
    ensures
        unfolded(s).len() <= s.len(),
    decreases s.len(),
{
    if s.len() == 0 {
    } else if s.len() >= 2 && s[0] == '\r' && s[1] == '\n' {
        lemma_unfolded_len(s.subrange(2, s.len() as int));
    } else {
        lemma_unfolded_len(s.subrange(1, s.len() as int));
    }
}

/// The frames found so far, before those still to come.
spec fn joined(
    found: Seq<Seq<u8>>,
    rest: Result<Seq<Seq<u8>>, MessageError>,
) -> Result<Seq<Seq<u8>>, MessageError> {
    match rest {
        Ok(frames) => Ok(found + frames),
        Err(e) => Err(e),
    }
}

/// Reads the frames that a letter carries.
pub fn parse_message(message: &[u8]) -> (r: Result<Vec<Vec<u8>>, MessageError>)
    ensures
        r matches Ok(frames) ==> frames_of(message@) == Ok::<Seq<Seq<u8>>, MessageError>(
            contents(frames@),
        ),
        r matches Err(e) ==> frames_of(message@) == Err::<Seq<Seq<u8>>, MessageError>(e),
{
    if too_large(message.len()) {
        return Err(MessageError::TooLarge);
    }
    let text = match text::utf8_chars(message) {
        Some(text) => text,
        None => {
            return Err(MessageError::NotBase64);
        },
    };
    proof {
        vstd::utf8::decode_utf8_encode_utf8(message@);
        text::lemma_utf8_len(text@);
        lemma_unfolded_len(text@);
    }
    let normalized = unfold(text.as_slice());
    let begin = text::chars_of(ARMOR_BEGIN);
    let end_mark = text::chars_of(ARMOR_END);
    let mut frames: Vec<Vec<u8>> = Vec::new();
    let mut rest = normalized.as_slice();
    let mut done = false;
    assert(contents(frames@) =~= seq![]);
    proof {
        lemma_joined_to_nothing(frames_in(rest@));
    }
    while !done
        invariant
            begin@ == ARMOR_BEGIN@,
            end_mark@ == ARMOR_END@,
            rest@.len() <= MAX_MESSAGE_BYTES,
            !done ==> joined(contents(frames@), frames_in(rest@)) == frames_in(normalized@),
            done ==> frames_in(normalized@) == Ok::<Seq<Seq<u8>>, MessageError>(contents(frames@)),
            utf8_letter(message@, text@, normalized@),
        decreases rest@.len(), if done { 0int } else { 1int },
    {
        proof {
            reveal_strlit("-----BEGIN PGP MESSAGE-----");
            text::lemma_first_from(rest@, ARMOR_BEGIN@, 0);
        }
        match text::find_chars(rest, begin.as_slice(), 0) {
            None => {
                done = true;
                assert(contents(frames@) + seq![] =~= contents(frames@));
            },
            Some(start) => {
                let after = vstd::slice::slice_subrange(rest, start + begin.len(), rest.len());
                proof {
                    text::lemma_first_from(after@, ARMOR_END@, 0);
                }
                let end: usize = match text::find_chars(after, end_mark.as_slice(), 0) {
                    Some(end) => end,
                    None => {
                        return Err(MessageError::NoBody);
                    },
                };
                let frame = match unarmor(vstd::slice::slice_subrange(after, 0, end)) {
                    Ok(frame) => frame,
                    Err(e) => {
                        return Err(e);
                    },
                };
                let ghost before = contents(frames@);
                let ghost content = frame@;
                frames.push(frame);
                assert(contents(frames@) =~= before + seq![content]);
                let next = vstd::slice::slice_subrange(after, end + end_mark.len(), after.len());
                proof {
                    lemma_joined_step(before, content, frames_in(next@));
                }
                rest = next;
            },
        }
    }
    if frames.len() == 0 {
        return Err(MessageError::NoBody);
    }
    Ok(frames)
}

/// `normalized` is what is read of the letter `message`, whose text is `text`.
spec fn utf8_letter(message: Seq<u8>, text: Seq<char>, normalized: Seq<char>) -> bool {
    &&& message.len() <= MAX_MESSAGE_BYTES
    &&& text::utf8_text(message) == Some(text)
    &&& normalized == unfolded(text)
}

proof fn lemma_joined_to_nothing(rest: Result<Seq<Seq<u8>>, MessageError>)
    ensures
        joined(seq![], rest) == rest,
{
    if let Ok(frames) = rest {
        assert(seq![] + frames =~= frames);
    }
}

proof fn lemma_joined_step(
    found: Seq<Seq<u8>>,
    frame: Seq<u8>,
    rest: Result<Seq<Seq<u8>>, MessageError>,
)
    ensures
        joined(found + seq![frame], rest) == joined(found, joined(seq![frame], rest)),
{
    if let Ok(frames) = rest {
        assert(found + seq![frame] + frames =~= found + (seq![frame] + frames));
    }
}

/// Why the frames cannot be sent, if they cannot.
pub open spec fn build_error(
    from: Seq<char>,
    to: Seq<char>,
    frames: Seq<Seq<u8>>,
) -> Option<MessageError> {
    if frames.len() == 0 {
        Some(MessageError::Empty)
    } else if encode_utf8(letter_text(from, to, frames)).len() > MAX_MESSAGE_BYTES {
        Some(MessageError::TooLarge)
    } else {
        None
    }
}

/// The addresses leave a letter room for twice the largest frame.
pub open spec fn leave_room(from: Seq<char>, to: Seq<char>) -> bool {
    encode_utf8(from).len() + encode_utf8(to).len() + 2 * SizeClass::L.frame_size()
        <= MAX_MESSAGE_BYTES
}

/// Makes the letter that carries the frames. What was made reads back as the
/// frames it was made of, as it is and with its carriage returns lost, unless an
/// address holds the line that opens an armor. One frame, of whatever size class,
/// always fits.
pub fn build_message(from: &str, to: &str, frames: &[Vec<u8>]) -> (r: Result<String, MessageError>)
    requires
        forall|i: int|
            0 <= i < frames@.len() ==> (#[trigger] frames@[i])@.len() + PACKET_HEADER_LEN
                <= usize::MAX / 512,
    ensures
        r matches Ok(letter) ==> letter@ == letter_text(from@, to@, contents(frames@)),
        r is Ok <==> build_error(from@, to@, contents(frames@)) is None,
        r matches Err(e) ==> build_error(from@, to@, contents(frames@)) == Some(e),
        r matches Ok(letter) ==> !text::occurs(from@, ARMOR_BEGIN@) && !text::occurs(
            to@,
            ARMOR_BEGIN@,
        ) ==> frames_of(encode_utf8(letter@)) == Ok::<Seq<Seq<u8>>, MessageError>(
            contents(frames@),
        ) && frames_of(encode_utf8(unfolded(letter@))) == Ok::<Seq<Seq<u8>>, MessageError>(
            contents(frames@),
        ),
        frames@.len() == 1 && frames@[0]@.len() <= SizeClass::L.frame_size() && leave_room(
            from@,
            to@,
        ) ==> r is Ok,
{
    if frames.len() == 0 {
        return Err(MessageError::Empty);
    }
    let mut message = String::new();
    append_head(from, to, &mut message);
    append_armors(frames, &mut message);
    append_tail(&mut message);
    assert(message@ =~= letter_text(from@, to@, contents(frames@)));
    proof {
        let all = contents(frames@);
        assert forall|i: int| 0 <= i < all.len() implies armor_is_faithful(#[trigger] all[i]) by {
            assert(all[i] == frames@[i]@);
        }
        if all.len() == 1 && all[0].len() <= SizeClass::L.frame_size() && leave_room(from@, to@) {
            round_trip::lemma_largest_frame_fits(from@, to@, all[0]);
            assert(all =~= seq![all[0]]);
        }
    }
    if too_large(message.as_str().as_bytes().len()) {
        return Err(MessageError::TooLarge);
    }
    proof {
        let all = contents(frames@);
        if !text::occurs(from@, ARMOR_BEGIN@) && !text::occurs(to@, ARMOR_BEGIN@) {
            round_trip::lemma_letter_is_read_back(from@, to@, all);
        }
    }
    Ok(message)
}

/// Appends what stands before the armors.
fn append_head(from: &str, to: &str, out: &mut String)
    ensures
        final(out)@ == old(out)@ + head_text(from@, to@),
{
    out.append("From: ");
    out.append(from);
    out.append("\r\nTo: ");
    out.append(to);
    out.append("\r\nSubject: ");
    out.append(SUBJECT);
    out.append(
        "\r\nMIME-Version: 1.0\r\nContent-Type: multipart/encrypted; protocol=\"application/pgp-encrypted\"; boundary=\"",
    );
    out.append(BOUNDARY);
    out.append("\"\r\n\r\n--");
    out.append(BOUNDARY);
    out.append(
        "\r\nContent-Type: application/pgp-encrypted; charset=\"utf-8\"\r\nContent-Transfer-Encoding: 7bit\r\n\r\nVersion: 1\r\n--",
    );
    out.append(BOUNDARY);
    out.append("\r\nContent-Type: ");
    out.append(CONTENT_TYPE);
    out.append("; charset=\"utf-8\"\r\nContent-Transfer-Encoding: 7bit\r\n\r\n");
    assert(out@ =~= old(out)@ + head_text(from@, to@));
}

/// Appends what stands behind the armors.
fn append_tail(out: &mut String)
    ensures
        final(out)@ == old(out)@ + tail_text(),
{
    out.append("\r\n--");
    out.append(BOUNDARY);
    out.append("--\r\n");
    assert(out@ =~= old(out)@ + tail_text());
}

/// The base64 of the packet of a frame, and that of its checksum, read back.
pub open spec fn armor_is_faithful(frame: Seq<u8>) -> bool {
    let packet = packet_bytes(frame);
    let sum = crc24_bytes(packet);
    &&& encoding::base64_bytes(encoding::base64_text(packet)) == Some(packet)
    &&& encoding::base64_bytes(encoding::base64_text(sum)) == Some(sum)
}

/// Appends the armors of the frames.
fn append_armors(frames: &[Vec<u8>], out: &mut String)
    requires
        forall|i: int|
            0 <= i < frames@.len() ==> (#[trigger] frames@[i])@.len() + PACKET_HEADER_LEN
                <= usize::MAX / 512,
    ensures
        final(out)@ == old(out)@ + armors_text(contents(frames@)),
        forall|i: int| 0 <= i < frames@.len() ==> armor_is_faithful(#[trigger] frames@[i]@),
{
    let ghost all = contents(frames@);
    let mut i: usize = 0;
    assert(all.subrange(0, all.len() as int) =~= all);
    assert(armors_from(all, 0) =~= armors_text(all));
    while i < frames.len()
        invariant
            i <= frames@.len(),
            all == contents(frames@),
            forall|k: int|
                0 <= k < frames@.len() ==> (#[trigger] frames@[k])@.len() + PACKET_HEADER_LEN
                    <= usize::MAX / 512,
            forall|k: int| 0 <= k < i ==> armor_is_faithful(#[trigger] frames@[k]@),
            out@ + armors_from(all, i as int) == old(out)@ + armors_text(all),
        decreases frames@.len() - i,
    {
        let ghost before = out@;
        if i > 0 {
            out.append("\r\n");
        }
        let armored = armor(frames[i].as_slice());
        out.append(armored.as_str());
        proof {
            lemma_armors_from(all, i as int);
            assert(all[i as int] == frames@[i as int]@);
            assert(out@ + armors_from(all, i + 1) =~= before + armors_from(all, i as int));
        }
        i = i + 1;
    }
    assert(out@ =~= old(out)@ + armors_text(all));
}

/// One armor more written.
proof fn lemma_armors_from(frames: Seq<Seq<u8>>, i: int)
    requires
        0 <= i < frames.len(),
    ensures
        armors_from(frames, i) == (if i == 0 {
            seq![]
        } else {
            "\r\n"@
        }) + armor_text(frames[i]) + armors_from(frames, i + 1),
{
    let rest = frames.subrange(i, frames.len() as int);
    assert(rest.subrange(1, rest.len() as int) =~= frames.subrange(i + 1, frames.len() as int));
    assert(rest[0] == frames[i]);
    let break_before = if i == 0 {
        seq![]
    } else {
        "\r\n"@
    };
    assert(armors_from(frames, i) =~= break_before + armors_text(rest));
    assert(armors_from(frames, i) =~= break_before + armor_text(frames[i]) + armors_from(
        frames,
        i + 1,
    ));
}

/// What is still to be written of the armors from the `i`-th on, with the line
/// break before it.
spec fn armors_from(frames: Seq<Seq<u8>>, i: int) -> Seq<char> {
    let rest = frames.subrange(i, frames.len() as int);
    if rest.len() == 0 {
        seq![]
    } else if i == 0 {
        armors_text(rest)
    } else {
        "\r\n"@ + armors_text(rest)
    }
}

} // verus!
