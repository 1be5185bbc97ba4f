//! A stream of frames to a peer: how a frame is written, how it is read, and
//! which of two queues it waits in.

use crate::encoding;
use crate::octets;
use crate::runner::TransportError;
use crate::wire::size_class;
use crate::wire::size_class::SizeClass;
use vstd::prelude::*;
use vstd::string::*;

verus! {

broadcast use vstd::string::group_string_axioms;

/// How many small frames wait to be written.
pub const URGENT_QUEUE: usize = 32;

/// How many large frames wait to be written.
pub const BULK_QUEUE: usize = 8;

/// The byte that says of which size the next frame is.
pub open spec fn tag(class: SizeClass) -> u8 {
    match class {
        SizeClass::S => 0,
        SizeClass::M => 1,
        SizeClass::L => 2,
    }
}

/// The size that a byte stands for.
pub open spec fn tagged(tag: u8) -> Option<SizeClass> {
    if tag == 0 {
        Some(SizeClass::S)
    } else if tag == 1 {
        Some(SizeClass::M)
    } else if tag == 2 {
        Some(SizeClass::L)
    } else {
        None
    }
}

/// The byte that says of which size the next frame is.
pub fn tag_of(class: SizeClass) -> (r: u8)
    ensures
        r == tag(class),
{
    match class {
        SizeClass::S => 0,
        SizeClass::M => 1,
        SizeClass::L => 2,
    }
}

/// The size that a byte stands for.
pub fn class_of_tag(tag: u8) -> (r: Option<SizeClass>)
    ensures
        r == tagged(tag),
{
    if tag == 0 {
        Some(SizeClass::S)
    } else if tag == 1 {
        Some(SizeClass::M)
    } else if tag == 2 {
        Some(SizeClass::L)
    } else {
        None
    }
}

/// A tag stands for the size it was made from, and no other byte does.
pub proof fn lemma_tags(class: SizeClass, byte: u8)
    ensures
        tagged(tag(class)) == Some(class),
        tagged(byte) matches Some(c) ==> tag(c) == byte,
{
}

/// Where a frame waits to be written.
#[derive(Debug, Clone, Copy, PartialEq, Eq, Structural)]
pub enum Lane {
    /// Among the frames that go first.
    Urgent,
    /// Among the large ones.
    Bulk,
}

/// Where a frame of this length waits: large frames by themselves.
pub open spec fn lane(len: nat) -> Lane {
    if len == SizeClass::L.frame_size() {
        Lane::Bulk
    } else {
        Lane::Urgent
    }
}

/// Where a frame of this length waits.
pub fn lane_of(len: usize) -> (r: Lane)
    ensures
        r == lane(len as nat),
{
    match SizeClass::from_frame_len(len) {
        Ok(SizeClass::L) => Lane::Bulk,
        _ => Lane::Urgent,
    }
}

/// What became of putting a frame in its queue.
#[derive(Debug, Clone, Copy, PartialEq, Eq, Structural)]
pub enum Queued {
    Taken,
    Full,
    Closed,
}

/// What that means to whoever sent the frame: a full queue is no broken link.
pub fn queued(outcome: Queued) -> (r: Result<(), TransportError>)
    ensures
        r is Ok <==> outcome == Queued::Taken,
        r matches Err(e) ==> e == if outcome == Queued::Full {
            TransportError::Busy
        } else {
            TransportError::Unavailable
        },
{
    match outcome {
        Queued::Taken => Ok(()),
        Queued::Full => Err(TransportError::Busy),
        Queued::Closed => Err(TransportError::Unavailable),
    }
}

/// What stands at the head of a queue.
#[derive(Debug, Clone, Copy, PartialEq, Eq, Structural)]
pub enum Head {
    /// A frame.
    Frame,
    /// Nothing yet.
    Empty,
    /// Nothing any more.
    Closed,
}

/// What to do next on the writing side.
#[derive(Debug, Clone, Copy, PartialEq, Eq, Structural)]
pub enum Pick {
    /// Write the frame at the head of this queue.
    Write(Lane),
    /// Wait for a frame.
    Wait,
    /// Close the stream.
    Stop,
}

/// What to do next on the writing side: a small frame goes before the large
/// ones, and where a queue is gone the stream is closed.
pub fn pick(urgent: Head, bulk: Head) -> (r: Pick)
    ensures
        urgent == Head::Frame ==> r == Pick::Write(Lane::Urgent),
        urgent == Head::Closed ==> r == Pick::Stop,
        urgent == Head::Empty && bulk == Head::Frame ==> r == Pick::Write(Lane::Bulk),
        urgent == Head::Empty && bulk == Head::Closed ==> r == Pick::Stop,
        urgent == Head::Empty && bulk == Head::Empty ==> r == Pick::Wait,
{
    match urgent {
        Head::Frame => Pick::Write(Lane::Urgent),
        Head::Closed => Pick::Stop,
        Head::Empty => match bulk {
            Head::Frame => Pick::Write(Lane::Bulk),
            Head::Closed => Pick::Stop,
            Head::Empty => Pick::Wait,
        },
    }
}

/// A frame as it is written to a stream: its tag, then its bytes.
pub open spec fn written(frame: Seq<u8>, class: SizeClass) -> Seq<u8> {
    seq![tag(class)] + frame
}

/// A frame as it is written to a stream. A frame of no size is not written.
pub fn write_frame(frame: &[u8]) -> (r: Option<Vec<u8>>)
    requires
        frame@.len() < usize::MAX,
    ensures
        r is Some <==> exists|c: SizeClass| #[trigger] c.frame_size() == frame@.len(),
        r matches Some(bytes) ==> forall|c: SizeClass| #[trigger]
            c.frame_size() == frame@.len() ==> bytes@ == written(frame@, c),
{
    let class = match SizeClass::from_frame_len(frame.len()) {
        Ok(class) => class,
        Err(_) => {
            return None;
        },
    };
    let mut bytes: Vec<u8> = Vec::with_capacity(frame.len() + 1);
    bytes.push(tag_of(class));
    bytes.extend_from_slice(frame);
    proof {
        assert(bytes@ =~= written(frame@, class));
        assert forall|c: SizeClass| #[trigger] c.frame_size() == frame@.len() implies bytes@
            == written(frame@, c) by {
            size_class::lemma_class_is_unique(c, class);
        }
    }
    Some(bytes)
}

/// The reading side of a stream: what it has of the next frame.
#[derive(Debug, Clone, Copy, PartialEq, Eq)]
pub struct FrameReader {
    /// The size of the frame whose tag has been read.
    pub class: Option<SizeClass>,
}

/// What a piece of a stream comes to.
#[derive(Debug, PartialEq, Eq)]
pub enum Read {
    /// The frame is still to come.
    More,
    /// A frame.
    Frame(Vec<u8>),
    /// A tag that nobody writes: the stream is closed.
    Close,
}

impl FrameReader {
    /// How many bytes to read next.
    pub open spec fn wanted(&self) -> nat {
        match self.class {
            None => 1,
            Some(class) => class.frame_size(),
        }
    }

    /// The start of a stream.
    pub fn new() -> (r: FrameReader)
        ensures
            r.class is None,
    {
        FrameReader { class: None }
    }

    /// How many bytes to read next.
    pub fn want(&self) -> (n: usize)
        ensures
            n == self.wanted(),
    {
        match self.class {
            None => 1,
            Some(class) => class.frame_len(),
        }
    }

    /// The bytes that were wanted: a tag, then a frame.
    pub fn take(&mut self, bytes: Vec<u8>) -> (r: Read)
        requires
            bytes@.len() == old(self).wanted(),
        ensures
            old(self).class is Some ==> r == Read::Frame(bytes) && final(self).class is None,
            old(self).class is None ==> final(self).class == tagged(bytes@[0]) && r == if tagged(
                bytes@[0],
            ) is Some {
                Read::More
            } else {
                Read::Close
            },
    {
        match self.class {
            Some(_) => {
                self.class = None;
                Read::Frame(bytes)
            },
            None => {
                self.class = class_of_tag(bytes[0]);
                if self.class.is_some() {
                    Read::More
                } else {
                    Read::Close
                }
            },
        }
    }
}

/// The frames in the bytes of a stream: whole ones, up to the first tag that
/// nobody writes.
pub open spec fn frames_read(bytes: Seq<u8>) -> Seq<Seq<u8>>
    decreases bytes.len(),
{
    if bytes.len() == 0 {
        seq![]
    } else {
        match tagged(bytes[0]) {
            None => seq![],
            Some(class) => {
                let end = 1 + class.frame_size();
                if bytes.len() < end {
                    seq![]
                } else {
                    seq![bytes.subrange(1, end as int)] + frames_read(
                        bytes.subrange(end as int, bytes.len() as int),
                    )
                }
            },
        }
    }
}

/// The frames in the bytes of a stream.
pub fn read_frames(bytes: &[u8]) -> (frames: Vec<Vec<u8>>)
    ensures
        frames@.map_values(|f: Vec<u8>| f@) == frames_read(bytes@),
{
    let mut frames: Vec<Vec<u8>> = Vec::new();
    let mut reader = FrameReader::new();
    let mut rest = bytes;
    assert(frames@.map_values(|f: Vec<u8>| f@) + frames_read(rest@) =~= frames_read(bytes@));
    loop
        invariant
            reader.class is None,
            frames@.map_values(|f: Vec<u8>| f@) + frames_read(rest@) == frames_read(bytes@),
        decreases rest@.len(),
    {
        let ghost before = frames@.map_values(|f: Vec<u8>| f@);
        if rest.len() == 0 {
            assert(before + frames_read(rest@) =~= before);
            return frames;
        }
        let first = vstd::slice::slice_to_vec(vstd::slice::slice_subrange(rest, 0, 1));
        match reader.take(first) {
            Read::More => {},
            _ => {
                assert(before + frames_read(rest@) =~= before);
                return frames;
            },
        }
        let want: usize = reader.want();
        if rest.len() - 1 < want {
            assert(before + frames_read(rest@) =~= before);
            return frames;
        }
        let body = vstd::slice::slice_to_vec(vstd::slice::slice_subrange(rest, 1, 1 + want));
        let ghost content = body@;
        let ghost left = rest@.subrange(1 + want, rest@.len() as int);
        if let Read::Frame(frame) = reader.take(body) {
            frames.push(frame);
            assert(frames@.map_values(|f: Vec<u8>| f@) =~= before.push(content));
        }
        rest = vstd::slice::slice_subrange(rest, 1 + want, rest.len());
        assert(before.push(content) + frames_read(left) =~= before + (seq![content]
            + frames_read(left)));
    }
}

/// The bytes of a stream that carries the frames.
pub open spec fn stream_of(frames: Seq<(Seq<u8>, SizeClass)>) -> Seq<u8>
    decreases frames.len(),
{
    if frames.len() == 0 {
        seq![]
    } else {
        written(frames[0].0, frames[0].1) + stream_of(frames.subrange(1, frames.len() as int))
    }
}

/// What was written to a stream is read from it: the same frames, whole and in
/// order.
pub proof fn lemma_stream_reads_back(frames: Seq<(Seq<u8>, SizeClass)>)
    requires
        forall|i: int|
            0 <= i < frames.len() ==> (#[trigger] frames[i]).0.len() == frames[i].1.frame_size(),
    ensures
        frames_read(stream_of(frames)) == frames.map_values(|f: (Seq<u8>, SizeClass)| f.0),
    decreases frames.len(),
{
    if frames.len() == 0 {
        assert(frames_read(stream_of(frames)) =~= frames.map_values(
            |f: (Seq<u8>, SizeClass)| f.0,
        ));
    } else {
        let rest = frames.subrange(1, frames.len() as int);
        lemma_stream_reads_back(rest);
        let s = stream_of(frames);
        let n = frames[0].0.len() as int;
        assert(s[0] == tag(frames[0].1));
        assert(s.subrange(1, 1 + n) =~= frames[0].0);
        assert(s.subrange(1 + n, s.len() as int) =~= stream_of(rest));
        assert(frames_read(s) =~= frames.map_values(|f: (Seq<u8>, SizeClass)| f.0));
    }
}

/// The hexadecimal digit of a number below sixteen.
fn hex(n: u64) -> (c: char)
    requires
        n < 16,
    ensures
        c == encoding::hex_digit(n as nat),
{
    if n < 10 {
        (48u8 + n as u8) as char
    } else {
        (97u8 + (n as u8 - 10u8)) as char
    }
}

/// The last four hexadecimal digits of a number.
pub open spec fn hex4(n: nat) -> Seq<char> {
    seq![
        encoding::hex_digit(n / 4096 % 16),
        encoding::hex_digit(n / 256 % 16),
        encoding::hex_digit(n / 16 % 16),
        encoding::hex_digit(n % 16),
    ]
}

/// What a frame is called in the log: its type, and the end of its session
/// number where it has one.
pub open spec fn kind_text(frame: Seq<u8>) -> Seq<char> {
    if frame.len() < 2 {
        "?"@
    } else {
        let name = if frame[1] == 0x01 {
            "рукопожатие"@
        } else if frame[1] == 0x02 {
            "данные"@
        } else {
            "неизвестно"@
        };
        if frame.len() < 10 {
            name
        } else {
            name + " sid="@ + hex4(octets::be(frame.subrange(2, 10)))
        }
    }
}

/// What a frame is called in the log.
pub fn frame_kind(frame: &[u8]) -> (s: String)
    ensures
        s@ == kind_text(frame@),
{
    if frame.len() < 2 {
        return "?".to_owned();
    }
    let name = if frame[1] == 0x01 {
        "рукопожатие"
    } else if frame[1] == 0x02 {
        "данные"
    } else {
        "неизвестно"
    };
    let mut out = name.to_owned();
    if frame.len() >= 10 {
        let session: u64 = octets::be_value(vstd::slice::slice_subrange(frame, 2, 10));
        out.append(" sid=");
        out.push(hex(session / 4096 % 16));
        out.push(hex(session / 256 % 16));
        out.push(hex(session / 16 % 16));
        out.push(hex(session % 16));
        assert(out@ =~= kind_text(frame@));
    }
    out
}

/// The fingerprint of nothing.
pub const FNV_OFFSET: u64 = 0xcbf2_9ce4_8422_2325;

/// What the fingerprint is multiplied by for each byte.
pub const FNV_PRIME: u64 = 0x0000_0100_0000_01b3;

/// The fingerprint of a stream that goes on with these bytes: the FNV-1a hash of
/// sixty-four bits.
pub open spec fn fnv(rolling: u64, bytes: Seq<u8>) -> u64
    decreases bytes.len(),
{
    if bytes.len() == 0 {
        rolling
    } else {
        (fnv(rolling, bytes.drop_last()) ^ (bytes.last() as u64)).wrapping_mul(FNV_PRIME)
    }
}

/// The fingerprint of a stream that goes on with these bytes.
pub fn fnv_update(rolling: u64, bytes: &[u8]) -> (r: u64)
    ensures
        r == fnv(rolling, bytes@),
{
    let n: usize = bytes.len();
    let mut hash: u64 = rolling;
    let mut i: usize = 0;
    assert(bytes@.subrange(0, 0) =~= seq![]);
    while i < n
        invariant
            i <= n,
            n == bytes@.len(),
            hash == fnv(rolling, bytes@.subrange(0, i as int)),
        decreases n - i,
    {
        let ghost upto = bytes@.subrange(0, i as int + 1);
        assert(upto.drop_last() =~= bytes@.subrange(0, i as int));
        hash = (hash ^ (bytes[i] as u64)).wrapping_mul(FNV_PRIME);
        i = i + 1;
    }
    assert(bytes@.subrange(0, i as int) =~= bytes@);
    hash
}

/// It does not matter to the fingerprint where a stream is cut.
pub proof fn lemma_fingerprint_ignores_cuts(rolling: u64, front: Seq<u8>, back: Seq<u8>)
    ensures
        fnv(fnv(rolling, front), back) == fnv(rolling, front + back),
    decreases back.len(),
{
    if back.len() == 0 {
        assert(front + back =~= front);
    } else {
        lemma_fingerprint_ignores_cuts(rolling, front, back.drop_last());
        assert((front + back).drop_last() =~= front + back.drop_last());
    }
}

/// The three sizes are tagged nought, one and two, and every other byte is no tag.
pub proof fn lemma_three_bytes_are_tags(byte: u8)
    ensures
        tag(SizeClass::S) == 0,
        tag(SizeClass::M) == 1,
        tag(SizeClass::L) == 2,
        tagged(byte) is Some <==> byte <= 2,
{
}

/// Only frames of one mebibyte wait apart; every other goes first.
pub proof fn lemma_only_the_largest_wait(len: nat)
    ensures
        lane(len) == Lane::Bulk <==> len == 1_048_576,
        lane(len) == Lane::Urgent <==> len != 1_048_576,
{
}

/// On a stream one byte says the size, and the frame follows whole.
pub proof fn lemma_a_frame_is_written_behind_its_tag(frame: Seq<u8>, class: SizeClass)
    ensures
        written(frame, class).len() == frame.len() + 1,
        written(frame, class)[0] == tag(class),
        written(frame, class).skip(1) == frame,
{
    assert(written(frame, class).skip(1) =~= frame);
}

/// A stream is read frame by frame: behind a tag a whole frame of its size, and
/// then the rest; a frame that is not all there is not read, and behind a byte that
/// is no tag nothing is.
pub proof fn lemma_a_stream_is_read_frame_by_frame(bytes: Seq<u8>, frame: Seq<u8>, class: SizeClass)
    requires
        frame.len() == class.frame_size(),
    ensures
        frames_read(seq![tag(class)] + frame + bytes) == seq![frame] + frames_read(bytes),
        forall|n: int|
            0 <= n < frame.len() ==> #[trigger] frames_read(
                seq![tag(class)] + frame.take(n),
            ).len() == 0,
        bytes.len() > 0 && bytes[0] > 2 ==> frames_read(bytes).len() == 0,
        bytes.len() == 0 ==> frames_read(bytes).len() == 0,
{
    let s = seq![tag(class)] + frame + bytes;
    let end = frame.len() as int + 1;
    assert(s[0] == tag(class));
    assert(s.subrange(1, end) =~= frame);
    assert(s.subrange(end, s.len() as int) =~= bytes);
    assert forall|n: int| 0 <= n < frame.len() implies #[trigger] frames_read(
        seq![tag(class)] + frame.take(n),
    ).len() == 0 by {
        let cut = seq![tag(class)] + frame.take(n);
        assert(cut[0] == tag(class));
        assert(cut.len() == n + 1);
    }
}

/// Four hexadecimal digits are those of the low sixteen bits, the highest first.
pub proof fn lemma_four_digits_are_the_low_bits(high: nat, a: nat, b: nat, c: nat, d: nat)
    requires
        a < 16,
        b < 16,
        c < 16,
        d < 16,
    ensures
        hex4(high * 65536 + a * 4096 + b * 256 + c * 16 + d) == seq![
            encoding::hex_digit(a),
            encoding::hex_digit(b),
            encoding::hex_digit(c),
            encoding::hex_digit(d),
        ],
{
    let n = high * 65536 + a * 4096 + b * 256 + c * 16 + d;
    assert(n / 4096 == high * 16 + a);
    assert(n / 256 == high * 256 + a * 16 + b);
    assert(n / 16 == high * 4096 + a * 256 + b * 16 + c);
    assert((high * 16 + a) % 16 == a);
    assert((high * 256 + a * 16 + b) % 16 == b);
    assert((high * 4096 + a * 256 + b * 16 + c) % 16 == c);
    assert(n % 16 == d);
}

/// A frame is called by its second byte, and by the end of its session number where
/// that is all there; what is too short to say is not known.
pub proof fn lemma_a_frame_is_called_by_its_type(frame: Seq<u8>)
    ensures
        frame.len() < 2 ==> kind_text(frame) == "?"@,
        2 <= frame.len() < 10 && frame[1] == 1 ==> kind_text(frame) == "рукопожатие"@,
        2 <= frame.len() < 10 && frame[1] == 2 ==> kind_text(frame) == "данные"@,
        2 <= frame.len() < 10 && frame[1] != 1 && frame[1] != 2 ==> kind_text(frame)
            == "неизвестно"@,
        frame.len() >= 10 ==> kind_text(frame) == kind_text(frame.take(9)) + " sid="@ + hex4(
            octets::be(frame.subrange(2, 10)),
        ),
{
    if frame.len() >= 10 {
        assert(frame.take(9)[1] == frame[1]);
    }
}

/// A byte more is mixed in and the whole multiplied by the prime, as far as
/// sixty-four bits go; nothing more leaves the fingerprint as it was.
pub proof fn lemma_each_byte_is_mixed_in(rolling: u64, byte: u8)
    ensures
        fnv(rolling, seq![]) == rolling,
        fnv(rolling, seq![byte]) as int == ((rolling ^ (byte as u64)) * 0x0000_0100_0000_01b3)
            % 0x1_0000_0000_0000_0000,
{
    let one = seq![byte];
    assert(one.drop_last() =~= seq![]);
    assert(one.last() == byte);
    reveal_with_fuel(fnv, 2);
}

/// A tag is read by itself, and behind it as many bytes as the frame has.
pub proof fn lemma_a_reader_wants_a_tag_or_a_frame(reader: FrameReader)
    ensures
        reader.class is None ==> reader.wanted() == 1,
        reader.class == Some(SizeClass::S) ==> reader.wanted() == 4096,
        reader.class == Some(SizeClass::M) ==> reader.wanted() == 65536,
        reader.class == Some(SizeClass::L) ==> reader.wanted() == 1048576,
{
}

} // verus!
