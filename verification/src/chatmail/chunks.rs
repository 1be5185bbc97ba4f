//! What chunks spell, whole and broken off.

use crate::chatmail::http;
use crate::chatmail::http::{HttpError, MAX_RESPONSE_BYTES};
use crate::text;
use vstd::prelude::*;
use vstd::utf8::{decode_utf8, encode_utf8, valid_utf8};

verus! {

/// The line that names the size of a chunk: hexadecimal digits, behind them an
/// extension or none, and a line break with a carriage return or without.
pub struct SizeLine {
    pub digits: Seq<char>,
    pub extension: Option<Seq<u8>>,
    pub crlf: bool,
}

/// A chunk: its size, its bytes, and a line break.
pub struct Chunk {
    pub line: SizeLine,
    pub data: Seq<u8>,
    pub crlf: bool,
}

/// A line break, with a carriage return or without.
pub open spec fn line_break(crlf: bool) -> Seq<u8> {
    if crlf {
        seq![13u8, 10u8]
    } else {
        seq![10u8]
    }
}

/// The extension of a size line, behind its semicolon.
pub open spec fn extension_bytes(extension: Option<Seq<u8>>) -> Seq<u8> {
    match extension {
        Some(bytes) => seq![59u8] + bytes,
        None => seq![],
    }
}

impl SizeLine {
    /// The line names this size. Its extension is text on one line.
    pub open spec fn names(self, size: nat) -> bool {
        &&& self.digits.len() > 0
        &&& text::digits(self.digits, 16) == Some(size)
        &&& self.extension matches Some(bytes) ==> valid_utf8(bytes) && !bytes.contains(10u8)
    }

    /// The line as it is sent.
    pub open spec fn sent(self) -> Seq<u8> {
        encode_utf8(self.digits) + extension_bytes(self.extension) + line_break(self.crlf)
    }
}

impl Chunk {
    /// The chunk holds something, and its line names how much.
    pub open spec fn wf(self) -> bool {
        self.data.len() > 0 && self.line.names(self.data.len())
    }

    /// The chunk as it is sent.
    pub open spec fn sent(self) -> Seq<u8> {
        self.line.sent() + self.data + line_break(self.crlf)
    }
}

/// Chunks as they are sent, and the line that ends them.
pub open spec fn all_sent(chunks: Seq<Chunk>, end: SizeLine) -> Seq<u8>
    decreases chunks.len(),
{
    if chunks.len() == 0 {
        end.sent()
    } else {
        chunks[0].sent() + all_sent(chunks.subrange(1, chunks.len() as int), end)
    }
}

/// What the chunks hold, in a row.
pub open spec fn glued(chunks: Seq<Chunk>) -> Seq<u8>
    decreases chunks.len(),
{
    if chunks.len() == 0 {
        seq![]
    } else {
        chunks[0].data + glued(chunks.subrange(1, chunks.len() as int))
    }
}

/// Every chunk is well formed, and the line that ends them names the size zero.
pub open spec fn well_sent(chunks: Seq<Chunk>, end: SizeLine) -> bool {
    end.names(0) && forall|i: int| 0 <= i < chunks.len() ==> (#[trigger] chunks[i]).wf()
}

/// Digits are characters of one byte, none of them a space, a sign or a mark.
proof fn lemma_digits_are_plain(s: Seq<char>)
    requires
        text::digits(s, 16) is Some,
    ensures
        forall|i: int|
            0 <= i < s.len() ==> '0' <= #[trigger] s[i] <= 'z' && s[i] != ';' && !text::is_space(
                s[i],
            ),
    decreases s.len(),
{
    if s.len() > 0 {
        lemma_digits_are_plain(s.drop_last());
        assert forall|i: int| 0 <= i < s.len() implies '0' <= #[trigger] s[i] <= 'z' && s[i] != ';'
            && !text::is_space(s[i]) by {
            if i < s.len() - 1 {
                assert(s.drop_last()[i] == s[i]);
            } else {
                assert(text::digit(s.last(), 16) is Some);
            }
        }
    }
}

/// Text that starts and ends with no white space keeps it all but for a carriage
/// return behind it.
proof fn lemma_trimmed_plain(s: Seq<char>)
    requires
        s.len() > 0,
        !text::is_space(s[0]),
        !text::is_space(s.last()),
    ensures
        text::trimmed(s) == s,
        text::trimmed(s.push('\r')) == s,
{
    let t = s.push('\r');
    assert(t[0] == s[0]);
    assert(text::trimmed_start(t) == t);
    assert(t.drop_last() =~= s);
    assert(text::trimmed_end(t) == text::trimmed_end(s));
}

/// The part before a mark, where the mark stands behind text that has none.
proof fn lemma_before(s: Seq<char>, rest: Seq<char>, mark: char)
    requires
        forall|i: int| 0 <= i < s.len() ==> s[i] != mark,
    ensures
        http::before(s, mark) == s,
        http::before(s + seq![mark] + rest, mark) == s,
{
    let needle = seq![mark];
    text::lemma_first_from(s, needle, 0);
    if let Some(at) = text::first(s, needle) {
        assert(s.subrange(at, at + 1)[0] == mark);
        assert(s[at] == mark);
    }
    let t = s + needle + rest;
    let at = s.len() as int;
    assert(t.subrange(at, at + 1) =~= needle);
    assert forall|k: int| 0 <= k < at implies !text::occurs_at(t, needle, k) by {
        if text::occurs_at(t, needle, k) {
            assert(t.subrange(k, k + 1)[0] == mark);
            assert(t[k] == s[k]);
        }
    }
    text::lemma_first_is(t, needle, 0, at);
    assert(t.subrange(0, at) =~= s);
}

/// A size line as it is sent, without the line feed, is read as the size that it
/// names, and holds no line feed.
proof fn lemma_size_is_read(line: SizeLine, size: nat)
    requires
        line.names(size),
    ensures
        line.sent().len() > 0,
        line.sent().last() == 10u8,
        !line.sent().drop_last().contains(10u8),
        http::chunk_size(line.sent().drop_last()) == if size <= usize::MAX {
            Some(size)
        } else {
            None
        },
{
    let digits = line.digits;
    lemma_digits_are_plain(digits);
    assert(vstd::utf8::is_ascii_chars(digits));
    vstd::utf8::is_ascii_chars_encode_utf8(digits);
    let cr: Seq<char> = if line.crlf {
        seq!['\r']
    } else {
        seq![]
    };
    assert(vstd::utf8::is_ascii_chars(cr));
    vstd::utf8::is_ascii_chars_encode_utf8(cr);
    let mark = seq![';'];
    assert(vstd::utf8::is_ascii_chars(mark));
    vstd::utf8::is_ascii_chars_encode_utf8(mark);
    let bytes = line.sent().drop_last();
    assert(line.sent().last() == 10u8);
    match line.extension {
        None => {
            let chars = digits + cr;
            text::lemma_utf8_concat(digits, cr);
            assert(bytes =~= encode_utf8(chars));
            text::lemma_utf8_round_trip(chars);
            assert(forall|i: int| 0 <= i < chars.len() ==> chars[i] != ';');
            lemma_before(chars, seq![], ';');
            lemma_trimmed_plain(digits);
            assert(chars =~= if line.crlf {
                digits.push('\r')
            } else {
                digits
            });
            assert(!bytes.contains(10u8));
        },
        Some(extension) => {
            let words = decode_utf8(extension);
            vstd::utf8::decode_utf8_encode_utf8(extension);
            let rest = words + cr;
            let chars = digits + mark + rest;
            text::lemma_utf8_concat(words, cr);
            text::lemma_utf8_concat(digits, mark);
            text::lemma_utf8_concat(digits + mark, rest);
            assert(bytes =~= encode_utf8(chars));
            text::lemma_utf8_round_trip(chars);
            lemma_before(digits, rest, ';');
            lemma_trimmed_plain(digits);
            assert(!bytes.contains(10u8)) by {
                if bytes.contains(10u8) {
                    let i = choose|i: int| 0 <= i < bytes.len() && bytes[i] == 10u8;
                    let k = i - digits.len() - 1;
                    assert(0 <= k < extension.len() ==> extension[k] == bytes[i]);
                }
            }
        },
    }
}

/// The first line feed of what starts with a size line is the one that ends it.
proof fn lemma_line_is_found(line: Seq<u8>, rest: Seq<u8>)
    requires
        line.len() > 0,
        line.last() == 10u8,
        !line.drop_last().contains(10u8),
    ensures
        text::first(line + rest, seq![10u8]) == Some(line.len() - 1),
        (line + rest).subrange(0, line.len() - 1) == line.drop_last(),
        (line + rest).subrange(line.len() as int, (line + rest).len() as int) == rest,
{
    let s = line + rest;
    let at = line.len() - 1;
    assert(s.subrange(at, at + 1) =~= seq![10u8]);
    assert forall|k: int| 0 <= k < at implies !text::occurs_at(s, seq![10u8], k) by {
        if text::occurs_at(s, seq![10u8], k) {
            assert(s.subrange(k, k + 1)[0] == 10u8);
            assert(line.drop_last()[k] == s[k]);
        }
    }
    text::lemma_first_is(s, seq![10u8], 0, at);
    assert(s.subrange(0, at) =~= line.drop_last());
    assert(s.subrange(line.len() as int, s.len() as int) =~= rest);
}

/// A size line that is broken off has no line feed.
proof fn lemma_broken_line(line: Seq<u8>, s: Seq<u8>, out: Seq<u8>)
    requires
        !line.drop_last().contains(10u8),
        s.len() < line.len(),
        s == line.subrange(0, s.len() as int),
    ensures
        http::dechunked_onto(s, out) == Err::<Seq<u8>, HttpError>(HttpError::BadLength),
{
    text::lemma_first_from(s, seq![10u8], 0);
    if let Some(at) = text::first(s, seq![10u8]) {
        assert(s.subrange(at, at + 1)[0] == 10u8);
        assert(line.drop_last()[at] == 10u8);
    }
}

/// The line break behind the bytes of a chunk is passed over.
proof fn lemma_break_is_passed(crlf: bool, rest: Seq<u8>)
    ensures
        crlf ==> text::occurs_at(line_break(crlf) + rest, seq![13u8, 10u8], 0),
        !crlf ==> !text::occurs_at(line_break(crlf) + rest, seq![13u8, 10u8], 0)
            && text::occurs_at(line_break(crlf) + rest, seq![10u8], 0),
        (line_break(crlf) + rest).subrange(
            line_break(crlf).len() as int,
            (line_break(crlf) + rest).len() as int,
        ) == rest,
{
    let s = line_break(crlf) + rest;
    if crlf {
        assert(s.subrange(0, 2) =~= seq![13u8, 10u8]);
    } else {
        assert(s.subrange(0, 1) =~= seq![10u8]);
        if text::occurs_at(s, seq![13u8, 10u8], 0) {
            assert(s.subrange(0, 2)[0] == 13u8);
        }
    }
    assert(s.subrange(line_break(crlf).len() as int, s.len() as int) =~= rest);
}

/// A chunk is glued to what came before it, where the whole is not too long.
proof fn lemma_chunk_is_glued(chunk: Chunk, rest: Seq<u8>, out: Seq<u8>)
    requires
        chunk.wf(),
    ensures
        out.len() + chunk.data.len() <= MAX_RESPONSE_BYTES ==> http::dechunked_onto(
            chunk.sent() + rest,
            out,
        ) == http::dechunked_onto(rest, out + chunk.data),
        out.len() + chunk.data.len() > MAX_RESPONSE_BYTES ==> http::dechunked_onto(
            chunk.sent() + rest,
            out,
        ) == Err::<Seq<u8>, HttpError>(HttpError::BadLength),
{
    let line = chunk.line.sent();
    let tail = line_break(chunk.crlf) + rest;
    let body = chunk.data + tail;
    let s = chunk.sent() + rest;
    lemma_size_is_read(chunk.line, chunk.data.len());
    assert(s =~= line + body);
    lemma_line_is_found(line, body);
    assert(body.subrange(0, chunk.data.len() as int) =~= chunk.data);
    assert(body.subrange(chunk.data.len() as int, body.len() as int) =~= tail);
    lemma_break_is_passed(chunk.crlf, rest);
}

/// A chunk that is broken off gives no body.
proof fn lemma_broken_chunk(chunk: Chunk, n: int, out: Seq<u8>)
    requires
        chunk.wf(),
        0 <= n < chunk.sent().len(),
    ensures
        http::dechunked_onto(chunk.sent().subrange(0, n), out) == Err::<Seq<u8>, HttpError>(
            HttpError::BadLength,
        ),
{
    let line = chunk.line.sent();
    let s = chunk.sent().subrange(0, n);
    lemma_size_is_read(chunk.line, chunk.data.len());
    if n < line.len() {
        assert(s =~= line.subrange(0, n));
        lemma_broken_line(line, s, out);
    } else {
        let body = chunk.sent().subrange(line.len() as int, n);
        assert(s =~= line + body);
        lemma_line_is_found(line, body);
        if body.len() >= chunk.data.len() {
            let left = body.subrange(chunk.data.len() as int, body.len() as int);
            assert(left =~= line_break(chunk.crlf).subrange(0, left.len() as int));
            assert(!text::occurs_at(left, seq![13u8, 10u8], 0));
            if text::occurs_at(left, seq![10u8], 0) {
                assert(left.subrange(0, 1)[0] == 10u8);
            }
        }
    }
}

/// Chunks spell what they hold, in a row, whatever follows the line that ends
/// them: how their sizes are written, what extensions they have and which line
/// breaks they are sent with does not show.
pub proof fn lemma_chunks_are_glued(chunks: Seq<Chunk>, end: SizeLine, tail: Seq<u8>)
    requires
        well_sent(chunks, end),
        glued(chunks).len() <= MAX_RESPONSE_BYTES,
    ensures
        http::dechunked_onto(all_sent(chunks, end) + tail, seq![]) == Ok::<Seq<u8>, HttpError>(
            glued(chunks),
        ),
{
    lemma_chunks_are_glued_onto(chunks, end, tail, seq![]);
    assert(seq![] + glued(chunks) =~= glued(chunks));
}

proof fn lemma_chunks_are_glued_onto(
    chunks: Seq<Chunk>,
    end: SizeLine,
    tail: Seq<u8>,
    out: Seq<u8>,
)
    requires
        well_sent(chunks, end),
        out.len() + glued(chunks).len() <= MAX_RESPONSE_BYTES,
    ensures
        http::dechunked_onto(all_sent(chunks, end) + tail, out) == Ok::<Seq<u8>, HttpError>(
            out + glued(chunks),
        ),
    decreases chunks.len(),
{
    if chunks.len() == 0 {
        lemma_size_is_read(end, 0);
        lemma_line_is_found(end.sent(), tail);
        assert(out + glued(chunks) =~= out);
    } else {
        let more = chunks.subrange(1, chunks.len() as int);
        let rest = all_sent(more, end) + tail;
        assert(all_sent(chunks, end) + tail =~= chunks[0].sent() + rest);
        lemma_chunk_is_glued(chunks[0], rest, out);
        lemma_chunks_are_glued_onto(more, end, tail, out + chunks[0].data);
        assert(out + chunks[0].data + glued(more) =~= out + glued(chunks));
    }
}

/// Chunks that are broken off, at whatever place, give no body: half a password
/// is worse than none.
pub proof fn lemma_broken_chunks_are_refused(chunks: Seq<Chunk>, end: SizeLine, n: int)
    requires
        well_sent(chunks, end),
        0 <= n < all_sent(chunks, end).len(),
    ensures
        http::dechunked_onto(all_sent(chunks, end).subrange(0, n), seq![]) == Err::<
            Seq<u8>,
            HttpError,
        >(HttpError::BadLength),
{
    lemma_broken_chunks_onto(chunks, end, n, seq![]);
}

proof fn lemma_broken_chunks_onto(chunks: Seq<Chunk>, end: SizeLine, n: int, out: Seq<u8>)
    requires
        well_sent(chunks, end),
        0 <= n < all_sent(chunks, end).len(),
    ensures
        http::dechunked_onto(all_sent(chunks, end).subrange(0, n), out) == Err::<
            Seq<u8>,
            HttpError,
        >(HttpError::BadLength),
    decreases chunks.len(),
{
    let s = all_sent(chunks, end).subrange(0, n);
    if chunks.len() == 0 {
        lemma_size_is_read(end, 0);
        lemma_broken_line(end.sent(), s, out);
    } else {
        let more = chunks.subrange(1, chunks.len() as int);
        let one = chunks[0].sent();
        if n < one.len() {
            assert(s =~= one.subrange(0, n));
            lemma_broken_chunk(chunks[0], n, out);
        } else {
            let rest = all_sent(more, end).subrange(0, n - one.len());
            assert(s =~= one + rest);
            lemma_chunk_is_glued(chunks[0], rest, out);
            lemma_broken_chunks_onto(more, end, n - one.len(), out + chunks[0].data);
        }
    }
}

} // verus!
