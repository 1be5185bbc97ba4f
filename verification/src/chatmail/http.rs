//! The one request that asks a server for an account, and its answer.

use crate::chatmail::json;
use crate::text;
use vstd::prelude::*;
use vstd::string::*;

verus! {

broadcast use vstd::string::group_string_axioms;

/// The longest answer that is read.
pub const MAX_RESPONSE_BYTES: usize = 64 * 1024;

/// Why an answer gives no account.
#[derive(Debug, Clone, Copy, PartialEq, Eq, Structural)]
pub enum HttpError {
    /// The answer is not HTTP.
    NotHttp,
    /// The server refused.
    Status { code: u16 },
    /// The server sends us elsewhere: nobody goes there for a password.
    Redirect,
    /// The answer is too long, or cut off.
    BadLength,
    /// There is no address and password in the answer.
    NoCredentials,
}

impl HttpError {
    /// The error in words.
    pub open spec fn words(&self) -> Seq<char> {
        match *self {
            HttpError::NotHttp => "ответ сервера не похож на HTTP"@,
            HttpError::Status { code } => "сервер ответил "@ + text::decimal_text(code as nat),
            HttpError::Redirect =>
                "сервер перенаправляет на другой адрес — за паролем туда не ходим"@,
            HttpError::BadLength => "ответ сервера слишком велик или оборван"@,
            HttpError::NoCredentials => "в ответе сервера нет адреса и пароля"@,
        }
    }

    /// The error in words.
    pub fn text(&self) -> (s: String)
        ensures
            s@ == self.words(),
    {
        match *self {
            HttpError::NotHttp => "ответ сервера не похож на HTTP".to_owned(),
            HttpError::Status { code } => {
                let mut s = "сервер ответил ".to_owned();
                let digits = text::decimal(code as u64);
                s.append(digits.as_str());
                s
            },
            HttpError::Redirect => {
                "сервер перенаправляет на другой адрес — за паролем туда не ходим".to_owned()
            },
            HttpError::BadLength => "ответ сервера слишком велик или оборван".to_owned(),
            HttpError::NoCredentials => "в ответе сервера нет адреса и пароля".to_owned(),
        }
    }
}

/// The request: nothing in it says who asks.
pub open spec fn request_text(host: Seq<char>, path: Seq<char>) -> Seq<char> {
    "POST "@ + path + " HTTP/1.1\r\nHost: "@ + host
        + "\r\nAccept: application/json\r\nContent-Length: 0\r\nConnection: close\r\n\r\n"@
}

/// The request for an account.
#[must_use]
pub fn request(host: &str, path: &str) -> (r: String)
    ensures
        r@ == request_text(host@, path@),
{
    let mut r = String::new();
    r.append("POST ");
    r.append(path);
    r.append(" HTTP/1.1\r\nHost: ");
    r.append(host);
    r.append("\r\nAccept: application/json\r\nContent-Length: 0\r\nConnection: close\r\n\r\n");
    assert(r@ =~= request_text(host@, path@));
    r
}

/// The first place where `needle` stands in `haystack`.
pub fn find(haystack: &[u8], needle: &[u8]) -> (r: Option<usize>)
    requires
        needle@.len() > 0,
    ensures
        r matches Some(at) ==> text::first(haystack@, needle@) == Some(at as int) && at
            + needle@.len() <= haystack@.len(),
        r is None ==> text::first(haystack@, needle@) is None,
{
    let mut at: usize = 0;
    while at < haystack.len() && needle.len() <= haystack.len() - at
        invariant
            needle@.len() > 0,
            text::first(haystack@, needle@) == text::first_from(haystack@, needle@, at as int),
        decreases haystack@.len() - at,
    {
        let window = vstd::slice::slice_subrange(haystack, at, at + needle.len());
        if same_bytes(window, needle) {
            return Some(at);
        }
        at = at + 1;
    }
    None
}

/// Whether two byte sequences are the same.
fn same_bytes(a: &[u8], b: &[u8]) -> (r: bool)
    ensures
        r == (a@ == b@),
{
    if a.len() != b.len() {
        return false;
    }
    let mut i: usize = 0;
    while i < a.len()
        invariant
            a@.len() == b@.len(),
            i <= a@.len(),
            forall|k: int| 0 <= k < i ==> a@[k] == b@[k],
        decreases a@.len() - i,
    {
        if a[i] != b[i] {
            return false;
        }
        i = i + 1;
    }
    assert(a@ =~= b@);
    true
}

/// The text before the first `mark`, or all of it.
pub open spec fn before(s: Seq<char>, mark: char) -> Seq<char> {
    match text::first(s, seq![mark]) {
        Some(at) => s.subrange(0, at),
        None => s,
    }
}

/// The text behind the first `mark`, if there is one.
pub open spec fn behind(s: Seq<char>, mark: char) -> Option<Seq<char>> {
    match text::first(s, seq![mark]) {
        Some(at) => Some(s.subrange(at + 1, s.len() as int)),
        None => None,
    }
}

/// Splits a text at the first `mark`.
fn split_at_mark(s: &[char], mark: char) -> (r: (&[char], Option<&[char]>))
    ensures
        r.0@ == before(s@, mark),
        r.1 matches Some(rest) ==> behind(s@, mark) == Some(rest@),
        r.1 is None ==> behind(s@, mark) is None,
{
    let len: usize = s.len();
    let needle: [char; 1] = [mark];
    assert(needle@ =~= seq![mark]);
    proof {
        text::lemma_first_from(s@, seq![mark], 0);
    }
    match text::find_chars(s, needle.as_slice(), 0) {
        Some(at) => (
            vstd::slice::slice_subrange(s, 0, at),
            Some(vstd::slice::slice_subrange(s, at + 1, len)),
        ),
        None => (s, None),
    }
}

/// The code of a status line: the second word, if the first is a version of HTTP.
pub open spec fn status_of(line: Seq<char>) -> Option<nat> {
    if !text::occurs_at(before(line, ' '), "HTTP/"@, 0) {
        None
    } else {
        match behind(line, ' ') {
            Some(rest) => text::number_up_to(before(rest, ' '), 10, u16::MAX as nat),
            None => None,
        }
    }
}

/// The code of a status line.
pub fn status_code(status: &[char]) -> (r: Result<u16, HttpError>)
    ensures
        r matches Ok(code) ==> status_of(status@) == Some(code as nat),
        r matches Err(e) ==> e == HttpError::NotHttp && status_of(status@) is None,
{
    let (version, rest) = split_at_mark(status, ' ');
    let prefix = text::chars_of("HTTP/");
    proof {
        text::lemma_first_from(version@, "HTTP/"@, 0);
        reveal_strlit("HTTP/");
    }
    match text::find_chars(version, prefix.as_slice(), 0) {
        Some(0) => {},
        _ => {
            return Err(HttpError::NotHttp);
        },
    }
    let rest = match rest {
        Some(rest) => rest,
        None => {
            return Err(HttpError::NotHttp);
        },
    };
    let (word, _) = split_at_mark(rest, ' ');
    match text::parse_number(word, 10, u16::MAX as u64) {
        Some(code) => Ok(code as u16),
        None => Err(HttpError::NotHttp),
    }
}

/// How the head of an answer says where its body ends.
#[derive(Debug, Clone, Copy, PartialEq, Eq, Structural)]
pub struct Framing {
    /// The length that was named last, if it is a number.
    pub length: Option<usize>,
    /// Whether the body comes in chunks.
    pub chunked: bool,
}

/// The text without the carriage returns at its end.
pub open spec fn without_returns(s: Seq<char>) -> Seq<char>
    decreases s.len(),
{
    if s.len() > 0 && s.last() == '\r' {
        without_returns(s.drop_last())
    } else {
        s
    }
}

/// What is known of the body after one more header line.
pub open spec fn noted(known: Framing, line: Seq<char>) -> Framing {
    match behind(line, ':') {
        None => known,
        Some(rest) => {
            let name = text::lowered(text::trimmed(before(line, ':')));
            let value = text::trimmed(rest);
            if name == "content-length"@ {
                Framing {
                    length: match text::number_up_to(value, 10, usize::MAX as nat) {
                        Some(n) => Some(n as usize),
                        None => None,
                    },
                    ..known
                }
            } else if name == "transfer-encoding"@ {
                Framing { chunked: text::first(text::lowered(value), "chunked"@) is Some, ..known }
            } else {
                known
            }
        },
    }
}

/// What is known of the body after the header lines from `from` on.
pub open spec fn framing_from(head: Seq<char>, from: int, known: Framing) -> Framing
    decreases head.len() - from,
    via framing_from_moves_on
{
    if from < 0 || from > head.len() {
        known
    } else {
        let end = text::line_end(head, from);
        let now = noted(known, without_returns(head.subrange(from, end)));
        if end >= head.len() {
            now
        } else {
            framing_from(head, end + 1, now)
        }
    }
}

#[via_fn]
proof fn framing_from_moves_on(head: Seq<char>, from: int, known: Framing) {
    if 0 <= from <= head.len() {
        text::lemma_line_end(head, from);
    }
}

/// What the head of an answer says of the body: all its lines but the first.
pub open spec fn framing(head: Seq<char>) -> Framing {
    framing_from(head, text::line_end(head, 0) + 1, Framing { length: None, chunked: false })
}

/// The text without the carriage returns at its end.
fn drop_returns(s: &[char]) -> (r: &[char])
    ensures
        r@ == without_returns(s@),
{
    let mut rest = s;
    while rest.len() > 0 && rest[rest.len() - 1] == '\r'
        invariant
            without_returns(rest@) == without_returns(s@),
        decreases rest@.len(),
    {
        let shorter = vstd::slice::slice_subrange(rest, 0, rest.len() - 1);
        assert(shorter@ =~= rest@.drop_last());
        rest = shorter;
    }
    rest
}

/// What is known of the body after one more header line.
fn note_header(known: Framing, line: &[char]) -> (r: Framing)
    ensures
        r == noted(known, line@),
{
    let (name, rest) = split_at_mark(line, ':');
    match rest {
        None => known,
        Some(rest) => {
            let name = text::to_lower(text::trim(name));
            let value = text::trim(rest);
            let length_name = text::chars_of("content-length");
            let encoding_name = text::chars_of("transfer-encoding");
            if text::same_chars(name.as_slice(), length_name.as_slice()) {
                let length: Option<usize> = match text::parse_number(
                    value,
                    10,
                    usize::MAX as u64,
                ) {
                    Some(n) => Some(n as usize),
                    None => None,
                };
                Framing { length, chunked: known.chunked }
            } else if text::same_chars(name.as_slice(), encoding_name.as_slice()) {
                let lower = text::to_lower(value);
                let word = text::chars_of("chunked");
                let chunked = text::find_chars(lower.as_slice(), word.as_slice(), 0).is_some();
                Framing { length: known.length, chunked }
            } else {
                known
            }
        },
    }
}

/// The size that a chunk line names: a hexadecimal number before a semicolon or
/// the end.
pub open spec fn chunk_size(line: Seq<u8>) -> Option<nat> {
    match text::utf8_text(line) {
        None => None,
        Some(chars) => text::number_up_to(
            text::trimmed(before(chars, ';')),
            16,
            usize::MAX as nat,
        ),
    }
}

/// The body behind `out` that the rest of a chunked body spells.
pub open spec fn dechunked_onto(rest: Seq<u8>, out: Seq<u8>) -> Result<Seq<u8>, HttpError>
    decreases rest.len(),
    via dechunked_moves_on
{
    match text::first(rest, seq![10u8]) {
        None => Err(HttpError::BadLength),
        Some(at) => match chunk_size(rest.subrange(0, at)) {
            None => Err(HttpError::BadLength),
            Some(size) => {
                let data = rest.subrange(at + 1, rest.len() as int);
                if size == 0 {
                    Ok(out)
                } else if data.len() < size {
                    Err(HttpError::BadLength)
                } else {
                    let now = out + data.subrange(0, size as int);
                    let behind = data.subrange(size as int, data.len() as int);
                    if now.len() > MAX_RESPONSE_BYTES {
                        Err(HttpError::BadLength)
                    } else if text::occurs_at(behind, seq![13u8, 10u8], 0) {
                        dechunked_onto(behind.subrange(2, behind.len() as int), now)
                    } else if text::occurs_at(behind, seq![10u8], 0) {
                        dechunked_onto(behind.subrange(1, behind.len() as int), now)
                    } else {
                        Err(HttpError::BadLength)
                    }
                }
            },
        },
    }
}

#[via_fn]
proof fn dechunked_moves_on(rest: Seq<u8>, out: Seq<u8>) {
    text::lemma_first_from(rest, seq![10u8], 0);
}

/// The body that chunks spell.
pub fn dechunk(body: &[u8]) -> (r: Result<Vec<u8>, HttpError>)
    ensures
        r matches Ok(out) ==> dechunked_onto(body@, seq![]) == Ok::<Seq<u8>, HttpError>(out@),
        r matches Err(e) ==> dechunked_onto(body@, seq![]) == Err::<Seq<u8>, HttpError>(e),
{
    let mut out: Vec<u8> = Vec::new();
    let mut rest = body;
    let line_feed: [u8; 1] = [10u8];
    assert(line_feed@ =~= seq![10u8]);
    assert(out@ =~= seq![]);
    loop
        invariant
            line_feed@ == seq![10u8],
            dechunked_onto(body@, seq![]) == dechunked_onto(rest@, out@),
        decreases rest@.len(),
    {
        proof {
            text::lemma_first_from(rest@, seq![10u8], 0);
        }
        let at: usize = match find(rest, line_feed.as_slice()) {
            Some(at) => at,
            None => {
                return Err(HttpError::BadLength);
            },
        };
        let line = match text::utf8_chars(vstd::slice::slice_subrange(rest, 0, at)) {
            Some(line) => line,
            None => {
                return Err(HttpError::BadLength);
            },
        };
        let (word, _) = split_at_mark(line.as_slice(), ';');
        let size: usize = match text::parse_number(text::trim(word), 16, usize::MAX as u64) {
            Some(size) => size as usize,
            None => {
                return Err(HttpError::BadLength);
            },
        };
        let len: usize = rest.len();
        let data = vstd::slice::slice_subrange(rest, at + 1, len);
        if size == 0 {
            return Ok(out);
        }
        if data.len() < size {
            return Err(HttpError::BadLength);
        }
        let ghost before_it = out@;
        let chunk = vstd::slice::slice_subrange(data, 0, size);
        out.extend_from_slice(chunk);
        assert(out@ =~= before_it + data@.subrange(0, size as int));
        if out.len() > MAX_RESPONSE_BYTES {
            return Err(HttpError::BadLength);
        }
        let left = vstd::slice::slice_subrange(data, size, data.len());
        if left.len() >= 2 && left[0] == 13u8 && left[1] == 10u8 {
            assert(left@.subrange(0, 2) =~= seq![13u8, 10u8]);
            rest = vstd::slice::slice_subrange(left, 2, left.len());
        } else if left.len() >= 1 && left[0] == 10u8 {
            assert(left@.subrange(0, 1) =~= seq![10u8]);
            assert(!text::occurs_at(left@, seq![13u8, 10u8], 0)) by {
                if text::occurs_at(left@, seq![13u8, 10u8], 0) {
                    assert(left@.subrange(0, 2)[0] == 13u8);
                }
            }
            rest = vstd::slice::slice_subrange(left, 1, left.len());
        } else {
            proof {
                if text::occurs_at(left@, seq![13u8, 10u8], 0) {
                    assert(left@.subrange(0, 2)[0] == 13u8 && left@.subrange(0, 2)[1] == 10u8);
                }
                if text::occurs_at(left@, seq![10u8], 0) {
                    assert(left@.subrange(0, 1)[0] == 10u8);
                }
            }
            return Err(HttpError::BadLength);
        }
    }
}

/// Where the head of an answer ends, and where its body starts.
pub open spec fn head_and_body(response: Seq<u8>) -> Option<(int, int)> {
    match text::first(response, seq![13u8, 10u8, 13u8, 10u8]) {
        Some(at) => Some((at, at + 4)),
        None => match text::first(response, seq![10u8, 10u8]) {
            Some(at) => Some((at, at + 2)),
            None => None,
        },
    }
}

/// The body of an answer, as its head frames it.
pub open spec fn framed(body: Seq<u8>, how: Framing) -> Result<Seq<u8>, HttpError> {
    if how.chunked {
        dechunked_onto(body, seq![])
    } else {
        match how.length {
            Some(length) => if length > body.len() {
                Err(HttpError::BadLength)
            } else {
                Ok(body.subrange(0, length as int))
            },
            None => Ok(body),
        }
    }
}

/// The body of an answer that grants something.
pub open spec fn body_in(response: Seq<u8>) -> Result<Seq<u8>, HttpError> {
    if response.len() > MAX_RESPONSE_BYTES {
        Err(HttpError::BadLength)
    } else {
        match head_and_body(response) {
            None => Err(HttpError::NotHttp),
            Some((head_end, body_start)) => match text::utf8_text(response.subrange(0, head_end)) {
                None => Err(HttpError::NotHttp),
                Some(head) => match status_of(
                    without_returns(head.subrange(0, text::line_end(head, 0))),
                ) {
                    None => Err(HttpError::NotHttp),
                    Some(code) => if 200 <= code <= 299 {
                        framed(
                            response.subrange(body_start, response.len() as int),
                            framing(head),
                        )
                    } else if 300 <= code <= 399 {
                        Err(HttpError::Redirect)
                    } else {
                        Err(HttpError::Status { code: code as u16 })
                    },
                },
            },
        }
    }
}

/// What the lines of a head from `from` on say of the body.
fn read_framing(head: &[char], from: usize) -> (how: Framing)
    requires
        from <= head@.len() + 1,
    ensures
        how == framing_from(head@, from as int, Framing { length: None, chunked: false }),
{
    let mut known = Framing { length: None, chunked: false };
    let ghost start = known;
    let mut at: usize = from;
    while at <= head.len()
        invariant
            at <= head@.len() + 1,
            start == (Framing { length: None, chunked: false }),
            framing_from(head@, from as int, start) == framing_from(head@, at as int, known),
        decreases head@.len() + 1 - at,
    {
        let end: usize = text::end_of_line(head, at);
        known = note_header(known, drop_returns(vstd::slice::slice_subrange(head, at, end)));
        if end >= head.len() {
            return known;
        }
        at = end + 1;
    }
    known
}

/// The body of an answer that grants something.
pub fn body_of(response: &[u8]) -> (r: Result<Vec<u8>, HttpError>)
    ensures
        r matches Ok(body) ==> body_in(response@) == Ok::<Seq<u8>, HttpError>(body@),
        r matches Err(e) ==> body_in(response@) == Err::<Seq<u8>, HttpError>(e),
{
    if response.len() > MAX_RESPONSE_BYTES {
        return Err(HttpError::BadLength);
    }
    let wide: [u8; 4] = [13u8, 10u8, 13u8, 10u8];
    let narrow: [u8; 2] = [10u8, 10u8];
    assert(wide@ =~= seq![13u8, 10u8, 13u8, 10u8]);
    assert(narrow@ =~= seq![10u8, 10u8]);
    proof {
        text::lemma_first_from(response@, wide@, 0);
        text::lemma_first_from(response@, narrow@, 0);
    }
    let (head_end, body_start): (usize, usize) = match find(response, wide.as_slice()) {
        Some(at) => (at, at + 4),
        None => match find(response, narrow.as_slice()) {
            Some(at) => (at, at + 2),
            None => {
                return Err(HttpError::NotHttp);
            },
        },
    };
    let head = match text::utf8_chars(vstd::slice::slice_subrange(response, 0, head_end)) {
        Some(head) => head,
        None => {
            return Err(HttpError::NotHttp);
        },
    };
    let first_end: usize = text::end_of_line(head.as_slice(), 0);
    let status = drop_returns(vstd::slice::slice_subrange(head.as_slice(), 0, first_end));
    let code: u16 = match status_code(status) {
        Ok(code) => code,
        Err(e) => {
            return Err(e);
        },
    };
    if !(200 <= code && code <= 299) {
        if 300 <= code && code <= 399 {
            return Err(HttpError::Redirect);
        }
        return Err(HttpError::Status { code });
    }
    let body = vstd::slice::slice_subrange(response, body_start, response.len());
    proof {
        vstd::utf8::decode_utf8_encode_utf8(response@.subrange(0, head_end as int));
        text::lemma_utf8_len(head@);
    }
    let how = read_framing(head.as_slice(), first_end + 1);
    if how.chunked {
        return dechunk(body);
    }
    match how.length {
        Some(length) => {
            if length > body.len() {
                Err(HttpError::BadLength)
            } else {
                Ok(vstd::slice::slice_to_vec(vstd::slice::slice_subrange(body, 0, length)))
            }
        },
        None => Ok(vstd::slice::slice_to_vec(body)),
    }
}

/// The address and the password in an answer.
pub open spec fn credentials_in(response: Seq<u8>) -> Result<(Seq<char>, Seq<char>), HttpError> {
    match body_in(response) {
        Err(e) => Err(e),
        Ok(body) => match text::utf8_text(body) {
            None => Err(HttpError::NoCredentials),
            Some(json) => {
                let address = match json::field_of(json, "email"@) {
                    Some(address) => Some(address),
                    None => json::field_of(json, "address"@),
                };
                match (address, json::field_of(json, "password"@)) {
                    (Some(address), Some(password)) => if address.len() > 0 && password.len() > 0 {
                        Ok((address, password))
                    } else {
                        Err(HttpError::NoCredentials)
                    },
                    _ => Err(HttpError::NoCredentials),
                }
            },
        },
    }
}

/// The address and the password in an answer.
pub fn credentials(response: &[u8]) -> (r: Result<(String, String), HttpError>)
    ensures
        r matches Ok(found) ==> credentials_in(response@) == Ok::<
            (Seq<char>, Seq<char>),
            HttpError,
        >((found.0@, found.1@)),
        r matches Err(e) ==> credentials_in(response@) == Err::<(Seq<char>, Seq<char>), HttpError>(
            e,
        ),
{
    let body = match body_of(response) {
        Ok(body) => body,
        Err(e) => {
            return Err(e);
        },
    };
    let json = match text::utf8_chars(body.as_slice()) {
        Some(chars) => text::text_of(chars.as_slice()),
        None => {
            return Err(HttpError::NoCredentials);
        },
    };
    let address = match json::field(json.as_str(), "email") {
        Some(address) => Some(address),
        None => json::field(json.as_str(), "address"),
    };
    let password = json::field(json.as_str(), "password");
    match (address, password) {
        (Some(address), Some(password)) => {
            if !address.as_str().is_empty() && !password.as_str().is_empty() {
                Ok((address, password))
            } else {
                Err(HttpError::NoCredentials)
            }
        },
        _ => Err(HttpError::NoCredentials),
    }
}

} // verus!
