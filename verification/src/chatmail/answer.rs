//! What the answer of a server comes to, part by part: the status line, the header
//! lines, where the body ends, and what is read in it.

use crate::chatmail::http;
use crate::chatmail::http::{Framing, HttpError};
use crate::chatmail::json;
use crate::text;
use vstd::prelude::*;
use vstd::string::*;

verus! {

broadcast use vstd::string::group_string_axioms;

/// What stands before and behind the first mark: the mark is in neither the part
/// before nor lost, and nothing else is cut off. Without a mark nothing is cut.
pub proof fn lemma_a_text_is_cut_at_its_first_mark(front: Seq<char>, mark: char, back: Seq<char>)
    requires
        !front.contains(mark),
    ensures
        http::before(front + seq![mark] + back, mark) == front,
        http::behind(front + seq![mark] + back, mark) == Some(back),
        http::before(front, mark) == front,
        http::behind(front, mark) is None,
{
    let needle = seq![mark];
    let s = front + needle + back;
    let at = front.len() as int;
    assert(s.subrange(at, at + 1) =~= needle);
    assert forall|k: int| 0 <= k < at implies !text::occurs_at(s, needle, k) by {
        if text::occurs_at(s, needle, k) {
            assert(s.subrange(k, k + 1)[0] == mark);
            assert(front[k] == mark);
        }
    }
    text::lemma_first_is(s, needle, 0, at);
    assert(s.subrange(0, at) =~= front);
    assert(s.subrange(at + 1, s.len() as int) =~= back);
    text::lemma_first_from(front, needle, 0);
    if let Some(k) = text::first(front, needle) {
        assert(front.subrange(k, k + 1)[0] == mark);
        assert(front[k] == mark);
    }
}

/// The code of a status line is the number behind the version, whatever reason
/// follows.
pub proof fn lemma_a_status_is_read(version: Seq<char>, code: nat, reason: Seq<char>)
    requires
        text::occurs_at(version, "HTTP/"@, 0),
        !version.contains(' '),
    ensures
        http::status_of(version + seq![' '] + text::decimal_text(code)) == if code <= 65535 {
            Some(code)
        } else {
            None
        },
        http::status_of(version + seq![' '] + (text::decimal_text(code) + seq![' '] + reason))
            == if code <= 65535 {
            Some(code)
        } else {
            None
        },
{
    let digits = text::decimal_text(code);
    text::lemma_decimal_reads_back(code);
    lemma_digits_hold_no_space(digits);
    lemma_a_text_is_cut_at_its_first_mark(digits, ' ', reason);
    lemma_a_text_is_cut_at_its_first_mark(version, ' ', digits);
    lemma_a_text_is_cut_at_its_first_mark(version, ' ', digits + seq![' '] + reason);
}

/// A line whose first word is no version of HTTP, or that has no second word, is no
/// status line.
pub proof fn lemma_no_status_without_a_version(word: Seq<char>, rest: Seq<char>)
    requires
        !word.contains(' '),
    ensures
        !text::occurs_at(word, "HTTP/"@, 0) ==> http::status_of(word + seq![' '] + rest) is None,
        http::status_of(word) is None,
{
    lemma_a_text_is_cut_at_its_first_mark(word, ' ', rest);
}

proof fn lemma_digits_hold_no_space(s: Seq<char>)
    requires
        text::digits(s, 10) is Some,
    ensures
        !s.contains(' '),
    decreases s.len(),
{
    if s.len() > 0 {
        lemma_digits_hold_no_space(s.drop_last());
        if s.contains(' ') {
            let k = choose|k: int| 0 <= k < s.len() && s[k] == ' ';
            if k < s.len() - 1 {
                assert(s.drop_last()[k] == ' ');
            }
        }
    }
}

/// A line that names the length sets it, in whatever letters and with whatever
/// white space it does so, and nothing else; a length that is no number leaves none.
pub proof fn lemma_a_length_is_noted(known: Framing, name: Seq<char>, value: Seq<char>)
    requires
        !name.contains(':'),
        text::lowered(text::trimmed(name)) == "content-length"@,
    ensures
        ({
            let now = http::noted(known, name + seq![':'] + value);
            &&& now.chunked == known.chunked
            &&& now.length is Some <==> text::number(text::trimmed(value), 10) is Some
                && text::number(text::trimmed(value), 10)->0 <= usize::MAX
            &&& now.length matches Some(n) ==> text::number(text::trimmed(value), 10) == Some(
                n as nat,
            )
        }),
{
    lemma_a_text_is_cut_at_its_first_mark(name, ':', value);
}

/// A line that names the encoding says whether the body comes in chunks, and nothing
/// else: it does where that word stands anywhere in it, in whatever letters.
pub proof fn lemma_an_encoding_is_noted(known: Framing, name: Seq<char>, value: Seq<char>)
    requires
        !name.contains(':'),
        text::lowered(text::trimmed(name)) == "transfer-encoding"@,
    ensures
        ({
            let now = http::noted(known, name + seq![':'] + value);
            &&& now.length == known.length
            &&& now.chunked <==> text::occurs(
                text::lowered(text::trimmed(value)),
                "chunked"@,
            )
        }),
{
    lemma_a_text_is_cut_at_its_first_mark(name, ':', value);
    reveal_strlit("content-length");
    reveal_strlit("transfer-encoding");
    assert("content-length"@.len() == 14 && "transfer-encoding"@.len() == 17);
    let hay = text::lowered(text::trimmed(value));
    text::lemma_first_from(hay, "chunked"@, 0);
    if text::occurs(hay, "chunked"@) {
        let at = choose|at: int| text::occurs_at(hay, "chunked"@, at);
        assert(0 <= at);
    }
    if let Some(at) = text::first(hay, "chunked"@) {
        assert(text::occurs_at(hay, "chunked"@, at));
    }
}

/// No other line says anything of the body.
pub proof fn lemma_other_lines_say_nothing(known: Framing, name: Seq<char>, value: Seq<char>)
    requires
        !name.contains(':'),
    ensures
        http::noted(known, name) == known,
        text::lowered(text::trimmed(name)) != "content-length"@ && text::lowered(
            text::trimmed(name),
        ) != "transfer-encoding"@ ==> http::noted(known, name + seq![':'] + value) == known,
{
    lemma_a_text_is_cut_at_its_first_mark(name, ':', value);
}

/// Only carriage returns go from the end of a line, and all of them do.
pub proof fn lemma_returns_go(s: Seq<char>) -> (n: int)
    ensures
        0 <= n <= s.len(),
        http::without_returns(s) == s.subrange(0, n),
        forall|k: int| n <= k < s.len() ==> #[trigger] s[k] == '\r',
        n > 0 ==> s[n - 1] != '\r',
    decreases s.len(),
{
    if s.len() > 0 && s.last() == '\r' {
        let n = lemma_returns_go(s.drop_last());
        assert(s.drop_last().subrange(0, n) =~= s.subrange(0, n));
        assert forall|k: int| n <= k < s.len() implies #[trigger] s[k] == '\r' by {
            if k < s.len() - 1 {
                assert(s.drop_last()[k] == s[k]);
            }
        }
        n
    } else {
        assert(s.subrange(0, s.len() as int) =~= s);
        s.len() as int
    }
}

/// Lines, each on a line of its own.
pub open spec fn lines_text(lines: Seq<Seq<char>>) -> Seq<char>
    decreases lines.len(),
{
    if lines.len() == 0 {
        seq![]
    } else {
        lines_text(lines.drop_last()) + seq!['\n'] + lines.last()
    }
}

/// What lines say of the body, one after the other.
pub open spec fn noted_lines(known: Framing, lines: Seq<Seq<char>>) -> Framing
    decreases lines.len(),
{
    if lines.len() == 0 {
        known
    } else {
        http::noted(
            noted_lines(known, lines.drop_last()),
            http::without_returns(lines.last()),
        )
    }
}

/// The head of an answer says of the body what its lines say, each of them and in
/// their order, all but the first.
pub proof fn lemma_every_header_line_counts(first: Seq<char>, lines: Seq<Seq<char>>)
    requires
        !first.contains('\n'),
        forall|i: int| 0 <= i < lines.len() ==> !(#[trigger] lines[i]).contains('\n'),
    ensures
        http::framing(first + lines_text(lines)) == noted_lines(
            Framing { length: None, chunked: false },
            lines,
        ),
{
    let head = first + lines_text(lines);
    let start = Framing { length: None, chunked: false };
    if lines.len() == 0 {
        assert(head =~= first);
        lemma_line_ends(seq![], first, seq![]);
        assert(seq![] + first + seq![] =~= first);
    } else {
        lemma_lines_begin_with_a_break(lines);
        let rest = lines_text(lines);
        lemma_line_ends(seq![], first, rest);
        assert(seq![] + first + rest =~= head);
        lemma_framing_of_lines(first, lines, 0, start);
        assert(lines.subrange(0, 0) =~= seq![]);
        assert(lines_text(lines.subrange(0, 0)) =~= seq![]);
        assert(lines.subrange(0, lines.len() as int) =~= lines);
    }
}

/// Where there are lines, what they are joined to begins with a line break.
proof fn lemma_lines_begin_with_a_break(lines: Seq<Seq<char>>)
    requires
        lines.len() > 0,
    ensures
        lines_text(lines).len() > 0,
        lines_text(lines)[0] == '\n',
    decreases lines.len(),
{
    if lines.len() > 1 {
        lemma_lines_begin_with_a_break(lines.drop_last());
    } else {
        assert(lines_text(lines.drop_last()) =~= seq![]);
    }
}

/// A line ends where the break behind it stands, or with the text.
proof fn lemma_line_ends(front: Seq<char>, line: Seq<char>, back: Seq<char>)
    requires
        !line.contains('\n'),
        back.len() > 0 ==> back[0] == '\n',
    ensures
        text::line_end(front + line + back, front.len() as int) == front.len() + line.len(),
{
    let s = front + line + back;
    let from = front.len() as int;
    text::lemma_line_end(s, from);
    let end = text::line_end(s, from);
    if end < from + line.len() {
        assert(s[end] == line[end - from]);
        assert(line.contains('\n'));
    }
    if end > from + line.len() {
        assert(s[from + line.len() as int] == back[0]);
    }
}

/// The lines from the one at `i` on are noted one by one.
proof fn lemma_framing_of_lines(
    first: Seq<char>,
    lines: Seq<Seq<char>>,
    i: int,
    start: Framing,
)
    requires
        0 <= i < lines.len(),
        forall|k: int| 0 <= k < lines.len() ==> !(#[trigger] lines[k]).contains('\n'),
    ensures
        http::framing_from(
            first + lines_text(lines),
            (first.len() + lines_text(lines.subrange(0, i)).len() + 1) as int,
            noted_lines(start, lines.subrange(0, i)),
        ) == noted_lines(start, lines),
    decreases lines.len() - i,
{
    let head = first + lines_text(lines);
    let done = lines.subrange(0, i);
    let upto = lines.subrange(0, i + 1);
    assert(upto.drop_last() =~= done);
    assert(upto.last() == lines[i]);
    let front = first + lines_text(done) + seq!['\n'];
    let from = front.len() as int;
    lemma_lines_cut(lines, i + 1);
    let left = lines.subrange(i + 1, lines.len() as int);
    let back = lines_text(left);
    if left.len() > 0 {
        lemma_lines_begin_with_a_break(left);
    }
    assert(!lines[i].contains('\n'));
    lemma_line_ends(front, lines[i], back);
    assert(head =~= front + lines[i] + back);
    let end = text::line_end(head, from);
    assert(head.subrange(from, end) =~= lines[i]);
    let now = noted_lines(start, upto);
    assert(now == http::noted(noted_lines(start, done), http::without_returns(lines[i])));
    if i + 1 == lines.len() {
        assert(upto =~= lines);
        assert(left.len() == 0);
    } else {
        lemma_framing_of_lines(first, lines, i + 1, start);
    }
}

/// Lines in two parts are the lines of both.
proof fn lemma_lines_cut(lines: Seq<Seq<char>>, i: int)
    requires
        0 <= i <= lines.len(),
    ensures
        lines_text(lines) == lines_text(lines.subrange(0, i)) + lines_text(
            lines.subrange(i, lines.len() as int),
        ),
    decreases lines.len() - i,
{
    let back = lines.subrange(i, lines.len() as int);
    if i == lines.len() {
        assert(lines.subrange(0, i) =~= lines);
        assert(lines_text(back) =~= seq![]);
        assert(lines_text(lines) =~= lines_text(lines.subrange(0, i)) + lines_text(back));
    } else {
        lemma_lines_cut_shorter(lines, i);
    }
}

/// Lines in two parts, by the lines of the second.
proof fn lemma_lines_cut_shorter(lines: Seq<Seq<char>>, i: int)
    requires
        0 <= i < lines.len(),
    ensures
        lines_text(lines) == lines_text(lines.subrange(0, i)) + lines_text(
            lines.subrange(i, lines.len() as int),
        ),
    decreases lines.len(),
{
    let fewer = lines.drop_last();
    let back = lines.subrange(i, lines.len() as int);
    assert(back.drop_last() =~= fewer.subrange(i, fewer.len() as int));
    assert(back.last() == lines.last());
    assert(fewer.subrange(0, i) =~= lines.subrange(0, i));
    if i < fewer.len() {
        lemma_lines_cut_shorter(fewer, i);
    } else {
        assert(fewer =~= lines.subrange(0, i));
        assert(lines_text(fewer.subrange(i, fewer.len() as int)) =~= seq![]);
    }
    assert(lines_text(lines) =~= lines_text(lines.subrange(0, i)) + lines_text(back));
}

/// The head of an answer ends at the first blank line, and the body starts right
/// behind it: one of both signs where there is any such, else one of line feeds
/// alone. Without a blank line there is no head.
pub proof fn lemma_the_head_ends_at_the_first_blank_line(response: Seq<u8>)
    ensures
        http::head_and_body(response) matches Some((head, body)) ==> {
            let wide = seq![13u8, 10u8, 13u8, 10u8];
            let narrow = seq![10u8, 10u8];
            &&& 0 <= head < body <= response.len()
            &&& text::occurs(response, wide) ==> response.subrange(head, body) == wide
                && forall|k: int| 0 <= k < head ==> !text::occurs_at(response, wide, k)
            &&& !text::occurs(response, wide) ==> response.subrange(head, body) == narrow
                && forall|k: int| 0 <= k < head ==> !text::occurs_at(response, narrow, k)
        },
        http::head_and_body(response) is None <==> !text::occurs(
            response,
            seq![13u8, 10u8, 13u8, 10u8],
        ) && !text::occurs(response, seq![10u8, 10u8]),
{
    let wide = seq![13u8, 10u8, 13u8, 10u8];
    let narrow = seq![10u8, 10u8];
    lemma_first_is_where_it_occurs(response, wide);
    lemma_first_is_where_it_occurs(response, narrow);
}

proof fn lemma_first_is_where_it_occurs(hay: Seq<u8>, needle: Seq<u8>)
    ensures
        text::first(hay, needle) is Some <==> text::occurs(hay, needle),
        text::first(hay, needle) matches Some(at) ==> text::occurs_at(hay, needle, at) && forall|
            k: int,
        |
            0 <= k < at ==> !text::occurs_at(hay, needle, k),
{
    text::lemma_first_from(hay, needle, 0);
    if text::occurs(hay, needle) {
        let at = choose|at: int| text::occurs_at(hay, needle, at);
        assert(0 <= at);
    }
    if let Some(at) = text::first(hay, needle) {
        assert(text::occurs_at(hay, needle, at));
    }
}

/// A body that comes whole is as long as its head says, and is refused where less
/// came; without a word on that it is all that came.
pub proof fn lemma_a_body_is_as_long_as_it_says(body: Seq<u8>, how: Framing)
    requires
        !how.chunked,
    ensures
        how.length is None ==> http::framed(body, how) == Ok::<Seq<u8>, HttpError>(body),
        how.length matches Some(n) ==> if n <= body.len() {
            http::framed(body, how) == Ok::<Seq<u8>, HttpError>(body.take(n as int))
        } else {
            http::framed(body, how) == Err::<Seq<u8>, HttpError>(HttpError::BadLength)
        },
{
}

/// The code of the status line decides: two hundred and up the body counts, three
/// hundred and up nobody follows, and any other code is told. More than sixty-four
/// kibibytes are not read at all, and what has no head in text with a status line is
/// no answer.
pub proof fn lemma_the_code_decides(response: Seq<u8>, head: Seq<char>, code: nat)
    requires
        http::head_and_body(response) is Some,
        text::utf8_text(response.subrange(0, (http::head_and_body(response)->0).0)) == Some(head),
        http::status_of(http::without_returns(head.subrange(0, text::line_end(head, 0)))) == Some(
            code,
        ),
        response.len() <= 65536,
    ensures
        200 <= code < 300 ==> http::body_in(response) == http::framed(
            response.skip((http::head_and_body(response)->0).1),
            http::framing(head),
        ),
        300 <= code < 400 ==> http::body_in(response) == Err::<Seq<u8>, HttpError>(
            HttpError::Redirect,
        ),
        !(200 <= code < 400) ==> http::body_in(response) == Err::<Seq<u8>, HttpError>(
            HttpError::Status { code: code as u16 },
        ),
{
    lemma_the_head_ends_at_the_first_blank_line(response);
    let start = (http::head_and_body(response)->0).1;
    assert(response.skip(start) =~= response.subrange(start, response.len() as int));
}

/// What is too long, has no head, or whose head is no text with a status line, is
/// refused.
pub proof fn lemma_no_answer_is_refused(response: Seq<u8>)
    ensures
        response.len() > 65536 ==> http::body_in(response) == Err::<Seq<u8>, HttpError>(
            HttpError::BadLength,
        ),
        response.len() <= 65536 && http::head_and_body(response) is None ==> http::body_in(response)
            == Err::<Seq<u8>, HttpError>(HttpError::NotHttp),
        response.len() <= 65536 && http::head_and_body(response) is Some && text::utf8_text(
            response.subrange(0, (http::head_and_body(response)->0).0),
        ) is None ==> http::body_in(response) == Err::<Seq<u8>, HttpError>(HttpError::NotHttp),
{
}

/// The address and the password are those that stand in the body under their names,
/// neither of them empty; the address under the first of its two names that stands
/// there. An answer without a body is refused as it is; one without these for want
/// of them.
pub proof fn lemma_credentials_stand_in_the_body(response: Seq<u8>)
    ensures
        http::body_in(response) matches Err(e) ==> http::credentials_in(response) == Err::<
            (Seq<char>, Seq<char>),
            HttpError,
        >(e),
        http::body_in(response) is Ok && http::credentials_in(response) is Err
            ==> http::credentials_in(response)->Err_0 == HttpError::NoCredentials,
        http::credentials_in(response) matches Ok((address, password)) ==> {
            let json = text::utf8_text(http::body_in(response)->Ok_0)->0;
            &&& http::body_in(response) is Ok
            &&& text::utf8_text(http::body_in(response)->Ok_0) is Some
            &&& address.len() > 0 && password.len() > 0
            &&& json::field_of(json, "password"@) == Some(password)
            &&& json::field_of(json, "email"@) is Some ==> json::field_of(json, "email"@) == Some(
                address,
            )
            &&& json::field_of(json, "email"@) is None ==> json::field_of(json, "address"@) == Some(
                address,
            )
        },
        http::body_in(response) matches Ok(body) ==> text::utf8_text(body) matches Some(json) ==> (
        json::field_of(json, "password"@) is Some && json::field_of(json, "password"@)->0.len() > 0
            && ((json::field_of(json, "email"@) is Some && json::field_of(json, "email"@)->0.len()
            > 0) || (json::field_of(json, "email"@) is None && json::field_of(json, "address"@)
            is Some && json::field_of(json, "address"@)->0.len() > 0)) ==> http::credentials_in(
            response,
        ) is Ok),
{
}

/// The request posts to the path, names the host, asks for JSON, has no body and
/// keeps nothing open; it says nothing else.
pub proof fn lemma_the_request_says_no_more(host: Seq<char>, path: Seq<char>)
    ensures
        ({
            let r = http::request_text(host, path);
            let target = 5 + path.len() as int;
            let named = target + 17 + host.len() as int;
            &&& text::occurs_at(r, "POST "@, 0)
            &&& text::occurs_at(r, path, 5)
            &&& text::occurs_at(r, " HTTP/1.1\r\nHost: "@, target)
            &&& text::occurs_at(r, host, target + 17)
            &&& text::occurs_at(r, "\r\nAccept: application/json\r\n"@, named)
            &&& text::occurs_at(r, "Content-Length: 0\r\n"@, named + 28)
            &&& text::occurs_at(r, "Connection: close\r\n\r\n"@, named + 47)
            &&& r.len() == named + 68
        }),
{
    let r = http::request_text(host, path);
    reveal_strlit("POST ");
    reveal_strlit(" HTTP/1.1\r\nHost: ");
    reveal_strlit(
        "\r\nAccept: application/json\r\nContent-Length: 0\r\nConnection: close\r\n\r\n",
    );
    reveal_strlit("\r\nAccept: application/json\r\n");
    reveal_strlit("Content-Length: 0\r\n");
    reveal_strlit("Connection: close\r\n\r\n");
    let target = 5 + path.len() as int;
    let named = target + 17 + host.len() as int;
    assert(r.len() == named + 68);
    assert(r.subrange(0, 5) =~= "POST "@);
    assert(r.subrange(5, target) =~= path);
    assert(r.subrange(target, target + 17) =~= " HTTP/1.1\r\nHost: "@);
    assert(r.subrange(target + 17, named) =~= host);
    assert(r.subrange(named, named + 28) =~= "\r\nAccept: application/json\r\n"@);
    assert(r.subrange(named + 28, named + 47) =~= "Content-Length: 0\r\n"@);
    assert(r.subrange(named + 47, named + 68) =~= "Connection: close\r\n\r\n"@);
}

} // verus!
