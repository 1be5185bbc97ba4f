//! One field of a JSON object, without reading the rest of it.

use crate::text;
use vstd::prelude::*;
use vstd::string::*;

verus! {

broadcast use vstd::string::group_string_axioms;

/// The white space of JSON and of ASCII.
pub open spec fn is_ascii_space(c: char) -> bool {
    c == ' ' || c == '\t' || c == '\n' || c == '\r' || c == '\u{c}'
}

/// The first place at or behind `from` that is not white space.
pub open spec fn after_spaces(s: Seq<char>, from: int) -> Option<int>
    decreases s.len() - from,
{
    if from < 0 || from >= s.len() {
        None
    } else if is_ascii_space(s[from]) {
        after_spaces(s, from + 1)
    } else {
        Some(from)
    }
}

/// The place found stands at or behind `from`, within the text.
proof fn lemma_after_spaces(s: Seq<char>, from: int)
    requires
        0 <= from,
    ensures
        after_spaces(s, from) matches Some(at) ==> from <= at < s.len(),
    decreases s.len() - from,
{
    if from < s.len() && is_ascii_space(s[from]) {
        lemma_after_spaces(s, from + 1);
    }
}

/// The character that a code names: a code point that is no surrogate.
pub open spec fn char_of(code: nat) -> Option<char> {
    if code < 0xD800 || 0xE000 <= code <= 0x10FFFF {
        Some(code as char)
    } else {
        None
    }
}

/// The character that a one-letter escape stands for.
pub open spec fn short_escape(c: char) -> Option<char> {
    if c == '"' || c == '\\' || c == '/' {
        Some(c)
    } else if c == 'n' {
        Some('\n')
    } else if c == 'r' {
        Some('\r')
    } else if c == 't' {
        Some('\t')
    } else if c == 'b' {
        Some('\u{8}')
    } else if c == 'f' {
        Some('\u{c}')
    } else {
        None
    }
}

/// The character that a numeric escape stands for, and how many characters of
/// `rest` name it: four hexadecimal digits, and nothing but digits.
pub open spec fn numeric_escape(rest: Seq<char>) -> Option<(char, nat)> {
    if rest.len() < 4 {
        None
    } else {
        match text::digits(rest.subrange(0, 4), 16) {
            None => None,
            Some(code) => match char_of(code) {
                None => None,
                Some(c) => Some((c, 4)),
            },
        }
    }
}

/// The character that an escape stands for, and how many characters of `next`,
/// what follows the backslash, name it.
pub open spec fn escape(next: Seq<char>) -> Option<(char, nat)> {
    if next.len() == 0 {
        None
    } else if next[0] == 'u' {
        match numeric_escape(next.subrange(1, next.len() as int)) {
            None => None,
            Some((c, len)) => Some((c, 1 + len)),
        }
    } else {
        match short_escape(next[0]) {
            None => None,
            Some(c) => Some((c, 1)),
        }
    }
}

/// The string that `rest` starts with, up to its closing quote, behind `out`.
pub open spec fn unescaped_onto(rest: Seq<char>, out: Seq<char>) -> Option<Seq<char>>
    decreases rest.len(),
{
    if rest.len() == 0 {
        None
    } else {
        let next = rest.subrange(1, rest.len() as int);
        if rest[0] == '"' {
            Some(out)
        } else if rest[0] != '\\' {
            unescaped_onto(next, out.push(rest[0]))
        } else {
            match escape(next) {
                None => None,
                Some((c, len)) => unescaped_onto(
                    next.subrange(len as int, next.len() as int),
                    out.push(c),
                ),
            }
        }
    }
}

/// The string that `rest` starts with, up to its closing quote.
pub open spec fn unescaped(rest: Seq<char>) -> Option<Seq<char>> {
    unescaped_onto(rest, seq![])
}

/// A name in quotes.
pub open spec fn quoted(name: Seq<char>) -> Seq<char> {
    seq!['"'] + name + seq!['"']
}

/// The value of the first key at or behind `from`: a key is the name in quotes
/// with a colon and something behind it. A value that is no string is none.
pub open spec fn field_from(json: Seq<char>, name: Seq<char>, from: int) -> Option<Seq<char>>
    decreases json.len() - from,
    via field_from_moves_on
{
    match text::first_from(json, quoted(name), from) {
        None => None,
        Some(at) => {
            let key_end = at + quoted(name).len();
            match after_spaces(json, key_end) {
                Some(colon) if json[colon] == ':' => match after_spaces(json, colon + 1) {
                    Some(value) => if json[value] == '"' {
                        unescaped(json.subrange(value + 1, json.len() as int))
                    } else {
                        None
                    },
                    None => field_from(json, name, key_end),
                },
                _ => field_from(json, name, key_end),
            }
        },
    }
}

#[via_fn]
proof fn field_from_moves_on(json: Seq<char>, name: Seq<char>, from: int) {
    if from >= 0 {
        text::lemma_first_from(json, quoted(name), from);
    }
}

/// The string that a JSON object holds under a name.
pub open spec fn field_of(json: Seq<char>, name: Seq<char>) -> Option<Seq<char>> {
    field_from(json, name, 0)
}

/// The string that a JSON object holds under a name.
#[must_use]
pub fn field(json: &str, name: &str) -> (r: Option<String>)
    ensures
        r matches Some(v) ==> field_of(json@, name@) == Some(v@),
        r is None ==> field_of(json@, name@) is None,
{
    let chars = text::chars_of(json);
    let mut key: Vec<char> = Vec::new();
    key.push('"');
    let name_chars = text::chars_of(name);
    key.extend_from_slice(name_chars.as_slice());
    key.push('"');
    assert(key@ =~= quoted(name@));
    let mut from: usize = 0;
    while from <= chars.len()
        invariant
            chars@ == json@,
            key@ == quoted(name@),
            from <= chars@.len(),
            field_of(json@, name@) == field_from(json@, name@, from as int),
        decreases chars@.len() - from,
    {
        proof {
            text::lemma_first_from(json@, quoted(name@), from as int);
        }
        let at: usize = match text::find_chars(chars.as_slice(), key.as_slice(), from) {
            Some(at) => at,
            None => {
                return None;
            },
        };
        let key_end: usize = at + key.len();
        proof {
            lemma_after_spaces(json@, key_end as int);
        }
        let colon: usize = match skip_spaces(chars.as_slice(), key_end) {
            Some(pos) => pos,
            None => {
                from = key_end;
                continue ;
            },
        };
        if chars[colon] != ':' {
            from = key_end;
            continue ;
        }
        proof {
            lemma_after_spaces(json@, colon as int + 1);
        }
        let value: usize = match skip_spaces(chars.as_slice(), colon + 1) {
            Some(pos) => pos,
            None => {
                from = key_end;
                continue ;
            },
        };
        if chars[value] != '"' {
            return None;
        }
        return unescape(vstd::slice::slice_subrange(chars.as_slice(), value + 1, chars.len()));
    }
    None
}

/// The first place at or behind `from` that is not white space.
pub fn skip_spaces(s: &[char], from: usize) -> (r: Option<usize>)
    ensures
        r matches Some(at) ==> after_spaces(s@, from as int) == Some(at as int),
        r is None ==> after_spaces(s@, from as int) is None,
{
    let mut at: usize = from;
    while at < s.len()
        invariant
            after_spaces(s@, from as int) == after_spaces(s@, at as int),
        decreases s@.len() - at,
    {
        let c: char = s[at];
        if !(c == ' ' || c == '\t' || c == '\n' || c == '\r' || c == '\u{c}') {
            return Some(at);
        }
        at = at + 1;
    }
    None
}

/// `char::from_u32` of the standard library: the character of a code point, and
/// nothing for a surrogate or a number past the last code point.
#[verifier::external_body]
fn from_u32(code: u32) -> (r: Option<char>)
    ensures
        r == char_of(code as nat),
{
    char::from_u32(code)
}

/// The character that a one-letter escape stands for.
fn short(c: char) -> (r: Option<char>)
    ensures
        r == short_escape(c),
{
    if c == '"' || c == '\\' || c == '/' {
        Some(c)
    } else if c == 'n' {
        Some('\n')
    } else if c == 'r' {
        Some('\r')
    } else if c == 't' {
        Some('\t')
    } else if c == 'b' {
        Some('\u{8}')
    } else if c == 'f' {
        Some('\u{c}')
    } else {
        None
    }
}

/// Four hexadecimal digits spell a number of two bytes.
proof fn lemma_four_digits(s: Seq<char>)
    requires
        s.len() == 4,
    ensures
        text::digits(s, 16) matches Some(n) ==> n <= 0xFFFF,
{
    reveal_with_fuel(text::digits, 5);
}

/// The character that an escape stands for, and how many characters behind the
/// backslash name it.
fn read_escape(next: &[char]) -> (r: Option<(char, usize)>)
    ensures
        r matches Some(found) ==> escape(next@) == Some((found.0, found.1 as nat)) && found.1
            <= next@.len(),
        r is None ==> escape(next@) is None,
{
    if next.len() == 0 {
        return None;
    }
    if next[0] != 'u' {
        return match short(next[0]) {
            Some(c) => Some((c, 1)),
            None => None,
        };
    }
    let behind = vstd::slice::slice_subrange(next, 1, next.len());
    if behind.len() < 4 {
        return None;
    }
    let hex = vstd::slice::slice_subrange(behind, 0, 4);
    let code: u64 = match text::parse_digits(hex, 16, u32::MAX as u64) {
        Some(code) => code,
        None => {
            proof {
                lemma_four_digits(hex@);
            }
            return None;
        },
    };
    match from_u32(code as u32) {
        Some(c) => Some((c, 5)),
        None => None,
    }
}

/// The string that `rest` starts with, up to its closing quote.
pub fn unescape(rest: &[char]) -> (r: Option<String>)
    ensures
        r matches Some(v) ==> unescaped(rest@) == Some(v@),
        r is None ==> unescaped(rest@) is None,
{
    let mut out = String::new();
    let mut left = rest;
    while left.len() > 0
        invariant
            unescaped(rest@) == unescaped_onto(left@, out@),
        decreases left@.len(),
    {
        let c: char = left[0];
        if c == '"' {
            return Some(out);
        }
        let next = vstd::slice::slice_subrange(left, 1, left.len());
        if c != '\\' {
            out.push(c);
            left = next;
        } else {
            match read_escape(next) {
                Some((plain, len)) => {
                    out.push(plain);
                    left = vstd::slice::slice_subrange(next, len, next.len());
                },
                None => {
                    return None;
                },
            }
        }
    }
    None
}

/// A text as it is written in a JSON string: a backslash before every quote and
/// every backslash.
pub open spec fn escaped(v: Seq<char>) -> Seq<char>
    decreases v.len(),
{
    if v.len() == 0 {
        seq![]
    } else {
        (if v[0] == '"' || v[0] == '\\' {
            seq!['\\', v[0]]
        } else {
            seq![v[0]]
        }) + escaped(v.subrange(1, v.len() as int))
    }
}

/// What is written with its quotes and backslashes escaped reads back, whatever
/// follows the closing quote.
pub proof fn lemma_escaped_reads_back(v: Seq<char>, rest: Seq<char>)
    ensures
        unescaped(escaped(v) + seq!['"'] + rest) == Some(v),
{
    lemma_escaped_reads_onto(v, rest, seq![]);
    assert(seq![] + v =~= v);
}

proof fn lemma_escaped_reads_onto(v: Seq<char>, rest: Seq<char>, out: Seq<char>)
    ensures
        unescaped_onto(escaped(v) + seq!['"'] + rest, out) == Some(out + v),
    decreases v.len(),
{
    let s = escaped(v) + seq!['"'] + rest;
    if v.len() == 0 {
        assert(s[0] == '"');
        assert(out + v =~= out);
    } else {
        let tail = v.subrange(1, v.len() as int);
        let more = escaped(tail) + seq!['"'] + rest;
        lemma_escaped_reads_onto(tail, rest, out.push(v[0]));
        assert(out.push(v[0]) + tail =~= out + v);
        let next = s.subrange(1, s.len() as int);
        if v[0] == '"' || v[0] == '\\' {
            assert(s[0] == '\\' && next[0] == v[0]);
            assert(next.subrange(1, next.len() as int) =~= more);
        } else {
            assert(s[0] == v[0]);
            assert(next =~= more);
        }
    }
}

/// A field is found where its name first stands in quotes, with a colon and its
/// value in quotes behind it.
pub proof fn lemma_field_is_found(
    before: Seq<char>,
    name: Seq<char>,
    v: Seq<char>,
    behind: Seq<char>,
)
    requires
        text::first(before + quoted(name) + seq![':', '"'] + escaped(v) + seq!['"'] + behind, quoted(
            name,
        )) == Some(before.len() as int),
    ensures
        field_of(
            before + quoted(name) + seq![':', '"'] + escaped(v) + seq!['"'] + behind,
            name,
        ) == Some(v),
{
    let json = before + quoted(name) + seq![':', '"'] + escaped(v) + seq!['"'] + behind;
    let key_end = (before.len() + quoted(name).len()) as int;
    assert(json[key_end] == ':' && json[key_end + 1] == '"');
    assert(after_spaces(json, key_end) == Some(key_end));
    assert(after_spaces(json, key_end + 1) == Some(key_end + 1));
    assert(json.subrange(key_end + 2, json.len() as int) =~= escaped(v) + seq!['"'] + behind);
    lemma_escaped_reads_back(v, behind);
}

/// Only white space is passed over, and all of it is.
pub proof fn lemma_spaces_are_passed_over(s: Seq<char>, from: int)
    requires
        0 <= from,
    ensures
        after_spaces(s, from) matches Some(at) ==> from <= at < s.len() && !is_ascii_space(s[at])
            && forall|k: int| from <= k < at ==> is_ascii_space(#[trigger] s[k]),
        after_spaces(s, from) is None ==> forall|k: int|
            from <= k < s.len() ==> is_ascii_space(#[trigger] s[k]),
    decreases s.len() - from,
{
    if from < s.len() && is_ascii_space(s[from]) {
        lemma_spaces_are_passed_over(s, from + 1);
    }
}

/// A place behind white space, with none on it, is the one found.
proof fn lemma_spaces_end(s: Seq<char>, from: int, at: int)
    requires
        0 <= from <= at < s.len(),
        !is_ascii_space(s[at]),
        forall|k: int| from <= k < at ==> is_ascii_space(#[trigger] s[k]),
    ensures
        after_spaces(s, from) == Some(at),
{
    lemma_spaces_are_passed_over(s, from);
}

/// A numeric escape stands for the character whose code its four hexadecimal digits
/// spell, and what follows is read on.
pub proof fn lemma_a_numeric_escape_is_read(four: Seq<char>, c: char, rest: Seq<char>, v: Seq<char>)
    requires
        four.len() == 4,
        text::digits(four, 16) == Some(c as nat),
        unescaped(rest) == Some(v),
    ensures
        unescaped(seq!['\\', 'u'] + four + rest) == Some(seq![c] + v),
{
    let s = seq!['\\', 'u'] + four + rest;
    let next = s.subrange(1, s.len() as int);
    let digits = next.subrange(1, next.len() as int);
    assert(digits.subrange(0, 4) =~= four);
    assert(next.subrange(5, next.len() as int) =~= rest);
    assert(escape(next) == Some((c, 5nat)));
    lemma_read_behind(rest, seq![c], v);
    assert(Seq::<char>::empty().push(c) =~= seq![c]);
}

/// A backslash before a quote, a backslash or a slash stands for that character, and
/// before one of five letters for the control character that it names; what follows
/// is read on. Before anything else but a numeric escape it spoils the string.
pub proof fn lemma_a_short_escape_is_read(c: char, rest: Seq<char>, v: Seq<char>)
    requires
        unescaped(rest) == Some(v),
    ensures
        c == '"' || c == '\\' || c == '/' ==> unescaped(seq!['\\', c] + rest) == Some(seq![c] + v),
        c == 'n' ==> unescaped(seq!['\\', c] + rest) == Some(seq!['\u{a}'] + v),
        c == 'r' ==> unescaped(seq!['\\', c] + rest) == Some(seq!['\u{d}'] + v),
        c == 't' ==> unescaped(seq!['\\', c] + rest) == Some(seq!['\u{9}'] + v),
        c == 'b' ==> unescaped(seq!['\\', c] + rest) == Some(seq!['\u{8}'] + v),
        c == 'f' ==> unescaped(seq!['\\', c] + rest) == Some(seq!['\u{c}'] + v),
        !(c == '"' || c == '\\' || c == '/' || c == 'n' || c == 'r' || c == 't' || c == 'b' || c
            == 'f' || c == 'u') ==> unescaped(seq!['\\', c] + rest) is None,
{
    let s = seq!['\\', c] + rest;
    let next = s.subrange(1, s.len() as int);
    assert(next[0] == c);
    assert(next.subrange(1, next.len() as int) =~= rest);
    if let Some(d) = short_escape(c) {
        lemma_read_behind(rest, seq![d], v);
        assert(Seq::<char>::empty().push(d) =~= seq![d]);
    }
}

/// Any other character of a string stands for itself; the quote ends it, and what
/// does not end is no string.
pub proof fn lemma_a_plain_character_is_read(c: char, rest: Seq<char>, v: Seq<char>)
    requires
        c != '"',
        c != '\\',
        unescaped(rest) == Some(v),
    ensures
        unescaped(seq![c] + rest) == Some(seq![c] + v),
        unescaped(seq!['"'] + rest) == Some(Seq::<char>::empty()),
        unescaped(seq![]) is None,
{
    let s = seq![c] + rest;
    assert(s.subrange(1, s.len() as int) =~= rest);
    lemma_read_behind(rest, seq![c], v);
    assert(Seq::<char>::empty().push(c) =~= seq![c]);
}

/// What is read of a string does not depend on what was read before it.
proof fn lemma_read_behind(rest: Seq<char>, out: Seq<char>, v: Seq<char>)
    requires
        unescaped(rest) == Some(v),
    ensures
        unescaped_onto(rest, out) == Some(out + v),
{
    lemma_read_onto(rest, seq![], out);
    assert(out + seq![] =~= out);
}

proof fn lemma_read_onto(rest: Seq<char>, a: Seq<char>, b: Seq<char>)
    ensures
        unescaped_onto(rest, a) is Some <==> unescaped_onto(rest, b + a) is Some,
        unescaped_onto(rest, a) matches Some(v) ==> unescaped_onto(rest, b + a) == Some(b + v),
    decreases rest.len(),
{
    if rest.len() > 0 && rest[0] != '"' {
        let next = rest.subrange(1, rest.len() as int);
        if rest[0] != '\\' {
            lemma_read_onto(next, a.push(rest[0]), b);
            assert((b + a).push(rest[0]) =~= b + a.push(rest[0]));
        } else if let Some((c, len)) = escape(next) {
            lemma_read_onto(next.subrange(len as int, next.len() as int), a.push(c), b);
            assert((b + a).push(c) =~= b + a.push(c));
        }
    }
}

/// A field is found whatever white space stands around its colon.
pub proof fn lemma_spaces_around_the_colon_do_not_matter(
    before: Seq<char>,
    name: Seq<char>,
    gap: Seq<char>,
    other_gap: Seq<char>,
    v: Seq<char>,
    behind: Seq<char>,
)
    requires
        text::first(
            before + quoted(name) + gap + seq![':'] + other_gap + seq!['"'] + escaped(v) + seq!['"']
                + behind,
            quoted(name),
        ) == Some(before.len() as int),
        forall|i: int| 0 <= i < gap.len() ==> is_ascii_space(#[trigger] gap[i]),
        forall|i: int| 0 <= i < other_gap.len() ==> is_ascii_space(#[trigger] other_gap[i]),
    ensures
        field_of(
            before + quoted(name) + gap + seq![':'] + other_gap + seq!['"'] + escaped(v) + seq!['"']
                + behind,
            name,
        ) == Some(v),
{
    let json = before + quoted(name) + gap + seq![':'] + other_gap + seq!['"'] + escaped(v) + seq![
        '"',
    ] + behind;
    let key_end = (before.len() + quoted(name).len()) as int;
    let colon = key_end + gap.len();
    let value = colon + 1 + other_gap.len();
    assert(json[colon] == ':' && json[value] == '"');
    assert forall|k: int| key_end <= k < colon implies is_ascii_space(#[trigger] json[k]) by {
        assert(json[k] == gap[k - key_end]);
    }
    assert forall|k: int| colon + 1 <= k < value implies is_ascii_space(#[trigger] json[k]) by {
        assert(json[k] == other_gap[k - colon - 1]);
    }
    lemma_spaces_end(json, key_end, colon);
    lemma_spaces_end(json, colon + 1, value);
    assert(json.subrange(value + 1, json.len() as int) =~= escaped(v) + seq!['"'] + behind);
    lemma_escaped_reads_back(v, behind);
}

/// The name in quotes that no colon follows is no key: the search goes on behind it.
/// A key whose value is no string holds none, and the search ends there.
pub proof fn lemma_a_mention_is_no_key(json: Seq<char>, name: Seq<char>, from: int, at: int)
    requires
        0 <= from,
        text::first_from(json, quoted(name), from) == Some(at),
    ensures
        ({
            let colon = after_spaces(json, at + name.len() + 2);
            &&& colon is None || json[colon->0] != ':' ==> field_from(json, name, from)
                == field_from(json, name, at + name.len() + 2)
            &&& colon is Some && json[colon->0] == ':' && after_spaces(json, colon->0 + 1) is Some
                && json[after_spaces(json, colon->0 + 1)->0] != '"' ==> field_from(json, name, from)
                is None
        }),
{
}

} // verus!
