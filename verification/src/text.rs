//! Text as a sequence of characters: search, trimming, numbers.

use vstd::arithmetic::power;
use vstd::prelude::*;
use vstd::string::*;
use vstd::utf8::{decode_utf8, encode_utf8, valid_utf8};

verus! {

broadcast use vstd::string::group_string_axioms;

/// `String::push` of the standard library appends one character.
pub assume_specification[ String::push ](s: &mut String, ch: char)
    ensures
        final(s)@ == old(s)@.push(ch),
;

/// `core::str::from_utf8` of the standard library: the text that the bytes
/// encode, where they are valid UTF-8, and nothing where they are not.
#[verifier::external_body]
fn from_utf8(bytes: &[u8]) -> (r: Option<&str>)
    ensures
        r matches Some(s) ==> valid_utf8(bytes@) && encode_utf8(s@) == bytes@,
        r is None ==> !valid_utf8(bytes@),
{
    core::str::from_utf8(bytes).ok()
}

/// The text that the bytes encode in UTF-8, if they do.
pub open spec fn utf8_text(bytes: Seq<u8>) -> Option<Seq<char>> {
    if valid_utf8(bytes) {
        Some(decode_utf8(bytes))
    } else {
        None
    }
}

/// The text that the bytes encode in UTF-8, character by character.
pub fn utf8_chars(bytes: &[u8]) -> (r: Option<Vec<char>>)
    ensures
        r matches Some(v) ==> utf8_text(bytes@) == Some(v@),
        r is None ==> utf8_text(bytes@) is None,
{
    match from_utf8(bytes) {
        Some(s) => {
            proof {
                vstd::utf8::encode_utf8_decode_utf8(s@);
            }
            Some(chars_of(s))
        },
        None => None,
    }
}

/// Text encoded in UTF-8 reads back.
pub proof fn lemma_utf8_round_trip(text: Seq<char>)
    ensures
        utf8_text(encode_utf8(text)) == Some(text),
{
    vstd::utf8::encode_utf8_valid_utf8(text);
    vstd::utf8::encode_utf8_decode_utf8(text);
}

/// A character takes one to four bytes.
pub proof fn lemma_utf8_len(s: Seq<char>)
    ensures
        s.len() <= encode_utf8(s).len() <= 4 * s.len(),
    decreases s.len(),
{
    if s.len() > 0 {
        lemma_utf8_len(s.drop_first());
    }
}

/// The bytes of two texts in a row are those of the one, then those of the other.
pub proof fn lemma_utf8_concat(a: Seq<char>, b: Seq<char>)
    ensures
        encode_utf8(a + b) == encode_utf8(a) + encode_utf8(b),
    decreases a.len(),
{
    if a.len() == 0 {
        assert(a + b =~= b);
        assert(encode_utf8(a) + encode_utf8(b) =~= encode_utf8(b));
    } else {
        lemma_utf8_concat(a.drop_first(), b);
        assert((a + b).drop_first() =~= a.drop_first() + b);
        let one = vstd::utf8::encode_scalar(a[0] as u32);
        assert(one + (encode_utf8(a.drop_first()) + encode_utf8(b)) =~= one + encode_utf8(
            a.drop_first(),
        ) + encode_utf8(b));
    }
}

/// The characters of a text.
pub fn chars_of(s: &str) -> (v: Vec<char>)
    ensures
        v@ == s@,
{
    let mut v: Vec<char> = Vec::new();
    for c in it: s.chars()
        invariant
            it.seq() == s@,
            v@ == s@.subrange(0, it.index() as int),
    {
        v.push(c);
        assert(v@ =~= s@.subrange(0, it.index() as int + 1));
    }
    assert(s@.subrange(0, s@.len() as int) =~= s@);
    v
}

/// The text of some characters.
pub fn text_of(chars: &[char]) -> (s: String)
    ensures
        s@ == chars@,
{
    let mut s = String::new();
    let mut i: usize = 0;
    while i < chars.len()
        invariant
            i <= chars@.len(),
            s@ == chars@.subrange(0, i as int),
        decreases chars@.len() - i,
    {
        s.push(chars[i]);
        assert(chars@.subrange(0, i as int + 1) =~= chars@.subrange(0, i as int).push(
            chars@[i as int],
        ));
        i = i + 1;
    }
    assert(chars@.subrange(0, i as int) =~= chars@);
    s
}

/// The white space of Unicode.
pub open spec fn is_space(c: char) -> bool {
    ||| '\u{9}' <= c <= '\u{d}'
    ||| c == ' '
    ||| c == '\u{85}'
    ||| c == '\u{a0}'
    ||| c == '\u{1680}'
    ||| '\u{2000}' <= c <= '\u{200a}'
    ||| c == '\u{2028}'
    ||| c == '\u{2029}'
    ||| c == '\u{202f}'
    ||| c == '\u{205f}'
    ||| c == '\u{3000}'
}

/// Whether a character is white space.
pub fn space(c: char) -> (r: bool)
    ensures
        r == is_space(c),
{
    ('\u{9}' <= c && c <= '\u{d}') || c == ' ' || c == '\u{85}' || c == '\u{a0}' || c
        == '\u{1680}' || ('\u{2000}' <= c && c <= '\u{200a}') || c == '\u{2028}' || c == '\u{2029}'
        || c == '\u{202f}' || c == '\u{205f}' || c == '\u{3000}'
}

/// `needle` stands in `hay` at `at`.
pub open spec fn occurs_at<A>(hay: Seq<A>, needle: Seq<A>, at: int) -> bool {
    0 <= at && at + needle.len() <= hay.len() && hay.subrange(at, at + needle.len() as int)
        == needle
}

/// `needle` stands somewhere in `hay`.
pub open spec fn occurs<A>(hay: Seq<A>, needle: Seq<A>) -> bool {
    exists|at: int| occurs_at(hay, needle, at)
}

/// The first place at or behind `from` where `needle` stands in `hay`.
pub open spec fn first_from<A>(hay: Seq<A>, needle: Seq<A>, from: int) -> Option<int>
    decreases hay.len() + 1 - from,
{
    if from < 0 || from + needle.len() > hay.len() {
        None
    } else if occurs_at(hay, needle, from) {
        Some(from)
    } else {
        first_from(hay, needle, from + 1)
    }
}

/// The first place where `needle` stands in `hay`.
pub open spec fn first<A>(hay: Seq<A>, needle: Seq<A>) -> Option<int> {
    first_from(hay, needle, 0)
}

/// What `first_from` says: a place where the needle stands, and none before it.
pub proof fn lemma_first_from<A>(hay: Seq<A>, needle: Seq<A>, from: int)
    requires
        0 <= from,
    ensures
        first_from(hay, needle, from) matches Some(at) ==> from <= at && occurs_at(hay, needle, at)
            && forall|k: int| from <= k < at ==> !occurs_at(hay, needle, k),
        first_from(hay, needle, from) is None ==> forall|k: int|
            from <= k ==> !occurs_at(hay, needle, k),
    decreases hay.len() + 1 - from,
{
    if from + needle.len() <= hay.len() && !occurs_at(hay, needle, from) {
        lemma_first_from(hay, needle, from + 1);
    }
}

/// A place where the needle stands, with none before it, is the first.
pub proof fn lemma_first_is<A>(hay: Seq<A>, needle: Seq<A>, from: int, at: int)
    requires
        0 <= from <= at,
        occurs_at(hay, needle, at),
        forall|k: int| from <= k < at ==> !occurs_at(hay, needle, k),
    ensures
        first_from(hay, needle, from) == Some(at),
{
    lemma_first_from(hay, needle, from);
}

/// Whether `needle` stands in `hay` at `at`.
fn stands_at(hay: &[char], needle: &[char], at: usize) -> (r: bool)
    requires
        at + needle@.len() <= hay@.len(),
    ensures
        r == occurs_at(hay@, needle@, at as int),
{
    let len: usize = hay.len();
    let mut i: usize = 0;
    while i < needle.len()
        invariant
            i <= needle@.len(),
            at + needle@.len() <= hay@.len() == len,
            forall|k: int| 0 <= k < i ==> hay@[at + k] == needle@[k],
        decreases needle@.len() - i,
    {
        if hay[at + i] != needle[i] {
            assert(hay@.subrange(at as int, at + needle@.len() as int)[i as int] != needle@[
                i as int
            ]);
            return false;
        }
        i = i + 1;
    }
    assert(hay@.subrange(at as int, at + needle@.len() as int) =~= needle@);
    true
}

/// The first place at or behind `from` where `needle` stands in `hay`.
pub fn find_chars(hay: &[char], needle: &[char], from: usize) -> (r: Option<usize>)
    ensures
        r matches Some(at) ==> first_from(hay@, needle@, from as int) == Some(at as int),
        r is None ==> first_from(hay@, needle@, from as int) is None,
{
    let mut at: usize = from;
    while at <= hay.len() && needle.len() <= hay.len() - at
        invariant
            from <= at,
            first_from(hay@, needle@, from as int) == first_from(hay@, needle@, at as int),
        decreases hay@.len() + 1 - at,
    {
        if stands_at(hay, needle, at) {
            return Some(at);
        }
        if at == hay.len() {
            assert(first_from(hay@, needle@, at + 1) is None);
            return None;
        }
        at = at + 1;
    }
    None
}

/// Where the first line that starts at `from` ends: at a line feed, or at the end.
pub open spec fn line_end(s: Seq<char>, from: int) -> int
    decreases s.len() - from,
{
    if from < 0 || from >= s.len() || s[from] == '\n' {
        from
    } else {
        line_end(s, from + 1)
    }
}

/// What `line_end` says.
pub proof fn lemma_line_end(s: Seq<char>, from: int)
    requires
        0 <= from <= s.len(),
    ensures
        from <= line_end(s, from) <= s.len(),
        forall|k: int| from <= k < line_end(s, from) ==> s[k] != '\n',
        line_end(s, from) < s.len() ==> s[line_end(s, from)] == '\n',
    decreases s.len() - from,
{
    if from < s.len() && s[from] != '\n' {
        lemma_line_end(s, from + 1);
    }
}

/// The line that starts at `from` is the first line of what starts there.
pub proof fn lemma_line_end_shifts(s: Seq<char>, from: int, at: int)
    requires
        0 <= from <= at <= s.len(),
    ensures
        line_end(s, at) == from + line_end(s.subrange(from, s.len() as int), at - from),
    decreases s.len() - at,
{
    let rest = s.subrange(from, s.len() as int);
    if at < s.len() {
        assert(rest[at - from] == s[at]);
        if s[at] != '\n' {
            lemma_line_end_shifts(s, from, at + 1);
        }
    }
}

/// Where the line that starts at `from` ends.
pub fn end_of_line(s: &[char], from: usize) -> (at: usize)
    requires
        from <= s@.len(),
    ensures
        at == line_end(s@, from as int),
        from <= at <= s@.len(),
        at < s@.len() ==> s@[at as int] == '\n',
{
    let mut at: usize = from;
    while at < s.len() && s[at] != '\n'
        invariant
            from <= at <= s@.len(),
            line_end(s@, from as int) == line_end(s@, at as int),
        decreases s@.len() - at,
    {
        at = at + 1;
    }
    at
}

/// `s` without the white space that it starts with.
pub open spec fn trimmed_start(s: Seq<char>) -> Seq<char>
    decreases s.len(),
{
    if s.len() == 0 || !is_space(s[0]) {
        s
    } else {
        trimmed_start(s.subrange(1, s.len() as int))
    }
}

/// `s` without the white space that it ends with.
pub open spec fn trimmed_end(s: Seq<char>) -> Seq<char>
    decreases s.len(),
{
    if s.len() == 0 || !is_space(s.last()) {
        s
    } else {
        trimmed_end(s.drop_last())
    }
}

/// `s` without the white space at both ends.
pub open spec fn trimmed(s: Seq<char>) -> Seq<char> {
    trimmed_end(trimmed_start(s))
}

/// `s` without the white space that it starts with.
pub fn trim_start(s: &[char]) -> (r: &[char])
    ensures
        r@ == trimmed_start(s@),
{
    let mut rest = s;
    while rest.len() > 0 && space(rest[0])
        invariant
            trimmed_start(s@) == trimmed_start(rest@),
        decreases rest@.len(),
    {
        rest = vstd::slice::slice_subrange(rest, 1, rest.len());
    }
    rest
}

/// `s` without the white space at both ends.
pub fn trim(s: &[char]) -> (r: &[char])
    ensures
        r@ == trimmed(s@),
{
    let mut rest = trim_start(s);
    while rest.len() > 0 && space(rest[rest.len() - 1])
        invariant
            trimmed(s@) == trimmed_end(rest@),
        decreases rest@.len(),
    {
        let shorter = vstd::slice::slice_subrange(rest, 0, rest.len() - 1);
        assert(shorter@ =~= rest@.drop_last());
        rest = shorter;
    }
    rest
}

/// A capital letter of ASCII as the small one, anything else as it is.
pub open spec fn lower(c: char) -> char {
    if 'A' <= c <= 'Z' {
        (c as u32 + 32) as char
    } else {
        c
    }
}

/// `s` with the capital letters of ASCII made small.
pub open spec fn lowered(s: Seq<char>) -> Seq<char> {
    s.map_values(|c: char| lower(c))
}

/// `s` with the capital letters of ASCII made small.
pub fn to_lower(s: &[char]) -> (v: Vec<char>)
    ensures
        v@ == lowered(s@),
{
    let mut v: Vec<char> = Vec::new();
    let mut i: usize = 0;
    while i < s.len()
        invariant
            i <= s@.len(),
            v@ == lowered(s@.subrange(0, i as int)),
        decreases s@.len() - i,
    {
        let c: char = s[i];
        let small: char = if 'A' <= c && c <= 'Z' {
            (c as u8 + 32u8) as char
        } else {
            c
        };
        v.push(small);
        i = i + 1;
        assert(v@ =~= lowered(s@.subrange(0, i as int)));
    }
    assert(s@.subrange(0, i as int) =~= s@);
    v
}

/// Whether two texts are the same.
pub fn same_chars(a: &[char], b: &[char]) -> (r: bool)
    ensures
        r == (a@ == b@),
{
    if a.len() != b.len() {
        return false;
    }
    let mut i: usize = 0;
    while i < a.len()
        invariant
            a@.len() == b@.len(),
            i <= a@.len(),
            forall|k: int| 0 <= k < i ==> a@[k] == b@[k],
        decreases a@.len() - i,
    {
        if a[i] != b[i] {
            return false;
        }
        i = i + 1;
    }
    assert(a@ =~= b@);
    true
}

/// The value of a digit in the radix, if it is one.
pub open spec fn digit(c: char, radix: nat) -> Option<nat> {
    let value: int = if '0' <= c <= '9' {
        c as int - '0' as int
    } else if 'a' <= c <= 'z' {
        c as int - 'a' as int + 10
    } else if 'A' <= c <= 'Z' {
        c as int - 'A' as int + 10
    } else {
        radix as int
    };
    if value < radix {
        Some(value as nat)
    } else {
        None
    }
}

/// The number that the digits spell, if all are digits.
pub open spec fn digits(s: Seq<char>, radix: nat) -> Option<nat>
    decreases s.len(),
{
    if s.len() == 0 {
        Some(0)
    } else {
        match (digits(s.drop_last(), radix), digit(s.last(), radix)) {
            (Some(high), Some(low)) => Some(high * radix + low),
            _ => None,
        }
    }
}

/// The number that a text spells: digits, at least one, a plus sign before them
/// or not.
pub open spec fn number(s: Seq<char>, radix: nat) -> Option<nat> {
    let body = if s.len() > 0 && s[0] == '+' {
        s.subrange(1, s.len() as int)
    } else {
        s
    };
    if body.len() == 0 {
        None
    } else {
        digits(body, radix)
    }
}

/// The number that a text spells, where it is at most `max`.
pub open spec fn number_up_to(s: Seq<char>, radix: nat, max: nat) -> Option<nat> {
    match number(s, radix) {
        Some(n) => if n <= max {
            Some(n)
        } else {
            None
        },
        None => None,
    }
}

/// The value of a digit in the radix, if it is one.
fn digit_value(c: char, radix: u64) -> (r: Option<u64>)
    requires
        2 <= radix <= 36,
    ensures
        r matches Some(d) ==> digit(c, radix as nat) == Some(d as nat),
        r is None ==> digit(c, radix as nat) is None,
{
    let value: u64 = if '0' <= c && c <= '9' {
        (c as u64) - ('0' as u64)
    } else if 'a' <= c && c <= 'z' {
        (c as u64) - ('a' as u64) + 10
    } else if 'A' <= c && c <= 'Z' {
        (c as u64) - ('A' as u64) + 10
    } else {
        radix
    };
    if value < radix {
        Some(value)
    } else {
        None
    }
}

/// More digits make no smaller number, and one bad digit spoils all.
proof fn lemma_digits_grow(s: Seq<char>, i: int, radix: nat)
    requires
        0 <= i <= s.len(),
        2 <= radix,
    ensures
        digits(s.subrange(0, i), radix) is None ==> digits(s, radix) is None,
        digits(s, radix) matches Some(n) ==> digits(s.subrange(0, i), radix)->0 <= n,
    decreases s.len(),
{
    if i < s.len() {
        assert(s.drop_last().subrange(0, i) =~= s.subrange(0, i));
        lemma_digits_grow(s.drop_last(), i, radix);
        if let Some(n) = digits(s, radix) {
            let high = digits(s.drop_last(), radix)->0;
            assert(high <= high * radix) by (nonlinear_arith)
                requires
                    2 <= radix,
            ;
        }
    } else {
        assert(s.subrange(0, i) =~= s);
    }
}

/// The number that the digits spell in the radix, where all are digits and it is
/// at most `max`.
pub fn parse_digits(s: &[char], radix: u64, max: u64) -> (r: Option<u64>)
    requires
        2 <= radix <= 36,
    ensures
        r matches Some(n) ==> digits(s@, radix as nat) == Some(n as nat) && n <= max,
        r is None ==> (digits(s@, radix as nat) matches Some(n) ==> n > max),
{
    let mut value: u64 = 0;
    let mut i: usize = 0;
    while i < s.len()
        invariant
            i <= s@.len(),
            2 <= radix <= 36,
            value <= max,
            digits(s@.subrange(0, i as int), radix as nat) == Some(value as nat),
        decreases s@.len() - i,
    {
        let ghost upto = s@.subrange(0, i as int + 1);
        proof {
            assert(upto.drop_last() =~= s@.subrange(0, i as int));
            lemma_digits_grow(s@, i as int + 1, radix as nat);
        }
        let low: u64 = match digit_value(s[i], radix) {
            Some(d) => d,
            None => {
                return None;
            },
        };
        let shifted: u64 = match value.checked_mul(radix) {
            Some(v) => v,
            None => {
                return None;
            },
        };
        let next: u64 = match shifted.checked_add(low) {
            Some(v) => v,
            None => {
                return None;
            },
        };
        assert(digits(upto, radix as nat) == Some(next as nat));
        if next > max {
            return None;
        }
        value = next;
        i = i + 1;
    }
    assert(s@.subrange(0, i as int) =~= s@);
    Some(value)
}

/// The number that a text spells in the radix, where it is at most `max`.
pub fn parse_number(s: &[char], radix: u64, max: u64) -> (r: Option<u64>)
    requires
        2 <= radix <= 36,
    ensures
        r matches Some(n) ==> number_up_to(s@, radix as nat, max as nat) == Some(n as nat),
        r is None ==> number_up_to(s@, radix as nat, max as nat) is None,
{
    let body = if s.len() > 0 && s[0] == '+' {
        vstd::slice::slice_subrange(s, 1, s.len())
    } else {
        s
    };
    if body.len() == 0 {
        return None;
    }
    parse_digits(body, radix, max)
}

/// The decimal digit of a number below ten.
pub open spec fn decimal_digit(n: nat) -> char {
    ('0' as u32 + n) as char
}

/// A number in decimal digits.
pub open spec fn decimal_text(n: nat) -> Seq<char>
    decreases n,
{
    if n < 10 {
        seq![decimal_digit(n)]
    } else {
        decimal_text(n / 10).push(decimal_digit(n % 10))
    }
}

/// A number in decimal digits.
pub fn decimal(n: u64) -> (s: String)
    ensures
        s@ == decimal_text(n as nat),
    decreases n,
{
    let mut s = if n < 10 {
        String::new()
    } else {
        decimal(n / 10)
    };
    let digit: char = (48u8 + (n % 10) as u8) as char;
    s.push(digit);
    assert(s@ =~= decimal_text(n as nat));
    s
}

/// A number in decimal digits reads back.
pub proof fn lemma_decimal_reads_back(n: nat)
    ensures
        digits(decimal_text(n), 10) == Some(n),
        number(decimal_text(n), 10) == Some(n),
        decimal_text(n).len() > 0,
        '0' <= decimal_text(n)[0] <= '9',
    decreases n,
{
    let s = decimal_text(n);
    if n < 10 {
        assert(s.drop_last() =~= seq![]);
        assert(digits(s.drop_last(), 10) == Some(0nat));
    } else {
        lemma_decimal_reads_back(n / 10);
        assert(s.drop_last() =~= decimal_text(n / 10));
        assert(s[0] == decimal_text(n / 10)[0]);
    }
}

/// Where the first word of a text that starts with one ends.
pub open spec fn word_end(s: Seq<char>) -> nat
    decreases s.len(),
{
    if s.len() == 0 || is_space(s[0]) {
        0
    } else {
        1 + word_end(s.subrange(1, s.len() as int))
    }
}

/// The bound on where a word ends.
pub proof fn lemma_word_end(s: Seq<char>)
    ensures
        word_end(s) <= s.len(),
    decreases s.len(),
{
    if s.len() > 0 && !is_space(s[0]) {
        lemma_word_end(s.subrange(1, s.len() as int));
    }
}

/// The first word of a text; empty where there is none.
pub open spec fn first_word(s: Seq<char>) -> Seq<char> {
    let t = trimmed_start(s);
    t.subrange(0, word_end(t) as int)
}

/// What follows the first word of a text.
pub open spec fn after_first_word(s: Seq<char>) -> Seq<char> {
    let t = trimmed_start(s);
    t.subrange(word_end(t) as int, t.len() as int)
}

/// The first word of a text, and what follows it.
pub fn split_word(s: &[char]) -> (r: (&[char], &[char]))
    ensures
        r.0@ == first_word(s@),
        r.1@ == after_first_word(s@),
{
    let t = trim_start(s);
    let mut end: usize = 0;
    assert(t@.subrange(0, t@.len() as int) =~= t@);
    proof {
        lemma_word_end(t@);
    }
    while end < t.len() && !space(t[end])
        invariant
            end <= t@.len(),
            word_end(t@) == end + word_end(t@.subrange(end as int, t@.len() as int)),
        decreases t@.len() - end,
    {
        let ghost rest = t@.subrange(end as int, t@.len() as int);
        assert(rest[0] == t@[end as int]);
        assert(rest.subrange(1, rest.len() as int) =~= t@.subrange(
            end as int + 1,
            t@.len() as int,
        ));
        end = end + 1;
    }
    proof {
        let rest = t@.subrange(end as int, t@.len() as int);
        if end < t@.len() {
            assert(rest[0] == t@[end as int]);
        }
        assert(word_end(rest) == 0);
    }
    (vstd::slice::slice_subrange(t, 0, end), vstd::slice::slice_subrange(t, end, t.len()))
}

/// Trimmed at the start, a text is what follows the white space that it begins
/// with: it begins with none, and nothing else was taken.
pub proof fn lemma_trimmed_start(s: Seq<char>) -> (a: int)
    ensures
        0 <= a <= s.len(),
        trimmed_start(s) == s.subrange(a, s.len() as int),
        forall|k: int| 0 <= k < a ==> is_space(#[trigger] s[k]),
        a < s.len() ==> !is_space(s[a]),
    decreases s.len(),
{
    if s.len() == 0 || !is_space(s[0]) {
        assert(s.subrange(0, s.len() as int) =~= s);
        0
    } else {
        let rest = s.subrange(1, s.len() as int);
        let b = lemma_trimmed_start(rest);
        assert(rest.subrange(b, rest.len() as int) =~= s.subrange(b + 1, s.len() as int));
        assert forall|k: int| 0 <= k < b + 1 implies is_space(#[trigger] s[k]) by {
            if k > 0 {
                assert(rest[k - 1] == s[k]);
            }
        }
        b + 1
    }
}

/// Trimmed at the end, a text is what stands before the white space that it ends
/// with.
proof fn lemma_trimmed_end(s: Seq<char>) -> (b: int)
    ensures
        0 <= b <= s.len(),
        trimmed_end(s) == s.subrange(0, b),
        forall|k: int| b <= k < s.len() ==> is_space(#[trigger] s[k]),
        b > 0 ==> !is_space(s[b - 1]),
    decreases s.len(),
{
    if s.len() == 0 || !is_space(s.last()) {
        assert(s.subrange(0, s.len() as int) =~= s);
        s.len() as int
    } else {
        let rest = s.drop_last();
        let b = lemma_trimmed_end(rest);
        assert(rest.subrange(0, b) =~= s.subrange(0, b));
        assert forall|k: int| b <= k < s.len() implies is_space(#[trigger] s[k]) by {
            if k < rest.len() {
                assert(rest[k] == s[k]);
            }
        }
        b
    }
}

/// Trimmed, a text is a stretch of itself: around it stands white space only, and
/// it neither begins nor ends with any.
pub proof fn lemma_trimmed(s: Seq<char>)
    ensures
        exists|a: int, b: int|
            {
                &&& 0 <= a <= b <= s.len()
                &&& trimmed(s) == #[trigger] s.subrange(a, b)
                &&& forall|k: int| 0 <= k < a ==> is_space(#[trigger] s[k])
                &&& forall|k: int| b <= k < s.len() ==> is_space(#[trigger] s[k])
            },
        trimmed(s).len() > 0 ==> !is_space(trimmed(s)[0]) && !is_space(trimmed(s).last()),
{
    let a = lemma_trimmed_start(s);
    let t = trimmed_start(s);
    let b = lemma_trimmed_end(t);
    assert(t.subrange(0, b) =~= s.subrange(a, a + b));
    assert forall|k: int| a + b <= k < s.len() implies is_space(#[trigger] s[k]) by {
        assert(t[k - a] == s[k]);
    }
    if b > 0 {
        assert(t[0] == s[a]);
        assert(t[b - 1] == trimmed(s).last());
    }
}

/// The first word of a text is its first stretch without white space: before it
/// stands nothing but white space, behind it white space or nothing, and all the
/// rest of the text follows.
pub proof fn lemma_first_word(s: Seq<char>)
    ensures
        exists|a: int, b: int|
            {
                &&& 0 <= a <= b <= s.len()
                &&& first_word(s) == #[trigger] s.subrange(a, b)
                &&& after_first_word(s) == s.subrange(b, s.len() as int)
                &&& forall|k: int| 0 <= k < a ==> is_space(#[trigger] s[k])
                &&& forall|k: int| a <= k < b ==> !is_space(#[trigger] s[k])
                &&& b < s.len() ==> is_space(s[b])
                &&& a == b ==> b == s.len()
            },
{
    let a = lemma_trimmed_start(s);
    let t = trimmed_start(s);
    lemma_word_end(t);
    lemma_word_is_unbroken(t);
    let w = word_end(t) as int;
    let b = a + w;
    assert(t.subrange(0, w) =~= s.subrange(a, b));
    assert(t.subrange(w, t.len() as int) =~= s.subrange(b, s.len() as int));
    assert forall|k: int| a <= k < b implies !is_space(#[trigger] s[k]) by {
        assert(t[k - a] == s[k]);
    }
    if b < s.len() {
        assert(t[w] == s[b]);
    }
    if a < s.len() {
        assert(t[0] == s[a]);
    }
    assert(first_word(s) == s.subrange(a, b));
}

/// A word has no white space in it, and ends where some stands or the text ends.
proof fn lemma_word_is_unbroken(s: Seq<char>)
    ensures
        word_end(s) <= s.len(),
        forall|k: int| 0 <= k < word_end(s) ==> !is_space(#[trigger] s[k]),
        word_end(s) < s.len() ==> is_space(s[word_end(s) as int]),
    decreases s.len(),
{
    if s.len() > 0 && !is_space(s[0]) {
        let rest = s.subrange(1, s.len() as int);
        lemma_word_is_unbroken(rest);
        assert forall|k: int| 0 <= k < word_end(s) implies !is_space(#[trigger] s[k]) by {
            if k > 0 {
                assert(rest[k - 1] == s[k]);
            }
        }
        if word_end(s) < s.len() {
            assert(rest[word_end(rest) as int] == s[word_end(s) as int]);
        }
    }
}

/// Made small, a text keeps its length and everything in it but the capital letters
/// of ASCII, each of which becomes its small one; done twice it changes no more.
pub proof fn lemma_lowered(s: Seq<char>)
    ensures
        lowered(s).len() == s.len(),
        forall|i: int|
            0 <= i < s.len() ==> #[trigger] lowered(s)[i] as int == if 'A' <= s[i] <= 'Z' {
                s[i] as int - 'A' as int + 'a' as int
            } else {
                s[i] as int
            },
        lowered(lowered(s)) == lowered(s),
{
    assert(lowered(lowered(s)) =~= lowered(s));
}

/// Digits count by their place: what the front spells counts the radix once for
/// each digit behind it. Whoever holds anything that is no digit spells nothing.
pub proof fn lemma_digits_by_place(front: Seq<char>, back: Seq<char>, radix: nat)
    ensures
        digits(front + back, radix) is Some <==> digits(front, radix) is Some && digits(back, radix)
            is Some,
        digits(front + back, radix) matches Some(n) ==> n == digits(front, radix)->0 * power::pow(
            radix as int,
            back.len(),
        ) + digits(back, radix)->0,
        back.len() == 0 ==> digits(back, radix) == Some(0nat),
        back.len() == 1 ==> digits(back, radix) == digit(back[0], radix),
    decreases back.len(),
{
    if back.len() == 0 {
        assert(front + back =~= front);
        power::lemma_pow0(radix as int);
    } else {
        let shorter = back.drop_last();
        lemma_digits_by_place(front, shorter, radix);
        assert((front + back).drop_last() =~= front + shorter);
        assert((front + back).last() == back.last());
        if digits(front + back, radix) is Some {
            let f = digits(front, radix)->0 as int;
            let m = digits(shorter, radix)->0 as int;
            let p = power::pow(radix as int, shorter.len());
            let r = radix as int;
            assert(power::pow(r, back.len()) == r * p) by {
                reveal(power::pow);
            }
            assert((f * p + m) * r == f * (r * p) + m * r) by (nonlinear_arith);
        }
        if back.len() == 1 {
            assert(shorter.len() == 0);
            assert(digits(shorter, radix) == Some(0nat));
            assert(0nat * radix == 0) by (nonlinear_arith);
        }
    }
}

/// The digits are those of the decimal system and, above them, the letters of
/// ASCII, small or capital, as far as the radix goes.
pub proof fn lemma_digit(c: char, radix: nat)
    requires
        2 <= radix <= 36,
    ensures
        digit(c, radix) matches Some(d) ==> d < radix,
        digit(c, radix) matches Some(d) ==> (d < 10 && c as int == '0' as int + d) || (d >= 10 && (
        c as int == 'a' as int + d - 10 || c as int == 'A' as int + d - 10)),
        forall|d: int|
            0 <= d < radix && d < 10 && c as int == #[trigger] ('0' as int + d) ==> digit(c, radix)
                == Some(d as nat),
        forall|d: int|
            10 <= d < radix && (c as int == #[trigger] ('a' as int + d - 10) || c as int == 'A' as int
                + d - 10) ==> digit(c, radix) == Some(d as nat),
{
}

/// A number is digits, at least one, with one plus sign before them or none, and
/// counts where it is not above the greatest that is allowed.
pub proof fn lemma_number(s: Seq<char>, radix: nat, max: nat)
    requires
        2 <= radix <= 36,
    ensures
        number(seq!['+'] + s, radix) == if s.len() > 0 {
            digits(s, radix)
        } else {
            None
        },
        s.len() == 0 ==> number(s, radix) is None,
        s.len() > 0 && s[0] != '+' ==> number(s, radix) == digits(s, radix),
        number_up_to(s, radix, max) is Some <==> number(s, radix) is Some && number(s, radix)->0
            <= max,
        number_up_to(s, radix, max) is Some ==> number_up_to(s, radix, max) == number(s, radix),
{
    let signed = seq!['+'] + s;
    assert(signed.subrange(1, signed.len() as int) =~= s);
}

/// A number in decimal digits has no nought before it, and one digit more for each
/// ten times that it is as large.
pub proof fn lemma_decimal_has_no_leading_nought(n: nat)
    ensures
        n > 0 ==> decimal_text(n)[0] != '0',
        n < 10 ==> decimal_text(n).len() == 1,
        n >= 10 ==> decimal_text(n).len() == decimal_text(n / 10).len() + 1,
    decreases n,
{
    if n >= 10 {
        lemma_decimal_has_no_leading_nought(n / 10);
        lemma_decimal_reads_back(n / 10);
        assert(decimal_text(n)[0] == decimal_text(n / 10)[0]);
    }
}

} // verus!
