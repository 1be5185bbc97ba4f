//! Sending a letter: how large it may be, and how a login is tried.

use crate::runner::TransportError;
use crate::text;
use vstd::prelude::*;
use vstd::string::*;

verus! {

broadcast use vstd::string::group_string_axioms;

/// The lines of an answer, as the contracts see them.
pub open spec fn lines_view(lines: Seq<String>) -> Seq<Seq<char>> {
    lines.map_values(|l: String| l@)
}

/// The size that the lines from `i` on name: the number behind the first line
/// that starts with the word.
pub open spec fn size_from(lines: Seq<Seq<char>>, i: int) -> Option<nat>
    decreases lines.len() - i,
{
    if i < 0 || i >= lines.len() {
        None
    } else if text::first_word(lines[i]) == "SIZE"@ {
        text::number_up_to(
            text::first_word(text::after_first_word(lines[i])),
            10,
            u64::MAX as nat,
        )
    } else {
        size_from(lines, i + 1)
    }
}

/// The largest letter that a server says it takes, in bytes, where its answer to
/// the greeting names one.
pub fn size_of(lines: &Vec<String>) -> (r: Option<u64>)
    ensures
        r matches Some(n) ==> size_from(lines_view(lines@), 0) == Some(n as nat),
        r is None ==> size_from(lines_view(lines@), 0) is None,
{
    let word = text::chars_of("SIZE");
    let mut i: usize = 0;
    while i < lines.len()
        invariant
            i <= lines@.len(),
            word@ == "SIZE"@,
            size_from(lines_view(lines@), 0) == size_from(lines_view(lines@), i as int),
        decreases lines@.len() - i,
    {
        assert(lines_view(lines@)[i as int] == lines@[i as int]@);
        let line = text::chars_of(lines[i].as_str());
        let (first, rest) = text::split_word(line.as_slice());
        if text::same_chars(first, word.as_slice()) {
            let (second, _) = text::split_word(rest);
            return text::parse_number(second, 10, u64::MAX);
        }
        i = i + 1;
    }
    None
}

/// What is said of a letter that is too large for the server.
pub open spec fn oversize_text(size: nat, limit: nat) -> Seq<char> {
    "письмо на "@ + text::decimal_text(size) + " байт не влезает в предел сервера "@
        + text::decimal_text(limit)
}

/// Whether a letter of this size can be sent under the limit of the server.
pub fn check_size(size: u64, limit: Option<u64>) -> (r: Result<(), TransportError>)
    ensures
        r is Err <==> limit is Some && size > limit->0,
        r matches Err(e) ==> (e matches TransportError::Refused(reason) && reason@ == oversize_text(
            size as nat,
            limit->0 as nat,
        )),
{
    match limit {
        Some(limit) => {
            if size > limit {
                let mut reason = "письмо на ".to_owned();
                reason.append(text::decimal(size).as_str());
                reason.append(" байт не влезает в предел сервера ");
                reason.append(text::decimal(limit).as_str());
                return Err(TransportError::Refused(reason));
            }
            Ok(())
        },
        None => Ok(()),
    }
}

/// A server that letters are sent through.
#[derive(Debug, Clone, Copy, PartialEq, Eq)]
pub struct Sender {
    /// The largest letter it takes, where it says so.
    pub max_letter_bytes: Option<u64>,
}

impl Sender {
    /// A server that answered this to the greeting, or nothing of use.
    pub fn login(greeting: Option<Vec<String>>) -> (s: Sender)
        ensures
            greeting is None ==> s.max_letter_bytes is None,
            greeting matches Some(lines) ==> match s.max_letter_bytes {
                Some(n) => size_from(lines_view(lines@), 0) == Some(n as nat),
                None => size_from(lines_view(lines@), 0) is None,
            },
    {
        Sender {
            max_letter_bytes: match greeting {
                Some(lines) => size_of(&lines),
                None => None,
            },
        }
    }

    /// The largest letter it takes, in bytes, where it says so.
    #[must_use]
    pub fn max_letter_bytes(&self) -> (r: Option<u64>)
        ensures
            r == self.max_letter_bytes,
    {
        self.max_letter_bytes
    }
}

/// Where sending a letter fails.
#[derive(Debug, Clone, Copy, PartialEq, Eq, Structural)]
pub enum Stage {
    Greeting,
    Address,
    Envelope,
    Letter,
}

impl Stage {
    /// What failed, in words.
    pub open spec fn words(&self) -> Seq<char> {
        match self {
            Stage::Greeting => "SMTP не поздоровался: "@,
            Stage::Address => "адрес не годится для письма: "@,
            Stage::Envelope => "конверт не собрался: "@,
            Stage::Letter => "сервер не принял письмо: "@,
        }
    }

    /// The refusal, with what the server or the connection said, or with the
    /// address that is none.
    pub fn refused(&self, error: &str) -> (r: TransportError)
        ensures
            r matches TransportError::Refused(reason) && reason@ == self.words() + error@,
    {
        let words = match self {
            Stage::Greeting => "SMTP не поздоровался: ",
            Stage::Address => "адрес не годится для письма: ",
            Stage::Envelope => "конверт не собрался: ",
            Stage::Letter => "сервер не принял письмо: ",
        };
        let mut reason = words.to_owned();
        reason.append(error);
        TransportError::Refused(reason)
    }
}

/// An address that a letter can be sent from or to, as far as can be seen: visible
/// characters of ASCII without angle brackets.
pub open spec fn is_address(value: Seq<char>) -> bool {
    forall|i: int|
        0 <= i < value.len() ==> '\u{21}' <= #[trigger] value[i] <= '\u{7e}' && value[i] != '<'
            && value[i] != '>'
}

/// `EmailAddress::from_str` of `async_smtp`: it takes a text without characters
/// outside ASCII, control characters, white space and angle brackets, and refuses
/// any other.
#[verifier::external_body]
fn is_email_address(value: &str) -> (r: bool)
    ensures
        r == is_address(value@),
{
    value.parse::<async_smtp::EmailAddress>().is_ok()
}

/// The address, where a letter can be sent from or to it.
pub fn address(value: &str) -> (r: Result<String, TransportError>)
    ensures
        r is Ok <==> is_address(value@),
        r matches Ok(address) ==> address@ == value@,
        r matches Err(e) ==> (e matches TransportError::Refused(reason) && reason@
            == Stage::Address.words() + value@),
{
    if is_email_address(value) {
        Ok(value.to_owned())
    } else {
        Err(Stage::Address.refused(value))
    }
}

/// A way to log in.
#[derive(Debug, Clone, Copy, PartialEq, Eq, Structural)]
pub enum Mechanism {
    Plain,
    Login,
}

/// What to do once a way to log in was tried.
#[derive(Debug, PartialEq, Eq)]
pub enum LoginStep {
    /// We are in.
    In,
    /// Try this way too.
    Try(Mechanism),
    /// All ways were refused.
    Refused(TransportError),
}

/// What to do once a way to log in was tried: the plain one first, then the
/// other; each refusal is kept for the reason.
pub fn login_step(tried: Mechanism, refusal: Option<String>, earlier: &String) -> (r: LoginStep)
    ensures
        refusal is None ==> r is In,
        refusal is Some && tried == Mechanism::Plain ==> r == LoginStep::Try(Mechanism::Login),
        refusal is Some && tried == Mechanism::Login ==> (
        r matches LoginStep::Refused(TransportError::Refused(reason)) && reason@
            == "вход на сервер отвергнут: PLAIN — "@ + earlier@ + "; LOGIN — "@ + refusal->0@),
{
    match refusal {
        None => LoginStep::In,
        Some(second) => match tried {
            Mechanism::Plain => LoginStep::Try(Mechanism::Login),
            Mechanism::Login => {
                let mut reason = "вход на сервер отвергнут: PLAIN — ".to_owned();
                reason.append(earlier.as_str());
                reason.append("; LOGIN — ");
                reason.append(second.as_str());
                LoginStep::Refused(TransportError::Refused(reason))
            },
        },
    }
}

/// The largest letter that a server takes is the number behind the first line that
/// begins with the word for it; what stands on other lines says nothing.
pub proof fn lemma_the_first_size_line_says(lines: Seq<Seq<char>>, from: int, k: int)
    requires
        0 <= from <= k < lines.len(),
        text::first_word(lines[k]) == "SIZE"@,
        forall|i: int| from <= i < k ==> text::first_word(#[trigger] lines[i]) != "SIZE"@,
    ensures
        size_from(lines, from) is Some <==> text::number(
            text::first_word(text::after_first_word(lines[k])),
            10,
        ) is Some && text::number(text::first_word(text::after_first_word(lines[k])), 10)->0
            <= u64::MAX,
        size_from(lines, from) is Some ==> size_from(lines, from) == text::number(
            text::first_word(text::after_first_word(lines[k])),
            10,
        ),
    decreases k - from,
{
    if from < k {
        assert(text::first_word(lines[from]) != "SIZE"@);
        lemma_the_first_size_line_says(lines, from + 1, k);
    }
}

/// Without such a line the server names no size.
pub proof fn lemma_no_size_without_a_line(lines: Seq<Seq<char>>, from: int)
    requires
        0 <= from,
        forall|i: int| from <= i < lines.len() ==> text::first_word(#[trigger] lines[i])
            != "SIZE"@,
    ensures
        size_from(lines, from) is None,
    decreases lines.len() - from,
{
    if from < lines.len() {
        assert(text::first_word(lines[from]) != "SIZE"@);
        lemma_no_size_without_a_line(lines, from + 1);
    }
}

/// A line that says the size, in decimal digits and with white space around it, is
/// read as that size.
pub proof fn lemma_a_size_is_read(n: nat, line: Seq<char>)
    requires
        text::first_word(line) == "SIZE"@,
        text::first_word(text::after_first_word(line)) == text::decimal_text(n),
    ensures
        size_from(seq![line], 0) == if n <= u64::MAX {
            Some(n)
        } else {
            None
        },
{
    text::lemma_decimal_reads_back(n);
    lemma_the_first_size_line_says(seq![line], 0, 0);
}

} // verus!
