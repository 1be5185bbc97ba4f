//! What a relay says.

use vstd::prelude::*;
use vstd::string::*;

verus! {

broadcast use vstd::string::group_string_axioms;

/// One element of a message, as far as it matters.
#[derive(Debug, PartialEq, Eq)]
pub struct Item {
    /// The element, where it is a string.
    pub text: Option<String>,
    /// The element, where it is true or false.
    pub flag: Option<bool>,
    /// What an object holds as its content, where that is a string.
    pub content: Option<String>,
    /// What an object holds as its time, where that is a natural number of 64 bits.
    pub created_at: Option<u64>,
}

/// One element of a message, as the contracts see it.
pub struct ItemView {
    pub text: Option<Seq<char>>,
    pub flag: Option<bool>,
    pub content: Option<Seq<char>>,
    pub created_at: Option<u64>,
}

/// A text that may be missing.
pub open spec fn text_view(s: Option<String>) -> Option<Seq<char>> {
    match s {
        Some(s) => Some(s@),
        None => None,
    }
}

impl View for Item {
    type V = ItemView;

    open spec fn view(&self) -> ItemView {
        ItemView {
            text: text_view(self.text),
            flag: self.flag,
            content: text_view(self.content),
            created_at: self.created_at,
        }
    }
}

/// The elements of some items.
pub open spec fn items_view(items: Seq<Item>) -> Seq<ItemView> {
    items.map_values(|i: Item| i@)
}

/// What `serde_json::from_str` reads in a text that is a JSON array: of each
/// element whether it is a string, whether it is true or false, and what an
/// object holds under the two keys. Nothing where the text is no JSON or no
/// array.
pub uninterp spec fn array_items(
    text: Seq<char>,
    content_key: Seq<char>,
    time_key: Seq<char>,
) -> Option<Seq<ItemView>>;

/// `serde_json::from_str` on a text, and of each element of the array that it
/// is: `as_str`, `as_bool`, and `get` under the two keys with `as_str` and
/// `as_u64`. What is read depends on the text and the keys alone.
#[verifier::external_body]
fn read_array(text: &str, content_key: &str, time_key: &str) -> (r: Option<Vec<Item>>)
    ensures
        r matches Some(items) ==> array_items(text@, content_key@, time_key@) == Some(
            items_view(items@),
        ),
        r is None ==> array_items(text@, content_key@, time_key@) is None,
{
    let value: serde_json::Value = serde_json::from_str(text).ok()?;
    let item = |v: &serde_json::Value| Item {
        text: v.as_str().map(str::to_owned),
        flag: v.as_bool(),
        content: v.get(content_key).and_then(|c| c.as_str()).map(str::to_owned),
        created_at: v.get(time_key).and_then(|t| t.as_u64()),
    };
    Some(value.as_array()?.iter().map(item).collect())
}

/// What a relay says.
#[derive(Debug, PartialEq, Eq)]
pub enum Parsed {
    /// Somebody published this.
    Event { content: String, created_at: u64 },
    /// An event of ours was taken, or refused.
    Answer { id: String, ok: bool, note: String },
    /// The subscription is over.
    Closed { note: String },
    /// Something that does not matter here.
    Other,
}

/// What a relay says, as the contracts see it.
pub enum ParsedView {
    Event { content: Seq<char>, created_at: u64 },
    Answer { id: Seq<char>, ok: bool, note: Seq<char> },
    Closed { note: Seq<char> },
    Other,
}

impl View for Parsed {
    type V = ParsedView;

    open spec fn view(&self) -> ParsedView {
        match self {
            Parsed::Event { content, created_at } => ParsedView::Event {
                content: content@,
                created_at: *created_at,
            },
            Parsed::Answer { id, ok, note } => ParsedView::Answer { id: id@, ok: *ok, note: note@ },
            Parsed::Closed { note } => ParsedView::Closed { note: note@ },
            Parsed::Other => ParsedView::Other,
        }
    }
}

/// The string at a place of a message; empty where there is none.
pub open spec fn note_at(items: Seq<ItemView>, i: int) -> Seq<char> {
    if i < items.len() {
        match items[i].text {
            Some(s) => s,
            None => seq![],
        }
    } else {
        seq![]
    }
}

/// What the elements of a message say: the first says what it is. What lacks a
/// part that it must have says nothing; what is not known, a first element that
/// is no word among it, is passed over.
pub open spec fn said(items: Seq<ItemView>) -> Option<ParsedView> {
    if items.len() == 0 {
        None
    } else {
        match items[0].text {
            None => Some(ParsedView::Other),
            Some(kind) => if kind == "EVENT"@ {
                if items.len() <= 2 {
                    None
                } else {
                    match (items[2].content, items[2].created_at) {
                        (Some(content), Some(created_at)) => Some(
                            ParsedView::Event { content, created_at },
                        ),
                        _ => None,
                    }
                }
            } else if kind == "OK"@ {
                if items.len() <= 2 {
                    None
                } else {
                    match (items[1].text, items[2].flag) {
                        (Some(id), Some(ok)) => Some(
                            ParsedView::Answer { id, ok, note: note_at(items, 3) },
                        ),
                        _ => None,
                    }
                }
            } else if kind == "CLOSED"@ {
                Some(ParsedView::Closed { note: note_at(items, 2) })
            } else {
                Some(ParsedView::Other)
            },
        }
    }
}

/// Whether a text is a word.
fn is_word(s: &String, word: &str) -> (r: bool)
    ensures
        r == (s@ == word@),
{
    *s == word.to_owned()
}

/// The string at a place of a message; empty where there is none.
fn note_of(items: &Vec<Item>, i: usize) -> (s: String)
    ensures
        s@ == note_at(items_view(items@), i as int),
{
    if i < items.len() {
        assert(items_view(items@)[i as int] == items@[i as int]@);
        match &items[i].text {
            Some(s) => s.clone(),
            None => {
                let s = String::new();
                assert(s@ =~= seq![]);
                s
            },
        }
    } else {
        let s = String::new();
        assert(s@ =~= seq![]);
        s
    }
}

/// What the elements of a message say.
pub fn read(items: &Vec<Item>) -> (r: Option<Parsed>)
    ensures
        r matches Some(p) ==> said(items_view(items@)) == Some(p@),
        r is None ==> said(items_view(items@)) is None,
{
    if items.len() == 0 {
        return None;
    }
    let ghost view = items_view(items@);
    assert(view[0] == items@[0]@);
    let kind = match &items[0].text {
        Some(kind) => kind,
        None => {
            return Some(Parsed::Other);
        },
    };
    if is_word(kind, "EVENT") {
        if items.len() <= 2 {
            return None;
        }
        assert(view[2] == items@[2]@);
        return match (&items[2].content, items[2].created_at) {
            (Some(content), Some(created_at)) => Some(
                Parsed::Event { content: content.clone(), created_at },
            ),
            _ => None,
        };
    }
    if is_word(kind, "OK") {
        if items.len() <= 2 {
            return None;
        }
        assert(view[1] == items@[1]@);
        assert(view[2] == items@[2]@);
        return match (&items[1].text, items[2].flag) {
            (Some(id), Some(ok)) => Some(Parsed::Answer { id: id.clone(), ok, note: note_of(items, 3) }),
            _ => None,
        };
    }
    if is_word(kind, "CLOSED") {
        return Some(Parsed::Closed { note: note_of(items, 2) });
    }
    Some(Parsed::Other)
}

/// What a message of a relay says.
pub open spec fn message_said(text: Seq<char>) -> Option<ParsedView> {
    match array_items(text, "content"@, "created_at"@) {
        Some(items) => said(items),
        None => None,
    }
}

/// What a message of a relay says.
pub fn parse(text: &str) -> (r: Option<Parsed>)
    ensures
        r matches Some(p) ==> message_said(text@) == Some(p@),
        r is None ==> message_said(text@) is None,
{
    match read_array(text, "content", "created_at") {
        Some(items) => read(&items),
        None => None,
    }
}

/// An event is read where the first element says so and the third holds both a
/// content and a time: these are what is read.
pub proof fn lemma_an_event_is_its_content_and_time(items: Seq<ItemView>)
    ensures
        said(items) matches Some(ParsedView::Event { content, created_at }) ==> items.len() > 2
            && items[0].text == Some("EVENT"@) && items[2].content == Some(content)
            && items[2].created_at == Some(created_at),
        items.len() > 2 && items[0].text == Some("EVENT"@) && items[2].content is Some
            && items[2].created_at is Some ==> said(items) is Some && said(items)->0 is Event,
{
    reveal_strlit("EVENT");
    reveal_strlit("OK");
    reveal_strlit("CLOSED");
    assert("EVENT"@.len() == 5 && "OK"@.len() == 2 && "CLOSED"@.len() == 6);
}

/// An answer is read where the first element says so, the second names an event and
/// the third says whether it was taken: these are what is read, with the fourth as
/// the reason where it is a text.
pub proof fn lemma_an_answer_is_its_name_and_verdict(items: Seq<ItemView>)
    ensures
        said(items) matches Some(ParsedView::Answer { id, ok, note }) ==> items.len() > 2
            && items[0].text == Some("OK"@) && items[1].text == Some(id) && items[2].flag == Some(
            ok,
        ) && (if items.len() > 3 && items[3].text is Some {
            Some(note) == items[3].text
        } else {
            note.len() == 0
        }),
        items.len() > 2 && items[0].text == Some("OK"@) && items[1].text is Some
            && items[2].flag is Some ==> said(items) is Some && said(items)->0 is Answer,
{
    reveal_strlit("EVENT");
    reveal_strlit("OK");
    reveal_strlit("CLOSED");
    assert("EVENT"@.len() == 5 && "OK"@.len() == 2 && "CLOSED"@.len() == 6);
}

/// A subscription is over where the first element says so, whatever follows; the
/// third is the reason where it is a text.
pub proof fn lemma_a_closing_is_its_reason(items: Seq<ItemView>)
    ensures
        said(items) matches Some(ParsedView::Closed { note }) ==> items.len() > 0 && items[0].text
            == Some("CLOSED"@) && (if items.len() > 2 && items[2].text is Some {
            Some(note) == items[2].text
        } else {
            note.len() == 0
        }),
        items.len() > 0 && items[0].text == Some("CLOSED"@) ==> said(items) is Some
            && said(items)->0 is Closed,
{
    reveal_strlit("EVENT");
    reveal_strlit("OK");
    reveal_strlit("CLOSED");
    assert("EVENT"@.len() == 5 && "OK"@.len() == 2 && "CLOSED"@.len() == 6);
}

/// Nothing is read of an empty array, and of an event or an answer that lacks a
/// part; all that is neither event, answer nor closing is passed over.
pub proof fn lemma_the_rest_is_passed_over(items: Seq<ItemView>)
    ensures
        said(items) is None <==> items.len() == 0 || (items[0].text == Some("EVENT"@) && !(
        items.len() > 2 && items[2].content is Some && items[2].created_at is Some)) || (
        items[0].text == Some("OK"@) && !(items.len() > 2 && items[1].text is Some
            && items[2].flag is Some)),
        said(items) matches Some(ParsedView::Other) <==> items.len() > 0 && items[0].text != Some(
            "EVENT"@,
        ) && items[0].text != Some("OK"@) && items[0].text != Some("CLOSED"@),
{
    reveal_strlit("EVENT");
    reveal_strlit("OK");
    reveal_strlit("CLOSED");
    assert("EVENT"@.len() == 5 && "OK"@.len() == 2 && "CLOSED"@.len() == 6);
}

/// A message is read by its elements, with the content and the time of an event
/// under the keys that they are published under; what is no array says nothing.
pub proof fn lemma_a_message_is_read_by_its_elements(text: Seq<char>)
    ensures
        array_items(text, "content"@, "created_at"@) matches Some(items) ==> message_said(text)
            == said(items),
        array_items(text, "content"@, "created_at"@) is None ==> message_said(text) is None,
{
}

/// Elements are seen as they were read, each in its place and each part of it.
pub proof fn lemma_elements_are_seen_as_they_were_read(items: Seq<Item>, i: int)
    requires
        0 <= i < items.len(),
    ensures
        items_view(items).len() == items.len(),
        items[i].text matches Some(s) ==> items_view(items)[i].text == Some(s@),
        items[i].text is None ==> items_view(items)[i].text is None,
        items[i].content matches Some(s) ==> items_view(items)[i].content == Some(s@),
        items[i].content is None ==> items_view(items)[i].content is None,
        items_view(items)[i].flag == items[i].flag,
        items_view(items)[i].created_at == items[i].created_at,
{
}

} // verus!
