//! One relay: how it is reached, what is sent to it, and what a line from it
//! means.

use crate::encoding;
use crate::nostr::message;
use crate::nostr::message::{Parsed, ParsedView};
use vstd::prelude::*;
use vstd::string::*;

verus! {

broadcast use vstd::string::group_string_axioms;

/// How long each step towards a relay may take, in seconds.
pub const CONNECT_TIMEOUT_SECS: u64 = 45;

/// After how many seconds a relay is gone to again.
pub const RELAY_RETRY_SECS: u64 = 60;

/// What is said of a relay.
#[derive(Debug, PartialEq, Eq)]
pub enum RelayNote {
    /// It answers.
    Up { url: String, own: bool },
    /// It does not, for this reason.
    Down { url: String, note: String, own: bool },
    /// Something was published at this time.
    Seen { created_at: u64 },
    /// This was published.
    Event { content: String },
    /// An event of ours was taken, or refused.
    Accepted { id: String, ok: bool },
}

/// How a step towards a relay ended.
#[derive(Debug, PartialEq, Eq)]
pub enum Outcome {
    Done,
    TimedOut,
    /// It failed, in these words.
    Failed(String),
}

/// What came from a relay.
#[derive(Debug, PartialEq, Eq)]
pub enum Came {
    /// A line of text.
    Text(String),
    /// Something that is no text.
    Binary,
    /// The connection broke, in these words.
    Broken(String),
    /// There is nothing more to come.
    Over,
}

/// What to do next.
#[derive(Debug, PartialEq, Eq)]
pub enum Step {
    /// Open a stream, through Tor or not.
    Dial { through_tor: bool },
    /// Encrypt the stream.
    Wrap,
    /// Make a web socket of the stream.
    Shake,
    /// Ask for what was published from this time on.
    Subscribe { from: u64 },
    /// Say these, in this order.
    Tell(Vec<RelayNote>),
    /// Write this line.
    Write(String),
    /// Push out what is written.
    Flush,
    /// Wait for a line to write or for something to come.
    Wait,
    /// Nobody needs the relay any more.
    Stop,
    /// The relay is lost, for this reason.
    Down(String),
}

/// A relay that is gone to.
#[derive(Debug, PartialEq, Eq)]
pub struct Relay {
    pub url: String,
    /// Whether it is one of ours, which are read.
    pub subscribe: bool,
    pub via_tor: bool,
    /// Whether the stream is encrypted.
    pub tls: bool,
    /// The time that was read up to.
    pub since: u64,
}

/// The time from which on a relay is asked: a little before the time that was
/// read up to.
pub open spec fn asked_from(since: u64, margin: u64) -> int {
    if since < margin {
        0
    } else {
        since - margin
    }
}

/// The relay is lost, for this reason.
pub open spec fn down(step: Step, reason: Seq<char>) -> bool {
    step matches Step::Down(words) && words@ == reason
}

/// The step for what a line says, and the time read up to after it.
pub open spec fn line_step(step: Step, said: Option<ParsedView>, before: u64, after: u64) -> bool {
    match said {
        Some(ParsedView::Event { content, created_at }) => {
            &&& after == if before < created_at {
                created_at
            } else {
                before
            }
            &&& step matches Step::Tell(notes) && notes@.len() == 2 && notes@[0]
                == (RelayNote::Seen { created_at }) && (notes@[1] matches RelayNote::Event {
                content: told,
            } && told@ == content)
        },
        Some(ParsedView::Answer { id, ok, .. }) => {
            &&& after == before
            &&& step matches Step::Tell(notes) && notes@.len() == 1 && (
            notes@[0] matches RelayNote::Accepted { id: told, ok: taken } && told@ == id && taken
                == ok)
        },
        Some(ParsedView::Closed { note }) => after == before && down(
            step,
            "реле закрыло подписку: "@ + note,
        ),
        Some(ParsedView::Other) => after == before && step is Flush,
        None => after == before && step is Flush,
    }
}

/// The words, then the error.
fn because(words: &str, error: String) -> (step: Step)
    ensures
        down(step, words@ + error@),
{
    let mut reason = words.to_owned();
    reason.append(error.as_str());
    Step::Down(reason)
}

impl Relay {
    /// What is not changed where only the time read up to is.
    pub open spec fn same(&self, other: &Relay) -> bool {
        &&& self.url == other.url
        &&& self.subscribe == other.subscribe
        &&& self.via_tor == other.via_tor
        &&& self.tls == other.tls
    }

    /// The first step: the address is that of a stream, encrypted or not, or of
    /// nothing. Tor is gone through where that is wanted and the stream is
    /// encrypted.
    pub fn aim(&mut self, target: Option<bool>) -> (step: Step)
        ensures
            target is None ==> *final(self) == *old(self) && down(
                step,
                "адрес реле не годится: "@ + old(self).url@,
            ),
            target matches Some(tls) ==> *final(self) == (Relay { tls, ..*old(self) }) && step == (
            Step::Dial { through_tor: old(self).via_tor && tls }),
    {
        match target {
            None => because("адрес реле не годится: ", self.url.clone()),
            Some(tls) => {
                self.tls = tls;
                Step::Dial { through_tor: self.via_tor && tls }
            },
        }
    }

    /// The stream is open, or not.
    pub fn dialed(&self, outcome: Outcome) -> (step: Step)
        ensures
            outcome is Done ==> step == if self.tls {
                Step::Wrap
            } else {
                Step::Shake
            },
            outcome is TimedOut ==> down(step, "реле не ответило за отведённое время"@),
            outcome matches Outcome::Failed(error) ==> step == Step::Down(error),
    {
        match outcome {
            Outcome::Done => {
                if self.tls {
                    Step::Wrap
                } else {
                    Step::Shake
                }
            },
            Outcome::TimedOut => Step::Down("реле не ответило за отведённое время".to_owned()),
            Outcome::Failed(error) => Step::Down(error),
        }
    }

    /// The stream is encrypted, or not.
    pub fn wrapped(&self, outcome: Outcome) -> (step: Step)
        ensures
            outcome is Done ==> step == Step::Shake,
            outcome is TimedOut ==> down(step, "TLS не установился за отведённое время"@),
            outcome matches Outcome::Failed(error) ==> step == Step::Down(error),
    {
        match outcome {
            Outcome::Done => Step::Shake,
            Outcome::TimedOut => Step::Down("TLS не установился за отведённое время".to_owned()),
            Outcome::Failed(error) => Step::Down(error),
        }
    }

    /// The web socket is open, or not. A relay of ours is then asked for what was
    /// published; `margin` is by how many seconds before the time read up to.
    pub fn shaken(&self, outcome: Outcome, margin: u64) -> (step: Step)
        ensures
            outcome is Done && self.subscribe ==> (step matches Step::Subscribe { from } && from
                == asked_from(self.since, margin)),
            outcome is Done && !self.subscribe ==> self.says_up(step),
            outcome is TimedOut ==> down(step, "рукопожатие веб-сокета не уложилось в срок"@),
            outcome matches Outcome::Failed(error) ==> down(
                step,
                "веб-сокет не открылся: "@ + error@,
            ),
    {
        match outcome {
            Outcome::Done => {
                if self.subscribe {
                    Step::Subscribe { from: self.since.saturating_sub(margin) }
                } else {
                    self.up()
                }
            },
            Outcome::TimedOut => Step::Down(
                "рукопожатие веб-сокета не уложилось в срок".to_owned(),
            ),
            Outcome::Failed(error) => because("веб-сокет не открылся: ", error),
        }
    }

    /// The relay was asked, or not: `refusal` says why not.
    pub fn subscribed(&self, refusal: Option<String>) -> (step: Step)
        ensures
            refusal is None ==> self.says_up(step),
            refusal matches Some(error) ==> down(step, "подписка не ушла: "@ + error@),
    {
        match refusal {
            None => self.up(),
            Some(error) => because("подписка не ушла: ", error),
        }
    }

    /// It is said that the relay answers.
    pub open spec fn says_up(&self, step: Step) -> bool {
        step matches Step::Tell(notes) && notes@ == seq![
            RelayNote::Up { url: self.url, own: self.subscribe },
        ]
    }

    /// It is said that the relay answers.
    fn up(&self) -> (step: Step)
        ensures
            self.says_up(step),
    {
        let mut notes: Vec<RelayNote> = Vec::new();
        notes.push(RelayNote::Up { url: self.url.clone(), own: self.subscribe });
        Step::Tell(notes)
    }

    /// It was said that the relay answers; `heard` says whether anybody listens.
    pub fn up_told(heard: bool) -> (step: Step)
        ensures
            step == if heard {
                Step::Wait
            } else {
                Step::Stop
            },
    {
        if heard {
            Step::Wait
        } else {
            Step::Stop
        }
    }

    /// It was said what a line says; `heard` says whether anybody listens.
    pub fn line_told(heard: bool) -> (step: Step)
        ensures
            step == if heard {
                Step::Flush
            } else {
                Step::Stop
            },
    {
        if heard {
            Step::Flush
        } else {
            Step::Stop
        }
    }

    /// There is a line to write, or there will be none any more.
    pub fn line(line: Option<String>) -> (step: Step)
        ensures
            step == match line {
                Some(line) => Step::Write(line),
                None => Step::Stop,
            },
    {
        match line {
            Some(line) => Step::Write(line),
            None => Step::Stop,
        }
    }

    /// The line was written, or not: `refusal` says why not.
    pub fn written(refusal: Option<String>) -> (step: Step)
        ensures
            refusal is None ==> step == Step::Wait,
            refusal matches Some(error) ==> down(step, "событие не ушло: "@ + error@),
    {
        match refusal {
            None => Step::Wait,
            Some(error) => because("событие не ушло: ", error),
        }
    }

    /// What is written was pushed out, or not: `refusal` says why not.
    pub fn flushed(refusal: Option<String>) -> (step: Step)
        ensures
            refusal is None ==> step == Step::Wait,
            refusal matches Some(error) ==> down(
                step,
                "очередь записи не протолкнулась: "@ + error@,
            ),
    {
        match refusal {
            None => Step::Wait,
            Some(error) => because("очередь записи не протолкнулась: ", error),
        }
    }

    /// A line that says this came from the relay.
    pub fn heard(&mut self, parsed: Option<Parsed>) -> (step: Step)
        ensures
            final(self).same(old(self)),
            line_step(
                step,
                match parsed {
                    Some(parsed) => Some(parsed@),
                    None => None,
                },
                old(self).since,
                final(self).since,
            ),
    {
        let mut notes: Vec<RelayNote> = Vec::new();
        match parsed {
            Some(Parsed::Event { content, created_at }) => {
                if self.since < created_at {
                    self.since = created_at;
                }
                notes.push(RelayNote::Seen { created_at });
                notes.push(RelayNote::Event { content });
                Step::Tell(notes)
            },
            Some(Parsed::Answer { id, ok, .. }) => {
                notes.push(RelayNote::Accepted { id, ok });
                Step::Tell(notes)
            },
            Some(Parsed::Closed { note }) => because("реле закрыло подписку: ", note),
            Some(Parsed::Other) => Step::Flush,
            None => Step::Flush,
        }
    }

    /// Something came from the relay.
    pub fn incoming(&mut self, came: Came) -> (step: Step)
        ensures
            final(self).same(old(self)),
            came matches Came::Text(text) ==> if text@.len() == 0 {
                step == Step::Wait && final(self).since == old(self).since
            } else {
                line_step(
                    step,
                    message::message_said(text@),
                    old(self).since,
                    final(self).since,
                )
            },
            came is Binary ==> step == Step::Wait,
            came matches Came::Broken(error) ==> down(step, "обрыв: "@ + error@),
            came is Over ==> down(step, "реле закрыло соединение"@),
            !(came is Text) ==> final(self).since == old(self).since,
    {
        match came {
            Came::Text(text) => {
                if text.as_str().unicode_len() == 0 {
                    return Step::Wait;
                }
                let parsed = message::parse(text.as_str());
                self.heard(parsed)
            },
            Came::Binary => Step::Wait,
            Came::Broken(error) => because("обрыв: ", error),
            Came::Over => Step::Down("реле закрыло соединение".to_owned()),
        }
    }

    /// What is said once the relay is lost, for this reason.
    pub fn lost(&self, reason: String) -> (note: RelayNote)
        ensures
            note == (RelayNote::Down { url: self.url, note: reason, own: self.subscribe }),
    {
        RelayNote::Down { url: self.url.clone(), note: reason, own: self.subscribe }
    }
}

/// The time read up to never goes back, whatever a relay says.
pub proof fn lemma_time_does_not_go_back(
    step: Step,
    said: Option<ParsedView>,
    before: u64,
    after: u64,
)
    requires
        line_step(step, said, before, after),
    ensures
        after >= before,
        said matches Some(ParsedView::Event { created_at, .. }) ==> after >= created_at,
{
}

/// What a line says is told as it was said: of an event its time and then its
/// content, of an answer the event it is for and the verdict. A relay is lost by a
/// line only where it closes the subscription, and then for the reason that it
/// gives; of everything else nothing is told.
pub proof fn lemma_a_line_is_told_as_it_was_said(
    step: Step,
    said: Option<ParsedView>,
    before: u64,
    after: u64,
)
    requires
        line_step(step, said, before, after),
    ensures
        step is Tell <==> said is Some && (said->0 is Event || said->0 is Answer),
        step is Down <==> said is Some && said->0 is Closed,
        step is Flush <==> said is None || said->0 is Other,
        said matches Some(ParsedView::Event { content, created_at }) ==> {
            let notes = step->Tell_0@;
            &&& notes.len() == 2
            &&& notes[0] is Seen
            &&& notes[0]->created_at == created_at
            &&& notes[1] is Event
            &&& notes[1]->content@ == content
            &&& after == before || after == created_at
            &&& after >= before
            &&& after >= created_at
        },
        said matches Some(ParsedView::Answer { id, ok, note }) ==> {
            let notes = step->Tell_0@;
            &&& notes.len() == 1
            &&& notes[0] is Accepted
            &&& notes[0]->id@ == id
            &&& notes[0]->ok == ok
        },
        said matches Some(ParsedView::Closed { note }) ==> step->Down_0@ == "реле закрыло подписку: "@
            + note,
        !(said is Some && said->0 is Event) ==> after == before,
{
}

/// A relay is asked from so many seconds before the time that was read up to, or
/// from the beginning of time where there are not so many.
pub proof fn lemma_a_relay_is_asked_with_a_margin(since: u64, margin: u64)
    ensures
        margin <= since ==> asked_from(since, margin) + margin == since,
        margin > since ==> asked_from(since, margin) == 0,
{
}

/// The name of an event, by which a relay answers for it.
pub fn event_name(id: &[u8; 32]) -> (name: String)
    ensures
        name@ == encoding::hex_text(id@),
{
    encoding::hex_encode(id.as_slice())
}

/// The milliseconds since the epoch, as far as 64 bits go; none where the clock
/// stands before it.
pub fn millis_now(since_epoch: Option<u128>) -> (ms: u64)
    ensures
        ms == match since_epoch {
            None => 0,
            Some(ms) => if ms > u64::MAX {
                u64::MAX as int
            } else {
                ms as int
            },
        },
{
    match since_epoch {
        None => 0,
        Some(ms) => {
            if ms > u64::MAX as u128 {
                u64::MAX
            } else {
                ms as u64
            }
        },
    }
}

/// The seconds since the epoch.
pub fn seconds_now(since_epoch: Option<u128>) -> (seconds: u64)
    ensures
        seconds == match since_epoch {
            None => 0,
            Some(ms) => if ms > u64::MAX {
                u64::MAX as int / 1000
            } else {
                ms as int / 1000
            },
        },
{
    millis_now(since_epoch) / 1000
}

/// A relay that is the same has the same address, is read as much, is reached the
/// same way and encrypted as much.
pub proof fn lemma_the_relay_is_the_same(a: Relay, b: Relay)
    requires
        a.same(&b),
    ensures
        a.url == b.url,
        a.subscribe == b.subscribe,
        a.via_tor == b.via_tor,
        a.tls == b.tls,
{
}

/// That a relay answers is said once, of that relay, and whether it is one of ours;
/// that it is lost is said with the reason.
pub proof fn lemma_a_relay_is_said_to_be_up_or_down(relay: Relay, step: Step, reason: Seq<char>)
    ensures
        relay.says_up(step) ==> step is Tell && step->Tell_0@.len() == 1 && step->Tell_0@[0] is Up
            && step->Tell_0@[0]->Up_url == relay.url && step->Tell_0@[0]->Up_own
            == relay.subscribe,
        down(step, reason) <==> step is Down && step->Down_0@ == reason,
{
}

} // verus!
