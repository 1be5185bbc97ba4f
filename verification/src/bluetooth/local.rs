//! A radio of our own: who has the antenna, how a channel is dialed, and when the
//! air is searched.

use crate::runner::{Transport, TransportError, TransportEvent};
use crate::table;
use crate::table::Table;
use vstd::prelude::*;
use vstd::string::*;

verus! {

broadcast use vstd::string::group_string_axioms;

/// After how many milliseconds a search that ended is begun again.
pub const RESCAN_PAUSE_MS: u64 = 2_000;

/// After how many milliseconds the devices known are looked at once more.
pub const SWEEP_PAUSE_MS: u64 = 1_000;

/// How long the antenna takes from the search to a dial, in nanoseconds.
pub const RADIO_HANDOVER_NS: u128 = 250_000_000;

/// What the system says where a connection to the device is under way already.
pub const EALREADY: i32 = 114;

/// How long a dial waits where a connection is under way already, in nanoseconds.
pub const BUSY_PAUSE_NS: u128 = 250_000_000;

/// How often it waits for that.
pub const BUSY_TRIES: u32 = 2;

/// How long one attempt may take, in nanoseconds.
pub const ATTEMPT_LIMIT_NS: u128 = 3_000_000_000;

/// How often an open channel is asked whether it works, in nanoseconds.
pub const SETTLE_POLL_NS: u128 = 25_000_000;

/// How many dials have the antenna now.
#[derive(Debug, Clone, Copy, PartialEq, Eq)]
pub struct Airtime {
    pub dialing: usize,
}

impl Airtime {
    /// None has.
    pub fn new() -> (a: Airtime)
        ensures
            a.dialing == 0,
    {
        Airtime { dialing: 0 }
    }

    /// One more has.
    pub fn hold(&mut self)
        requires
            old(self).dialing < usize::MAX,
        ensures
            final(self).dialing == old(self).dialing + 1,
    {
        self.dialing = self.dialing + 1;
    }

    /// One has it no more.
    pub fn release(&mut self)
        ensures
            final(self).dialing == if old(self).dialing == 0 {
                0int
            } else {
                old(self).dialing - 1
            },
    {
        self.dialing = self.dialing.saturating_sub(1);
    }

    /// Whether a dial has the antenna, so that the search must yield.
    pub fn is_busy(&self) -> (r: bool)
        ensures
            r == (self.dialing > 0),
    {
        self.dialing > 0
    }
}

/// Whether somebody is looked out for whose address is not known.
pub fn waiting_for_someone<V>(watched: &Vec<[u8; 32]>, directory: &Table<[u8; 32], V>) -> (r: bool)
    requires
        directory.wf(),
    ensures
        r <==> exists|i: int|
            0 <= i < watched@.len() && !table::holds(directory.rows(), #[trigger] watched@[i]@),
{
    let mut i: usize = 0;
    while i < watched.len()
        invariant
            directory.wf(),
            i <= watched@.len(),
            forall|k: int|
                0 <= k < i ==> table::holds(directory.rows(), #[trigger] watched@[k]@),
        decreases watched@.len() - i,
    {
        if !directory.contains(&watched[i]) {
            assert(!table::holds(directory.rows(), watched@[i as int]@));
            return true;
        }
        i = i + 1;
    }
    false
}

/// How one attempt at a channel ended.
#[derive(Debug, PartialEq, Eq)]
pub enum Attempted {
    /// The channel is open.
    Open,
    /// The system refused, with this number and in these words.
    Refused { code: Option<i32>, error: String },
    /// Nothing came of it in time.
    Hung,
}

/// What a dial does next.
#[derive(Debug, PartialEq, Eq)]
pub enum DialStep {
    /// Wait until the channel works.
    Settle,
    /// Pause for `BUSY_PAUSE_NS`, and try again.
    Retry,
    /// Give up.
    Fail(TransportError),
}

/// A refusal, with what was being done.
pub fn refused(what: &str, error: &str) -> (r: TransportError)
    ensures
        r matches TransportError::Refused(reason) && reason@ == what@ + ": "@ + error@,
{
    let mut reason = what.to_owned();
    reason.append(": ");
    reason.append(error);
    TransportError::Refused(reason)
}

/// A dial under way: how often a connection was under way already.
#[derive(Debug, Clone, Copy, PartialEq, Eq)]
pub struct Dial {
    pub busy_tries: u32,
}

/// Whether an attempt ended because a connection was under way already.
pub open spec fn is_busy(outcome: Attempted) -> bool {
    outcome matches Attempted::Refused { code, .. } && code == Some(EALREADY)
}

/// Whether a dial is tried again after an attempt, where it waited this often.
pub open spec fn retries(busy_tries: int, outcome: Attempted) -> bool {
    is_busy(outcome) && busy_tries < BUSY_TRIES
}

/// What is left of a time.
pub open spec fn left(budget: u128, elapsed: u128) -> int {
    if budget > elapsed {
        budget - elapsed
    } else {
        0
    }
}

impl Dial {
    /// The dial goes on: it has not waited too often.
    pub open spec fn goes_on(&self) -> bool {
        self.busy_tries <= BUSY_TRIES
    }

    /// Nothing tried yet.
    pub fn new() -> (d: Dial)
        ensures
            d.busy_tries == 0,
            d.goes_on(),
    {
        Dial { busy_tries: 0 }
    }

    /// How long to pause before the first attempt: not at all where there is a
    /// connection to the device already.
    pub fn handover(connected: Option<bool>) -> (pause: u128)
        ensures
            pause == if connected == Some(true) {
                0
            } else {
                RADIO_HANDOVER_NS
            },
    {
        match connected {
            Some(true) => 0,
            _ => RADIO_HANDOVER_NS,
        }
    }

    /// How long the next attempt may take, where there is time for one.
    pub fn attempt(budget: u128, elapsed: u128) -> (r: Result<u128, TransportError>)
        ensures
            left(budget, elapsed) == 0 ==> r == Err::<u128, TransportError>(
                TransportError::Timeout,
            ),
            left(budget, elapsed) > 0 ==> (r matches Ok(limit) && limit == if left(budget, elapsed)
                < ATTEMPT_LIMIT_NS {
                left(budget, elapsed)
            } else {
                ATTEMPT_LIMIT_NS as int
            }),
    {
        let rest: u128 = budget.saturating_sub(elapsed);
        if rest == 0 {
            return Err(TransportError::Timeout);
        }
        if rest < ATTEMPT_LIMIT_NS {
            Ok(rest)
        } else {
            Ok(ATTEMPT_LIMIT_NS)
        }
    }

    /// An attempt ended.
    pub fn attempted(&mut self, outcome: Attempted) -> (r: DialStep)
        requires
            old(self).goes_on(),
        ensures
            final(self).busy_tries == old(self).busy_tries + if is_busy(outcome) {
                1int
            } else {
                0int
            },
            r is Retry <==> retries(old(self).busy_tries as int, outcome),
            r is Retry ==> final(self).goes_on(),
            r is Settle <==> outcome is Open,
            outcome is Hung ==> r == DialStep::Fail(TransportError::Timeout),
            outcome is Refused && !(r is Retry) ==> (
            r matches DialStep::Fail(TransportError::Refused(reason)) && reason@
                == "канал L2CAP"@ + ": "@ + outcome->error@),
    {
        match outcome {
            Attempted::Open => DialStep::Settle,
            Attempted::Hung => DialStep::Fail(TransportError::Timeout),
            Attempted::Refused { code, error } => {
                let busy = match code {
                    Some(code) => code == EALREADY,
                    None => false,
                };
                if busy {
                    self.busy_tries = self.busy_tries + 1;
                    if self.busy_tries <= BUSY_TRIES {
                        return DialStep::Retry;
                    }
                }
                DialStep::Fail(refused("канал L2CAP", error.as_str()))
            },
        }
    }
}

/// How often a connection was under way already in these attempts.
pub open spec fn busy_count(outcomes: Seq<Attempted>) -> int
    decreases outcomes.len(),
{
    if outcomes.len() == 0 {
        0
    } else if is_busy(outcomes.last()) {
        busy_count(outcomes.drop_last()) + 1
    } else {
        busy_count(outcomes.drop_last())
    }
}

/// Whether a dial goes on after these attempts.
pub open spec fn still_dialing(outcomes: Seq<Attempted>) -> bool
    decreases outcomes.len(),
{
    outcomes.len() == 0 || (still_dialing(outcomes.drop_last()) && retries(
        busy_count(outcomes.drop_last()),
        outcomes.last(),
    ))
}

/// A dial ends: after `BUSY_TRIES` attempts that are retried, none is.
pub proof fn lemma_a_dial_ends(outcomes: Seq<Attempted>)
    requires
        still_dialing(outcomes),
    ensures
        outcomes.len() <= BUSY_TRIES,
        busy_count(outcomes) == outcomes.len(),
    decreases outcomes.len(),
{
    if outcomes.len() > 0 {
        lemma_a_dial_ends(outcomes.drop_last());
    }
}

/// What an open channel does next.
#[derive(Debug, Clone, Copy, PartialEq, Eq, Structural)]
pub enum Settling {
    /// It works.
    Works,
    /// It is asked again after `SETTLE_POLL_NS`.
    Poll,
    /// It did not work in time.
    TimedOut,
}

/// Whether an open channel works by now; `works` is what it said.
pub fn settle(works: bool, elapsed: u128, budget: u128) -> (r: Settling)
    ensures
        r == if works {
            Settling::Works
        } else if elapsed >= budget {
            Settling::TimedOut
        } else {
            Settling::Poll
        },
{
    if works {
        Settling::Works
    } else if elapsed >= budget {
        Settling::TimedOut
    } else {
        Settling::Poll
    }
}

/// How long there is to settle once a channel was dialed.
pub fn settle_budget(budget: u128, dialed: u128) -> (rest: u128)
    ensures
        rest == left(budget, dialed),
{
    budget.saturating_sub(dialed)
}

/// Why a search of the air ended.
#[derive(Debug, Clone, Copy, PartialEq, Eq, Structural)]
pub enum Yielded {
    /// A dial wants the antenna.
    ToDial,
    /// There is nothing more to come.
    StreamEnded,
    /// It broke.
    Broken,
}

/// How many milliseconds to pause before the next search: none after a dial.
pub fn rescan_pause(yielded: Yielded) -> (pause: u64)
    ensures
        pause == if yielded == Yielded::ToDial {
            0
        } else {
            RESCAN_PAUSE_MS
        },
{
    if yielded == Yielded::ToDial {
        0
    } else {
        RESCAN_PAUSE_MS
    }
}

/// Whether an address is taken for a random one: where the radio says so, or does
/// not say.
pub fn taken_for_random(random: Option<bool>) -> (r: bool)
    ensures
        r == (random != Some(false)),
{
    match random {
        Some(random) => random,
        None => true,
    }
}

/// Whether the radio can be used.
pub fn usable(powered: bool) -> (r: Result<(), TransportError>)
    ensures
        powered ==> r is Ok,
        !powered ==> (r matches Err(TransportError::Refused(reason)) && reason@
            == "адаптер Bluetooth выключен — включите его в системе"@),
{
    if powered {
        Ok(())
    } else {
        Err(
            TransportError::Refused(
                "адаптер Bluetooth выключен — включите его в системе".to_owned(),
            ),
        )
    }
}

/// Our announcement: whether it went out once.
#[derive(Debug, Clone, Copy, PartialEq, Eq)]
pub struct Announced {
    pub announced: bool,
}

impl Announced {
    /// Not yet.
    pub fn new() -> (a: Announced)
        ensures
            !a.announced,
    {
        Announced { announced: false }
    }

    /// It went out. The first time it is told that Bluetooth is there.
    pub fn went_out(&mut self) -> (r: Option<TransportEvent>)
        ensures
            final(self).announced,
            r == if old(self).announced {
                None
            } else {
                Some(TransportEvent::Ready { transport: Transport::Bt })
            },
    {
        if self.announced {
            return None;
        }
        self.announced = true;
        Some(TransportEvent::Ready { transport: Transport::Bt })
    }
}

/// The channels that were opened to us, by number.
#[derive(Debug, Clone, Copy, PartialEq, Eq)]
pub struct Links {
    pub next_link: u64,
}

impl Links {
    /// None yet.
    pub fn new() -> (l: Links)
        ensures
            l.next_link == 0,
    {
        Links { next_link: 0 }
    }

    /// The number of the next one.
    pub fn next(&mut self) -> (link: u64)
        requires
            old(self).next_link < u64::MAX,
        ensures
            link == old(self).next_link,
            final(self).next_link == old(self).next_link + 1,
    {
        let link: u64 = self.next_link;
        self.next_link = link + 1;
        link
    }
}

/// A dial is tried again where the system said that a connection is under way
/// already, the first two times; for no other outcome, and no third time.
pub proof fn lemma_a_dial_is_retried_twice(busy_tries: int, outcome: Attempted)
    ensures
        retries(busy_tries, outcome) <==> outcome is Refused && outcome->code == Some(114i32)
            && busy_tries < 2,
        is_busy(outcome) <==> outcome is Refused && outcome->code == Some(114i32),
{
}

/// As long as a connection is under way already, two attempts are retried and the
/// third is not; any other outcome ends a dial at once.
pub proof fn lemma_attempts_of_a_dial(outcomes: Seq<Attempted>)
    ensures
        still_dialing(outcomes) <==> outcomes.len() <= 2 && forall|i: int|
            0 <= i < outcomes.len() ==> (#[trigger] outcomes[i]) is Refused && outcomes[i]->code
                == Some(114i32),
    decreases outcomes.len(),
{
    if outcomes.len() > 0 {
        let fewer = outcomes.drop_last();
        lemma_attempts_of_a_dial(fewer);
        if still_dialing(fewer) {
            lemma_a_dial_ends(fewer);
        }
        assert forall|i: int| 0 <= i < fewer.len() implies #[trigger] fewer[i] == outcomes[i] by {
        }
        if still_dialing(outcomes) {
            assert forall|i: int| 0 <= i < outcomes.len() implies (#[trigger] outcomes[i]) is Refused
                && outcomes[i]->code == Some(114i32) by {
                if i < fewer.len() {
                    assert(fewer[i] == outcomes[i]);
                }
            }
        } else if outcomes.len() <= 2 && forall|i: int|
            0 <= i < outcomes.len() ==> (#[trigger] outcomes[i]) is Refused && outcomes[i]->code
                == Some(114i32) {
            assert(outcomes[outcomes.len() - 1] is Refused);
            assert forall|i: int| 0 <= i < fewer.len() implies (#[trigger] fewer[i]) is Refused
                && fewer[i]->code == Some(114i32) by {
                assert(outcomes[i] is Refused);
            }
        }
    }
}

/// What is left of a time and what has passed make the time, until it is over.
pub proof fn lemma_what_is_left_of_a_time(budget: u128, elapsed: u128)
    ensures
        elapsed <= budget ==> left(budget, elapsed) + elapsed == budget,
        elapsed >= budget ==> left(budget, elapsed) == 0,
{
}

} // verus!
