//! A transport that rises when it is switched on and is gone when it is
//! switched off. `R` is the risen transport, `F` its rise, `P` the news of it.

use crate::runner::{TransportCommand, TransportEvent};
use vstd::prelude::*;
use vstd::string::*;

verus! {

/// How much news of a rise is kept until somebody asks.
pub const PROGRESS_QUEUE: usize = 16;

/// Where the transport is.
#[derive(Debug)]
pub enum State<R, F> {
    /// Switched off: nothing rises.
    Off,
    /// On its way up.
    Rising(F),
    /// Up.
    Ready(R),
    /// It did not come up.
    Failed,
}

/// A transport that can be switched.
#[derive(Debug)]
pub struct Switched<R, F, P> {
    pub state: State<R, F>,
    pub progress: Option<P>,
}

/// What to do with a command.
#[derive(Debug, Clone, Copy, PartialEq, Eq, Structural)]
pub enum Plan {
    /// Switch on: if it is down, start a rise.
    SwitchOn,
    /// Switch off.
    SwitchOff,
    /// Hand the command to the risen transport.
    PassOn,
    /// Refuse it.
    Refuse,
}

/// What to wait for.
#[derive(Debug, Clone, Copy, PartialEq, Eq, Structural)]
pub enum Waits {
    /// Nothing ever comes.
    Forever,
    /// The end of the rise; where `news` is set, news of it first.
    Rise { news: bool },
    /// An event of the risen transport; where `news` is set, news of the rise first.
    Runner { news: bool },
}

/// What came.
#[derive(Debug)]
pub enum Step<R> {
    /// News of the rise, or the end of the news.
    News(Option<TransportEvent>),
    /// The end of the rise, or why it failed.
    Done(Result<R, String>),
    /// What the risen transport said.
    Own(Option<TransportEvent>),
}

/// What that comes to.
#[derive(Debug, PartialEq, Eq)]
pub enum Given {
    /// This is what was waited for.
    Event(Option<TransportEvent>),
    /// Wait once more.
    Again,
}

/// What is said of a rise that failed.
pub open spec fn failed_rise(event: TransportEvent, reason: Seq<char>) -> bool {
    event matches TransportEvent::TorProgress { thousandths, note, blocked } && {
        &&& thousandths == 1000
        &&& note@ == "транспорт не поднялся — доставки через него не будет"@
        &&& blocked is Some
        &&& blocked->0@ == reason
    }
}

/// The news of a rise that failed.
pub fn rise_failed(reason: String) -> (event: TransportEvent)
    ensures
        failed_rise(event, reason@),
{
    TransportEvent::TorProgress {
        thousandths: 1000,
        note: "транспорт не поднялся — доставки через него не будет".to_owned(),
        blocked: Some(reason),
    }
}

impl<R, F, P> Switched<R, F, P> {
    /// A transport that is off.
    pub fn new() -> (s: Switched<R, F, P>)
        ensures
            s.state is Off,
            s.progress is None,
    {
        Switched { state: State::Off, progress: None }
    }

    /// Whether the transport is up.
    #[must_use]
    pub fn is_ready(&self) -> (r: bool)
        ensures
            r == self.state is Ready,
    {
        matches!(self.state, State::Ready(_))
    }

    /// Whether the transport did not come up.
    #[must_use]
    pub fn has_failed(&self) -> (r: bool)
        ensures
            r == self.state is Failed,
    {
        matches!(self.state, State::Failed)
    }

    /// Whether the transport is off.
    #[must_use]
    pub fn is_off(&self) -> (r: bool)
        ensures
            r == self.state is Off,
    {
        matches!(self.state, State::Off)
    }

    /// Whether switching on starts a rise: not where one is under way or done.
    pub fn needs_rise(&self) -> (r: bool)
        ensures
            r == (self.state is Off || self.state is Failed),
    {
        matches!(self.state, State::Off | State::Failed)
    }

    /// Switches on with a rise and the news of it. A transport that rises or has
    /// risen is left alone.
    pub fn switch_on(&mut self, rise: F, news: P)
        ensures
            old(self).state is Off || old(self).state is Failed ==> final(self).state
                == State::<R, F>::Rising(rise) && final(self).progress == Some(news),
            old(self).state is Rising || old(self).state is Ready ==> *final(self) == *old(self),
    {
        if self.needs_rise() {
            self.progress = Some(news);
            self.state = State::Rising(rise);
        }
    }

    /// Switches off: the transport, its rise and the news of it are gone.
    pub fn switch_off(&mut self)
        ensures
            final(self).state is Off,
            final(self).progress is None,
    {
        self.state = State::Off;
        self.progress = None;
    }

    /// What to do with a command.
    pub fn plan(&self, command: &TransportCommand) -> (r: Plan)
        ensures
            r == match *command {
                TransportCommand::SetEnabled { enabled, .. } => if enabled {
                    Plan::SwitchOn
                } else {
                    Plan::SwitchOff
                },
                _ => if self.state is Ready {
                    Plan::PassOn
                } else {
                    Plan::Refuse
                },
            },
    {
        match command {
            TransportCommand::SetEnabled { enabled, .. } => {
                if *enabled {
                    Plan::SwitchOn
                } else {
                    Plan::SwitchOff
                }
            },
            _ => {
                if self.is_ready() {
                    Plan::PassOn
                } else {
                    Plan::Refuse
                }
            },
        }
    }

    /// What to wait for.
    pub fn waits(&self) -> (r: Waits)
        ensures
            r == match self.state {
                State::Off => Waits::Forever,
                State::Failed => Waits::Forever,
                State::Rising(_) => Waits::Rise { news: self.progress is Some },
                State::Ready(_) => Waits::Runner { news: self.progress is Some },
            },
    {
        match self.state {
            State::Off | State::Failed => Waits::Forever,
            State::Rising(_) => Waits::Rise { news: self.progress.is_some() },
            State::Ready(_) => Waits::Runner { news: self.progress.is_some() },
        }
    }

    /// What came, and what it comes to. A rise can end only where one is under
    /// way, and only a risen transport speaks.
    pub fn step(&mut self, step: Step<R>) -> (r: Given)
        requires
            step is Done ==> old(self).state is Rising,
            step is Own ==> old(self).state is Ready,
        ensures
            step matches Step::News(Some(e)) ==> r == Given::Event(Some(e)) && *final(self)
                == *old(self),
            step matches Step::News(None) ==> r is Again && final(self).state == old(self).state
                && final(self).progress is None,
            step matches Step::Done(Ok(runner)) ==> r is Again && final(self).state == State::<
                R,
                F,
            >::Ready(runner) && final(self).progress == old(self).progress,
            step matches Step::Done(Err(reason)) ==> final(self).state is Failed
                && final(self).progress == old(self).progress && (r matches Given::Event(Some(e))
                && failed_rise(e, reason@)),
            step matches Step::Own(e) ==> r == Given::Event(e) && *final(self) == *old(self),
    {
        match step {
            Step::News(Some(event)) => Given::Event(Some(event)),
            Step::News(None) => {
                self.progress = None;
                Given::Again
            },
            Step::Done(Ok(runner)) => {
                self.state = State::Ready(runner);
                Given::Again
            },
            Step::Done(Err(reason)) => {
                self.state = State::Failed;
                Given::Event(Some(rise_failed(reason)))
            },
            Step::Own(event) => Given::Event(event),
        }
    }
}

/// A rise that failed is told as the end of it, with the reason that it failed for.
pub proof fn lemma_a_failed_rise_is_told_with_its_reason(event: TransportEvent, reason: Seq<char>)
    requires
        failed_rise(event, reason),
    ensures
        event is TorProgress,
        event->thousandths == 1000,
        event->blocked is Some,
        event->blocked->0@ == reason,
{
}

} // verus!
