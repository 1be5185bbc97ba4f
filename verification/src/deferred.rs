//! A transport that rises once, while commands are refused and news of the rise
//! is told. `R` is the risen transport, `F` its rise.

use crate::switched;
use crate::switched::{Given, Plan, Step, Waits};
use vstd::prelude::*;
use vstd::string::*;

verus! {

/// Where the transport is.
#[derive(Debug)]
pub enum State<R, F> {
    /// On its way up.
    Rising(F),
    /// Up.
    Ready(R),
    /// It did not come up.
    Failed,
}

/// A transport on its way up.
#[derive(Debug)]
pub struct Deferred<R, F> {
    pub state: State<R, F>,
    pub progress_open: bool,
}

impl<R, F> Deferred<R, F> {
    /// A rise that tells no news.
    pub fn new(rising: F) -> (d: Deferred<R, F>)
        ensures
            d.state == State::<R, F>::Rising(rising),
            !d.progress_open,
    {
        Deferred { state: State::Rising(rising), progress_open: false }
    }

    /// A rise that tells news.
    pub fn rising(rising: F) -> (d: Deferred<R, F>)
        ensures
            d.state == State::<R, F>::Rising(rising),
            d.progress_open,
    {
        Deferred { state: State::Rising(rising), progress_open: true }
    }

    /// Whether the transport is up.
    #[must_use]
    pub fn is_ready(&self) -> (r: bool)
        ensures
            r == self.state is Ready,
    {
        matches!(self.state, State::Ready(_))
    }

    /// Whether the transport did not come up.
    #[must_use]
    pub fn has_failed(&self) -> (r: bool)
        ensures
            r == self.state is Failed,
    {
        matches!(self.state, State::Failed)
    }

    /// What to do with a command: a transport that is not up refuses it.
    pub fn plan(&self) -> (r: Plan)
        ensures
            r == if self.state is Ready {
                Plan::PassOn
            } else {
                Plan::Refuse
            },
    {
        if self.is_ready() {
            Plan::PassOn
        } else {
            Plan::Refuse
        }
    }

    /// What to wait for. What failed never says anything again: it has not
    /// stopped, it is just not there.
    pub fn waits(&self) -> (r: Waits)
        ensures
            r == match self.state {
                State::Failed => Waits::Forever,
                State::Rising(_) => Waits::Rise { news: self.progress_open },
                State::Ready(_) => Waits::Runner { news: self.progress_open },
            },
    {
        match self.state {
            State::Failed => Waits::Forever,
            State::Rising(_) => Waits::Rise { news: self.progress_open },
            State::Ready(_) => Waits::Runner { news: self.progress_open },
        }
    }

    /// What came, and what it comes to. A rise can end only where one is under
    /// way, and only a risen transport speaks.
    pub fn step(&mut self, step: Step<R>) -> (r: Given)
        requires
            step is Done ==> old(self).state is Rising,
            step is Own ==> old(self).state is Ready,
        ensures
            step matches Step::News(Some(e)) ==> r == Given::Event(Some(e)) && *final(self)
                == *old(self),
            step matches Step::News(None) ==> r is Again && final(self).state == old(self).state
                && !final(self).progress_open,
            step matches Step::Done(Ok(runner)) ==> r is Again && final(self).state == State::<
                R,
                F,
            >::Ready(runner) && final(self).progress_open == old(self).progress_open,
            step matches Step::Done(Err(reason)) ==> final(self).state is Failed
                && final(self).progress_open == old(self).progress_open && (
            r matches Given::Event(Some(e)) && switched::failed_rise(e, reason@)),
            step matches Step::Own(e) ==> r == Given::Event(e) && *final(self) == *old(self),
    {
        match step {
            Step::News(Some(event)) => Given::Event(Some(event)),
            Step::News(None) => {
                self.progress_open = false;
                Given::Again
            },
            Step::Done(Ok(runner)) => {
                self.state = State::Ready(runner);
                Given::Again
            },
            Step::Done(Err(reason)) => {
                self.state = State::Failed;
                Given::Event(Some(switched::rise_failed(reason)))
            },
            Step::Own(event) => Given::Event(event),
        }
    }
}

} // verus!
