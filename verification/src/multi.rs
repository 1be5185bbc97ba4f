//! Several transports as one: who gets a command, what a round of refusals
//! comes to, and when there is nothing more to wait for.

use crate::runner::{Transport, TransportCommand, TransportError, TransportEvent};
use vstd::prelude::*;

verus! {

/// A transport that is not built in: it can be switched, and refuses all else.
#[derive(Debug, Default, Clone, Copy)]
pub struct Disabled;

impl Disabled {
    /// What a transport that is not built in says to a command.
    pub fn execute(&mut self, command: &TransportCommand) -> (r: Result<(), TransportError>)
        ensures
            r is Ok <==> command is SetEnabled,
            r matches Err(e) ==> e == TransportError::Unavailable,
    {
        match command {
            TransportCommand::SetEnabled { .. } => Ok(()),
            _ => Err(TransportError::Unavailable),
        }
    }
}

/// One of the transports behind a `Transports`.
#[derive(Debug, Clone, Copy, PartialEq, Eq, Structural)]
pub enum Slot {
    Lan,
    Onion,
    Mail,
}

/// Who gets a command.
#[derive(Debug, Clone, Copy, PartialEq, Eq, Structural)]
pub enum Route {
    /// One transport, and no other.
    One(Slot),
    /// Every transport.
    Everyone,
    /// Nobody: the command is refused.
    Nobody,
}

/// The transport behind the name, if it is one of ours.
pub open spec fn slot_of(via: Transport) -> Option<Slot> {
    match via {
        Transport::Lan => Some(Slot::Lan),
        Transport::Onion => Some(Slot::Onion),
        Transport::Mail => Some(Slot::Mail),
        _ => None,
    }
}

/// The way to the transport behind the name.
pub open spec fn route_via(via: Transport) -> Route {
    match slot_of(via) {
        Some(slot) => Route::One(slot),
        None => Route::Nobody,
    }
}

/// Who gets a command: what names a transport goes there, what is about the
/// local network goes to it, and a farewell goes to everyone.
pub open spec fn routed(command: TransportCommand) -> Route {
    match command {
        TransportCommand::Send { via, .. } => route_via(via),
        TransportCommand::Connect { via, .. } => route_via(via),
        TransportCommand::SetEnabled { transport, .. } => route_via(transport),
        TransportCommand::WatchLanPeers(_) => Route::One(Slot::Lan),
        TransportCommand::RestartLan => Route::One(Slot::Lan),
        TransportCommand::Disconnect { .. } => Route::Everyone,
        _ => Route::Nobody,
    }
}

/// The way to the transport behind the name.
fn to_one(via: Transport) -> (r: Route)
    ensures
        r == route_via(via),
{
    match via {
        Transport::Lan => Route::One(Slot::Lan),
        Transport::Onion => Route::One(Slot::Onion),
        Transport::Mail => Route::One(Slot::Mail),
        _ => Route::Nobody,
    }
}

/// Who gets a command.
pub fn route(command: &TransportCommand) -> (r: Route)
    ensures
        r == routed(*command),
{
    match command {
        TransportCommand::Send { via, .. } => to_one(*via),
        TransportCommand::Connect { via, .. } => to_one(*via),
        TransportCommand::SetEnabled { transport, .. } => to_one(*transport),
        TransportCommand::WatchLanPeers(_) => Route::One(Slot::Lan),
        TransportCommand::RestartLan => Route::One(Slot::Lan),
        TransportCommand::Disconnect { .. } => Route::Everyone,
        _ => Route::Nobody,
    }
}

/// A real failure: a transport that is not there is none.
pub open spec fn is_failure(outcome: Result<(), TransportError>) -> bool {
    outcome matches Err(e) && e != TransportError::Unavailable
}

/// What a round comes to: the first real failure, if there is one.
pub open spec fn round_verdict(
    outcomes: Seq<Result<(), TransportError>>,
) -> Result<(), TransportError>
    decreases outcomes.len(),
{
    if outcomes.len() == 0 {
        Ok(())
    } else if is_failure(outcomes[0]) {
        outcomes[0]
    } else {
        round_verdict(outcomes.subrange(1, outcomes.len() as int))
    }
}

/// What a round over all three transports comes to. Every one of them was asked:
/// a refusal stops nobody else from hearing the command.
pub fn to_all(
    lan: Result<(), TransportError>,
    onion: Result<(), TransportError>,
    mail: Result<(), TransportError>,
) -> (r: Result<(), TransportError>)
    ensures
        r == round_verdict(seq![lan, onion, mail]),
{
    proof {
        let all = seq![lan, onion, mail];
        assert(all.subrange(1, 3) =~= seq![onion, mail]);
        assert(seq![onion, mail].subrange(1, 2) =~= seq![mail]);
        assert(seq![mail].subrange(1, 1) =~= seq![]);
        reveal_with_fuel(round_verdict, 4);
    }
    let failure = failure_of(lan);
    if let Some(e) = failure {
        return Err(e);
    }
    let failure = failure_of(onion);
    if let Some(e) = failure {
        return Err(e);
    }
    let failure = failure_of(mail);
    if let Some(e) = failure {
        return Err(e);
    }
    Ok(())
}

/// The real failure in an outcome.
fn failure_of(outcome: Result<(), TransportError>) -> (r: Option<TransportError>)
    ensures
        r is Some == is_failure(outcome),
        r matches Some(e) ==> outcome == Err::<(), TransportError>(e),
{
    match outcome {
        Ok(()) => None,
        Err(TransportError::Unavailable) => None,
        Err(e) => Some(e),
    }
}

/// What became of waiting for an event.
#[derive(Debug, PartialEq, Eq)]
pub enum Waited {
    /// There is one.
    Event(TransportEvent),
    /// A transport stopped: wait for the others.
    Again,
    /// All have stopped.
    End,
}

/// Three transports behind one.
#[derive(Debug)]
pub struct Transports<L, O, M> {
    lan: L,
    onion: O,
    mail: M,
    lan_stopped: bool,
    onion_stopped: bool,
    mail_stopped: bool,
}

impl<L, O, M> Transports<L, O, M> {
    /// The transport of the local network.
    pub closed spec fn lan_view(&self) -> L {
        self.lan
    }

    /// The transport of Tor.
    pub closed spec fn onion_view(&self) -> O {
        self.onion
    }

    /// The transport of mail.
    pub closed spec fn mail_view(&self) -> M {
        self.mail
    }

    /// Whether a transport has said its last.
    pub closed spec fn stopped(&self, slot: Slot) -> bool {
        match slot {
            Slot::Lan => self.lan_stopped,
            Slot::Onion => self.onion_stopped,
            Slot::Mail => self.mail_stopped,
        }
    }

    /// Whether all transports have said their last.
    pub open spec fn all_stopped(&self) -> bool {
        forall|slot: Slot| self.stopped(slot)
    }

    /// Three transports, none of which has stopped.
    pub fn new(lan: L, onion: O, mail: M) -> (t: Transports<L, O, M>)
        ensures
            t.lan_view() == lan,
            t.onion_view() == onion,
            t.mail_view() == mail,
            forall|slot: Slot| !t.stopped(slot),
    {
        Transports {
            lan,
            onion,
            mail,
            lan_stopped: false,
            onion_stopped: false,
            mail_stopped: false,
        }
    }

    /// The transport of the local network.
    pub fn lan(&self) -> (r: &L)
        ensures
            *r == self.lan_view(),
    {
        &self.lan
    }

    /// The transport of the local network, to be changed.
    pub fn lan_mut(&mut self) -> (r: &mut L)
        ensures
            *r == old(self).lan_view(),
            final(self).lan_view() == *final(r),
            final(self).onion_view() == old(self).onion_view(),
            final(self).mail_view() == old(self).mail_view(),
            forall|slot: Slot| final(self).stopped(slot) == old(self).stopped(slot),
    {
        &mut self.lan
    }

    /// The transport of Tor.
    pub fn onion(&self) -> (r: &O)
        ensures
            *r == self.onion_view(),
    {
        &self.onion
    }

    /// The transport of mail.
    pub fn mail(&self) -> (r: &M)
        ensures
            *r == self.mail_view(),
    {
        &self.mail
    }

    /// The three transports, to be changed.
    pub fn parts_mut(&mut self) -> (r: (&mut L, &mut O, &mut M))
        ensures
            *r.0 == old(self).lan_view(),
            *r.1 == old(self).onion_view(),
            *r.2 == old(self).mail_view(),
            final(self).lan_view() == *final(r.0),
            final(self).onion_view() == *final(r.1),
            final(self).mail_view() == *final(r.2),
            forall|slot: Slot| final(self).stopped(slot) == old(self).stopped(slot),
    {
        (&mut self.lan, &mut self.onion, &mut self.mail)
    }

    /// Whether to wait for a transport: not for one that has stopped.
    pub fn waits_for(&self, slot: Slot) -> (r: bool)
        ensures
            r == !self.stopped(slot),
    {
        match slot {
            Slot::Lan => !self.lan_stopped,
            Slot::Onion => !self.onion_stopped,
            Slot::Mail => !self.mail_stopped,
        }
    }

    /// Whether there is nothing more to wait for.
    pub fn is_over(&self) -> (r: bool)
        ensures
            r == self.all_stopped(),
    {
        assert(self.stopped(Slot::Lan) == self.lan_stopped);
        assert(self.stopped(Slot::Onion) == self.onion_stopped);
        assert(self.stopped(Slot::Mail) == self.mail_stopped);
        self.lan_stopped && self.onion_stopped && self.mail_stopped
    }

    /// What a transport said: an event, or that it has stopped.
    pub fn heard(&mut self, slot: Slot, event: Option<TransportEvent>) -> (r: Waited)
        ensures
            event matches Some(e) ==> r == Waited::Event(e) && *final(self) == *old(self),
            event is None ==> {
                &&& final(self).stopped(slot)
                &&& forall|other: Slot|
                    other != slot ==> final(self).stopped(other) == old(self).stopped(other)
                &&& final(self).lan_view() == old(self).lan_view()
                &&& final(self).onion_view() == old(self).onion_view()
                &&& final(self).mail_view() == old(self).mail_view()
                &&& r == if final(self).all_stopped() {
                    Waited::End
                } else {
                    Waited::Again
                }
            },
    {
        match event {
            Some(e) => Waited::Event(e),
            None => {
                match slot {
                    Slot::Lan => {
                        self.lan_stopped = true;
                    },
                    Slot::Onion => {
                        self.onion_stopped = true;
                    },
                    Slot::Mail => {
                        self.mail_stopped = true;
                    },
                }
                if self.is_over() {
                    Waited::End
                } else {
                    Waited::Again
                }
            },
        }
    }
}

/// Only the named transport hears a frame.
pub proof fn lemma_a_frame_goes_one_way(command: TransportCommand)
    requires
        command is Send,
    ensures
        routed(command) matches Route::One(slot) ==> slot_of(command->Send_via) == Some(slot),
        !(routed(command) is Everyone),
        routed(command) == Route::One(Slot::Lan) <==> command->Send_via == Transport::Lan,
        routed(command) == Route::One(Slot::Onion) <==> command->Send_via == Transport::Onion,
        routed(command) == Route::One(Slot::Mail) <==> command->Send_via == Transport::Mail,
{
}

/// What names the local network, Tor or mail goes there and nowhere else, whether
/// it carries a frame, opens a way or switches; nobody hears what names another
/// transport.
pub proof fn lemma_the_named_transport_hears(command: TransportCommand, named: Transport)
    requires
        (command is Send && command->Send_via == named) || (command is Connect && command->Connect_via
            == named) || (command is SetEnabled && command->SetEnabled_transport == named),
    ensures
        named == Transport::Lan ==> routed(command) == Route::One(Slot::Lan),
        named == Transport::Onion ==> routed(command) == Route::One(Slot::Onion),
        named == Transport::Mail ==> routed(command) == Route::One(Slot::Mail),
        routed(command) == Route::Nobody <==> (named == Transport::Bt || named == Transport::Ygg || named
            == Transport::Nostr),
{
}

/// What names no transport: a farewell goes to everyone and is all that does, the
/// watch and the restart go to the local network, and the rest to nobody.
pub proof fn lemma_the_unnamed_are_routed(command: TransportCommand)
    ensures
        routed(command) == Route::Everyone <==> command is Disconnect,
        command is WatchLanPeers || command is RestartLan ==> routed(command) == Route::One(
            Slot::Lan,
        ),
        command is WatchPeers || command is NetworkChanged || command is SetYgg || command is SetNostr
            || command is SetMailAccount || command is CreateMailAccount || command is BindLink
            ==> routed(command) == Route::Nobody,
{
}

/// A round comes to the first refusal that is not for want of the transport: it is
/// the word of one of them, and everyone asked before did not really fail. With no
/// such refusal the round went well.
pub proof fn lemma_the_first_failure_is_told(outcomes: Seq<Result<(), TransportError>>)
    ensures
        round_verdict(outcomes) is Ok <==> forall|i: int|
            0 <= i < outcomes.len() ==> (#[trigger] outcomes[i] is Ok || outcomes[i] == Err::<
                (),
                TransportError,
            >(TransportError::Unavailable)),
        round_verdict(outcomes) is Err ==> exists|i: int|
            {
                &&& 0 <= i < outcomes.len()
                &&& #[trigger] outcomes[i] == round_verdict(outcomes)
                &&& outcomes[i] != Err::<(), TransportError>(TransportError::Unavailable)
                &&& forall|j: int|
                    0 <= j < i ==> (#[trigger] outcomes[j] is Ok || outcomes[j] == Err::<
                        (),
                        TransportError,
                    >(TransportError::Unavailable))
            },
    decreases outcomes.len(),
{
    if outcomes.len() > 0 {
        let rest = outcomes.subrange(1, outcomes.len() as int);
        lemma_the_first_failure_is_told(rest);
        assert forall|i: int| 0 < i < outcomes.len() implies #[trigger] outcomes[i] == rest[i
            - 1] by {
        }
        assert forall|i: int| 0 <= i < rest.len() implies #[trigger] rest[i] == outcomes[i
            + 1] by {
        }
        if is_failure(outcomes[0]) {
            assert(outcomes[0] == round_verdict(outcomes));
        } else if round_verdict(outcomes) is Err {
            let i = choose|i: int|
                {
                    &&& 0 <= i < rest.len()
                    &&& #[trigger] rest[i] == round_verdict(rest)
                    &&& rest[i] != Err::<(), TransportError>(TransportError::Unavailable)
                    &&& forall|j: int|
                        0 <= j < i ==> (#[trigger] rest[j] is Ok || rest[j] == Err::<
                            (),
                            TransportError,
                        >(TransportError::Unavailable))
                };
            assert(outcomes[i + 1] == round_verdict(outcomes));
            assert forall|j: int| 0 <= j < i + 1 implies (#[trigger] outcomes[j] is Ok || outcomes[j]
                == Err::<(), TransportError>(TransportError::Unavailable)) by {
                if j > 0 {
                    assert(rest[j - 1] == outcomes[j]);
                }
            }
        }
    }
}

/// A round in which nobody really failed comes to nothing bad, however many
/// transports were not there.
pub proof fn lemma_absence_is_no_failure(outcomes: Seq<Result<(), TransportError>>)
    requires
        forall|i: int| 0 <= i < outcomes.len() ==> !is_failure(outcomes[i]),
    ensures
        round_verdict(outcomes) is Ok,
    decreases outcomes.len(),
{
    if outcomes.len() > 0 {
        lemma_absence_is_no_failure(outcomes.subrange(1, outcomes.len() as int));
    }
}

/// A real failure in a round is not lost.
pub proof fn lemma_failure_is_told(outcomes: Seq<Result<(), TransportError>>, i: int)
    requires
        0 <= i < outcomes.len(),
        is_failure(outcomes[i]),
    ensures
        round_verdict(outcomes) is Err,
    decreases outcomes.len(),
{
    if !is_failure(outcomes[0]) {
        let rest = outcomes.subrange(1, outcomes.len() as int);
        assert(rest[i - 1] == outcomes[i]);
        lemma_failure_is_told(rest, i - 1);
    }
}

/// All have stopped where each of the three has.
pub proof fn lemma_all_stopped<L, O, M>(t: Transports<L, O, M>)
    ensures
        t.all_stopped() <==> t.stopped(Slot::Lan) && t.stopped(Slot::Onion) && t.stopped(Slot::Mail),
{
    if t.stopped(Slot::Lan) && t.stopped(Slot::Onion) && t.stopped(Slot::Mail) {
        assert forall|slot: Slot| #[trigger] t.stopped(slot) by {
            assert(slot == Slot::Lan || slot == Slot::Onion || slot == Slot::Mail);
        }
    }
}

} // verus!
