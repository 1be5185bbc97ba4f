//! The mail transport: what a command comes to, when the server is logged in to,
//! and what is said about it.

use crate::chatmail::http;
use crate::chatmail::letter;
use crate::runner::{MailAccount, PeerAddress, Transport, TransportCommand, TransportError, TransportEvent};
use vstd::prelude::*;
use vstd::string::*;

verus! {

broadcast use vstd::string::group_string_axioms;

/// How long a server has to grant a mailbox, in seconds.
pub const REGISTER_TIMEOUT_SECS: u64 = 180;

/// After how many seconds a login that failed is tried again.
pub const LOGIN_RETRY_SECS: u64 = 60;

/// After how many seconds receiving that failed is tried again.
pub const RECEIVE_RETRY_SECS: u64 = 60;

/// How many jobs wait.
pub const OUTGOING: usize = 64;

/// What a command comes to.
#[derive(Debug, PartialEq, Eq)]
pub enum MailStep {
    /// This is the answer.
    Answer(Result<(), TransportError>),
    /// Use this mailbox; the answer is yes.
    Account(Option<MailAccount>),
    /// Switch; the answer is yes.
    Enabled(bool),
    /// Ask a server for a mailbox; the answer is yes.
    Register { url: String, via_tor: bool },
    /// Put this letter in the queue; the answer is whether there was room.
    Letter { peer_ik: [u8; 32], to: String, body: String, handoff: Option<u64> },
}

/// The mail transport as commands see it: which mailbox it has.
pub struct MailRunner {
    pub account: Option<MailAccount>,
}

impl MailRunner {
    /// No mailbox yet.
    #[must_use]
    pub fn new() -> (m: MailRunner)
        ensures
            m.account is None,
    {
        MailRunner { account: None }
    }

    /// Whether there is a mailbox.
    #[must_use]
    pub fn has_account(&self) -> (r: bool)
        ensures
            r == self.account is Some,
    {
        self.account.is_some()
    }

    /// What a command comes to. `tor_up` says whether Tor has come up.
    pub fn execute(&mut self, tor_up: bool, command: TransportCommand) -> (r: MailStep)
        requires
            command matches TransportCommand::Send { frame, .. } ==> frame@.len()
                + letter::PACKET_HEADER_LEN <= usize::MAX / 512,
        ensures
            final(self).account == match command {
                TransportCommand::SetMailAccount(next) => next,
                _ => old(self).account,
            },
            command matches TransportCommand::SetMailAccount(next) ==> r == MailStep::Account(
                next,
            ),
            command matches TransportCommand::CreateMailAccount { url, via_tor } ==> if via_tor
                && !tor_up {
                r matches MailStep::Answer(Err(TransportError::Refused(reason))) && reason@
                    == "Tor ещё не поднялся — подождите или снимите галочку"@
            } else {
                r == (MailStep::Register { url, via_tor })
            },
            command is Disconnect ==> r == MailStep::Answer(Ok(())),
            command matches TransportCommand::SetEnabled { transport, enabled } ==> r
                == if transport == Transport::Mail {
                MailStep::Enabled(enabled)
            } else {
                MailStep::Answer(Err(TransportError::Unavailable))
            },
            command matches TransportCommand::Send { peer, via, frame, handoff } ==> if via
                != Transport::Mail || old(self).account is None {
                r == MailStep::Answer(Err(TransportError::Unavailable))
            } else if peer.chatmail is None {
                r == MailStep::Answer(Err(TransportError::NoAddress))
            } else {
                match letter::build_error(
                    old(self).account->0.address@,
                    peer.chatmail->0@,
                    seq![frame@],
                ) {
                    Some(error) => r matches MailStep::Answer(
                        Err(TransportError::Refused(reason)),
                    ) && reason@ == "письмо не собралось: "@ + error.words(),
                    None => r matches MailStep::Letter { peer_ik, to, body, handoff: asked } && {
                        &&& peer_ik == peer.ik
                        &&& to == peer.chatmail->0
                        &&& body@ == letter::letter_text(
                            old(self).account->0.address@,
                            to@,
                            seq![frame@],
                        )
                        &&& asked == handoff
                    },
                }
            },
            !(command is SetMailAccount || command is CreateMailAccount || command is Disconnect
                || command is SetEnabled || command is Send) ==> r == MailStep::Answer(
                Err(TransportError::Unavailable),
            ),
    {
        match command {
            TransportCommand::SetMailAccount(next) => {
                self.account = match &next {
                    Some(account) => Some(account.copy()),
                    None => None,
                };
                MailStep::Account(next)
            },
            TransportCommand::CreateMailAccount { url, via_tor } => {
                if via_tor && !tor_up {
                    let reason = "Tor ещё не поднялся — подождите или снимите галочку".to_owned();
                    return MailStep::Answer(Err(TransportError::Refused(reason)));
                }
                MailStep::Register { url, via_tor }
            },
            TransportCommand::Disconnect { .. } => MailStep::Answer(Ok(())),
            TransportCommand::SetEnabled { transport, enabled } => {
                if transport == Transport::Mail {
                    MailStep::Enabled(enabled)
                } else {
                    MailStep::Answer(Err(TransportError::Unavailable))
                }
            },
            TransportCommand::Send { peer, via, frame, handoff } => {
                if via != Transport::Mail {
                    return MailStep::Answer(Err(TransportError::Unavailable));
                }
                match &self.account {
                    Some(account) => letter_step(account, peer, frame, handoff),
                    None => MailStep::Answer(Err(TransportError::Unavailable)),
                }
            },
            _ => MailStep::Answer(Err(TransportError::Unavailable)),
        }
    }
}

/// What sending a frame to a peer from a mailbox comes to.
fn letter_step(
    account: &MailAccount,
    peer: PeerAddress,
    frame: Vec<u8>,
    handoff: Option<u64>,
) -> (r: MailStep)
    requires
        frame@.len() + letter::PACKET_HEADER_LEN <= usize::MAX / 512,
    ensures
        peer.chatmail is None ==> r == MailStep::Answer(Err(TransportError::NoAddress)),
        peer.chatmail matches Some(address) ==> match letter::build_error(
            account.address@,
            address@,
            seq![frame@],
        ) {
            Some(error) => r matches MailStep::Answer(Err(TransportError::Refused(reason)))
                && reason@ == "письмо не собралось: "@ + error.words(),
            None => r matches MailStep::Letter { peer_ik, to, body, handoff: asked } && {
                &&& peer_ik == peer.ik
                &&& to == address
                &&& body@ == letter::letter_text(account.address@, to@, seq![frame@])
                &&& asked == handoff
            },
        },
{
    let to = match peer.chatmail {
        Some(to) => to,
        None => {
            return MailStep::Answer(Err(TransportError::NoAddress));
        },
    };
    let ghost content = frame@;
    let mut frames: Vec<Vec<u8>> = Vec::new();
    frames.push(frame);
    assert(letter::contents(frames@) =~= seq![content]);
    match letter::build_message(account.address.as_str(), to.as_str(), frames.as_slice()) {
        Ok(body) => MailStep::Letter { peer_ik: peer.ik, to, body, handoff },
        Err(error) => {
            let mut reason = "письмо не собралось: ".to_owned();
            reason.append(error.text());
            MailStep::Answer(Err(TransportError::Refused(reason)))
        },
    }
}

/// What it comes to that a step was put in the queue, and found room there or not:
/// a letter that found none is refused, anything else is let go.
pub fn queued(letter: bool, taken: bool) -> (r: Result<(), TransportError>)
    ensures
        r == if letter && !taken {
            Err::<(), TransportError>(TransportError::Busy)
        } else {
            Ok(())
        },
{
    if letter && !taken {
        Err(TransportError::Busy)
    } else {
        Ok(())
    }
}

/// How asking for a mailbox ended.
#[derive(Debug, PartialEq, Eq)]
pub enum Registered {
    /// The server answered this.
    Answered(Vec<u8>),
    /// It could not be asked, for this reason.
    Failed(String),
    /// It did not answer in time.
    TimedOut,
}

/// What is said about a mailbox that was asked for.
pub fn registered(outcome: Registered) -> (event: TransportEvent)
    ensures
        outcome matches Registered::Answered(answer) ==> match http::credentials_in(answer@) {
            Ok(found) => event matches TransportEvent::MailAccountCreated { address, password }
                && address@ == found.0 && password@ == found.1,
            Err(error) => event matches TransportEvent::MailAccountFailed { reason } && reason@
                == error.words(),
        },
        outcome matches Registered::Failed(why) ==> event == (TransportEvent::MailAccountFailed {
            reason: why,
        }),
        outcome is TimedOut ==> (event matches TransportEvent::MailAccountFailed { reason }
            && reason@ == "сервер не ответил за отведённое время"@),
{
    match outcome {
        Registered::Answered(answer) => match http::credentials(answer.as_slice()) {
            Ok((address, password)) => TransportEvent::MailAccountCreated { address, password },
            Err(error) => TransportEvent::MailAccountFailed { reason: error.text() },
        },
        Registered::Failed(reason) => TransportEvent::MailAccountFailed { reason },
        Registered::TimedOut => TransportEvent::MailAccountFailed {
            reason: "сервер не ответил за отведённое время".to_owned(),
        },
    }
}

/// The mailbox, and how we stand with its server.
pub struct Mailbox {
    pub account: Option<MailAccount>,
    pub enabled: bool,
    /// Whether there is a connection to send on.
    pub open: bool,
    /// Whether it was said that the login fails.
    pub complained: bool,
}

/// What a job of the transport comes to.
#[derive(Debug, PartialEq, Eq)]
pub enum Action {
    /// Nothing.
    Nothing,
    /// Close the connection there is; log in where that is wished; then see to
    /// receiving.
    Reopen { login: bool },
    /// Send this letter.
    Send {
        attempt: Attempt,
        peer_ik: [u8; 32],
        to: String,
        body: String,
        handoff: Option<u64>,
    },
    /// Say this.
    Tell(TransportEvent),
}

/// How to send a letter.
#[derive(Debug, Clone, Copy, PartialEq, Eq, Structural)]
pub enum Attempt {
    /// On the connection there is; where that fails, on a fresh one.
    Open,
    /// On a fresh connection.
    Fresh,
}

/// Where a letter stands once it was tried.
#[derive(Debug, Clone, Copy, PartialEq, Eq, Structural)]
pub enum Delivery {
    /// The server has it.
    Sent,
    /// Try it again like this.
    Again(Attempt),
    /// It does not go.
    Failed,
}

/// Where a letter stands once it was tried: a connection that was open may have
/// died of idleness, so a fresh one is tried too. What does not go on a fresh one
/// does not go.
pub open spec fn delivery(attempt: Attempt, sent: bool) -> Delivery {
    if sent {
        Delivery::Sent
    } else if attempt == Attempt::Open {
        Delivery::Again(Attempt::Fresh)
    } else {
        Delivery::Failed
    }
}

/// A letter that is tried again is tried once more and no further, whatever comes
/// of it.
pub proof fn lemma_a_letter_is_tried_once_more(attempt: Attempt, sent: bool, later: bool)
    ensures
        delivery(attempt, sent) matches Delivery::Again(next) ==> !(delivery(next, later) is Again),
{
}

/// The news of a login that worked: the transport is there, and this is how large
/// a letter may be.
pub open spec fn logged_in(limit: Option<u64>) -> Seq<TransportEvent> {
    seq![
        TransportEvent::Ready { transport: Transport::Mail },
        TransportEvent::MailLetterLimit { bytes: limit },
    ]
}

/// What a login says, where it was said before that it fails or not.
pub open spec fn login_news(
    complained: bool,
    outcome: Result<Option<u64>, String>,
) -> Seq<TransportEvent> {
    match outcome {
        Ok(limit) => logged_in(limit),
        Err(reason) => if complained {
            seq![]
        } else {
            seq![TransportEvent::MailLoginFailed { reason }]
        },
    }
}

/// What some logins in a row say, one after the other.
pub open spec fn logins_news(
    complained: bool,
    outcomes: Seq<Result<Option<u64>, String>>,
) -> Seq<TransportEvent>
    decreases outcomes.len(),
{
    if outcomes.len() == 0 {
        seq![]
    } else {
        login_news(complained, outcomes[0]) + logins_news(
            outcomes[0] is Err,
            outcomes.subrange(1, outcomes.len() as int),
        )
    }
}

/// However often the login fails in a row, it is said once; where it was said
/// before, not at all.
pub proof fn lemma_a_failing_login_is_told_once(
    complained: bool,
    outcomes: Seq<Result<Option<u64>, String>>,
)
    requires
        forall|i: int| 0 <= i < outcomes.len() ==> (#[trigger] outcomes[i]) is Err,
    ensures
        logins_news(complained, outcomes).len() == if complained || outcomes.len() == 0 {
            0int
        } else {
            1int
        },
    decreases outcomes.len(),
{
    if outcomes.len() > 0 {
        lemma_a_failing_login_is_told_once(true, outcomes.subrange(1, outcomes.len() as int));
    }
}

/// The news of a login that worked, be it for a letter or ahead of one.
pub fn greet(limit: Option<u64>) -> (events: Vec<TransportEvent>)
    ensures
        events@ == logged_in(limit),
{
    let mut events: Vec<TransportEvent> = Vec::new();
    events.push(TransportEvent::Ready { transport: Transport::Mail });
    events.push(TransportEvent::MailLetterLimit { bytes: limit });
    events
}

impl Mailbox {
    /// Whether there is a server to talk to: a mailbox, and we are switched on.
    pub open spec fn usable(&self) -> bool {
        self.enabled && self.account is Some
    }

    /// No mailbox yet, switched on.
    pub fn new() -> (m: Mailbox)
        ensures
            m.account is None,
            m.enabled,
            !m.open,
            !m.complained,
    {
        Mailbox { account: None, enabled: true, open: false, complained: false }
    }

    /// Whether to try to log in again after a while.
    pub fn retrying(&self) -> (r: bool)
        ensures
            r == (!self.open && self.usable()),
    {
        !self.open && self.enabled && self.account.is_some()
    }

    /// Whether letters are to be received.
    pub fn receives(&self) -> (r: bool)
        ensures
            r == self.usable(),
    {
        self.enabled && self.account.is_some()
    }

    /// A login ended: with the largest letter that the server takes, or with a
    /// reason. A failure is told once, until a login works again.
    pub fn on_login(&mut self, outcome: Result<Option<u64>, String>) -> (events: Vec<
        TransportEvent,
    >)
        ensures
            events@ == login_news(old(self).complained, outcome),
            *final(self) == (Mailbox {
                open: outcome is Ok,
                complained: outcome is Err,
                ..*old(self)
            }),
    {
        let mut events: Vec<TransportEvent> = Vec::new();
        match outcome {
            Ok(limit) => {
                self.open = true;
                self.complained = false;
                events = greet(limit);
            },
            Err(reason) => {
                self.open = false;
                if !self.complained {
                    self.complained = true;
                    events.push(TransportEvent::MailLoginFailed { reason });
                }
            },
        }
        events
    }

    /// How to send a letter, if at all.
    pub fn deliver(&self) -> (r: Result<Attempt, TransportError>)
        ensures
            r is Ok <==> self.usable(),
            r matches Ok(attempt) ==> attempt == if self.open {
                Attempt::Open
            } else {
                Attempt::Fresh
            },
            r matches Err(e) ==> e == TransportError::Unavailable,
    {
        if !self.receives() {
            return Err(TransportError::Unavailable);
        }
        if self.open {
            Ok(Attempt::Open)
        } else {
            Ok(Attempt::Fresh)
        }
    }

    /// What a job comes to: another mailbox, a switch or a letter.
    pub fn on_job(&mut self, job: MailStep) -> (r: Action)
        ensures
            job matches MailStep::Account(account) ==> *final(self) == (Mailbox {
                account,
                open: false,
                complained: false,
                enabled: old(self).enabled,
            }) && r == (Action::Reopen { login: final(self).usable() }),
            job matches MailStep::Enabled(on) ==> if on == old(self).enabled {
                &&& r == Action::Nothing
                &&& *final(self) == *old(self)
            } else {
                &&& r == (Action::Reopen { login: final(self).usable() })
                &&& *final(self) == (Mailbox {
                    enabled: on,
                    open: false,
                    complained: old(self).complained && !on,
                    ..*old(self)
                })
            },
            job matches MailStep::Letter { peer_ik, to, body, handoff } ==> *final(self)
                == *old(self) && r == if !old(self).usable() {
                Action::Tell(TransportEvent::ConnectFailed { peer_ik, via: Transport::Mail })
            } else {
                Action::Send {
                    attempt: if old(self).open {
                        Attempt::Open
                    } else {
                        Attempt::Fresh
                    },
                    peer_ik,
                    to,
                    body,
                    handoff,
                }
            },
            job is Answer || job is Register ==> r == Action::Nothing && *final(self)
                == *old(self),
    {
        match job {
            MailStep::Account(account) => {
                self.open = false;
                self.account = account;
                self.complained = false;
                Action::Reopen { login: self.receives() }
            },
            MailStep::Enabled(on) => {
                if on == self.enabled {
                    return Action::Nothing;
                }
                self.enabled = on;
                self.open = false;
                if on {
                    self.complained = false;
                }
                Action::Reopen { login: self.receives() }
            },
            MailStep::Letter { peer_ik, to, body, handoff } => match self.deliver() {
                Ok(attempt) => Action::Send { attempt, peer_ik, to, body, handoff },
                Err(_) => Action::Tell(
                    TransportEvent::ConnectFailed { peer_ik, via: Transport::Mail },
                ),
            },
            MailStep::Answer(_) | MailStep::Register { .. } => Action::Nothing,
        }
    }

    /// A letter was tried. The connection that it went on is kept; one that it did
    /// not go on is closed.
    pub fn on_tried(&mut self, attempt: Attempt, sent: bool) -> (r: Delivery)
        ensures
            r == delivery(attempt, sent),
            *final(self) == (Mailbox { open: sent, ..*old(self) }),
    {
        self.open = sent;
        if sent {
            Delivery::Sent
        } else {
            match attempt {
                Attempt::Open => Delivery::Again(Attempt::Fresh),
                Attempt::Fresh => Delivery::Failed,
            }
        }
    }
}

/// What is said about a letter: that it is out of our hands, where somebody wants
/// to know; or that it did not go.
pub fn delivered(peer_ik: [u8; 32], handoff: Option<u64>, sent: bool) -> (r: Option<TransportEvent>)
    ensures
        r == if !sent {
            Some(TransportEvent::ConnectFailed { peer_ik, via: Transport::Mail })
        } else {
            match handoff {
                Some(handoff) => Some(
                    TransportEvent::Handed { peer_ik, via: Transport::Mail, handoff },
                ),
                None => None,
            }
        },
{
    if !sent {
        return Some(TransportEvent::ConnectFailed { peer_ik, via: Transport::Mail });
    }
    match handoff {
        Some(handoff) => Some(TransportEvent::Handed { peer_ik, via: Transport::Mail, handoff }),
        None => None,
    }
}

/// Receiving letters: whether it was said that it fails.
#[derive(Debug, Clone, Copy, PartialEq, Eq)]
pub struct Receiving {
    pub complained: bool,
}

impl Receiving {
    /// Nothing was said yet.
    pub fn new() -> (r: Receiving)
        ensures
            !r.complained,
    {
        Receiving { complained: false }
    }

    /// A login to receive ended. A failure is told once, until a login works
    /// again.
    pub fn on_login(&mut self, failure: Option<String>) -> (r: Option<TransportEvent>)
        ensures
            final(self).complained == failure is Some,
            r is Some <==> failure is Some && !old(self).complained,
            r matches Some(e) ==> (e matches TransportEvent::MailLoginFailed { reason } && reason@
                == "письма отправляются, но не приходят: "@ + failure->0@),
    {
        match failure {
            None => {
                self.complained = false;
                None
            },
            Some(why) => {
                if self.complained {
                    return None;
                }
                self.complained = true;
                let mut reason = "письма отправляются, но не приходят: ".to_owned();
                reason.append(why.as_str());
                Some(TransportEvent::MailLoginFailed { reason })
            },
        }
    }
}

/// What is said about how full the mailbox is.
pub fn report_quota(quota: Option<(u64, u64)>) -> (r: Option<TransportEvent>)
    ensures
        r == match quota {
            Some((used_bytes, limit_bytes)) => Some(
                TransportEvent::MailQuota { used_bytes, limit_bytes },
            ),
            None => None,
        },
{
    match quota {
        Some((used_bytes, limit_bytes)) => Some(
            TransportEvent::MailQuota { used_bytes, limit_bytes },
        ),
        None => None,
    }
}

/// A letter that went is sent and never tried again. One that did not go on the
/// connection there was goes on a fresh one, and one that did not go on a fresh one
/// has failed.
pub proof fn lemma_a_letter_fails_only_on_a_fresh_connection(attempt: Attempt, sent: bool)
    ensures
        delivery(attempt, sent) == Delivery::Sent <==> sent,
        delivery(attempt, sent) == Delivery::Failed <==> !sent && attempt == Attempt::Fresh,
        delivery(attempt, sent) == Delivery::Again(Attempt::Fresh) <==> !sent && attempt
            == Attempt::Open,
        delivery(attempt, sent) != Delivery::Again(Attempt::Open),
{
}

/// A login that works is told every time: that mail is there, and how large a letter
/// may be. One that fails is told with its reason where none that failed was told
/// since the last that worked.
pub proof fn lemma_a_login_is_told(complained: bool, outcome: Result<Option<u64>, String>)
    ensures
        outcome matches Ok(limit) ==> {
            let events = login_news(complained, outcome);
            &&& events.len() == 2
            &&& events[0] == (TransportEvent::Ready { transport: Transport::Mail })
            &&& events[1] == (TransportEvent::MailLetterLimit { bytes: limit })
        },
        outcome matches Err(reason) ==> {
            let events = login_news(complained, outcome);
            &&& complained ==> events.len() == 0
            &&& !complained ==> events.len() == 1 && events[0] == (TransportEvent::MailLoginFailed {
                reason,
            })
        },
{
}

/// What logins in a row say is what they say in turn, each after what came of the
/// one before: a failure right after one that worked is told again.
pub proof fn lemma_a_failure_after_a_login_is_told_again(
    complained: bool,
    limit: Option<u64>,
    reason: String,
)
    ensures
        logins_news(complained, seq![Ok(limit), Err(reason)]) == seq![
            TransportEvent::Ready { transport: Transport::Mail },
            TransportEvent::MailLetterLimit { bytes: limit },
            TransportEvent::MailLoginFailed { reason },
        ],
{
    let both = seq![Ok(limit), Err(reason)];
    reveal_with_fuel(logins_news, 3);
    assert(both.subrange(1, 2) =~= seq![Err(reason)]);
    assert(seq![Err::<Option<u64>, String>(reason)].subrange(1, 1) =~= seq![]);
    assert(logins_news(complained, both) =~= seq![
        TransportEvent::Ready { transport: Transport::Mail },
        TransportEvent::MailLetterLimit { bytes: limit },
        TransportEvent::MailLoginFailed { reason },
    ]);
}

} // verus!
