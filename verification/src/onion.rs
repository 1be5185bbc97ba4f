//! Tor: the links to other onion services, and what is told of our own.

use crate::encoding;
use crate::runner::{PeerAddress, Transport, TransportCommand, TransportError, TransportEvent};
use crate::sorted;
use crate::sorted::SortedTable;
use crate::table;
use crate::text;
use vstd::prelude::*;
use vstd::string::*;

verus! {

broadcast use vstd::string::group_string_axioms;

/// The least delay to expect one way, in milliseconds.
pub const EXPECTED_LATENCY_MIN_MS: u64 = 300;

/// The largest delay to expect one way, in milliseconds.
pub const EXPECTED_LATENCY_MAX_MS: u64 = 800;

/// The name of the service towards Tor.
pub const NICKNAME: &'static str = "ratatosk";

/// The name of the place where the key of the service is kept.
pub const KEYSTORE_ID: &'static str = "ratatosk-service";

/// How many events wait to be taken.
pub const EVENT_QUEUE: usize = 64;

/// A peer in short: the first bytes of its key in hexadecimal.
pub fn short(ik: &[u8; 32]) -> (r: String)
    ensures
        r@ == encoding::hex_text(ik@.subrange(0, 6)),
{
    encoding::hex_encode(vstd::slice::slice_subrange(ik.as_slice(), 0, 6))
}

/// A note on Tor once it is up.
pub open spec fn noted(event: TransportEvent, what: Seq<char>, why: Option<Seq<char>>) -> bool {
    event matches TransportEvent::TorProgress { thousandths, note, blocked } && {
        &&& thousandths == 1000
        &&& note@ == what
        &&& blocked is Some == why is Some
        &&& why is Some ==> blocked->0@ == why->0
    }
}

/// A note on Tor once it is up.
fn tor_note(note: String, blocked: Option<String>) -> (event: TransportEvent)
    ensures
        noted(
            event,
            note@,
            match blocked {
                Some(why) => Some(why@),
                None => None,
            },
        ),
{
    TransportEvent::TorProgress { thousandths: 1000, note, blocked }
}

/// What a command comes to.
#[derive(Debug, PartialEq, Eq)]
pub enum OnionStep {
    /// This is the answer.
    Answer(Result<(), TransportError>),
    /// Tell this, and answer that nobody knows where the peer is.
    NoAddress(TransportEvent),
    /// Use the link there is, for this frame if there is one.
    Use { link: u64, frame: Option<Vec<u8>> },
    /// Tell this, then dial the address.
    Dial { peer_ik: [u8; 32], address: String, event: TransportEvent, frame: Option<Vec<u8>> },
}

/// How a dial ended.
#[derive(Debug, PartialEq, Eq)]
pub enum Dialed {
    /// There is a stream.
    Open,
    /// Tor refused, in these words.
    Refused(String),
    /// Nothing came of it in time.
    TimedOut,
}

/// Our onion service, and the links to others.
pub struct OnionRunner {
    pub address: String,
    pub links: SortedTable<[u8; 32], u64>,
    pub next_link: u64,
}

/// What it comes to that a link to a peer is wanted.
pub open spec fn link_step(
    r: OnionStep,
    links: Seq<(Seq<u8>, u64)>,
    peer: PeerAddress,
    closed: bool,
    frame: Option<Vec<u8>>,
) -> bool {
    if table::holds(links, peer.ik@) && !closed {
        r == (OnionStep::Use { link: table::at(links, peer.ik@), frame })
    } else {
        match peer.onion {
            None => r matches OnionStep::NoAddress(event) && noted(
                event,
                encoding::hex_text(peer.ik@.subrange(0, 6)) + ": onion-адреса в карточке нет"@,
                None,
            ),
            Some(onion) => r matches OnionStep::Dial { peer_ik, address, event, frame: f } && {
                &&& peer_ik == peer.ik
                &&& address == onion
                &&& noted(event, "набираем "@ + onion@, None)
                &&& f == frame
            },
        }
    }
}

/// The links once a link to a peer was wanted: one that is closed is forgotten.
pub open spec fn links_wanted(
    links: Seq<(Seq<u8>, u64)>,
    ik: Seq<u8>,
    closed: bool,
) -> Seq<(Seq<u8>, u64)> {
    if closed {
        table::without(links, ik)
    } else {
        links
    }
}

impl OnionRunner {
    /// The links are in order.
    pub open spec fn wf(&self) -> bool {
        self.links.wf()
    }

    /// The service at this address, without links.
    pub fn start(address: String) -> (r: OnionRunner)
        ensures
            r.wf(),
            r.address == address,
            r.links.rows().len() == 0,
            r.next_link == 0,
    {
        OnionRunner { address, links: SortedTable::new(), next_link: 0 }
    }

    /// The address of our service.
    #[must_use]
    pub fn address(&self) -> (r: &str)
        ensures
            r@ == self.address@,
    {
        self.address.as_str()
    }

    /// A link to a peer is wanted. `closed` says whether the one we have is of no
    /// more use.
    pub fn ensure_link(&mut self, peer: PeerAddress, closed: bool, frame: Option<Vec<u8>>) -> (r:
        OnionStep)
        requires
            old(self).wf(),
        ensures
            final(self).wf(),
            link_step(r, old(self).links.rows(), peer, closed, frame),
            final(self).links.rows() == links_wanted(old(self).links.rows(), peer.ik@, closed),
            final(self).address == old(self).address,
            final(self).next_link == old(self).next_link,
    {
        if closed {
            let _ = self.links.remove(&peer.ik);
        } else if let Some(link) = self.links.get(&peer.ik) {
            return OnionStep::Use { link: *link, frame };
        }
        match peer.onion {
            Some(address) => {
                let mut words = "набираем ".to_owned();
                words.append(address.as_str());
                OnionStep::Dial { peer_ik: peer.ik, address, event: tor_note(words, None), frame }
            },
            None => {
                let mut words = short(&peer.ik);
                words.append(": onion-адреса в карточке нет");
                OnionStep::NoAddress(tor_note(words, None))
            },
        }
    }

    /// A dial ended. An open stream becomes the link to the peer; what happened is
    /// told, in this order.
    pub fn dialed(&mut self, peer_ik: [u8; 32], address: &str, timeout_ms: u64, outcome: Dialed) -> (r:
        (Result<u64, TransportError>, Vec<TransportEvent>))
        requires
            old(self).wf(),
            old(self).next_link < u64::MAX,
        ensures
            final(self).wf(),
            final(self).address == old(self).address,
            outcome is Open ==> {
                &&& r.0 == Ok::<u64, TransportError>(old(self).next_link)
                &&& r.1@.len() == 2
                &&& noted(r.1@[0], address@ + ": соединение установлено"@, None)
                &&& r.1@[1] == (TransportEvent::Connected { peer_ik, via: Transport::Onion })
                &&& final(self).links.rows() == sorted::put::<[u8; 32], u64>(
                    old(self).links.rows(),
                    peer_ik@,
                    old(self).next_link,
                )
                &&& final(self).next_link == old(self).next_link + 1
            },
            outcome matches Dialed::Refused(error) ==> {
                &&& r.0 == Err::<u64, TransportError>(TransportError::Unavailable)
                &&& r.1@.len() == 1
                &&& noted(r.1@[0], address@ + ": не дозвонились"@, Some(error@))
            },
            outcome is TimedOut ==> {
                &&& r.0 == Err::<u64, TransportError>(TransportError::Timeout)
                &&& r.1@.len() == 1
                &&& noted(
                    r.1@[0],
                    address@ + ": молчит "@ + text::decimal_text((timeout_ms / 1_000) as nat)
                        + " с"@,
                    Some("дескриптор не найден или сервис недоступен"@),
                )
            },
            !(outcome is Open) ==> *final(self) == *old(self),
    {
        let mut events: Vec<TransportEvent> = Vec::new();
        let mut words = address.to_owned();
        match outcome {
            Dialed::Open => {
                words.append(": соединение установлено");
                events.push(tor_note(words, None));
                let link: u64 = self.next_link;
                self.next_link = link + 1;
                let _ = self.links.insert(peer_ik, link);
                events.push(TransportEvent::Connected { peer_ik, via: Transport::Onion });
                (Ok(link), events)
            },
            Dialed::Refused(error) => {
                words.append(": не дозвонились");
                events.push(tor_note(words, Some(error)));
                (Err(TransportError::Unavailable), events)
            },
            Dialed::TimedOut => {
                words.append(": молчит ");
                words.append(text::decimal(timeout_ms / 1_000).as_str());
                words.append(" с");
                let why = "дескриптор не найден или сервис недоступен".to_owned();
                events.push(tor_note(words, Some(why)));
                (Err(TransportError::Timeout), events)
            },
        }
    }

    /// What a command comes to. `closed` says of the link to the peer whom the
    /// command names whether it is of no more use.
    pub fn execute(&mut self, command: TransportCommand, closed: bool) -> (r: OnionStep)
        requires
            old(self).wf(),
        ensures
            final(self).wf(),
            final(self).address == old(self).address,
            final(self).next_link == old(self).next_link,
            command matches TransportCommand::Send { peer, via, frame, .. } ==> if via
                == Transport::Onion {
                &&& link_step(r, old(self).links.rows(), peer, closed, Some(frame))
                &&& final(self).links.rows() == links_wanted(
                    old(self).links.rows(),
                    peer.ik@,
                    closed,
                )
            } else {
                &&& r == OnionStep::Answer(Err(TransportError::Unavailable))
                &&& *final(self) == *old(self)
            },
            command matches TransportCommand::Connect { peer, via } ==> if via
                == Transport::Onion {
                &&& link_step(r, old(self).links.rows(), peer, closed, None)
                &&& final(self).links.rows() == links_wanted(
                    old(self).links.rows(),
                    peer.ik@,
                    closed,
                )
            } else {
                &&& r == OnionStep::Answer(Err(TransportError::Unavailable))
                &&& *final(self) == *old(self)
            },
            command matches TransportCommand::Disconnect { peer } ==> r == OnionStep::Answer(Ok(()))
                && final(self).links.rows() == table::without(old(self).links.rows(), peer.ik@),
            !(command is Send || command is Connect || command is Disconnect) ==> r
                == OnionStep::Answer(Err(TransportError::Unavailable)) && *final(self)
                == *old(self),
    {
        match command {
            TransportCommand::Send { peer, via, frame, .. } => {
                if via != Transport::Onion {
                    return OnionStep::Answer(Err(TransportError::Unavailable));
                }
                self.ensure_link(peer, closed, Some(frame))
            },
            TransportCommand::Connect { peer, via } => {
                if via != Transport::Onion {
                    return OnionStep::Answer(Err(TransportError::Unavailable));
                }
                self.ensure_link(peer, closed, None)
            },
            TransportCommand::Disconnect { peer } => {
                let _ = self.links.remove(&peer.ik);
                OnionStep::Answer(Ok(()))
            },
            _ => OnionStep::Answer(Err(TransportError::Unavailable)),
        }
    }
}

/// What was told of our service.
#[derive(Debug)]
pub struct ServiceNews {
    pub announced: bool,
    pub said: Option<String>,
}

/// What there is to say of the state of our service.
pub open spec fn state_words(running: bool, state: Seq<char>, address: Seq<char>) -> Seq<char> {
    if running {
        "сервис опубликован: "@ + address
    } else {
        "сервис: "@ + state
    }
}

/// What to tell of our service.
#[derive(Debug, PartialEq, Eq)]
pub struct Told {
    /// A note, unless it was the last thing told.
    pub note: Option<TransportEvent>,
    /// The news that the service can be reached, once.
    pub ready: Option<TransportEvent>,
}

impl ServiceNews {
    /// Nothing yet.
    pub fn new() -> (n: ServiceNews)
        ensures
            !n.announced,
            n.said is None,
    {
        ServiceNews { announced: false, said: None }
    }

    /// The service is in another state.
    pub fn on_status(&mut self, running: bool, state: &str, address: &str) -> (r: Told)
        ensures
            final(self).said is Some,
            final(self).said->0@ == state_words(running, state@, address@),
            final(self).announced == (old(self).announced || running),
            r.note is Some <==> !(old(self).said is Some && old(self).said->0@ == state_words(
                running,
                state@,
                address@,
            )),
            r.note matches Some(event) ==> noted(
                event,
                state_words(running, state@, address@),
                None,
            ),
            r.ready is Some <==> running && !old(self).announced,
            r.ready matches Some(event) ==> (event matches TransportEvent::TorReady { onion }
                && onion@ == address@),
    {
        let words = if running {
            let mut words = "сервис опубликован: ".to_owned();
            words.append(address);
            words
        } else {
            let mut words = "сервис: ".to_owned();
            words.append(state);
            words
        };
        let fresh = match &self.said {
            Some(said) => *said != words,
            None => true,
        };
        let told = if fresh {
            self.said = Some(words.clone());
            Some(tor_note(words, None))
        } else {
            None
        };
        let ready = if running && !self.announced {
            self.announced = true;
            Some(TransportEvent::TorReady { onion: address.to_owned() })
        } else {
            None
        };
        Told { note: told, ready }
    }
}

/// How starting our service ended.
#[derive(Debug, Clone, Copy, PartialEq, Eq)]
pub enum Launched {
    /// It did not start: the settings, the way into Tor or the service failed.
    Failed,
    /// It runs, under this key as far as Tor says.
    Running { published: Option<[u8; 32]> },
}

/// What starting our service comes to.
pub enum Started {
    /// It is up.
    Up(OnionRunner),
    /// It is not ours: Tor serves this key.
    Foreign([u8; 32]),
    /// It is not there.
    Down,
}

/// What starting our service comes to: it is up only where it runs under our key,
/// as far as Tor says.
pub fn started(outcome: Launched, ours: &[u8; 32], address: String) -> (r: Started)
    ensures
        r is Up <==> (outcome matches Launched::Running { published } && (published is None
            || published->0@ == ours@)),
        r matches Started::Up(runner) ==> runner.wf() && runner.address == address
            && runner.links.rows().len() == 0 && runner.next_link == 0,
        r is Down <==> outcome is Failed,
        r matches Started::Foreign(key) ==> key@ != ours@ && outcome == (Launched::Running {
            published: Some(key),
        }),
{
    match outcome {
        Launched::Failed => Started::Down,
        Launched::Running { published } => match serves_another(published, ours) {
            Some(key) => Started::Foreign(key),
            None => Started::Up(OnionRunner::start(address)),
        },
    }
}

/// Whether Tor serves another key than ours, as far as it says which it serves.
fn serves_another(published: Option<[u8; 32]>, ours: &[u8; 32]) -> (r: Option<[u8; 32]>)
    ensures
        r == match published {
            Some(key) => if key@ == ours@ {
                None
            } else {
                Some(key)
            },
            None => None,
        },
{
    match published {
        Some(key) => {
            if table::Name::same(&key, ours) {
                None
            } else {
                Some(key)
            }
        },
        None => None,
    }
}

/// What is told where Tor serves another key than ours.
pub fn another_key(served: &str, address: &str) -> (event: TransportEvent)
    ensures
        noted(
            event,
            "сервис поднялся с чужим ключом: обслуживает "@ + served@,
            Some(
                "ждали "@ + address@
                    + " — адрес из нашего ключа. Свой ключ arti держит в каталоге состояния и, найдя его там, до ctor-хранилища не доходит. Остановите узел, удалите каталог state внутри .tor и запустите заново"@,
            ),
        ),
{
    let mut words = "сервис поднялся с чужим ключом: обслуживает ".to_owned();
    words.append(served);
    let mut why = "ждали ".to_owned();
    why.append(address);
    why.append(
        " — адрес из нашего ключа. Свой ключ arti держит в каталоге состояния и, найдя его там, до ctor-хранилища не доходит. Остановите узел, удалите каталог state внутри .tor и запустите заново",
    );
    tor_note(words, Some(why))
}

/// Whether somebody who comes to our service wants our port: `port` is the port
/// asked for, where one is asked for at all.
pub fn wants_our_port(port: Option<u16>, service_port: u16) -> (r: bool)
    ensures
        r == (port == Some(service_port)),
{
    match port {
        Some(port) => port == service_port,
        None => false,
    }
}

/// A link that stands is used as it is, with the frame. Else the address on the card
/// of the peer is dialed, for this peer and with this frame, and that is told; where
/// there is no address, that is.
pub proof fn lemma_a_link_is_used_or_dialed(
    r: OnionStep,
    links: Seq<(Seq<u8>, u64)>,
    peer: PeerAddress,
    closed: bool,
    frame: Option<Vec<u8>>,
)
    requires
        link_step(r, links, peer, closed, frame),
    ensures
        r is Use <==> table::holds(links, peer.ik@) && !closed,
        r is Use ==> r->link == table::at(links, peer.ik@) && r->Use_frame == frame,
        r is Dial <==> !(table::holds(links, peer.ik@) && !closed) && peer.onion is Some,
        r is Dial ==> {
            &&& r->peer_ik == peer.ik
            &&& Some(r->address) == peer.onion
            &&& r->Dial_frame == frame
            &&& r->event is TorProgress
            &&& r->event->thousandths == 1000
            &&& r->event->TorProgress_note@ == "набираем "@ + peer.onion->0@
            &&& r->event->blocked is None
        },
        r is NoAddress <==> !(table::holds(links, peer.ik@) && !closed) && peer.onion is None,
        r is NoAddress ==> {
            &&& r->NoAddress_0 is TorProgress
            &&& r->NoAddress_0->thousandths == 1000
            &&& r->NoAddress_0->TorProgress_note@ == encoding::hex_text(peer.ik@.take(6))
                + ": onion-адреса в карточке нет"@
            &&& r->NoAddress_0->blocked is None
        },
{
    assert(peer.ik@.take(6) =~= peer.ik@.subrange(0, 6));
}

/// Where a link is wanted, the one to this peer goes if it is closed; every other
/// link stands as it was.
pub proof fn lemma_only_the_closed_link_goes(
    links: Seq<(Seq<u8>, u64)>,
    ik: Seq<u8>,
    closed: bool,
    other: Seq<u8>,
)
    requires
        table::distinct(links),
        other != ik,
    ensures
        table::holds(links_wanted(links, ik, closed), ik) <==> table::holds(links, ik) && !closed,
        !closed ==> links_wanted(links, ik, closed) == links,
        table::holds(links_wanted(links, ik, closed), other) == table::holds(links, other),
        table::holds(links, other) ==> table::at(links_wanted(links, ik, closed), other)
            == table::at(links, other),
{
    table::lemma_without(links, ik);
}

/// A service that runs is told by its address, one that does not by its state.
pub proof fn lemma_a_running_service_is_told_by_its_address(
    running: bool,
    state: Seq<char>,
    address: Seq<char>,
)
    ensures
        running ==> state_words(running, state, address) == "сервис опубликован: "@ + address,
        !running ==> state_words(running, state, address) == "сервис: "@ + state,
{
}

} // verus!
