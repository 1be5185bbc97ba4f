//! The links to relays, the frames in flight, and what is said about them.

use crate::encoding;
use crate::runner::{
    NostrRelay, NostrSetup, PeerAddress, Transport, TransportCommand, TransportError,
    TransportEvent,
};
use crate::sorted;
use crate::sorted::SortedTable;
use crate::table;
use crate::table::Table;
use crate::wire::size_class::SizeClass;
use std::collections::HashMap;
use vstd::prelude::*;
use vstd::string::*;

verus! {

broadcast use {vstd::string::group_string_axioms, vstd::std_specs::hash::group_hash_axioms};

/// How many relays of our own are read.
pub const MAX_OWN_LINKS: usize = 8;

/// How many relays of other people are written to.
pub const MAX_PEER_LINKS: usize = 8;

/// How many lines wait to be written to a relay.
pub const TO_RELAY: usize = 32;

/// By how many seconds the time read up to has to grow to be told.
pub const SINCE_REPORT_STEP: u64 = 60;

/// What the subscription is called.
pub const SUBSCRIPTION: &'static str = "rk";

/// What the transport is to do.
#[derive(Debug, PartialEq, Eq)]
pub enum Job {
    /// Be set up like this.
    Setup(NostrSetup),
    /// Be switched on or off.
    Enabled(bool),
    /// Open all links anew.
    NetworkChanged,
    /// Carry a frame.
    Send {
        peer_ik: [u8; 32],
        to: [u8; 32],
        relays: Vec<String>,
        frame: Vec<u8>,
        handoff: Option<u64>,
    },
}

/// What a command comes to: a job, nothing, or a refusal. The largest frames are
/// not carried this way, and nobody is reached without a key.
pub open spec fn accepted(command: TransportCommand) -> Result<Option<Job>, TransportError> {
    match command {
        TransportCommand::Send { peer, via, frame, handoff } => if via != Transport::Nostr
            || frame@.len() == SizeClass::L.frame_size() {
            Err(TransportError::Unavailable)
        } else {
            match peer.nostr {
                None => Err(TransportError::NoAddress),
                Some(to) => Ok(
                    Some(
                        Job::Send {
                            peer_ik: peer.ik,
                            to,
                            relays: peer.nostr_relays,
                            frame,
                            handoff,
                        },
                    ),
                ),
            }
        },
        TransportCommand::SetEnabled { transport, enabled } => if transport == Transport::Nostr {
            Ok(Some(Job::Enabled(enabled)))
        } else {
            Err(TransportError::Unavailable)
        },
        TransportCommand::SetNostr(setup) => Ok(Some(Job::Setup(setup))),
        TransportCommand::NetworkChanged => Ok(Some(Job::NetworkChanged)),
        TransportCommand::Connect { .. } => Ok(None),
        TransportCommand::Disconnect { .. } => Ok(None),
        _ => Err(TransportError::Unavailable),
    }
}

/// What a command comes to.
pub fn accept(command: TransportCommand) -> (r: Result<Option<Job>, TransportError>)
    ensures
        r == accepted(command),
{
    match command {
        TransportCommand::Send { peer, via, frame, handoff } => {
            if via != Transport::Nostr {
                return Err(TransportError::Unavailable);
            }
            if let Ok(SizeClass::L) = SizeClass::from_frame_len(frame.len()) {
                return Err(TransportError::Unavailable);
            }
            match peer.nostr {
                None => Err(TransportError::NoAddress),
                Some(to) => Ok(
                    Some(
                        Job::Send {
                            peer_ik: peer.ik,
                            to,
                            relays: peer.nostr_relays,
                            frame,
                            handoff,
                        },
                    ),
                ),
            }
        },
        TransportCommand::SetEnabled { transport, enabled } => {
            if transport == Transport::Nostr {
                Ok(Some(Job::Enabled(enabled)))
            } else {
                Err(TransportError::Unavailable)
            }
        },
        TransportCommand::SetNostr(setup) => Ok(Some(Job::Setup(setup))),
        TransportCommand::NetworkChanged => Ok(Some(Job::NetworkChanged)),
        TransportCommand::Connect { .. } => Ok(None),
        TransportCommand::Disconnect { .. } => Ok(None),
        _ => Err(TransportError::Unavailable),
    }
}

/// A frame is put on the way to the Nostr key of the peer it is for, on the relays
/// that this peer reads, whole and under its own number. It is where it is to go
/// by Nostr, is not of the largest size and the peer has a key; where the peer has
/// none, that is said, and in every other case that there is no such way.
pub proof fn lemma_a_frame_is_sent_to_its_peer(
    command: TransportCommand,
    peer: PeerAddress,
    via: Transport,
    frame: Vec<u8>,
    handoff: Option<u64>,
)
    requires
        command == (TransportCommand::Send { peer, via, frame, handoff }),
    ensures
        accepted(command) matches Ok(job) ==> job matches Some(
            Job::Send { peer_ik, to, relays, frame: carried, handoff: number },
        ) && peer_ik == peer.ik && peer.nostr == Some(to) && relays == peer.nostr_relays && carried
            == frame && number == handoff,
        accepted(command) is Ok <==> via == Transport::Nostr && frame@.len() != 1048576
            && peer.nostr is Some,
        accepted(command) matches Err(e) ==> e == if via == Transport::Nostr && frame@.len()
            != 1048576 {
            TransportError::NoAddress
        } else {
            TransportError::Unavailable
        },
{
}

/// Only a frame makes a sending job. A setup and a switch are passed on as they
/// came, a switch only where it is of Nostr; a way need not be opened or closed;
/// and what else there is, is refused.
pub proof fn lemma_what_else_is_accepted(command: TransportCommand)
    requires
        !(command is Send),
    ensures
        !(accepted(command) matches Ok(Some(Job::Send { .. }))),
        command matches TransportCommand::SetEnabled { transport, enabled } ==> transport
            == Transport::Nostr ==> accepted(command) == Ok::<Option<Job>, TransportError>(
            Some(Job::Enabled(enabled)),
        ),
        command matches TransportCommand::SetNostr(setup) ==> accepted(command) == Ok::<
            Option<Job>,
            TransportError,
        >(Some(Job::Setup(setup))),
        command is NetworkChanged ==> accepted(command) == Ok::<Option<Job>, TransportError>(
            Some(Job::NetworkChanged),
        ),
        (command is Connect || command is Disconnect) <==> accepted(command) matches Ok(None),
        accepted(command) is Err <==> !(command is SetNostr || command is NetworkChanged
            || command is Connect || command is Disconnect || (command is SetEnabled
            && command->SetEnabled_transport == Transport::Nostr)),
        accepted(command) matches Err(e) ==> e == TransportError::Unavailable,
{
}

/// Our key.
#[derive(Debug, Clone, Copy, PartialEq, Eq)]
pub struct Keys {
    pub public: [u8; 32],
    pub secret: [u8; 32],
}

/// A link to a relay. It was opened with `id`, and reads from `since` on where it
/// is our own.
#[derive(Debug, Clone, Copy, PartialEq, Eq)]
pub struct Link {
    pub id: u64,
    pub own: bool,
    pub used: u64,
    pub since: u64,
    pub via_tor: bool,
}

/// A frame that relays have not all answered for.
#[derive(Debug, Clone, Copy, PartialEq, Eq)]
pub struct Outgoing {
    pub peer_ik: [u8; 32],
    pub handoff: Option<u64>,
    /// How many of its parts nobody took yet.
    pub waiting: usize,
}

/// A part of a frame on its way.
#[derive(Debug, Clone, Copy, PartialEq, Eq)]
pub struct Flying {
    /// The frame it is a part of.
    pub token: u64,
    /// How many relays refused it.
    pub answers: usize,
    /// How many relays were given it.
    pub relays: usize,
}

/// The transport.
pub struct State {
    pub key: Option<Keys>,
    pub relays: Vec<String>,
    pub via_tor: bool,
    pub links: Table<String, Link>,
    pub alive: SortedTable<String, NostrRelay>,
    pub ready: bool,
    pub enabled: bool,
    pub outgoing: HashMap<u64, Outgoing>,
    pub flying: Table<String, Flying>,
    pub next_token: u64,
    pub uses: u64,
    pub since: u64,
    pub since_told: u64,
}

/// The rows of links.
pub type Links = Seq<(Seq<char>, Link)>;

/// How many of the links are to relays of other people.
pub open spec fn peer_count(links: Links) -> nat
    decreases links.len(),
{
    if links.len() == 0 {
        0
    } else {
        peer_count(links.drop_last()) + if links.last().1.own {
            0nat
        } else {
            1nat
        }
    }
}

/// How many of the links are to relays of our own.
pub open spec fn own_count(links: Links) -> nat {
    (links.len() - peer_count(links)) as nat
}

/// The link to a relay of other people that was used least lately.
pub open spec fn oldest_peer(links: Links) -> Option<int>
    decreases links.len(),
{
    if links.len() == 0 {
        None
    } else {
        let best = oldest_peer(links.drop_last());
        let last = links.len() - 1;
        if links.last().1.own {
            best
        } else {
            match best {
                None => Some(last),
                Some(i) => if links.last().1.used < links[i].1.used {
                    Some(last)
                } else {
                    best
                },
            }
        }
    }
}

/// The links without the one to a relay of other people that was used least
/// lately.
pub open spec fn evicted(links: Links) -> Links {
    match oldest_peer(links) {
        Some(i) => links.remove(i),
        None => links,
    }
}

/// What opening a link goes by.
pub struct Opening {
    /// Whether links are opened at all: switched on, with a key.
    pub open: bool,
    pub since: u64,
    pub via_tor: bool,
}

/// The links, and whether there is one to the relay, once it was asked for: one
/// that there is counts as used; else one is opened, in place of the one used
/// least lately where there are too many; but not to an address that is of no
/// use, nor where none is opened at all.
pub open spec fn ensured(links: Links, uses: int, how: Opening, url: Seq<char>, usable: bool) -> (
    Links,
    bool,
) {
    let used = (uses + 1) as u64;
    if table::holds(links, url) {
        (table::put(links, url, Link { used, ..table::at(links, url) }), true)
    } else if !how.open || !usable {
        (links, false)
    } else {
        let room = if peer_count(links) >= MAX_PEER_LINKS {
            evicted(links)
        } else {
            links
        };
        (
            table::put(
                room,
                url,
                Link { id: used, own: false, used, since: how.since, via_tor: how.via_tor },
            ),
            true,
        )
    }
}

/// The links and the relays named, once the first `n` of a list were asked for,
/// each once, together with how many times links were used.
pub open spec fn named(
    links: Links,
    uses: int,
    how: Opening,
    urls: Seq<Seq<char>>,
    usable: Seq<bool>,
    n: nat,
) -> (Links, int, Seq<Seq<char>>)
    decreases n,
{
    if n == 0 {
        (links, uses, seq![])
    } else {
        let before = named(links, uses, how, urls, usable, (n - 1) as nat);
        let url = urls[n - 1];
        if before.2.contains(url) {
            before
        } else {
            let asked = ensured(before.0, before.1, how, url, usable[n - 1]);
            (
                asked.0,
                before.1 + 1,
                if asked.1 {
                    before.2.push(url)
                } else {
                    before.2
                },
            )
        }
    }
}

/// The links to the named relays, as far as they still stand.
pub open spec fn ids_of(links: Links, urls: Seq<Seq<char>>) -> Seq<u64>
    decreases urls.len(),
{
    if urls.len() == 0 {
        seq![]
    } else {
        let before = ids_of(links, urls.drop_last());
        if table::holds(links, urls.last()) {
            before.push(table::at(links, urls.last()).id)
        } else {
            before
        }
    }
}

/// The links to relays of our own.
pub open spec fn own_ids(links: Links) -> Seq<u64>
    decreases links.len(),
{
    if links.len() == 0 {
        seq![]
    } else {
        let before = own_ids(links.drop_last());
        if links.last().1.own {
            before.push(links.last().1.id)
        } else {
            before
        }
    }
}

/// The links to the first `n` of our own relays, opened anew.
pub open spec fn raised(urls: Seq<Seq<char>>, uses: int, since: u64, via_tor: bool, n: nat) -> Links
    decreases n,
{
    if n == 0 {
        seq![]
    } else {
        let used = (uses + n) as u64;
        table::put(
            raised(urls, uses, since, via_tor, (n - 1) as nat),
            urls[n - 1],
            Link { id: used, own: true, used, since, via_tor },
        )
    }
}

/// How many of our own relays are read.
pub open spec fn raised_count(relays: nat) -> nat {
    if relays < MAX_OWN_LINKS {
        relays
    } else {
        MAX_OWN_LINKS as nat
    }
}

/// The texts of some strings.
pub open spec fn texts(strings: Seq<String>) -> Seq<Seq<char>> {
    strings.map_values(|s: String| s@)
}

/// How many parts of a frame are on their way.
pub open spec fn flying_count(flying: Seq<(Seq<char>, Flying)>, token: u64) -> nat
    decreases flying.len(),
{
    if flying.len() == 0 {
        0
    } else {
        flying_count(flying.drop_last(), token) + if flying.last().1.token == token {
            1nat
        } else {
            0nat
        }
    }
}

/// The parts on their way that are not of the frame.
pub open spec fn without_token(
    flying: Seq<(Seq<char>, Flying)>,
    token: u64,
) -> Seq<(Seq<char>, Flying)>
    decreases flying.len(),
{
    if flying.len() == 0 {
        seq![]
    } else if flying.last().1.token == token {
        without_token(flying.drop_last(), token)
    } else {
        without_token(flying.drop_last(), token).push(flying.last())
    }
}

/// Whether one of our relays is up.
pub open spec fn any_up(alive: Seq<(Seq<char>, NostrRelay)>) -> bool {
    exists|i: int| 0 <= i < alive.len() && (#[trigger] alive[i]).1.up
}

/// What is said once our relays are as they are: the relays, in the order of
/// their names; and that the transport is there, or gone, where that changed.
pub open spec fn settled(
    alive: Seq<(Seq<char>, NostrRelay)>,
    was_ready: bool,
    events: Seq<TransportEvent>,
) -> bool {
    &&& events.len() == if any_up(alive) != was_ready {
        2int
    } else {
        1int
    }
    &&& events[0] matches TransportEvent::NostrRelays { relays } && relays@ == alive.map_values(
        |row: (Seq<char>, NostrRelay)| row.1,
    )
    &&& any_up(alive) && !was_ready ==> events[1] == (TransportEvent::Ready {
        transport: Transport::Nostr,
    })
    &&& !any_up(alive) && was_ready ==> events[1] == (TransportEvent::Lost {
        transport: Transport::Nostr,
    })
}

proof fn lemma_peer_count_bound(links: Links)
    ensures
        peer_count(links) <= links.len(),
    decreases links.len(),
{
    if links.len() > 0 {
        lemma_peer_count_bound(links.drop_last());
    }
}

proof fn lemma_peer_count_update(links: Links, i: int, row: (Seq<char>, Link))
    requires
        0 <= i < links.len(),
    ensures
        peer_count(links.update(i, row)) == peer_count(links) - (if links[i].1.own {
            0int
        } else {
            1int
        }) + (if row.1.own {
            0int
        } else {
            1int
        }),
    decreases links.len(),
{
    let now = links.update(i, row);
    if i == links.len() - 1 {
        assert(now.drop_last() =~= links.drop_last());
    } else {
        assert(now.drop_last() =~= links.drop_last().update(i, row));
        lemma_peer_count_update(links.drop_last(), i, row);
    }
}

proof fn lemma_peer_count_push(links: Links, row: (Seq<char>, Link))
    ensures
        peer_count(links.push(row)) == peer_count(links) + if row.1.own {
            0int
        } else {
            1int
        },
{
    assert(links.push(row).drop_last() =~= links);
}

proof fn lemma_peer_count_remove(links: Links, i: int)
    requires
        0 <= i < links.len(),
    ensures
        peer_count(links.remove(i)) == peer_count(links) - if links[i].1.own {
            0int
        } else {
            1int
        },
    decreases links.len(),
{
    let now = links.remove(i);
    if i == links.len() - 1 {
        assert(now =~= links.drop_last());
    } else {
        assert(now.drop_last() =~= links.drop_last().remove(i));
        assert(now.last() == links.last());
        lemma_peer_count_remove(links.drop_last(), i);
    }
}

/// What `oldest_peer` says: a link to a relay of other people, and none of those
/// was used less lately; there is one wherever there is such a link.
proof fn lemma_oldest_peer(links: Links)
    ensures
        oldest_peer(links) matches Some(i) ==> 0 <= i < links.len() && !links[i].1.own && forall|
            j: int,
        |
            0 <= j < links.len() && !(#[trigger] links[j]).1.own ==> links[i].1.used
                <= links[j].1.used,
        oldest_peer(links) is None ==> peer_count(links) == 0,
    decreases links.len(),
{
    if links.len() > 0 {
        let fewer = links.drop_last();
        lemma_oldest_peer(fewer);
        if oldest_peer(fewer) is None {
            lemma_no_peers(fewer);
        }
        if let Some(i) = oldest_peer(links) {
            assert forall|j: int| 0 <= j < links.len() && !(
            #[trigger] links[j]).1.own implies links[i].1.used <= links[j].1.used by {
                if j < fewer.len() {
                    assert(links[j] == fewer[j]);
                }
            }
        }
    }
}

/// What holds of the links: no relay twice, not too many of either kind, and
/// nothing used later than now.
pub open spec fn links_ok(links: Links, uses: u64) -> bool {
    &&& table::distinct(links)
    &&& peer_count(links) <= MAX_PEER_LINKS
    &&& own_count(links) <= MAX_OWN_LINKS
    &&& forall|i: int|
        0 <= i < links.len() ==> (#[trigger] links[i]).1.used <= uses && links[i].1.id <= uses
}

/// Asking for a link keeps what holds of the links.
proof fn lemma_ensured_ok(links: Links, uses: u64, how: Opening, url: Seq<char>, usable: bool)
    requires
        links_ok(links, uses),
        uses < u64::MAX,
    ensures
        links_ok(ensured(links, uses as int, how, url, usable).0, (uses + 1) as u64),
{
    let used = (uses + 1) as u64;
    table::lemma_index_of(links, url);
    lemma_peer_count_bound(links);
    if table::holds(links, url) {
        let i = table::index_of(links, url)->0;
        let row = (url, Link { used, ..table::at(links, url) });
        table::lemma_put(links, url, row.1);
        lemma_peer_count_update(links, i, row);
    } else if how.open && usable {
        let fresh = Link { id: used, own: false, used, since: how.since, via_tor: how.via_tor };
        if peer_count(links) >= MAX_PEER_LINKS {
            lemma_oldest_peer(links);
            let i = oldest_peer(links)->0;
            lemma_peer_count_remove(links, i);
            table::lemma_index_is(links, links[i].0, i);
            table::lemma_without(links, links[i].0);
            let room = evicted(links);
            table::lemma_index_of(room, url);
            assert(!table::holds(room, url)) by {
                if let Some(j) = table::index_of(room, url) {
                    let j2 = if j < i {
                        j
                    } else {
                        j + 1
                    };
                    assert(room[j] == links[j2]);
                }
            }
            table::lemma_put(room, url, fresh);
            lemma_peer_count_push(room, (url, fresh));
            assert forall|j: int| 0 <= j < room.len() implies (#[trigger] room[j]).1.used <= uses
                && room[j].1.id <= uses by {
                let j2 = if j < i {
                    j
                } else {
                    j + 1
                };
                assert(room[j] == links[j2]);
            }
        } else {
            table::lemma_put(links, url, fresh);
            lemma_peer_count_push(links, (url, fresh));
        }
    }
}

/// Opening our own relays anew keeps what holds of the links.
proof fn lemma_raised_ok(urls: Seq<Seq<char>>, uses: u64, since: u64, via_tor: bool, n: nat)
    requires
        n <= urls.len(),
        n <= MAX_OWN_LINKS,
        uses + n <= u64::MAX,
    ensures
        links_ok(raised(urls, uses as int, since, via_tor, n), (uses + n) as u64),
        peer_count(raised(urls, uses as int, since, via_tor, n)) == 0,
        raised(urls, uses as int, since, via_tor, n).len() <= n,
    decreases n,
{
    if n > 0 {
        lemma_raised_ok(urls, uses, since, via_tor, (n - 1) as nat);
        let before = raised(urls, uses as int, since, via_tor, (n - 1) as nat);
        let used = (uses + n) as u64;
        let url = urls[n - 1];
        let fresh = Link { id: used, own: true, used, since, via_tor };
        table::lemma_put(before, url, fresh);
        table::lemma_index_of(before, url);
        lemma_no_peers(before);
        match table::index_of(before, url) {
            Some(i) => lemma_peer_count_update(before, i, (url, fresh)),
            None => lemma_peer_count_push(before, (url, fresh)),
        }
    }
}

/// Where no link is to a relay of other people, every one is our own.
proof fn lemma_no_peers(links: Links)
    requires
        peer_count(links) == 0,
    ensures
        forall|i: int| 0 <= i < links.len() ==> (#[trigger] links[i]).1.own,
    decreases links.len(),
{
    if links.len() > 0 {
        let fewer = links.drop_last();
        lemma_no_peers(fewer);
        assert forall|i: int| 0 <= i < links.len() implies (#[trigger] links[i]).1.own by {
            if i < fewer.len() {
                assert(links[i] == fewer[i]);
            }
        }
    }
}

impl State {
    /// What holds of the transport at any time.
    pub open spec fn wf(&self) -> bool {
        &&& links_ok(self.links.rows(), self.uses)
        &&& self.alive.wf()
        &&& self.flying.wf()
        &&& forall|token: u64|
            #[trigger] self.outgoing@.contains_key(token) ==> token < self.next_token
                && self.outgoing@[token].waiting >= flying_count(self.flying.rows(), token)
        &&& forall|i: int|
            0 <= i < self.flying.rows().len() ==> (#[trigger] self.flying.rows()[i]).1.token
                < self.next_token && self.flying.rows()[i].1.answers
                < self.flying.rows()[i].1.relays
    }

    /// What opening a link goes by now.
    pub open spec fn how(&self) -> Opening {
        Opening {
            open: self.enabled && self.key is Some,
            since: self.since,
            via_tor: self.via_tor,
        }
    }

    /// Not set up, switched on, nothing open.
    pub fn new() -> (s: State)
        ensures
            s.wf(),
            s.key is None,
            s.relays@.len() == 0,
            s.via_tor,
            s.links.rows().len() == 0,
            s.alive.rows().len() == 0,
            !s.ready,
            s.enabled,
            s.outgoing@ == Map::<u64, Outgoing>::empty(),
            s.flying.rows().len() == 0,
            s.next_token == 1,
            s.uses == 0,
            s.since == 0,
            s.since_told == 0,
    {
        State {
            key: None,
            relays: Vec::new(),
            via_tor: true,
            links: Table::new(),
            alive: SortedTable::new(),
            ready: false,
            enabled: true,
            outgoing: HashMap::new(),
            flying: Table::new(),
            next_token: 1,
            uses: 0,
            since: 0,
            since_told: 0,
        }
    }

    /// Drops all links, and what was known of our relays.
    pub fn drop_links(&mut self)
        requires
            old(self).wf(),
        ensures
            final(self).wf(),
            final(self).links.rows().len() == 0,
            final(self).alive.rows().len() == 0,
            *final(self) == (State {
                links: final(self).links,
                alive: final(self).alive,
                ..*old(self)
            }),
    {
        self.links.clear();
        self.alive.clear();
    }

    /// Counts one more use of a link.
    pub fn tick(&mut self) -> (used: u64)
        requires
            old(self).wf(),
            old(self).uses < u64::MAX,
        ensures
            final(self).wf(),
            used == old(self).uses + 1,
            *final(self) == (State { uses: used, ..*old(self) }),
    {
        self.uses = self.uses + 1;
        self.uses
    }

    /// Drops all links, and opens those to our own relays anew: the first few of
    /// them, where there is a key and the transport is switched on.
    pub fn raise_links(&mut self)
        requires
            old(self).wf(),
            old(self).uses + MAX_OWN_LINKS <= u64::MAX,
        ensures
            final(self).wf(),
            final(self).alive.rows().len() == 0,
            final(self).links.rows() == if old(self).key is Some && old(self).enabled {
                raised(
                    texts(old(self).relays@),
                    old(self).uses as int,
                    old(self).since,
                    old(self).via_tor,
                    raised_count(old(self).relays@.len()),
                )
            } else {
                seq![]
            },
            final(self).uses == old(self).uses + if old(self).key is Some && old(self).enabled {
                raised_count(old(self).relays@.len())
            } else {
                0
            },
            *final(self) == (State {
                links: final(self).links,
                alive: final(self).alive,
                uses: final(self).uses,
                ..*old(self)
            }),
    {
        self.drop_links();
        assert(self.links.rows() =~= seq![]);
        if self.key.is_none() || !self.enabled {
            return;
        }
        let ghost urls = texts(self.relays@);
        let ghost start = self.uses;
        let mut i: usize = 0;
        while i < self.relays.len() && i < MAX_OWN_LINKS
            invariant
                old(self).wf(),
                i <= self.relays@.len(),
                i <= MAX_OWN_LINKS,
                urls == texts(self.relays@),
                start == old(self).uses,
                start + MAX_OWN_LINKS <= u64::MAX,
                self.uses == start + i,
                self.alive.rows().len() == 0,
                self.alive.wf(),
                self.links.rows() == raised(
                    urls,
                    start as int,
                    old(self).since,
                    old(self).via_tor,
                    i as nat,
                ),
                *self == (State {
                    links: self.links,
                    alive: self.alive,
                    uses: self.uses,
                    ..*old(self)
                }),
            decreases self.relays@.len() - i,
        {
            let used: u64 = self.uses + 1;
            self.uses = used;
            let url = self.relays[i].clone();
            assert(urls[i as int] == url@);
            proof {
                lemma_raised_ok(urls, start, old(self).since, old(self).via_tor, i as nat);
            }
            let fresh = Link { id: used, own: true, used, since: self.since, via_tor: self.via_tor };
            let _ = self.links.insert(url, fresh);
            i = i + 1;
        }
        proof {
            lemma_raised_ok(urls, start, old(self).since, old(self).via_tor, i as nat);
            assert(i as nat == raised_count(self.relays@.len()));
        }
    }

    /// How many links are to relays of other people.
    pub fn peer_links(&self) -> (n: usize)
        requires
            self.wf(),
        ensures
            n == peer_count(self.links.rows()),
    {
        let mut n: usize = 0;
        let mut i: usize = 0;
        let ghost rows = self.links.rows();
        assert(rows.subrange(0, 0) =~= seq![]);
        while i < self.links.len()
            invariant
                rows == self.links.rows(),
                n <= i <= rows.len(),
                n == peer_count(rows.subrange(0, i as int)),
            decreases rows.len() - i,
        {
            let ghost upto = rows.subrange(0, i as int + 1);
            assert(upto.drop_last() =~= rows.subrange(0, i as int));
            if !self.links.value_at(i).own {
                n = n + 1;
            }
            i = i + 1;
        }
        assert(rows.subrange(0, i as int) =~= rows);
        n
    }

    /// The link to a relay of other people that was used least lately.
    fn oldest(&self) -> (r: Option<usize>)
        requires
            self.wf(),
        ensures
            r matches Some(i) ==> oldest_peer(self.links.rows()) == Some(i as int),
            r is None ==> oldest_peer(self.links.rows()) is None,
    {
        let mut best: Option<usize> = None;
        let mut i: usize = 0;
        let ghost rows = self.links.rows();
        assert(rows.subrange(0, 0) =~= seq![]);
        while i < self.links.len()
            invariant
                rows == self.links.rows(),
                i <= rows.len(),
                best matches Some(b) ==> b < i && oldest_peer(rows.subrange(0, i as int)) == Some(
                    b as int,
                ),
                best is None ==> oldest_peer(rows.subrange(0, i as int)) is None,
            decreases rows.len() - i,
        {
            let ghost upto = rows.subrange(0, i as int + 1);
            assert(upto.drop_last() =~= rows.subrange(0, i as int));
            let one = *self.links.value_at(i);
            if !one.own {
                match best {
                    None => {
                        best = Some(i);
                    },
                    Some(b) => {
                        assert(upto[b as int] == rows[b as int]);
                        if one.used < self.links.value_at(b).used {
                            best = Some(i);
                        }
                    },
                }
            }
            i = i + 1;
        }
        assert(rows.subrange(0, i as int) =~= rows);
        best
    }

    /// Drops the link to a relay of other people that was used least lately. Our
    /// own relays are never dropped for that.
    pub fn evict_peer_link(&mut self) -> (r: bool)
        requires
            old(self).wf(),
        ensures
            final(self).wf(),
            r == (peer_count(old(self).links.rows()) > 0),
            final(self).links.rows() == evicted(old(self).links.rows()),
            *final(self) == (State { links: final(self).links, ..*old(self) }),
    {
        proof {
            lemma_oldest_peer(self.links.rows());
            lemma_peer_count_bound(self.links.rows());
        }
        match self.oldest() {
            Some(i) => {
                let ghost rows = self.links.rows();
                let _ = self.links.remove_at(i);
                proof {
                    lemma_peer_count_remove(rows, i as int);
                    let now = rows.remove(i as int);
                    assert forall|j: int| 0 <= j < now.len() implies (#[trigger] now[j]).1.used
                        <= self.uses && now[j].1.id <= self.uses by {
                        let j2 = if j < i {
                            j
                        } else {
                            j + 1
                        };
                        assert(now[j] == rows[j2]);
                    }
                }
                true
            },
            None => false,
        }
    }

    /// Asks for a link to a relay. `usable` says whether the address is of use.
    pub fn ensure_link(&mut self, url: &String, usable: bool) -> (r: bool)
        requires
            old(self).wf(),
            old(self).uses < u64::MAX,
        ensures
            final(self).wf(),
            (final(self).links.rows(), r) == ensured(
                old(self).links.rows(),
                old(self).uses as int,
                old(self).how(),
                url@,
                usable,
            ),
            final(self).uses == old(self).uses + 1,
            *final(self) == (State {
                links: final(self).links,
                uses: final(self).uses,
                ..*old(self)
            }),
    {
        proof {
            lemma_ensured_ok(self.links.rows(), self.uses, self.how(), url@, usable);
        }
        let used: u64 = self.tick();
        if let Some(link) = self.links.get(url) {
            let fresh = Link {
                id: link.id,
                own: link.own,
                used,
                since: link.since,
                via_tor: link.via_tor,
            };
            let _ = self.links.insert(url.clone(), fresh);
            return true;
        }
        if !self.enabled || self.key.is_none() || !usable {
            return false;
        }
        if self.peer_links() >= MAX_PEER_LINKS && !self.evict_peer_link() {
            return false;
        }
        let fresh = Link { id: used, own: false, used, since: self.since, via_tor: self.via_tor };
        let _ = self.links.insert(url.clone(), fresh);
        true
    }
}

/// Whether a list holds a name.
fn lists(names: &Vec<String>, name: &String) -> (r: bool)
    ensures
        r == texts(names@).contains(name@),
{
    let mut i: usize = 0;
    while i < names.len()
        invariant
            i <= names@.len(),
            forall|k: int| 0 <= k < i ==> texts(names@)[k] != name@,
        decreases names@.len() - i,
    {
        if names[i] == *name {
            assert(texts(names@)[i as int] == name@);
            return true;
        }
        assert(texts(names@)[i as int] != name@);
        i = i + 1;
    }
    assert(!texts(names@).contains(name@));
    false
}

/// A part that was offered to relays is on its way where one of them took it.
pub open spec fn part_taken(answers: Seq<bool>) -> bool {
    answers.contains(true)
}

/// Whether a part that was offered to relays is on its way, so that the next can
/// be offered: one relay that took it is enough.
pub fn goes_on(answers: &Vec<bool>) -> (r: bool)
    ensures
        r == part_taken(answers@),
{
    let mut i: usize = 0;
    while i < answers.len()
        invariant
            i <= answers@.len(),
            forall|k: int| 0 <= k < i ==> !answers@[k],
        decreases answers@.len() - i,
    {
        if answers[i] {
            assert(answers@[i as int]);
            return true;
        }
        i = i + 1;
    }
    false
}

/// A frame is on its way where every one of its parts is.
pub open spec fn all_taken(offers: Seq<Vec<bool>>, parts: nat) -> bool {
    offers.len() == parts && forall|i: int|
        0 <= i < offers.len() ==> part_taken(#[trigger] offers[i]@)
}

/// The parts on their way with the first `n` of a frame more.
pub open spec fn launched(
    flying: Seq<(Seq<char>, Flying)>,
    ids: Seq<Seq<char>>,
    token: u64,
    relays: usize,
    n: nat,
) -> Seq<(Seq<char>, Flying)>
    decreases n,
{
    if n == 0 {
        flying
    } else {
        table::put(
            launched(flying, ids, token, relays, (n - 1) as nat),
            ids[n - 1],
            Flying { token, answers: 0, relays },
        )
    }
}

proof fn lemma_flying_update(
    flying: Seq<(Seq<char>, Flying)>,
    i: int,
    row: (Seq<char>, Flying),
    token: u64,
)
    requires
        0 <= i < flying.len(),
    ensures
        flying_count(flying.update(i, row), token) == flying_count(flying, token) - (
        if flying[i].1.token == token {
            1int
        } else {
            0int
        }) + (if row.1.token == token {
            1int
        } else {
            0int
        }),
    decreases flying.len(),
{
    let now = flying.update(i, row);
    if i == flying.len() - 1 {
        assert(now.drop_last() =~= flying.drop_last());
    } else {
        assert(now.drop_last() =~= flying.drop_last().update(i, row));
        lemma_flying_update(flying.drop_last(), i, row, token);
    }
}

proof fn lemma_flying_push(flying: Seq<(Seq<char>, Flying)>, row: (Seq<char>, Flying), token: u64)
    ensures
        flying_count(flying.push(row), token) == flying_count(flying, token) + if row.1.token
            == token {
            1int
        } else {
            0int
        },
{
    assert(flying.push(row).drop_last() =~= flying);
}

proof fn lemma_flying_remove(flying: Seq<(Seq<char>, Flying)>, i: int, token: u64)
    requires
        0 <= i < flying.len(),
    ensures
        flying_count(flying.remove(i), token) == flying_count(flying, token) - if flying[i].1.token
            == token {
            1int
        } else {
            0int
        },
    decreases flying.len(),
{
    let now = flying.remove(i);
    if i == flying.len() - 1 {
        assert(now =~= flying.drop_last());
    } else {
        assert(now.drop_last() =~= flying.drop_last().remove(i));
        assert(now.last() == flying.last());
        lemma_flying_remove(flying.drop_last(), i, token);
    }
}

/// What `without_token` leaves: none of the frame, all of the others.
proof fn lemma_without_token(flying: Seq<(Seq<char>, Flying)>, token: u64, other: u64)
    ensures
        flying_count(without_token(flying, token), token) == 0,
        other != token ==> flying_count(without_token(flying, token), other) == flying_count(
            flying,
            other,
        ),
        table::distinct(flying) ==> table::distinct(without_token(flying, token)),
        forall|i: int|
            0 <= i < without_token(flying, token).len() ==> flying.contains(
                #[trigger] without_token(flying, token)[i],
            ),
    decreases flying.len(),
{
    if flying.len() > 0 {
        let fewer = flying.drop_last();
        lemma_without_token(fewer, token, other);
        let kept = without_token(fewer, token);
        assert forall|i: int| 0 <= i < kept.len() implies flying.contains(#[trigger] kept[i]) by {
            assert(fewer.contains(kept[i]));
            let k = choose|k: int| 0 <= k < fewer.len() && fewer[k] == kept[i];
            assert(flying[k] == kept[i]);
        }
        if flying.last().1.token != token {
            assert(kept.push(flying.last()).drop_last() =~= kept);
            if table::distinct(flying) {
                let now = kept.push(flying.last());
                assert(table::distinct(kept)) by {
                    assert(table::distinct(fewer)) by {
                        assert forall|i: int, j: int| 0 <= i < j < fewer.len() implies fewer[i].0
                            != fewer[j].0 by {
                            assert(fewer[i] == flying[i] && fewer[j] == flying[j]);
                        }
                    }
                }
                assert forall|i: int, j: int| 0 <= i < j < now.len() implies now[i].0
                    != now[j].0 by {
                    if j == kept.len() {
                        assert(fewer.contains(kept[i]));
                        let k = choose|k: int| 0 <= k < fewer.len() && fewer[k] == kept[i];
                        assert(flying[k].0 != flying.last().0);
                    }
                }
            }
        } else if table::distinct(flying) {
            assert forall|i: int, j: int| 0 <= i < j < fewer.len() implies fewer[i].0
                != fewer[j].0 by {
                assert(fewer[i] == flying[i] && fewer[j] == flying[j]);
            }
        }
    }
}

/// A frame that took off: no more of its parts are on their way than it has, no
/// more of any other frame than before, and everything else holds as it did.
proof fn lemma_launched(
    flying: Seq<(Seq<char>, Flying)>,
    ids: Seq<Seq<char>>,
    token: u64,
    relays: usize,
    n: nat,
    next: u64,
)
    requires
        table::distinct(flying),
        n <= ids.len(),
        relays > 0,
        token < next,
        forall|i: int|
            0 <= i < flying.len() ==> (#[trigger] flying[i]).1.token < next && flying[i].1.answers
                < flying[i].1.relays,
    ensures
        table::distinct(launched(flying, ids, token, relays, n)),
        flying_count(launched(flying, ids, token, relays, n), token) <= flying_count(flying, token)
            + n,
        forall|other: u64|
            other != token ==> #[trigger] flying_count(
                launched(flying, ids, token, relays, n),
                other,
            ) <= flying_count(flying, other),
        forall|i: int|
            0 <= i < launched(flying, ids, token, relays, n).len() ==> (#[trigger] launched(
                flying,
                ids,
                token,
                relays,
                n,
            )[i]).1.token < next && launched(flying, ids, token, relays, n)[i].1.answers
                < launched(flying, ids, token, relays, n)[i].1.relays,
    decreases n,
{
    if n > 0 {
        lemma_launched(flying, ids, token, relays, (n - 1) as nat, next);
        let before = launched(flying, ids, token, relays, (n - 1) as nat);
        let id = ids[n - 1];
        let part = Flying { token, answers: 0, relays };
        table::lemma_put(before, id, part);
        table::lemma_index_of(before, id);
        let now = table::put(before, id, part);
        match table::index_of(before, id) {
            Some(i) => {
                lemma_flying_update(before, i, (id, part), token);
                assert forall|other: u64| other != token implies #[trigger] flying_count(now, other)
                    <= flying_count(flying, other) by {
                    lemma_flying_update(before, i, (id, part), other);
                }
            },
            None => {
                lemma_flying_push(before, (id, part), token);
                assert forall|other: u64| other != token implies #[trigger] flying_count(now, other)
                    <= flying_count(flying, other) by {
                    lemma_flying_push(before, (id, part), other);
                }
            },
        }
    }
}

/// The number of a frame and of its parts, and the mark by which its parts are
/// put together again.
#[derive(Debug, Clone, Copy, PartialEq, Eq)]
pub struct Ticket {
    pub token: u64,
    pub total: u16,
    pub uid: [u8; 16],
}

/// What numbering a frame comes to, where these bytes were drawn for it.
pub open spec fn ticketed(
    before: State,
    parts: nat,
    signs: bool,
    uid: Option<[u8; 16]>,
    now: State,
    r: Option<Ticket>,
) -> bool {
    if before.key is Some && signs && parts <= u16::MAX && uid is Some {
        &&& r == Some(Ticket { token: before.next_token, total: parts as u16, uid: uid->0 })
        &&& now == (State { next_token: (before.next_token + 1) as u64, ..before })
    } else {
        r is None && now == before
    }
}

/// What is published with one part of a frame: the mark of the frame, which of how
/// many parts it is, when it was published and when it vanishes.
#[derive(Debug, Clone, Copy, PartialEq, Eq)]
pub struct Piece {
    pub uid: [u8; 16],
    pub index: u16,
    pub total: u16,
    pub created_at: u64,
    pub expires_at: u64,
}

/// When something published at a time vanishes: after its lifetime, or never where
/// there is no such time.
pub open spec fn expiry(created_at: u64, ttl: u64) -> u64 {
    if created_at + ttl <= u64::MAX {
        (created_at + ttl) as u64
    } else {
        u64::MAX
    }
}

/// When something published at a time vanishes.
pub fn expires_at(created_at: u64, ttl: u64) -> (r: u64)
    ensures
        r == expiry(created_at, ttl),
{
    created_at.saturating_add(ttl)
}

/// What is published with the parts of a frame, first to last.
pub open spec fn pieces_of(ticket: Ticket, created_at: u64, ttl: u64) -> Seq<Piece> {
    Seq::new(
        ticket.total as nat,
        |i: int|
            Piece {
                uid: ticket.uid,
                index: i as u16,
                total: ticket.total,
                created_at,
                expires_at: expiry(created_at, ttl),
            },
    )
}

impl Ticket {
    /// What is published with the parts of the frame: the time it vanishes is
    /// reckoned once for all of them.
    pub fn pieces(&self, created_at: u64, ttl: u64) -> (pieces: Vec<Piece>)
        ensures
            pieces@ == pieces_of(*self, created_at, ttl),
    {
        let expires_at: u64 = expires_at(created_at, ttl);
        let mut pieces: Vec<Piece> = Vec::new();
        let mut index: u16 = 0;
        while index < self.total
            invariant
                index <= self.total,
                expires_at == expiry(created_at, ttl),
                pieces@ =~= pieces_of(*self, created_at, ttl).subrange(0, index as int),
            decreases self.total - index,
        {
            pieces.push(
                Piece { uid: self.uid, index, total: self.total, created_at, expires_at },
            );
            index = index + 1;
        }
        assert(pieces@ =~= pieces_of(*self, created_at, ttl));
        pieces
    }
}

/// The parts of a frame bear one mark, are published as of one time and vanish
/// together; each says another place, so that they can be told apart.
pub proof fn lemma_parts_vanish_together(
    ticket: Ticket,
    created_at: u64,
    ttl: u64,
    i: int,
    j: int,
)
    requires
        0 <= i < ticket.total,
        0 <= j < ticket.total,
    ensures
        pieces_of(ticket, created_at, ttl)[i].expires_at == pieces_of(
            ticket,
            created_at,
            ttl,
        )[j].expires_at,
        pieces_of(ticket, created_at, ttl)[i].created_at == pieces_of(
            ticket,
            created_at,
            ttl,
        )[j].created_at,
        pieces_of(ticket, created_at, ttl)[i].uid == pieces_of(ticket, created_at, ttl)[j].uid,
        pieces_of(ticket, created_at, ttl)[i].total == pieces_of(ticket, created_at, ttl)[j].total,
        i != j ==> pieces_of(ticket, created_at, ttl)[i].index != pieces_of(
            ticket,
            created_at,
            ttl,
        )[j].index,
{
}

/// What a link heard.
#[derive(Debug, PartialEq, Eq)]
pub enum Note {
    /// A relay answers.
    Up { url: String, own: bool },
    /// A relay does not answer.
    Down { url: String, note: String, own: bool },
    /// A part came; with it a frame is whole, or not yet.
    Event { frame: Option<Vec<u8>> },
    /// Something was published at this time.
    Seen { created_at: u64 },
    /// A relay took a part, or refused it.
    Accepted { id: String, ok: bool },
}

/// What became of a part that came.
#[derive(Debug, PartialEq, Eq)]
pub enum Verdict {
    /// It could not be read.
    Unreadable,
    /// With it the frame is whole.
    Complete(Vec<u8>),
    /// Others are still missing.
    Pending { have: usize, total: usize },
    /// It was known, or is of no use.
    Other,
    /// It was refused.
    Refused,
}

/// The frame that a part completes, if it does.
pub fn collect(verdict: Verdict) -> (r: Option<Vec<u8>>)
    ensures
        r == match verdict {
            Verdict::Complete(frame) => Some(frame),
            _ => None,
        },
{
    match verdict {
        Verdict::Complete(frame) => Some(frame),
        _ => None,
    }
}

/// The news that a peer was not reached this way.
pub fn refuse(peer_ik: [u8; 32]) -> (event: TransportEvent)
    ensures
        event == (TransportEvent::ConnectFailed { peer_ik, via: Transport::Nostr }),
{
    TransportEvent::ConnectFailed { peer_ik, via: Transport::Nostr }
}

impl State {
    /// The links to put a frame on: those to the relays that the peer reads, or
    /// to our own where the peer names none. `usable` says of each address
    /// whether it is of use.
    pub fn targets(&mut self, peer_relays: &Vec<String>, usable: &Vec<bool>) -> (ids: Vec<u64>)
        requires
            old(self).wf(),
            usable@.len() == peer_relays@.len(),
            old(self).uses + peer_relays@.len() <= u64::MAX,
        ensures
            final(self).wf(),
            peer_relays@.len() == 0 ==> ids@ == own_ids(old(self).links.rows()) && *final(self)
                == *old(self),
            peer_relays@.len() > 0 ==> ({
                let asked = named(
                    old(self).links.rows(),
                    old(self).uses as int,
                    old(self).how(),
                    texts(peer_relays@),
                    usable@,
                    peer_relays@.len(),
                );
                &&& final(self).links.rows() == asked.0
                &&& final(self).uses == asked.1
                &&& ids@ == ids_of(asked.0, asked.2)
            }),
            *final(self) == (State {
                links: final(self).links,
                uses: final(self).uses,
                ..*old(self)
            }),
    {
        if peer_relays.len() == 0 {
            return self.own_links();
        }
        let ghost how = self.how();
        let ghost urls = texts(peer_relays@);
        let ghost rows = self.links.rows();
        let ghost start = self.uses as int;
        let mut asked: Vec<String> = Vec::new();
        let mut i: usize = 0;
        assert(texts(asked@) =~= seq![]);
        while i < peer_relays.len()
            invariant
                i <= peer_relays@.len(),
                usable@.len() == peer_relays@.len(),
                start + peer_relays@.len() <= u64::MAX,
                urls == texts(peer_relays@),
                self.wf(),
                self.how() == how,
                (self.links.rows(), self.uses as int, texts(asked@)) == named(
                    rows,
                    start,
                    how,
                    urls,
                    usable@,
                    i as nat,
                ),
                self.uses <= start + i,
                *self == (State { links: self.links, uses: self.uses, ..*old(self) }),
            decreases peer_relays@.len() - i,
        {
            assert(urls[i as int] == peer_relays@[i as int]@);
            if !lists(&asked, &peer_relays[i]) {
                if self.ensure_link(&peer_relays[i], usable[i]) {
                    let ghost before = texts(asked@);
                    asked.push(peer_relays[i].clone());
                    assert(texts(asked@) =~= before.push(urls[i as int]));
                }
            }
            i = i + 1;
        }
        let mut ids: Vec<u64> = Vec::new();
        let ghost all = texts(asked@);
        let mut j: usize = 0;
        assert(all.subrange(0, 0) =~= seq![]);
        while j < asked.len()
            invariant
                j <= asked@.len(),
                all == texts(asked@),
                self.wf(),
                ids@ == ids_of(self.links.rows(), all.subrange(0, j as int)),
            decreases asked@.len() - j,
        {
            let ghost upto = all.subrange(0, j as int + 1);
            assert(upto.drop_last() =~= all.subrange(0, j as int));
            assert(upto.last() == asked@[j as int]@);
            if let Some(link) = self.links.get(&asked[j]) {
                ids.push(link.id);
            }
            j = j + 1;
        }
        assert(all.subrange(0, j as int) =~= all);
        ids
    }

    /// The links to relays of our own.
    fn own_links(&self) -> (ids: Vec<u64>)
        requires
            self.wf(),
        ensures
            ids@ == own_ids(self.links.rows()),
    {
        let mut ids: Vec<u64> = Vec::new();
        let ghost rows = self.links.rows();
        let mut i: usize = 0;
        assert(rows.subrange(0, 0) =~= seq![]);
        while i < self.links.len()
            invariant
                rows == self.links.rows(),
                i <= rows.len(),
                ids@ == own_ids(rows.subrange(0, i as int)),
            decreases rows.len() - i,
        {
            let ghost upto = rows.subrange(0, i as int + 1);
            assert(upto.drop_last() =~= rows.subrange(0, i as int));
            let one = self.links.value_at(i);
            if one.own {
                ids.push(one.id);
            }
            i = i + 1;
        }
        assert(rows.subrange(0, i as int) =~= rows);
        ids
    }

    /// Says how our relays are, and whether the transport came or went.
    pub fn settle(&mut self) -> (events: Vec<TransportEvent>)
        requires
            old(self).wf(),
        ensures
            final(self).wf(),
            settled(old(self).alive.rows(), old(self).ready, events@),
            *final(self) == (State { ready: any_up(old(self).alive.rows()), ..*old(self) }),
    {
        let ghost rows = self.alive.rows();
        let mut relays: Vec<NostrRelay> = Vec::new();
        let mut up = false;
        let mut i: usize = 0;
        while i < self.alive.len()
            invariant
                *self == *old(self),
                rows == self.alive.rows(),
                i <= rows.len(),
                relays@.len() == i,
                forall|k: int| 0 <= k < i ==> relays@[k] == (#[trigger] rows[k]).1,
                up == exists|k: int| 0 <= k < i && (#[trigger] rows[k]).1.up,
            decreases rows.len() - i,
        {
            let one = self.alive.value_at(i);
            assert(rows[i as int].1 == *one);
            if one.up {
                up = true;
            }
            relays.push(one.copy());
            i = i + 1;
        }
        assert(relays@ =~= rows.map_values(|row: (Seq<char>, NostrRelay)| row.1));
        assert(up == any_up(rows));
        let mut events: Vec<TransportEvent> = Vec::new();
        events.push(TransportEvent::NostrRelays { relays });
        if up && !self.ready {
            self.ready = true;
            events.push(TransportEvent::Ready { transport: Transport::Nostr });
        } else if !up && self.ready {
            self.ready = false;
            events.push(TransportEvent::Lost { transport: Transport::Nostr });
        }
        events
    }
}

/// What a job comes to.
#[derive(Debug, PartialEq, Eq)]
pub enum JobStep {
    /// Say this.
    Said(Vec<TransportEvent>),
    /// Carry this frame.
    Send {
        peer_ik: [u8; 32],
        to: [u8; 32],
        relays: Vec<String>,
        frame: Vec<u8>,
        handoff: Option<u64>,
    },
}

/// The greater of two numbers.
pub open spec fn later(a: u64, b: u64) -> u64 {
    if a < b {
        b
    } else {
        a
    }
}

/// The transport after it was set up, before its links are opened anew. Without a
/// key that can be read it is off; the time read up to never goes back.
pub open spec fn configured(
    state: State,
    setup: NostrSetup,
    public: Option<[u8; 32]>,
    now: State,
) -> bool {
    match (setup, public) {
        (NostrSetup::On { secret, relays, via_tor, since }, Some(public)) => {
            &&& now.key == Some(Keys { public, secret })
            &&& now.relays == relays
            &&& now.via_tor == via_tor
            &&& now.since == later(state.since, since)
            &&& now.since_told == now.since
        },
        _ => {
            &&& now.key is None
            &&& now.relays@.len() == 0
            &&& now.via_tor == state.via_tor
            &&& now.since == state.since
            &&& now.since_told == state.since_told
        },
    }
}

/// The links to our own relays, opened anew under these settings.
pub open spec fn reopened(now: State, uses: u64) -> Links {
    if now.key is Some && now.enabled {
        raised(
            texts(now.relays@),
            uses as int,
            now.since,
            now.via_tor,
            raised_count(now.relays@.len()),
        )
    } else {
        seq![]
    }
}

/// How often links were used once those to our own relays were opened anew under
/// these settings: each counts as used once.
pub open spec fn uses_reopened(now: State, uses: u64) -> int {
    if now.key is Some && now.enabled {
        uses + raised_count(now.relays@.len())
    } else {
        uses as int
    }
}

/// What is told of a time at which something was published: that we have read up
/// to it, where that is later by a step than what was told last.
pub open spec fn since_news(state: State, created_at: u64) -> Option<TransportEvent> {
    let due = if state.since_told + SINCE_REPORT_STEP > u64::MAX {
        u64::MAX as int
    } else {
        state.since_told + SINCE_REPORT_STEP
    };
    if created_at > state.since && created_at >= due {
        Some(TransportEvent::NostrSince { created_at })
    } else {
        None
    }
}

/// What sending and booking go by is left alone.
pub open spec fn same_books(a: State, b: State) -> bool {
    a.outgoing == b.outgoing && a.flying == b.flying && a.next_token == b.next_token
}

impl State {
    /// The transport is set up. `public` is the public half of the key, where the
    /// key can be read.
    pub fn on_setup(&mut self, setup: NostrSetup, public: Option<[u8; 32]>) -> (events: Vec<
        TransportEvent,
    >)
        requires
            old(self).wf(),
            old(self).uses + MAX_OWN_LINKS <= u64::MAX,
        ensures
            final(self).wf(),
            final(self).uses == uses_reopened(*final(self), old(self).uses),
            configured(*old(self), setup, public, *final(self)),
            final(self).enabled == old(self).enabled,
            final(self).links.rows() == reopened(*final(self), old(self).uses),
            final(self).alive.rows().len() == 0,
            !final(self).ready,
            settled(seq![], old(self).ready, events@),
            same_books(*final(self), *old(self)),
    {
        match (setup, public) {
            (NostrSetup::On { secret, relays, via_tor, since }, Some(public)) => {
                self.key = Some(Keys { public, secret });
                self.relays = relays;
                self.via_tor = via_tor;
                if self.since < since {
                    self.since = since;
                }
                self.since_told = self.since;
            },
            _ => {
                self.key = None;
                self.relays = Vec::new();
            },
        }
        self.raise_links();
        assert(self.alive.rows() =~= seq![]);
        self.settle()
    }

    /// The transport is switched. Switched off it is gone without a word; the
    /// links are opened anew when it is switched on.
    pub fn on_enabled(&mut self, on: bool) -> (events: Vec<TransportEvent>)
        requires
            old(self).wf(),
            old(self).uses + MAX_OWN_LINKS <= u64::MAX,
        ensures
            final(self).wf(),
            final(self).uses == uses_reopened(*final(self), old(self).uses),
            final(self).enabled == on,
            final(self).links.rows() == reopened(*final(self), old(self).uses),
            final(self).alive.rows().len() == 0,
            !final(self).ready,
            settled(seq![], on && old(self).ready, events@),
            same_books(*final(self), *old(self)),
            final(self).key == old(self).key,
            final(self).relays == old(self).relays,
            final(self).via_tor == old(self).via_tor,
            final(self).since == old(self).since,
            final(self).since_told == old(self).since_told,
    {
        self.enabled = on;
        if on {
            self.raise_links();
        } else {
            self.drop_links();
            self.ready = false;
            assert(self.links.rows() =~= seq![]);
        }
        assert(self.alive.rows() =~= seq![]);
        self.settle()
    }

    /// The network is another one: the links are opened anew.
    pub fn on_network_changed(&mut self) -> (events: Vec<TransportEvent>)
        requires
            old(self).wf(),
            old(self).uses + MAX_OWN_LINKS <= u64::MAX,
        ensures
            final(self).wf(),
            final(self).uses == uses_reopened(*old(self), old(self).uses),
            final(self).links.rows() == reopened(*old(self), old(self).uses),
            final(self).alive.rows().len() == 0,
            !final(self).ready,
            settled(seq![], old(self).ready, events@),
            *final(self) == (State {
                links: final(self).links,
                alive: final(self).alive,
                uses: final(self).uses,
                ready: false,
                ..*old(self)
            }),
    {
        self.raise_links();
        assert(self.alive.rows() =~= seq![]);
        self.settle()
    }

    /// What a job comes to. `public` is the public half of the key in a setup.
    pub fn on_job(&mut self, job: Job, public: Option<[u8; 32]>) -> (r: JobStep)
        requires
            old(self).wf(),
            old(self).uses + MAX_OWN_LINKS <= u64::MAX,
        ensures
            final(self).wf(),
            !(job is Send) ==> final(self).uses == uses_reopened(*final(self), old(self).uses),
            same_books(*final(self), *old(self)),
            job matches Job::Send { peer_ik, to, relays, frame, handoff } ==> r == (
            JobStep::Send { peer_ik, to, relays, frame, handoff }) && *final(self) == *old(self),
            job matches Job::Setup(setup) ==> (r matches JobStep::Said(events) && {
                &&& configured(*old(self), setup, public, *final(self))
                &&& final(self).enabled == old(self).enabled
                &&& final(self).links.rows() == reopened(*final(self), old(self).uses)
                &&& final(self).alive.rows().len() == 0
                &&& !final(self).ready
                &&& settled(seq![], old(self).ready, events@)
            }),
            job matches Job::Enabled(on) ==> (r matches JobStep::Said(events) && {
                &&& final(self).enabled == on
                &&& final(self).links.rows() == reopened(*final(self), old(self).uses)
                &&& final(self).alive.rows().len() == 0
                &&& !final(self).ready
                &&& settled(seq![], on && old(self).ready, events@)
                &&& final(self).key == old(self).key
                &&& final(self).relays == old(self).relays
                &&& final(self).via_tor == old(self).via_tor
                &&& final(self).since == old(self).since
                &&& final(self).since_told == old(self).since_told
            }),
            job is NetworkChanged ==> (r matches JobStep::Said(events) && {
                &&& final(self).links.rows() == reopened(*old(self), old(self).uses)
                &&& final(self).alive.rows().len() == 0
                &&& !final(self).ready
                &&& settled(seq![], old(self).ready, events@)
                &&& final(self).key == old(self).key
                &&& final(self).enabled == old(self).enabled
                &&& final(self).relays == old(self).relays
                &&& final(self).via_tor == old(self).via_tor
                &&& final(self).since == old(self).since
                &&& final(self).since_told == old(self).since_told
            }),
    {
        match job {
            Job::Setup(setup) => JobStep::Said(self.on_setup(setup, public)),
            Job::Enabled(on) => JobStep::Said(self.on_enabled(on)),
            Job::NetworkChanged => JobStep::Said(self.on_network_changed()),
            Job::Send { peer_ik, to, relays, frame, handoff } => JobStep::Send {
                peer_ik,
                to,
                relays,
                frame,
                handoff,
            },
        }
    }

    /// What is known of one of our relays, and what that comes to.
    fn on_relay(&mut self, relay: NostrRelay) -> (events: Vec<TransportEvent>)
        requires
            old(self).wf(),
        ensures
            final(self).wf(),
            final(self).alive.rows() == sorted::put::<String, NostrRelay>(
                old(self).alive.rows(),
                relay.url@,
                relay,
            ),
            settled(final(self).alive.rows(), old(self).ready, events@),
            *final(self) == (State {
                alive: final(self).alive,
                ready: any_up(final(self).alive.rows()),
                ..*old(self)
            }),
    {
        self.alive.insert(relay.url.clone(), relay);
        self.settle()
    }

    /// The time read up to grows, and is told once it has grown enough.
    pub fn on_seen(&mut self, created_at: u64) -> (r: Option<TransportEvent>)
        requires
            old(self).wf(),
        ensures
            final(self).wf(),
            final(self).since == later(old(self).since, created_at),
            r == since_news(*old(self), created_at),
            final(self).since_told == if r is Some {
                created_at
            } else {
                old(self).since_told
            },
            *final(self) == (State {
                since: final(self).since,
                since_told: final(self).since_told,
                ..*old(self)
            }),
    {
        if created_at <= self.since {
            return None;
        }
        self.since = created_at;
        if self.since >= self.since_told.saturating_add(SINCE_REPORT_STEP) {
            self.since_told = self.since;
            return Some(TransportEvent::NostrSince { created_at: self.since });
        }
        None
    }

    /// What a note comes to. Relays of other people change nothing that is said
    /// of ours.
    pub fn on_note(&mut self, note: Note) -> (events: Vec<TransportEvent>)
        requires
            old(self).wf(),
        ensures
            final(self).wf(),
            note matches Note::Up { url, own } ==> if own {
                &&& exists|relay: NostrRelay|
                    {
                        &&& relay.url == url && relay.up && relay.note@.len() == 0
                        &&& final(self).alive.rows() == #[trigger] sorted::put::<
                            String,
                            NostrRelay,
                        >(old(self).alive.rows(), url@, relay)
                    }
                &&& settled(final(self).alive.rows(), old(self).ready, events@)
                &&& *final(self) == (State {
                    alive: final(self).alive,
                    ready: any_up(final(self).alive.rows()),
                    ..*old(self)
                })
            } else {
                events@.len() == 0 && *final(self) == *old(self)
            },
            note matches Note::Down { url, note, own } ==> if own {
                &&& final(self).alive.rows() == sorted::put::<String, NostrRelay>(
                    old(self).alive.rows(),
                    url@,
                    NostrRelay { url, up: false, note },
                )
                &&& settled(final(self).alive.rows(), old(self).ready, events@)
                &&& *final(self) == (State {
                    alive: final(self).alive,
                    ready: any_up(final(self).alive.rows()),
                    ..*old(self)
                })
            } else {
                events@.len() == 0 && *final(self) == *old(self)
            },
            note matches Note::Event { frame } ==> *final(self) == *old(self) && events@ == match frame {
                Some(frame) => seq![
                    TransportEvent::Received {
                        via: Transport::Nostr,
                        peer_hint: None,
                        link: None,
                        frame,
                    },
                ],
                None => seq![],
            },
            note matches Note::Seen { created_at } ==> events@ == at_most_one(
                since_news(*old(self), created_at),
            ) && *final(self) == (State {
                since: later(old(self).since, created_at),
                since_told: if since_news(*old(self), created_at) is Some {
                    created_at
                } else {
                    old(self).since_told
                },
                ..*old(self)
            }),
            note matches Note::Accepted { id, ok } ==> answered(
                *old(self),
                id@,
                ok,
                *final(self),
                events@,
            ),
    {
        match note {
            Note::Up { url, own } => {
                if !own {
                    return Vec::new();
                }
                let relay = NostrRelay { url, up: true, note: String::new() };
                self.on_relay(relay)
            },
            Note::Down { url, note, own } => {
                if !own {
                    return Vec::new();
                }
                self.on_relay(NostrRelay { url, up: false, note })
            },
            Note::Event { frame } => {
                let mut events: Vec<TransportEvent> = Vec::new();
                if let Some(frame) = frame {
                    events.push(
                        TransportEvent::Received {
                            via: Transport::Nostr,
                            peer_hint: None,
                            link: None,
                            frame,
                        },
                    );
                }
                events
            },
            Note::Seen { created_at } => {
                let mut events: Vec<TransportEvent> = Vec::new();
                if let Some(event) = self.on_seen(created_at) {
                    events.push(event);
                }
                events
            },
            Note::Accepted { id, ok } => {
                let mut events: Vec<TransportEvent> = Vec::new();
                if let Some(event) = self.answer(&id, ok) {
                    events.push(event);
                }
                events
            },
        }
    }

    /// A frame is to be carried: it is numbered, and marked with bytes that were
    /// drawn for it, unless there is no key that signs, it has more parts than can
    /// be numbered, or no bytes could be drawn. A number is never given twice, also
    /// not where the frame does not leave after all.
    pub fn ticket(&mut self, parts: usize, signs: bool, uid: Option<[u8; 16]>) -> (r: Option<
        Ticket,
    >)
        requires
            old(self).wf(),
            old(self).next_token < u64::MAX,
        ensures
            final(self).wf(),
            ticketed(*old(self), parts as nat, signs, uid, *final(self), r),
            r matches Some(ticket) ==> !final(self).outgoing@.contains_key(ticket.token)
                && flying_count(final(self).flying.rows(), ticket.token) == 0,
    {
        if self.key.is_none() || !signs || parts > u16::MAX as usize {
            return None;
        }
        let uid = match uid {
            Some(uid) => uid,
            None => {
                return None;
            },
        };
        let token: u64 = self.next_token;
        self.next_token = token + 1;
        proof {
            lemma_unused_token(self.flying.rows(), token);
        }
        Some(Ticket { token, total: parts as u16, uid })
    }

    /// A frame is to be carried: it gets a ticket, marked by chance and by nothing
    /// else.
    pub fn begin_send(&mut self, parts: usize, signs: bool) -> (r: Option<Ticket>)
        requires
            old(self).wf(),
            old(self).next_token < u64::MAX,
        ensures
            final(self).wf(),
            exists|uid: Option<[u8; 16]>| #[trigger]
                ticketed(*old(self), parts as nat, signs, uid, *final(self), r),
            r is Some ==> old(self).key is Some && signs && parts <= u16::MAX,
            r matches Some(ticket) ==> ticket.token == old(self).next_token && ticket.total == parts
                && *final(self) == (State {
                next_token: (old(self).next_token + 1) as u64,
                ..*old(self)
            }) && !final(self).outgoing@.contains_key(ticket.token) && flying_count(
                final(self).flying.rows(),
                ticket.token,
            ) == 0,
            r is None ==> *final(self) == *old(self),
    {
        let uid = encoding::random_bytes::<16>();
        self.ticket(parts, signs, uid)
    }

    /// The parts of a frame were offered to relays: `offers` says of each, up to
    /// the first that nobody took, which of the relays took it. The frame counts
    /// as on its way where every part is, and else not at all.
    pub fn finish_send(
        &mut self,
        token: u64,
        peer_ik: [u8; 32],
        handoff: Option<u64>,
        ids: &Vec<String>,
        senders: usize,
        offers: &Vec<Vec<bool>>,
    ) -> (r: Option<TransportEvent>)
        requires
            old(self).wf(),
            token < old(self).next_token,
            !old(self).outgoing@.contains_key(token),
            flying_count(old(self).flying.rows(), token) == 0,
        ensures
            final(self).wf(),
            r is None <==> senders > 0 && all_taken(offers@, ids@.len()),
            r matches Some(e) ==> e == (TransportEvent::ConnectFailed {
                peer_ik,
                via: Transport::Nostr,
            }) && *final(self) == *old(self),
            r is None ==> final(self).flying.rows() == launched(
                old(self).flying.rows(),
                texts(ids@),
                token,
                senders,
                ids@.len(),
            ) && final(self).outgoing@ == old(self).outgoing@.insert(
                token,
                Outgoing { peer_ik, handoff, waiting: ids@.len() as usize },
            ),
            *final(self) == (State {
                flying: final(self).flying,
                outgoing: final(self).outgoing,
                ..*old(self)
            }),
    {
        if senders == 0 || offers.len() != ids.len() {
            return Some(refuse(peer_ik));
        }
        let mut i: usize = 0;
        while i < offers.len()
            invariant
                self.wf(),
                *self == *old(self),
                i <= offers@.len(),
                forall|k: int| 0 <= k < i ==> part_taken(#[trigger] offers@[k]@),
            decreases offers@.len() - i,
        {
            if !goes_on(&offers[i]) {
                return Some(refuse(peer_ik));
            }
            i = i + 1;
        }
        let ghost flying = self.flying.rows();
        let ghost names = texts(ids@);
        let mut j: usize = 0;
        while j < ids.len()
            invariant
                j <= ids@.len(),
                names == texts(ids@),
                self.flying.wf(),
                self.flying.rows() == launched(flying, names, token, senders, j as nat),
                *self == (State { flying: self.flying, ..*old(self) }),
            decreases ids@.len() - j,
        {
            assert(names[j as int] == ids@[j as int]@);
            let _ = self.flying.insert(
                ids[j].clone(),
                Flying { token, answers: 0, relays: senders },
            );
            j = j + 1;
        }
        let _ = self.outgoing.insert(token, Outgoing { peer_ik, handoff, waiting: ids.len() });
        proof {
            lemma_launched(
                flying,
                names,
                token,
                senders,
                ids@.len(),
                self.next_token,
            );
        }
        None
    }
}

/// No part of a frame is on its way under a number that no part has.
proof fn lemma_unused_token(flying: Seq<(Seq<char>, Flying)>, token: u64)
    requires
        forall|i: int| 0 <= i < flying.len() ==> (#[trigger] flying[i]).1.token < token,
    ensures
        flying_count(flying, token) == 0,
    decreases flying.len(),
{
    if flying.len() > 0 {
        let fewer = flying.drop_last();
        assert forall|i: int| 0 <= i < fewer.len() implies (#[trigger] fewer[i]).1.token
            < token by {
            assert(fewer[i] == flying[i]);
        }
        lemma_unused_token(fewer, token);
    }
}

/// What the answer of a relay on a part comes to. A part taken is off the list;
/// with the last of them the frame is handed over, once. A part that every relay
/// refused ends the frame: its other parts are off the list too, and the failure
/// is told, once.
pub open spec fn answered(
    before: State,
    id: Seq<char>,
    ok: bool,
    now: State,
    events: Seq<TransportEvent>,
) -> bool {
    let flying = before.flying.rows();
    let outgoing = before.outgoing@;
    let rest = now == (State { flying: now.flying, outgoing: now.outgoing, ..before });
    if !table::holds(flying, id) {
        now == before && events == Seq::<TransportEvent>::empty()
    } else {
        let part = table::at(flying, id);
        let known = outgoing.contains_key(part.token);
        let frame = outgoing[part.token];
        if ok {
            &&& rest
            &&& now.flying.rows() == table::without(flying, id)
            &&& if !known {
                now.outgoing@ == outgoing && events == Seq::<TransportEvent>::empty()
            } else if frame.waiting > 1 {
                &&& now.outgoing@ == outgoing.insert(
                    part.token,
                    Outgoing { waiting: (frame.waiting - 1) as usize, ..frame },
                )
                &&& events == Seq::<TransportEvent>::empty()
            } else {
                &&& now.outgoing@ == outgoing.remove(part.token)
                &&& events == match frame.handoff {
                    Some(handoff) => seq![
                        TransportEvent::Handed {
                            peer_ik: frame.peer_ik,
                            via: Transport::Nostr,
                            handoff,
                        },
                    ],
                    None => seq![],
                }
            }
        } else if part.answers + 1 < part.relays {
            &&& rest
            &&& now.flying.rows() == table::put(
                flying,
                id,
                Flying { answers: (part.answers + 1) as usize, ..part },
            )
            &&& now.outgoing@ == outgoing
            &&& events == Seq::<TransportEvent>::empty()
        } else if known {
            &&& rest
            &&& now.flying.rows() == without_token(table::without(flying, id), part.token)
            &&& now.outgoing@ == outgoing.remove(part.token)
            &&& events == seq![
                TransportEvent::ConnectFailed { peer_ik: frame.peer_ik, via: Transport::Nostr },
            ]
        } else {
            &&& rest
            &&& now.flying.rows() == table::without(flying, id)
            &&& now.outgoing@ == outgoing
            &&& events == Seq::<TransportEvent>::empty()
        }
    }
}

/// What is left of two lists is what is left of each.
proof fn lemma_without_token_concat(
    a: Seq<(Seq<char>, Flying)>,
    b: Seq<(Seq<char>, Flying)>,
    token: u64,
)
    ensures
        without_token(a + b, token) == without_token(a, token) + without_token(b, token),
    decreases b.len(),
{
    if b.len() == 0 {
        assert(a + b =~= a);
        assert(without_token(a, token) + without_token(b, token) =~= without_token(a, token));
    } else {
        lemma_without_token_concat(a, b.drop_last(), token);
        assert((a + b).drop_last() =~= a + b.drop_last());
        assert((a + b).last() == b.last());
        assert(without_token(a + b, token) =~= without_token(a, token) + without_token(b, token));
    }
}

impl State {
    /// Takes the parts of a frame off the list.
    fn ground(&mut self, token: u64)
        requires
            old(self).flying.wf(),
        ensures
            final(self).flying.wf(),
            final(self).flying.rows() == without_token(old(self).flying.rows(), token),
            *final(self) == (State { flying: final(self).flying, ..*old(self) }),
    {
        let ghost all = self.flying.rows();
        let mut i: usize = self.flying.len();
        assert(all.subrange(0, i as int) =~= all);
        assert(all.subrange(i as int, i as int) =~= seq![]);
        assert(self.flying.rows() =~= all.subrange(0, i as int) + without_token(
            all.subrange(i as int, all.len() as int),
            token,
        ));
        while i > 0
            invariant
                i <= all.len(),
                self.flying.wf(),
                self.flying.rows() == all.subrange(0, i as int) + without_token(
                    all.subrange(i as int, all.len() as int),
                    token,
                ),
                *self == (State { flying: self.flying, ..*old(self) }),
            decreases i,
        {
            let ghost behind = all.subrange(i as int, all.len() as int);
            let ghost now = self.flying.rows();
            i = i - 1;
            proof {
                let one = seq![all[i as int]];
                lemma_without_token_concat(one, behind, token);
                assert(one + behind =~= all.subrange(i as int, all.len() as int));
                assert(one.drop_last() =~= seq![]);
                assert(without_token(one.drop_last(), token) =~= seq![]);
                assert(now[i as int] == all[i as int]);
            }
            if self.flying.value_at(i).token == token {
                let _ = self.flying.remove_at(i);
                assert(self.flying.rows() =~= all.subrange(0, i as int) + without_token(
                    all.subrange(i as int, all.len() as int),
                    token,
                ));
            } else {
                assert(self.flying.rows() =~= all.subrange(0, i as int) + without_token(
                    all.subrange(i as int, all.len() as int),
                    token,
                ));
            }
        }
        assert(all.subrange(0, all.len() as int) =~= all);
        assert(self.flying.rows() =~= without_token(all, token));
    }

    /// A relay answered on a part.
    pub fn answer(&mut self, id: &String, ok: bool) -> (r: Option<TransportEvent>)
        requires
            old(self).wf(),
        ensures
            final(self).wf(),
            answered(*old(self), id@, ok, *final(self), at_most_one(r)),
    {
        let ghost flying = self.flying.rows();
        let part = match self.flying.get(id) {
            Some(part) => *part,
            None => {
                return None;
            },
        };
        let token: u64 = part.token;
        proof {
            table::lemma_index_of(flying, id@);
            table::lemma_without(flying, id@);
            lemma_answer_keeps(*self, id@);
        }
        if ok {
            let _ = self.flying.remove(id);
            let frame = match self.outgoing.get(&token) {
                Some(frame) => *frame,
                None => {
                    return None;
                },
            };
            if frame.waiting > 1 {
                let less = Outgoing {
                    peer_ik: frame.peer_ik,
                    handoff: frame.handoff,
                    waiting: frame.waiting - 1,
                };
                let _ = self.outgoing.insert(token, less);
                return None;
            }
            let _ = self.outgoing.remove(&token);
            return match frame.handoff {
                Some(handoff) => Some(
                    TransportEvent::Handed {
                        peer_ik: frame.peer_ik,
                        via: Transport::Nostr,
                        handoff,
                    },
                ),
                None => None,
            };
        }
        if part.answers + 1 < part.relays {
            let more = Flying { token, answers: part.answers + 1, relays: part.relays };
            proof {
                table::lemma_put(flying, id@, more);
                let i = table::index_of(flying, id@)->0;
                assert forall|t: u64| #[trigger] flying_count(
                    table::put(flying, id@, more),
                    t,
                ) == flying_count(flying, t) by {
                    lemma_flying_update(flying, i, (id@, more), t);
                }
            }
            let _ = self.flying.insert(id.clone(), more);
            return None;
        }
        let _ = self.flying.remove(id);
        match self.outgoing.remove(&token) {
            Some(frame) => {
                proof {
                    let left = table::without(flying, id@);
                    assert forall|t: u64| t != token implies #[trigger] flying_count(
                        without_token(left, token),
                        t,
                    ) == flying_count(left, t) by {
                        lemma_without_token(left, token, t);
                    }
                    lemma_without_token(left, token, token);
                }
                self.ground(token);
                Some(refuse(frame.peer_ik))
            },
            None => {
                assert(self.outgoing@ =~= old(self).outgoing@);
                None
            },
        }
    }
}

/// A part taken off the list leaves what holds of the list, and one part less of
/// its frame on its way.
proof fn lemma_answer_keeps(state: State, id: Seq<char>)
    requires
        state.wf(),
        table::holds(state.flying.rows(), id),
    ensures
        forall|t: u64|
            #![trigger flying_count(table::without(state.flying.rows(), id), t)]
            flying_count(table::without(state.flying.rows(), id), t) == flying_count(
                state.flying.rows(),
                t,
            ) - if table::at(state.flying.rows(), id).token == t {
                1int
            } else {
                0int
            },
        forall|i: int|
            0 <= i < table::without(state.flying.rows(), id).len() ==> (#[trigger] table::without(
                state.flying.rows(),
                id,
            )[i]).1.token < state.next_token && table::without(state.flying.rows(), id)[i].1.answers
                < table::without(state.flying.rows(), id)[i].1.relays,
{
    let flying = state.flying.rows();
    table::lemma_index_of(flying, id);
    let i = table::index_of(flying, id)->0;
    assert forall|t: u64| #[trigger]
        flying_count(table::without(flying, id), t) == flying_count(flying, t) - if table::at(
            flying,
            id,
        ).token == t {
            1int
        } else {
            0int
        } by {
        lemma_flying_remove(flying, i, t);
    }
    let now = flying.remove(i);
    assert forall|j: int| 0 <= j < now.len() implies (#[trigger] now[j]).1.token < state.next_token
        && now[j].1.answers < now[j].1.relays by {
        let j2 = if j < i {
            j
        } else {
            j + 1
        };
        assert(now[j] == flying[j2]);
    }
}

/// The events of one that may be.
pub open spec fn at_most_one(event: Option<TransportEvent>) -> Seq<TransportEvent> {
    match event {
        Some(e) => seq![e],
        None => seq![],
    }
}

/// Asking for a link never costs one of our own: it stands as it was, but for
/// when it was last used.
pub proof fn lemma_own_link_stays(
    links: Links,
    uses: u64,
    how: Opening,
    url: Seq<char>,
    usable: bool,
    mine: Seq<char>,
)
    requires
        links_ok(links, uses),
        uses < u64::MAX,
        table::holds(links, mine),
        table::at(links, mine).own,
    ensures
        table::holds(ensured(links, uses as int, how, url, usable).0, mine),
        table::at(ensured(links, uses as int, how, url, usable).0, mine).own,
        table::at(ensured(links, uses as int, how, url, usable).0, mine).id == table::at(
            links,
            mine,
        ).id,
{
    let used = (uses + 1) as u64;
    if table::holds(links, url) {
        table::lemma_put(links, url, Link { used, ..table::at(links, url) });
    } else if how.open && usable {
        let fresh = Link { id: used, own: false, used, since: how.since, via_tor: how.via_tor };
        if peer_count(links) >= MAX_PEER_LINKS {
            lemma_oldest_peer(links);
            let i = oldest_peer(links)->0;
            table::lemma_index_is(links, links[i].0, i);
            table::lemma_without(links, links[i].0);
            table::lemma_index_of(links, mine);
            assert(links[i].0 != mine);
            let room = evicted(links);
            assert(room == table::without(links, links[i].0));
            table::lemma_put(room, url, fresh);
        } else {
            table::lemma_put(links, url, fresh);
        }
    }
}

/// However many relays a peer names, there are never too many links, and our own
/// all stand.
pub proof fn lemma_own_links_stay(
    links: Links,
    uses: u64,
    how: Opening,
    urls: Seq<Seq<char>>,
    usable: Seq<bool>,
    n: nat,
    mine: Seq<char>,
)
    requires
        links_ok(links, uses),
        uses + n <= u64::MAX,
        table::holds(links, mine),
        table::at(links, mine).own,
    ensures
        uses <= named(links, uses as int, how, urls, usable, n).1 <= uses + n,
        links_ok(
            named(links, uses as int, how, urls, usable, n).0,
            named(links, uses as int, how, urls, usable, n).1 as u64,
        ),
        table::holds(named(links, uses as int, how, urls, usable, n).0, mine),
        table::at(named(links, uses as int, how, urls, usable, n).0, mine).own,
        table::at(named(links, uses as int, how, urls, usable, n).0, mine).id == table::at(
            links,
            mine,
        ).id,
    decreases n,
{
    if n > 0 {
        lemma_own_links_stay(links, uses, how, urls, usable, (n - 1) as nat, mine);
        let before = named(links, uses as int, how, urls, usable, (n - 1) as nat);
        if !before.2.contains(urls[n - 1]) {
            lemma_ensured_ok(before.0, before.1 as u64, how, urls[n - 1], usable[n - 1]);
            lemma_own_link_stays(
                before.0,
                before.1 as u64,
                how,
                urls[n - 1],
                usable[n - 1],
                mine,
            );
        }
    }
}

/// A relay that is named twice is asked for once.
pub proof fn lemma_named_once(
    links: Links,
    uses: int,
    how: Opening,
    urls: Seq<Seq<char>>,
    usable: Seq<bool>,
    n: nat,
)
    ensures
        forall|i: int, j: int|
            0 <= i < j < named(links, uses, how, urls, usable, n).2.len() ==> named(
                links,
                uses,
                how,
                urls,
                usable,
                n,
            ).2[i] != named(links, uses, how, urls, usable, n).2[j],
    decreases n,
{
    if n > 0 {
        lemma_named_once(links, uses, how, urls, usable, (n - 1) as nat);
        let before = named(links, uses, how, urls, usable, (n - 1) as nat).2;
        let url = urls[n - 1];
        if !before.contains(url) {
            assert forall|i: int| 0 <= i < before.len() implies before[i] != url by {
                if before[i] == url {
                    assert(before.contains(url));
                }
            }
        }
    }
}

/// A list of relays none of which is of use leads nowhere: it is not replaced by
/// our own.
pub proof fn lemma_useless_list_leads_nowhere(
    links: Links,
    uses: int,
    how: Opening,
    urls: Seq<Seq<char>>,
    usable: Seq<bool>,
    n: nat,
)
    requires
        n <= urls.len(),
        n <= usable.len(),
        forall|i: int| 0 <= i < n ==> !(#[trigger] usable[i]),
        forall|i: int| 0 <= i < n ==> !table::holds(links, #[trigger] urls[i]),
    ensures
        named(links, uses, how, urls, usable, n).0 == links,
        named(links, uses, how, urls, usable, n).2.len() == 0,
        ids_of(links, named(links, uses, how, urls, usable, n).2) == Seq::<u64>::empty(),
    decreases n,
{
    if n > 0 {
        lemma_useless_list_leads_nowhere(links, uses, how, urls, usable, (n - 1) as nat);
        assert(!table::holds(links, urls[n - 1]));
    }
}

/// A frame is spoken of once: once it was said to be handed over, or to have
/// failed, nothing of it is on its way and nobody waits for it.
pub proof fn lemma_frame_is_told_once(
    before: State,
    id: Seq<char>,
    ok: bool,
    now: State,
    events: Seq<TransportEvent>,
)
    requires
        before.wf(),
        answered(before, id, ok, now, events),
        events.len() > 0,
    ensures
        events.len() == 1,
        table::holds(before.flying.rows(), id),
        !now.outgoing@.contains_key(table::at(before.flying.rows(), id).token),
        flying_count(now.flying.rows(), table::at(before.flying.rows(), id).token) == 0,
{
    let flying = before.flying.rows();
    let outgoing = before.outgoing@;
    let part = table::at(flying, id);
    table::lemma_index_of(flying, id);
    lemma_answer_keeps(before, id);
    let left = table::without(flying, id);
    assert(flying_count(left, part.token) == flying_count(flying, part.token) - 1);
    assert(outgoing[part.token].waiting >= flying_count(flying, part.token));
    lemma_without_token(left, part.token, part.token);
}

} // verus!
