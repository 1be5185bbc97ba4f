//! The local network: who was heard, where they are, which links there are, and
//! what a command does to all that.

use crate::encoding;
use crate::runner::{Transport, TransportCommand, TransportError, TransportEvent};
use crate::sorted;
use crate::sorted::SortedTable;
use crate::table;
use crate::text;
use vstd::prelude::*;
use vstd::string::*;

verus! {

broadcast use vstd::string::group_string_axioms;

/// The service that is announced.
pub const SERVICE_TYPE: &'static str = "_ratatosk._tcp";

/// The service with its domain.
pub const SERVICE_DOMAIN: &'static str = "_ratatosk._tcp.local.";

/// Under which key the beacon is announced.
pub const BEACON_TXT_KEY: &'static str = "b";

/// How many beacons that matched nobody are kept.
pub const HEARD_CAPACITY: usize = 64;

/// How the local network is used.
#[derive(Debug, Clone, Copy, PartialEq, Eq)]
pub struct LanConfig {
    pub enabled: bool,
    pub port: u16,
    pub discovery: bool,
}

impl Default for LanConfig {
    /// Off, on any port, announced once it is on.
    fn default() -> (c: LanConfig)
        ensures
            !c.enabled,
            c.port == 0,
            c.discovery,
    {
        LanConfig { enabled: false, port: 0, discovery: true }
    }
}

/// An address of the Internet protocol.
#[derive(Debug, Clone, Copy, PartialEq, Eq, Structural)]
pub enum Ip {
    V4(u32),
    V6(u128),
}

/// Where somebody listens.
#[derive(Debug, Clone, Copy, PartialEq, Eq, Structural)]
pub struct Addr {
    pub ip: Ip,
    pub port: u16,
}

/// A beacon that was heard, and from where.
#[derive(Debug, Clone, Copy, PartialEq, Eq)]
pub struct Heard {
    pub record: [u8; 16],
    pub addr: Addr,
}

/// What to do about the announcement.
#[derive(Debug, Clone, Copy, PartialEq, Eq, Structural)]
pub enum Announce {
    /// Leave it.
    Leave,
    /// Start to announce.
    Start,
    /// Stop announcing.
    Stop,
    /// Stop, and start anew.
    Restart,
}

/// The link to use for a peer.
#[derive(Debug, Clone, Copy, PartialEq, Eq, Structural)]
pub enum LinkUse {
    /// One that stands.
    Live(u64),
    /// A new one, to be dialed.
    Dial { link: u64, addr: Addr },
}

/// What a command comes to.
#[derive(Debug, PartialEq, Eq)]
pub enum LanStep {
    /// This is the answer.
    Answer(Result<(), TransportError>),
    /// Nobody knows where the peer is: say so, and answer so.
    Report { event: TransportEvent, error: TransportError },
    /// Put the frame on the link, and tell what became of it.
    Carry { link: LinkUse, frame: Vec<u8> },
    /// Open the link.
    Open(LinkUse),
    /// See to the announcement.
    Announce(Announce),
    /// Tell of the closed links, and see to the announcement.
    Restarted { events: Vec<TransportEvent>, announce: Announce },
    /// Look out for these peers.
    Watch(Vec<[u8; 32]>),
}

/// Where the peers are.
pub struct LanDirectory {
    pub addresses: SortedTable<[u8; 32], Addr>,
}

impl LanDirectory {
    /// The addresses, by peer.
    pub open spec fn rows(&self) -> Seq<(Seq<u8>, Addr)> {
        self.addresses.rows()
    }

    /// The addresses are in order.
    pub open spec fn wf(&self) -> bool {
        self.addresses.wf()
    }

    /// Notes where a peer is, and tells so.
    pub fn note(&mut self, peer_ik: [u8; 32], addr: Addr) -> (event: TransportEvent)
        requires
            old(self).wf(),
        ensures
            final(self).wf(),
            final(self).rows() == sorted::put::<[u8; 32], Addr>(old(self).rows(), peer_ik@, addr),
            event == (TransportEvent::SeenOnLan { peer_ik }),
    {
        self.addresses.insert(peer_ik, addr);
        TransportEvent::SeenOnLan { peer_ik }
    }

    /// Where a peer is, as far as we know.
    #[must_use]
    pub fn get(&self, peer_ik: &[u8; 32]) -> (r: Option<Addr>)
        requires
            self.wf(),
        ensures
            r is Some == table::holds(self.rows(), peer_ik@),
            r matches Some(addr) ==> addr == table::at(self.rows(), peer_ik@),
    {
        match self.addresses.get(peer_ik) {
            Some(addr) => Some(*addr),
            None => None,
        }
    }
}

/// The local network as we know it.
pub struct LanRunner {
    pub enabled: bool,
    pub discovery_wanted: bool,
    pub port: u16,
    pub directory: LanDirectory,
    pub heard: Vec<Heard>,
    pub watched: Vec<[u8; 32]>,
    pub links: SortedTable<[u8; 32], u64>,
    pub next_link: u64,
}

/// The beacons without the one with this record, in order.
pub open spec fn without_record(heard: Seq<Heard>, record: Seq<u8>) -> Seq<Heard>
    decreases heard.len(),
{
    if heard.len() == 0 {
        seq![]
    } else if heard.last().record@ == record {
        without_record(heard.drop_last(), record)
    } else {
        without_record(heard.drop_last(), record).push(heard.last())
    }
}

/// The beacons that did not come from this address, in order.
pub open spec fn without_addr(heard: Seq<Heard>, addr: Addr) -> Seq<Heard>
    decreases heard.len(),
{
    if heard.len() == 0 {
        seq![]
    } else if heard.last().addr == addr {
        without_addr(heard.drop_last(), addr)
    } else {
        without_addr(heard.drop_last(), addr).push(heard.last())
    }
}

/// The beacons after one more: once each, the newest last, the oldest gone where
/// there are too many.
pub open spec fn remembered(heard: Seq<Heard>, record: [u8; 16], addr: Addr) -> Seq<Heard> {
    let all = without_record(heard, record@).push(Heard { record, addr });
    if all.len() > HEARD_CAPACITY {
        all.subrange(1, all.len() as int)
    } else {
        all
    }
}

/// What `without_record` leaves is no more than there was, and none with the record.
proof fn lemma_without_record(heard: Seq<Heard>, record: Seq<u8>)
    ensures
        without_record(heard, record).len() <= heard.len(),
        forall|i: int|
            0 <= i < without_record(heard, record).len() ==> (#[trigger] without_record(
                heard,
                record,
            )[i]).record@ != record,
    decreases heard.len(),
{
    if heard.len() > 0 {
        lemma_without_record(heard.drop_last(), record);
    }
}

/// What `without_addr` leaves is no more than there was, and none from the address.
proof fn lemma_without_addr(heard: Seq<Heard>, addr: Addr)
    ensures
        without_addr(heard, addr).len() <= heard.len(),
        forall|i: int|
            0 <= i < without_addr(heard, addr).len() ==> (#[trigger] without_addr(
                heard,
                addr,
            )[i]).addr != addr,
    decreases heard.len(),
{
    if heard.len() > 0 {
        lemma_without_addr(heard.drop_last(), addr);
    }
}

/// Whether two records are the same.
fn same_record(a: &[u8; 16], b: &[u8; 16]) -> (r: bool)
    ensures
        r == (a@ == b@),
{
    let mut i: usize = 0;
    while i < 16
        invariant
            i <= 16,
            forall|k: int| 0 <= k < i ==> a@[k] == b@[k],
        decreases 16 - i,
    {
        if a[i] != b[i] {
            return false;
        }
        i = i + 1;
    }
    assert(a@ =~= b@);
    true
}

/// The addresses after notes on the peers that one beacon matched.
pub open spec fn noted_row(
    rows: Seq<(Seq<u8>, Addr)>,
    addr: Addr,
    peers: Seq<[u8; 32]>,
    hits: Seq<bool>,
    n: nat,
) -> Seq<(Seq<u8>, Addr)>
    decreases n,
{
    if n == 0 {
        rows
    } else {
        let before = noted_row(rows, addr, peers, hits, (n - 1) as nat);
        if hits[n - 1] {
            sorted::put::<[u8; 32], Addr>(before, peers[n - 1]@, addr)
        } else {
            before
        }
    }
}

/// The addresses after notes on the peers that the first `n` beacons matched.
pub open spec fn noted_all(
    rows: Seq<(Seq<u8>, Addr)>,
    heard: Seq<Heard>,
    peers: Seq<[u8; 32]>,
    hits: Seq<Vec<bool>>,
    n: nat,
) -> Seq<(Seq<u8>, Addr)>
    decreases n,
{
    if n == 0 {
        rows
    } else {
        noted_row(
            noted_all(rows, heard, peers, hits, (n - 1) as nat),
            heard[n - 1].addr,
            peers,
            hits[n - 1]@,
            peers.len(),
        )
    }
}

/// The peers that one beacon matched.
pub open spec fn seen_row(peers: Seq<[u8; 32]>, hits: Seq<bool>, n: nat) -> Seq<TransportEvent>
    decreases n,
{
    if n == 0 {
        seq![]
    } else {
        let before = seen_row(peers, hits, (n - 1) as nat);
        if hits[n - 1] {
            before.push(TransportEvent::SeenOnLan { peer_ik: peers[n - 1] })
        } else {
            before
        }
    }
}

/// The peers that the first `n` beacons matched.
pub open spec fn seen_all(
    peers: Seq<[u8; 32]>,
    hits: Seq<Vec<bool>>,
    n: nat,
) -> Seq<TransportEvent>
    decreases n,
{
    if n == 0 {
        seq![]
    } else {
        seen_all(peers, hits, (n - 1) as nat) + seen_row(peers, hits[n - 1]@, peers.len())
    }
}

/// The news of closed links, one for each.
pub open spec fn farewells(links: Seq<(Seq<u8>, u64)>, events: Seq<TransportEvent>) -> bool {
    &&& events.len() == links.len()
    &&& forall|i: int|
        0 <= i < links.len() ==> ((#[trigger] events[i]) matches TransportEvent::Disconnected {
            peer_ik,
            via,
        } && peer_ik@ == links[i].0 && via == Transport::Lan)
}

/// The link to use for a peer: the one that stands, else a new one, else none
/// where nobody knows where the peer is.
pub open spec fn link_use(lan: LanRunner, ik: Seq<u8>, closed: bool) -> Result<LinkUse, TransportError> {
    if table::holds(lan.links.rows(), ik) && !closed {
        Ok(LinkUse::Live(table::at(lan.links.rows(), ik)))
    } else if table::holds(lan.directory.rows(), ik) {
        Ok(LinkUse::Dial { link: lan.next_link, addr: table::at(lan.directory.rows(), ik) })
    } else {
        Err(TransportError::NoAddress)
    }
}

/// The links once the link for a peer was asked for: one that is closed is
/// forgotten, a new one is remembered.
pub open spec fn links_asked(lan: LanRunner, ik: Seq<u8>, closed: bool) -> Seq<(Seq<u8>, u64)> {
    match link_use(lan, ik, closed) {
        Ok(LinkUse::Live(_)) => lan.links.rows(),
        Ok(LinkUse::Dial { link, .. }) => sorted::put::<[u8; 32], u64>(
            table::without(lan.links.rows(), ik),
            ik,
            link,
        ),
        Err(_) => table::without(lan.links.rows(), ik),
    }
}

/// The beacons once the address of a peer is forgotten: none from there is kept.
pub open spec fn heard_forgotten(lan: LanRunner, ik: Seq<u8>) -> Seq<Heard> {
    if table::holds(lan.directory.rows(), ik) {
        without_addr(lan.heard@, table::at(lan.directory.rows(), ik))
    } else {
        lan.heard@
    }
}

impl LanRunner {
    /// The tables are in order, and no more beacons are kept than there may be.
    pub open spec fn wf(&self) -> bool {
        &&& self.directory.wf()
        &&& self.links.wf()
        &&& self.heard@.len() <= HEARD_CAPACITY
    }

    /// What is not changed where only the links and addresses are.
    pub open spec fn same_settings(&self, other: &LanRunner) -> bool {
        &&& self.enabled == other.enabled
        &&& self.discovery_wanted == other.discovery_wanted
        &&& self.port == other.port
        &&& self.watched == other.watched
    }

    /// Nobody heard, nobody known. Where the settings say so, it is switched on.
    pub fn start(config: LanConfig, port: u16) -> (r: (LanRunner, Announce))
        ensures
            r.0.wf(),
            r.0.enabled == config.enabled,
            r.0.discovery_wanted == config.discovery,
            r.0.port == port,
            r.0.directory.rows().len() == 0,
            r.0.heard@.len() == 0,
            r.0.watched@.len() == 0,
            r.0.links.rows().len() == 0,
            r.0.next_link == 0,
            r.1 == if config.enabled && config.discovery {
                Announce::Start
            } else {
                Announce::Leave
            },
    {
        let mut lan = LanRunner {
            enabled: false,
            discovery_wanted: config.discovery,
            port,
            directory: LanDirectory { addresses: SortedTable::new() },
            heard: Vec::new(),
            watched: Vec::new(),
            links: SortedTable::new(),
            next_link: 0,
        };
        let announce = if config.enabled {
            lan.set_enabled(true)
        } else {
            Announce::Leave
        };
        (lan, announce)
    }

    /// The port that is listened on.
    #[must_use]
    pub fn port(&self) -> (p: u16)
        ensures
            p == self.port,
    {
        self.port
    }

    /// Notes where a peer is.
    pub fn note_address(&mut self, peer_ik: [u8; 32], addr: Addr) -> (event: TransportEvent)
        requires
            old(self).wf(),
        ensures
            final(self).wf(),
            final(self).directory.rows() == sorted::put::<[u8; 32], Addr>(
                old(self).directory.rows(),
                peer_ik@,
                addr,
            ),
            final(self).same_settings(old(self)),
            final(self).heard == old(self).heard,
            final(self).links == old(self).links,
            final(self).next_link == old(self).next_link,
            event == (TransportEvent::SeenOnLan { peer_ik }),
    {
        self.directory.note(peer_ik, addr)
    }

    /// Where a peer is, as far as we know.
    #[must_use]
    pub fn address_of(&self, peer_ik: &[u8; 32]) -> (r: Option<Addr>)
        requires
            self.wf(),
        ensures
            r is Some == table::holds(self.directory.rows(), peer_ik@),
            r matches Some(addr) ==> addr == table::at(self.directory.rows(), peer_ik@),
    {
        self.directory.get(peer_ik)
    }

    /// Keeps a beacon: once, as the newest.
    pub fn remember(&mut self, record: [u8; 16], addr: Addr)
        requires
            old(self).wf(),
        ensures
            final(self).wf(),
            final(self).heard@ == remembered(old(self).heard@, record, addr),
            final(self).same_settings(old(self)),
            final(self).directory == old(self).directory,
            final(self).links == old(self).links,
            final(self).next_link == old(self).next_link,
    {
        let mut kept: Vec<Heard> = Vec::new();
        let mut i: usize = 0;
        assert(self.heard@.subrange(0, 0) =~= seq![]);
        while i < self.heard.len()
            invariant
                *self == *old(self),
                i <= self.heard@.len(),
                kept@ == without_record(self.heard@.subrange(0, i as int), record@),
            decreases self.heard@.len() - i,
        {
            let ghost upto = self.heard@.subrange(0, i as int + 1);
            assert(upto.drop_last() =~= self.heard@.subrange(0, i as int));
            let one = self.heard[i];
            if !same_record(&one.record, &record) {
                kept.push(one);
            }
            i = i + 1;
        }
        assert(self.heard@.subrange(0, i as int) =~= self.heard@);
        proof {
            lemma_without_record(self.heard@, record@);
        }
        kept.push(Heard { record, addr });
        if kept.len() > HEARD_CAPACITY {
            let ghost all = kept@;
            let _ = kept.remove(0);
            assert(kept@ =~= all.subrange(1, all.len() as int));
        }
        self.heard = kept;
    }

    /// Forgets the address of a peer, and every beacon from there.
    pub fn forget_address(&mut self, peer_ik: &[u8; 32])
        requires
            old(self).wf(),
        ensures
            final(self).wf(),
            final(self).directory.rows() == table::without(old(self).directory.rows(), peer_ik@),
            final(self).heard@ == heard_forgotten(*old(self), peer_ik@),
            final(self).same_settings(old(self)),
            final(self).links == old(self).links,
            final(self).next_link == old(self).next_link,
    {
        let stale = match self.directory.addresses.remove(peer_ik) {
            Some(addr) => addr,
            None => {
                return;
            },
        };
        let ghost all = self.heard@;
        let mut kept: Vec<Heard> = Vec::new();
        let mut i: usize = 0;
        assert(all.subrange(0, 0) =~= seq![]);
        while i < self.heard.len()
            invariant
                self.heard@ == all,
                i <= self.heard@.len(),
                kept@ == without_addr(all.subrange(0, i as int), stale),
                self.same_settings(old(self)),
                self.links == old(self).links,
                self.next_link == old(self).next_link,
                self.directory.wf(),
                self.directory.rows() == table::without(old(self).directory.rows(), peer_ik@),
            decreases all.len() - i,
        {
            let ghost upto = all.subrange(0, i as int + 1);
            assert(upto.drop_last() =~= all.subrange(0, i as int));
            let one = self.heard[i];
            if one.addr != stale {
                kept.push(one);
            }
            i = i + 1;
        }
        assert(all.subrange(0, i as int) =~= all);
        proof {
            lemma_without_addr(all, stale);
        }
        self.heard = kept;
    }

    /// Notes the watched peers whose beacons were heard already: `hits` says of
    /// each beacon and each peer whether they match.
    pub fn rematch_heard(&mut self, peers: &Vec<[u8; 32]>, hits: &Vec<Vec<bool>>) -> (events: Vec<
        TransportEvent,
    >)
        requires
            old(self).wf(),
            hits@.len() == old(self).heard@.len(),
            forall|i: int|
                0 <= i < hits@.len() ==> (#[trigger] hits@[i])@.len() == peers@.len(),
        ensures
            final(self).wf(),
            final(self).directory.rows() == noted_all(
                old(self).directory.rows(),
                old(self).heard@,
                peers@,
                hits@,
                hits@.len(),
            ),
            events@ == seen_all(peers@, hits@, hits@.len()),
            final(self).same_settings(old(self)),
            final(self).heard == old(self).heard,
            final(self).links == old(self).links,
            final(self).next_link == old(self).next_link,
    {
        let mut events: Vec<TransportEvent> = Vec::new();
        let ghost start = self.directory.rows();
        let mut i: usize = 0;
        while i < hits.len()
            invariant
                i <= hits@.len(),
                hits@.len() == self.heard@.len(),
                forall|k: int|
                    0 <= k < hits@.len() ==> (#[trigger] hits@[k])@.len() == peers@.len(),
                self.wf(),
                self.heard == old(self).heard,
                self.same_settings(old(self)),
                self.links == old(self).links,
                self.next_link == old(self).next_link,
                self.directory.rows() == noted_all(
                    start,
                    self.heard@,
                    peers@,
                    hits@,
                    i as nat,
                ),
                events@ == seen_all(peers@, hits@, i as nat),
            decreases hits@.len() - i,
        {
            let ghost rows = self.directory.rows();
            let ghost said = events@;
            let addr = self.heard[i].addr;
            let mut j: usize = 0;
            assert(said + seen_row(peers@, hits@[i as int]@, 0) =~= said);
            while j < peers.len()
                invariant
                    i < hits@.len(),
                    hits@.len() == self.heard@.len(),
                    hits@[i as int]@.len() == peers@.len(),
                    j <= peers@.len(),
                    self.wf(),
                    self.heard == old(self).heard,
                    self.same_settings(old(self)),
                    self.links == old(self).links,
                    self.next_link == old(self).next_link,
                    self.directory.rows() == noted_row(
                        rows,
                        addr,
                        peers@,
                        hits@[i as int]@,
                        j as nat,
                    ),
                    events@ == said + seen_row(peers@, hits@[i as int]@, j as nat),
                decreases peers@.len() - j,
            {
                let ghost before = events@;
                if hits[i][j] {
                    let event = self.note_address(peers[j], addr);
                    events.push(event);
                }
                j = j + 1;
                assert(events@ =~= said + seen_row(peers@, hits@[i as int]@, j as nat));
            }
            i = i + 1;
        }
        events
    }

    /// Looks out for these peers from now on, and notes those heard already.
    pub fn watch(&mut self, peers: Vec<[u8; 32]>, hits: &Vec<Vec<bool>>) -> (events: Vec<
        TransportEvent,
    >)
        requires
            old(self).wf(),
            hits@.len() == old(self).heard@.len(),
            forall|i: int|
                0 <= i < hits@.len() ==> (#[trigger] hits@[i])@.len() == peers@.len(),
        ensures
            final(self).wf(),
            final(self).watched == peers,
            final(self).directory.rows() == noted_all(
                old(self).directory.rows(),
                old(self).heard@,
                peers@,
                hits@,
                hits@.len(),
            ),
            events@ == seen_all(peers@, hits@, hits@.len()),
            final(self).enabled == old(self).enabled,
            final(self).discovery_wanted == old(self).discovery_wanted,
            final(self).port == old(self).port,
            final(self).heard == old(self).heard,
            final(self).links == old(self).links,
            final(self).next_link == old(self).next_link,
    {
        let events = self.rematch_heard(&peers, hits);
        self.watched = peers;
        events
    }

    /// Switches the local network on or off: announced where that is wanted.
    pub fn set_enabled(&mut self, on: bool) -> (r: Announce)
        requires
            old(self).wf(),
        ensures
            final(self).wf(),
            *final(self) == (LanRunner { enabled: on, ..*old(self) }),
            r == if on == old(self).enabled || !old(self).discovery_wanted {
                Announce::Leave
            } else if on {
                Announce::Start
            } else {
                Announce::Stop
            },
    {
        if on == self.enabled {
            return Announce::Leave;
        }
        self.enabled = on;
        if !self.discovery_wanted {
            Announce::Leave
        } else if on {
            Announce::Start
        } else {
            Announce::Stop
        }
    }

    /// Forgets all links, addresses and beacons, and announces anew where we are
    /// announced at all.
    pub fn restart(&mut self) -> (r: (Vec<TransportEvent>, Announce))
        requires
            old(self).wf(),
        ensures
            final(self).wf(),
            farewells(old(self).links.rows(), r.0@),
            r.1 == if old(self).enabled && old(self).discovery_wanted {
                Announce::Restart
            } else {
                Announce::Leave
            },
            final(self).links.rows().len() == 0,
            final(self).directory.rows().len() == 0,
            final(self).heard@.len() == 0,
            final(self).same_settings(old(self)),
            final(self).next_link == old(self).next_link,
    {
        let mut events: Vec<TransportEvent> = Vec::new();
        let mut i: usize = 0;
        while i < self.links.len()
            invariant
                *self == *old(self),
                self.wf(),
                i <= self.links.rows().len(),
                events@.len() == i,
                forall|k: int|
                    0 <= k < i ==> ((#[trigger] events@[k]) matches TransportEvent::Disconnected {
                        peer_ik,
                        via,
                    } && peer_ik@ == self.links.rows()[k].0 && via == Transport::Lan),
            decreases self.links.rows().len() - i,
        {
            let peer_ik = *self.links.name_at(i);
            events.push(TransportEvent::Disconnected { peer_ik, via: Transport::Lan });
            i = i + 1;
        }
        self.links.clear();
        self.directory.addresses.clear();
        self.heard = Vec::new();
        let announce = if self.enabled && self.discovery_wanted {
            Announce::Restart
        } else {
            Announce::Leave
        };
        (events, announce)
    }

    /// The link to use for a peer. `closed` says whether the one we have is of no
    /// more use.
    pub fn ensure_link(&mut self, peer_ik: [u8; 32], closed: bool) -> (r: Result<
        LinkUse,
        TransportError,
    >)
        requires
            old(self).wf(),
            old(self).next_link < u64::MAX,
        ensures
            final(self).wf(),
            r == link_use(*old(self), peer_ik@, closed),
            final(self).links.rows() == links_asked(*old(self), peer_ik@, closed),
            final(self).next_link == old(self).next_link + if r matches Ok(LinkUse::Dial { .. }) {
                1int
            } else {
                0int
            },
            final(self).same_settings(old(self)),
            final(self).directory == old(self).directory,
            final(self).heard == old(self).heard,
    {
        if let Some(link) = self.links.get(&peer_ik) {
            if !closed {
                return Ok(LinkUse::Live(*link));
            }
        }
        let _ = self.links.remove(&peer_ik);
        let addr = match self.address_of(&peer_ik) {
            Some(addr) => addr,
            None => {
                return Err(TransportError::NoAddress);
            },
        };
        let link: u64 = self.next_link;
        self.next_link = link + 1;
        self.links.insert(peer_ik, link);
        Ok(LinkUse::Dial { link, addr })
    }

    /// The news that a peer was not reached; its address is forgotten.
    pub fn report_failure(&mut self, peer_ik: [u8; 32]) -> (event: TransportEvent)
        requires
            old(self).wf(),
        ensures
            final(self).wf(),
            event == (TransportEvent::ConnectFailed { peer_ik, via: Transport::Lan }),
            final(self).directory.rows() == table::without(old(self).directory.rows(), peer_ik@),
            final(self).heard@ == heard_forgotten(*old(self), peer_ik@),
            final(self).same_settings(old(self)),
            final(self).links == old(self).links,
            final(self).next_link == old(self).next_link,
    {
        self.forget_address(&peer_ik);
        TransportEvent::ConnectFailed { peer_ik, via: Transport::Lan }
    }

    /// What became of a frame that was put on the link to a peer. A full queue
    /// leaves the link; any other failure ends it, and is told.
    pub fn carried(&mut self, peer_ik: [u8; 32], outcome: Result<(), TransportError>) -> (r: Option<
        TransportEvent,
    >)
        requires
            old(self).wf(),
        ensures
            final(self).wf(),
            outcome is Ok || outcome == Err::<(), TransportError>(TransportError::Busy) ==> r
                is None && *final(self) == *old(self),
            !(outcome is Ok || outcome == Err::<(), TransportError>(TransportError::Busy)) ==> r
                == Some(TransportEvent::ConnectFailed { peer_ik, via: Transport::Lan })
                && final(self).links.rows() == table::without(old(self).links.rows(), peer_ik@)
                && final(self).directory.rows() == table::without(
                old(self).directory.rows(),
                peer_ik@,
            ) && final(self).heard@ == heard_forgotten(*old(self), peer_ik@) && final(self).same_settings(
                old(self),
            ) && final(self).next_link == old(self).next_link,
    {
        match outcome {
            Ok(()) => None,
            Err(TransportError::Busy) => None,
            Err(_) => {
                let _ = self.links.remove(&peer_ik);
                Some(self.report_failure(peer_ik))
            },
        }
    }

    /// What a command comes to. `closed` says of the link to the peer whom the
    /// command names whether it is of no more use.
    pub fn execute(&mut self, command: TransportCommand, closed: bool) -> (r: LanStep)
        requires
            old(self).wf(),
            old(self).next_link < u64::MAX,
        ensures
            final(self).wf(),
            final(self).next_link == old(self).next_link + if r matches (LanStep::Carry {
                link: LinkUse::Dial { .. },
                ..
            }) || r matches LanStep::Open(LinkUse::Dial { .. }) {
                1int
            } else {
                0int
            },
            command matches TransportCommand::Send { peer, via, frame, .. } ==> if via
                != Transport::Lan || !old(self).enabled {
                &&& r == LanStep::Answer(Err(TransportError::Unavailable))
                &&& *final(self) == *old(self)
            } else {
                &&& match link_use(*old(self), peer.ik@, closed) {
                    Ok(link) => r == (LanStep::Carry { link, frame }),
                    Err(error) => r == (LanStep::Report {
                        event: TransportEvent::ConnectFailed {
                            peer_ik: peer.ik,
                            via: Transport::Lan,
                        },
                        error,
                    }),
                }
                &&& final(self).links.rows() == links_asked(*old(self), peer.ik@, closed)
                &&& final(self).directory.rows() == old(self).directory.rows()
                &&& final(self).heard@ == old(self).heard@
                &&& final(self).same_settings(old(self))
            },
            command matches TransportCommand::Connect { peer, via } ==> if via != Transport::Lan
                || !old(self).enabled {
                &&& r == LanStep::Answer(Err(TransportError::Unavailable))
                &&& *final(self) == *old(self)
            } else {
                &&& match link_use(*old(self), peer.ik@, closed) {
                    Ok(link) => r == LanStep::Open(link),
                    Err(error) => r == (LanStep::Report {
                        event: TransportEvent::ConnectFailed {
                            peer_ik: peer.ik,
                            via: Transport::Lan,
                        },
                        error,
                    }),
                }
                &&& final(self).links.rows() == links_asked(*old(self), peer.ik@, closed)
                &&& final(self).directory.rows() == old(self).directory.rows()
                &&& final(self).heard@ == old(self).heard@
                &&& final(self).same_settings(old(self))
            },
            command matches TransportCommand::Disconnect { peer } ==> r == LanStep::Answer(Ok(()))
                && final(self).links.rows() == table::without(old(self).links.rows(), peer.ik@)
                && final(self).directory == old(self).directory && final(self).heard
                == old(self).heard && final(self).same_settings(old(self)),
            command matches TransportCommand::SetEnabled { transport, enabled } ==> if transport
                == Transport::Lan {
                &&& *final(self) == (LanRunner { enabled, ..*old(self) })
                &&& r == LanStep::Announce(
                    if enabled == old(self).enabled || !old(self).discovery_wanted {
                        Announce::Leave
                    } else if enabled {
                        Announce::Start
                    } else {
                        Announce::Stop
                    },
                )
            } else {
                &&& r == LanStep::Answer(Err(TransportError::Unavailable))
                &&& *final(self) == *old(self)
            },
            command is RestartLan ==> (r matches LanStep::Restarted { events, announce } && {
                &&& farewells(old(self).links.rows(), events@)
                &&& announce == if old(self).enabled && old(self).discovery_wanted {
                    Announce::Restart
                } else {
                    Announce::Leave
                }
                &&& final(self).links.rows().len() == 0
                &&& final(self).directory.rows().len() == 0
                &&& final(self).heard@.len() == 0
                &&& final(self).same_settings(old(self))
            }),
            command matches TransportCommand::WatchLanPeers(peers) ==> r == LanStep::Watch(peers)
                && *final(self) == *old(self),
            !(command is Send || command is Connect || command is Disconnect || command
                is SetEnabled || command is RestartLan || command is WatchLanPeers) ==> r
                == LanStep::Answer(Err(TransportError::Unavailable)) && *final(self) == *old(self),
    {
        match command {
            TransportCommand::Send { peer, via, frame, .. } => {
                if via != Transport::Lan || !self.enabled {
                    return LanStep::Answer(Err(TransportError::Unavailable));
                }
                match self.ensure_link(peer.ik, closed) {
                    Ok(link) => LanStep::Carry { link, frame },
                    Err(error) => {
                        let event = self.report_failure(peer.ik);
                        LanStep::Report { event, error }
                    },
                }
            },
            TransportCommand::Connect { peer, via } => {
                if via != Transport::Lan || !self.enabled {
                    return LanStep::Answer(Err(TransportError::Unavailable));
                }
                match self.ensure_link(peer.ik, closed) {
                    Ok(link) => LanStep::Open(link),
                    Err(error) => {
                        let event = self.report_failure(peer.ik);
                        LanStep::Report { event, error }
                    },
                }
            },
            TransportCommand::Disconnect { peer } => {
                let _ = self.links.remove(&peer.ik);
                LanStep::Answer(Ok(()))
            },
            TransportCommand::SetEnabled { transport: Transport::Lan, enabled } => {
                LanStep::Announce(self.set_enabled(enabled))
            },
            TransportCommand::RestartLan => {
                let (events, announce) = self.restart();
                LanStep::Restarted { events, announce }
            },
            TransportCommand::WatchLanPeers(peers) => LanStep::Watch(peers),
            _ => LanStep::Answer(Err(TransportError::Unavailable)),
        }
    }
}

impl LanRunner {
    /// A beacon that was heard: kept, and noted for the watched peers that it
    /// matches. `hits` says of each of them whether it does.
    pub fn browsed(&mut self, one: Heard, hits: &Vec<bool>) -> (events: Vec<TransportEvent>)
        requires
            old(self).wf(),
            hits@.len() == old(self).watched@.len(),
        ensures
            final(self).wf(),
            final(self).heard@ == remembered(old(self).heard@, one.record, one.addr),
            final(self).directory.rows() == noted_row(
                old(self).directory.rows(),
                one.addr,
                old(self).watched@,
                hits@,
                hits@.len(),
            ),
            events@ == seen_row(old(self).watched@, hits@, hits@.len()),
            final(self).same_settings(old(self)),
            final(self).links == old(self).links,
            final(self).next_link == old(self).next_link,
    {
        self.remember(one.record, one.addr);
        let ghost rows = self.directory.rows();
        let ghost kept = self.heard@;
        let mut events: Vec<TransportEvent> = Vec::new();
        let mut j: usize = 0;
        while j < hits.len()
            invariant
                j <= hits@.len(),
                hits@.len() == self.watched@.len(),
                self.wf(),
                self.heard@ == kept,
                self.same_settings(old(self)),
                self.links == old(self).links,
                self.next_link == old(self).next_link,
                self.directory.rows() == noted_row(
                    rows,
                    one.addr,
                    old(self).watched@,
                    hits@,
                    j as nat,
                ),
                events@ == seen_row(old(self).watched@, hits@, j as nat),
            decreases hits@.len() - j,
        {
            if hits[j] {
                let peer_ik = self.watched[j];
                let event = self.note_address(peer_ik, one.addr);
                events.push(event);
            }
            j = j + 1;
        }
        events
    }
}

/// The least of some numbers.
pub open spec fn least(numbers: Seq<u32>) -> u32
    recommends
        numbers.len() > 0,
    decreases numbers.len(),
{
    if numbers.len() <= 1 {
        numbers[0]
    } else {
        let rest = least(numbers.drop_last());
        if numbers.last() < rest {
            numbers.last()
        } else {
            rest
        }
    }
}

/// The beacon in an announcement: sixteen bytes in hexadecimal, and the least of
/// the addresses it came from. An announcement without either is none of ours.
pub fn heard_service(txt: &str, ips: &Vec<u32>, port: u16) -> (r: Option<Heard>)
    requires
        txt.spec_bytes().len() <= usize::MAX / 8,
    ensures
        r is Some <==> ips@.len() > 0 && encoding::hex_bytes(txt@) is Some && encoding::hex_bytes(
            txt@,
        )->0.len() == 16,
        r matches Some(one) ==> encoding::hex_bytes(txt@) == Some(one.record@) && one.addr == (
        Addr { ip: Ip::V4(least(ips@)), port }),
{
    let bytes = match encoding::hex_decode(txt) {
        Some(bytes) => bytes,
        None => {
            return None;
        },
    };
    if bytes.len() != 16 || ips.len() == 0 {
        return None;
    }
    let mut record: [u8; 16] = [0; 16];
    let mut i: usize = 0;
    while i < 16
        invariant
            i <= 16,
            bytes@.len() == 16,
            forall|k: int| 0 <= k < i ==> record@[k] == bytes@[k],
        decreases 16 - i,
    {
        record[i] = bytes[i];
        i = i + 1;
    }
    assert(record@ =~= bytes@);
    let mut low: u32 = ips[0];
    let mut j: usize = 1;
    assert(ips@.subrange(0, 1)[0] == ips@[0]);
    while j < ips.len()
        invariant
            1 <= j <= ips@.len(),
            low == least(ips@.subrange(0, j as int)),
        decreases ips@.len() - j,
    {
        let ghost upto = ips@.subrange(0, j as int + 1);
        assert(upto.drop_last() =~= ips@.subrange(0, j as int));
        if ips[j] < low {
            low = ips[j];
        }
        j = j + 1;
    }
    assert(ips@.subrange(0, j as int) =~= ips@);
    Some(Heard { record, addr: Addr { ip: Ip::V4(low), port } })
}

/// The name that some bytes announce us under.
pub fn name_of(bytes: &[u8; 8]) -> (name: String)
    ensures
        name@ == encoding::hex_text(bytes@),
{
    encoding::hex_encode(bytes.as_slice())
}

/// The name that this launch announces us under: eight bytes by chance, where the
/// system has any.
pub fn instance_name() -> (r: Option<String>)
    ensures
        r matches Some(name) ==> exists|bytes: Seq<u8>|
            bytes.len() == 8 && name@ == #[trigger] encoding::hex_text(bytes),
{
    match encoding::random_bytes::<8>() {
        Some(bytes) => Some(name_of(&bytes)),
        None => None,
    }
}

/// A beacon as it is announced: it is heard as the same beacon.
pub fn beacon_text(record: &[u8; 16]) -> (txt: String)
    ensures
        txt@ == encoding::hex_text(record@),
        encoding::hex_bytes(txt@) == Some(record@),
{
    proof {
        encoding::lemma_hex_round_trip(record@);
    }
    encoding::hex_encode(record.as_slice())
}

/// The name of the host that a name announces.
pub fn host_name(instance: &str) -> (host: String)
    ensures
        host@ == instance@ + ".local."@,
{
    let mut host = instance.to_owned();
    host.append(".local.");
    host
}

/// The seconds until the next slot of the beacon begins, at least one.
pub fn until_next_slot(now: u64, slot: u64, slot_seconds: u64) -> (pause: u64)
    requires
        (slot + 1) * slot_seconds <= u64::MAX,
        slot < u64::MAX,
    ensures
        (slot + 1) * slot_seconds > now ==> pause == (slot + 1) * slot_seconds - now,
        (slot + 1) * slot_seconds <= now ==> pause == 1,
{
    let next: u64 = (slot + 1) * slot_seconds;
    if next > now {
        next - now
    } else {
        1
    }
}

/// The seconds since the epoch; none where the clock stands before it.
pub fn unix_seconds(since_epoch: Option<u64>) -> (seconds: u64)
    ensures
        seconds == match since_epoch {
            Some(s) => s,
            None => 0,
        },
{
    match since_epoch {
        Some(s) => s,
        None => 0,
    }
}

/// A forgotten address is gone: nobody is sought there any more, and no beacon
/// from there brings it back.
pub proof fn lemma_forgotten_is_gone(lan: LanRunner, ik: Seq<u8>)
    requires
        lan.wf(),
    ensures
        !table::holds(table::without(lan.directory.rows(), ik), ik),
        table::holds(lan.directory.rows(), ik) ==> forall|i: int|
            0 <= i < heard_forgotten(lan, ik).len() ==> (#[trigger] heard_forgotten(
                lan,
                ik,
            )[i]).addr != table::at(lan.directory.rows(), ik),
{
    sorted::lemma_in_order_is_distinct::<[u8; 32], Addr>(lan.directory.rows());
    table::lemma_without(lan.directory.rows(), ik);
    if table::holds(lan.directory.rows(), ik) {
        lemma_without_addr(lan.heard@, table::at(lan.directory.rows(), ik));
    }
}

/// A beacon is kept once, as the newest, and there are never too many.
pub proof fn lemma_beacon_is_kept_once(heard: Seq<Heard>, record: [u8; 16], addr: Addr)
    requires
        heard.len() <= HEARD_CAPACITY,
    ensures
        remembered(heard, record, addr).len() <= HEARD_CAPACITY,
        remembered(heard, record, addr).len() > 0,
        remembered(heard, record, addr).last() == (Heard { record, addr }),
        forall|i: int|
            0 <= i < remembered(heard, record, addr).len() - 1 ==> (#[trigger] remembered(
                heard,
                record,
                addr,
            )[i]).record@ != record@,
{
    lemma_without_record(heard, record@);
}

/// Whether a beacon matched the peer.
pub open spec fn matched(peers: Seq<[u8; 32]>, hits: Seq<bool>, ik: Seq<u8>) -> bool {
    exists|j: int| 0 <= j < peers.len() && hits[j] && (#[trigger] peers[j])@ == ik
}

/// A beacon puts every peer that it matched where it came from, and leaves every
/// other row as it was.
pub proof fn lemma_a_beacon_notes_its_peers(
    rows: Seq<(Seq<u8>, Addr)>,
    addr: Addr,
    peers: Seq<[u8; 32]>,
    hits: Seq<bool>,
    ik: Seq<u8>,
)
    requires
        sorted::in_order::<[u8; 32], Addr>(rows),
        hits.len() == peers.len(),
    ensures
        sorted::in_order::<[u8; 32], Addr>(noted_row(rows, addr, peers, hits, peers.len())),
        matched(peers, hits, ik) ==> table::holds(
            noted_row(rows, addr, peers, hits, peers.len()),
            ik,
        ) && table::at(noted_row(rows, addr, peers, hits, peers.len()), ik) == addr,
        !matched(peers, hits, ik) ==> table::holds(
            noted_row(rows, addr, peers, hits, peers.len()),
            ik,
        ) == table::holds(rows, ik),
        !matched(peers, hits, ik) && table::holds(rows, ik) ==> table::at(
            noted_row(rows, addr, peers, hits, peers.len()),
            ik,
        ) == table::at(rows, ik),
{
    lemma_noted_row(rows, addr, peers, hits, peers.len(), ik);
}

/// What the first `n` peers that a beacon may match come to.
proof fn lemma_noted_row(
    rows: Seq<(Seq<u8>, Addr)>,
    addr: Addr,
    peers: Seq<[u8; 32]>,
    hits: Seq<bool>,
    n: nat,
    ik: Seq<u8>,
)
    requires
        sorted::in_order::<[u8; 32], Addr>(rows),
        n <= peers.len(),
        n <= hits.len(),
    ensures
        sorted::in_order::<[u8; 32], Addr>(noted_row(rows, addr, peers, hits, n)),
        (exists|j: int| 0 <= j < n && hits[j] && (#[trigger] peers[j])@ == ik) ==> table::holds(
            noted_row(rows, addr, peers, hits, n),
            ik,
        ) && table::at(noted_row(rows, addr, peers, hits, n), ik) == addr,
        !(exists|j: int| 0 <= j < n && hits[j] && (#[trigger] peers[j])@ == ik) ==> table::holds(
            noted_row(rows, addr, peers, hits, n),
            ik,
        ) == table::holds(rows, ik) && (table::holds(rows, ik) ==> table::at(
            noted_row(rows, addr, peers, hits, n),
            ik,
        ) == table::at(rows, ik)),
    decreases n,
{
    if n > 0 {
        let m = (n - 1) as nat;
        lemma_noted_row(rows, addr, peers, hits, m, ik);
        let before = noted_row(rows, addr, peers, hits, m);
        sorted::lemma_put::<[u8; 32], Addr>(before, peers[n - 1]@, addr);
        if hits[n - 1] && peers[n - 1]@ == ik {
            assert(0 <= m < n && hits[m as int] && peers[m as int]@ == ik);
        } else if exists|j: int| 0 <= j < n && hits[j] && (#[trigger] peers[j])@ == ik {
            let j = choose|j: int| 0 <= j < n && hits[j] && (#[trigger] peers[j])@ == ik;
            assert(0 <= j < m && hits[j] && peers[j]@ == ik);
        }
    }
}

/// After the peers were matched against the beacons kept, a peer that some of them
/// matched stands at the address that the last of these came from.
pub proof fn lemma_a_peer_stands_where_last_heard(
    rows: Seq<(Seq<u8>, Addr)>,
    heard: Seq<Heard>,
    peers: Seq<[u8; 32]>,
    hits: Seq<Vec<bool>>,
    ik: Seq<u8>,
    i: int,
    n: nat,
)
    requires
        sorted::in_order::<[u8; 32], Addr>(rows),
        n <= heard.len(),
        n <= hits.len(),
        forall|k: int| 0 <= k < n ==> (#[trigger] hits[k])@.len() == peers.len(),
        0 <= i < n,
        matched(peers, hits[i]@, ik),
        forall|k: int| i < k < n ==> !matched(peers, (#[trigger] hits[k])@, ik),
    ensures
        table::holds(noted_all(rows, heard, peers, hits, n), ik),
        table::at(noted_all(rows, heard, peers, hits, n), ik) == heard[i].addr,
    decreases n,
{
    let m = (n - 1) as nat;
    lemma_noted_in_order(rows, heard, peers, hits, m);
    assert(hits[m as int]@.len() == peers.len());
    lemma_a_beacon_notes_its_peers(
        noted_all(rows, heard, peers, hits, m),
        heard[m as int].addr,
        peers,
        hits[m as int]@,
        ik,
    );
    if i < m {
        assert(!matched(peers, hits[m as int]@, ik));
        lemma_a_peer_stands_where_last_heard(rows, heard, peers, hits, ik, i, m);
    }
}

/// After the peers were matched against the beacons kept, what stands under a name
/// that none of them matched is as it was.
pub proof fn lemma_an_unmatched_row_stays(
    rows: Seq<(Seq<u8>, Addr)>,
    heard: Seq<Heard>,
    peers: Seq<[u8; 32]>,
    hits: Seq<Vec<bool>>,
    ik: Seq<u8>,
    n: nat,
)
    requires
        sorted::in_order::<[u8; 32], Addr>(rows),
        n <= heard.len(),
        n <= hits.len(),
        forall|k: int| 0 <= k < n ==> (#[trigger] hits[k])@.len() == peers.len(),
        forall|k: int| 0 <= k < n ==> !matched(peers, (#[trigger] hits[k])@, ik),
    ensures
        table::holds(noted_all(rows, heard, peers, hits, n), ik) == table::holds(rows, ik),
        table::holds(rows, ik) ==> table::at(noted_all(rows, heard, peers, hits, n), ik)
            == table::at(rows, ik),
    decreases n,
{
    if n > 0 {
        let m = (n - 1) as nat;
        lemma_noted_in_order(rows, heard, peers, hits, m);
        assert(hits[m as int]@.len() == peers.len());
        lemma_an_unmatched_row_stays(rows, heard, peers, hits, ik, m);
        lemma_a_beacon_notes_its_peers(
            noted_all(rows, heard, peers, hits, m),
            heard[m as int].addr,
            peers,
            hits[m as int]@,
            ik,
        );
    }
}

/// Notes keep the addresses in order.
proof fn lemma_noted_in_order(
    rows: Seq<(Seq<u8>, Addr)>,
    heard: Seq<Heard>,
    peers: Seq<[u8; 32]>,
    hits: Seq<Vec<bool>>,
    n: nat,
)
    requires
        sorted::in_order::<[u8; 32], Addr>(rows),
        n <= heard.len(),
        n <= hits.len(),
        forall|k: int| 0 <= k < n ==> (#[trigger] hits[k])@.len() == peers.len(),
    ensures
        sorted::in_order::<[u8; 32], Addr>(noted_all(rows, heard, peers, hits, n)),
    decreases n,
{
    if n > 0 {
        let m = (n - 1) as nat;
        lemma_noted_in_order(rows, heard, peers, hits, m);
        assert(hits[m as int]@.len() == peers.len());
        lemma_noted_row(
            noted_all(rows, heard, peers, hits, m),
            heard[m as int].addr,
            peers,
            hits[m as int]@,
            peers.len(),
            seq![],
        );
    }
}

/// Of a beacon, each peer that it matched is told, in the order of the peers, once
/// for each time that it is watched, and nobody else.
pub proof fn lemma_a_beacon_tells_its_peers(peers: Seq<[u8; 32]>, hits: Seq<bool>, n: nat)
    requires
        n <= peers.len(),
        hits.len() == peers.len(),
    ensures
        seen_row(peers, hits, n) == Seq::new(n, |j: int| j).filter(|j: int| hits[j]).map_values(
            |j: int| TransportEvent::SeenOnLan { peer_ik: peers[j] },
        ),
    decreases n,
{
    reveal(Seq::filter);
    let places = Seq::new(n, |j: int| j);
    let tell = |j: int| TransportEvent::SeenOnLan { peer_ik: peers[j] };
    if n > 0 {
        let m = (n - 1) as nat;
        lemma_a_beacon_tells_its_peers(peers, hits, m);
        assert(places.drop_last() =~= Seq::new(m, |j: int| j));
        let before = places.drop_last().filter(|j: int| hits[j]);
        assert(before.push(m as int).map_values(tell) =~= before.map_values(tell).push(
            tell(m as int),
        ));
        assert(seen_row(peers, hits, n) =~= places.filter(|j: int| hits[j]).map_values(tell));
    } else {
        assert(seen_row(peers, hits, n) =~= places.filter(|j: int| hits[j]).map_values(tell));
    }
}

/// After the peers were matched against the beacons kept, a peer was told where
/// one of them matched it, and only there; nothing else was told.
pub proof fn lemma_all_that_matched_are_told(
    peers: Seq<[u8; 32]>,
    hits: Seq<Vec<bool>>,
    n: nat,
    event: TransportEvent,
)
    requires
        n <= hits.len(),
        forall|k: int| 0 <= k < n ==> (#[trigger] hits[k])@.len() == peers.len(),
    ensures
        seen_all(peers, hits, n).contains(event) <==> exists|i: int, j: int|
            0 <= i < n && 0 <= j < peers.len() && #[trigger] hits[i]@[j] && event == (
            TransportEvent::SeenOnLan { peer_ik: peers[j] }),
    decreases n,
{
    if n > 0 {
        let m = (n - 1) as nat;
        lemma_all_that_matched_are_told(peers, hits, m, event);
        lemma_seen_row(peers, hits[m as int]@, peers.len(), event);
        let before = seen_all(peers, hits, m);
        let row = seen_row(peers, hits[m as int]@, peers.len());
        let all = before + row;
        assert(hits[m as int]@.len() == peers.len());
        if all.contains(event) {
            let k = choose|k: int| 0 <= k < all.len() && all[k] == event;
            if k < before.len() {
                assert(before[k] == event);
                assert(before.contains(event));
            } else {
                assert(row[k - before.len()] == event);
                assert(row.contains(event));
                let j = choose|j: int|
                    0 <= j < peers.len() && #[trigger] hits[m as int]@[j] && event == (
                    TransportEvent::SeenOnLan { peer_ik: peers[j] });
                assert(hits[m as int]@[j]);
            }
        }
        if before.contains(event) {
            let k = choose|k: int| 0 <= k < before.len() && before[k] == event;
            assert(all[k] == event);
        }
        if row.contains(event) {
            let k = choose|k: int| 0 <= k < row.len() && row[k] == event;
            assert(all[before.len() + k] == event);
        }
    }
}

/// What of the first `n` peers is told of a beacon.
proof fn lemma_seen_row(
    peers: Seq<[u8; 32]>,
    hits: Seq<bool>,
    n: nat,
    event: TransportEvent,
)
    requires
        n <= peers.len(),
        n <= hits.len(),
    ensures
        seen_row(peers, hits, n).contains(event) <==> exists|j: int|
            0 <= j < n && #[trigger] hits[j] && event == (TransportEvent::SeenOnLan {
                peer_ik: peers[j],
            }),
    decreases n,
{
    if n > 0 {
        let m = (n - 1) as nat;
        lemma_seen_row(peers, hits, m, event);
        let before = seen_row(peers, hits, m);
        let row = seen_row(peers, hits, n);
        if row.contains(event) {
            let k = choose|k: int| 0 <= k < row.len() && row[k] == event;
            if k < before.len() {
                assert(before[k] == event);
                assert(before.contains(event));
            } else {
                assert(hits[m as int]);
            }
        }
        if before.contains(event) {
            let k = choose|k: int| 0 <= k < before.len() && before[k] == event;
            assert(row[k] == event);
        }
        if hits[m as int] && event == (TransportEvent::SeenOnLan { peer_ik: peers[m as int] }) {
            assert(row[before.len() as int] == event);
        }
    }
}

/// Of the beacons kept so far only one with the same record goes when one more is
/// heard, and the oldest where there would be more than sixty-four; the others stay
/// in their order.
pub proof fn lemma_other_beacons_are_kept(heard: Seq<Heard>, record: [u8; 16], addr: Addr)
    ensures
        ({
            let others = heard.filter(|h: Heard| h.record@ != record@);
            let kept = remembered(heard, record, addr);
            &&& others.len() < 64 ==> kept == others.push(Heard { record, addr })
            &&& others.len() >= 64 ==> kept == others.push(Heard { record, addr }).skip(1)
        }),
{
    lemma_without_record_is_filter(heard, record@, |h: Heard| h.record@ != record@);
}

/// What `without_record` leaves is all that has another record.
proof fn lemma_without_record_is_filter(
    heard: Seq<Heard>,
    record: Seq<u8>,
    keep: spec_fn(Heard) -> bool,
)
    requires
        forall|h: Heard| #[trigger] keep(h) == (h.record@ != record),
    ensures
        without_record(heard, record) == heard.filter(keep),
    decreases heard.len(),
{
    reveal(Seq::filter);
    if heard.len() > 0 {
        lemma_without_record_is_filter(heard.drop_last(), record, keep);
    }
}

/// With an address every beacon from there is forgotten, and no other: the rest
/// stay in their order. Where the peer has no address nothing is forgotten.
pub proof fn lemma_only_beacons_from_there_go(lan: LanRunner, ik: Seq<u8>)
    ensures
        table::holds(lan.directory.rows(), ik) ==> heard_forgotten(lan, ik) == lan.heard@.filter(
            |h: Heard| h.addr != table::at(lan.directory.rows(), ik),
        ),
        !table::holds(lan.directory.rows(), ik) ==> heard_forgotten(lan, ik) == lan.heard@,
{
    lemma_without_addr_is_filter(lan.heard@, table::at(lan.directory.rows(), ik));
}

/// What `without_addr` leaves is all that came from elsewhere.
proof fn lemma_without_addr_is_filter(heard: Seq<Heard>, addr: Addr)
    ensures
        without_addr(heard, addr) == heard.filter(|h: Heard| h.addr != addr),
    decreases heard.len(),
{
    reveal(Seq::filter);
    if heard.len() > 0 {
        lemma_without_addr_is_filter(heard.drop_last(), addr);
    }
}

/// A link that stands is used as it is. Else a new one is dialed at the address
/// that the peer was noted at, under the next number, and is the one that is used
/// from there on; where no address was noted there is none. The links of everybody
/// else are left alone.
pub proof fn lemma_a_link_is_reused_or_dialed(lan: LanRunner, ik: Seq<u8>, closed: bool)
    requires
        lan.wf(),
    ensures
        table::holds(lan.links.rows(), ik) && !closed ==> link_use(lan, ik, closed) == Ok::<
            LinkUse,
            TransportError,
        >(LinkUse::Live(table::at(lan.links.rows(), ik))) && links_asked(lan, ik, closed)
            == lan.links.rows(),
        !(table::holds(lan.links.rows(), ik) && !closed) && table::holds(lan.directory.rows(), ik)
            ==> link_use(lan, ik, closed) == Ok::<LinkUse, TransportError>(
            LinkUse::Dial { link: lan.next_link, addr: table::at(lan.directory.rows(), ik) },
        ) && table::holds(links_asked(lan, ik, closed), ik) && table::at(
            links_asked(lan, ik, closed),
            ik,
        ) == lan.next_link,
        !(table::holds(lan.links.rows(), ik) && !closed) && !table::holds(lan.directory.rows(), ik)
            ==> link_use(lan, ik, closed) == Err::<LinkUse, TransportError>(
            TransportError::NoAddress,
        ) && !table::holds(links_asked(lan, ik, closed), ik),
        forall|other: Seq<u8>|
            other != ik ==> #[trigger] table::holds(links_asked(lan, ik, closed), other)
                == table::holds(lan.links.rows(), other),
        forall|other: Seq<u8>|
            other != ik && table::holds(lan.links.rows(), other) ==> #[trigger] table::at(
                links_asked(lan, ik, closed),
                other,
            ) == table::at(lan.links.rows(), other),
{
    let rows = lan.links.rows();
    let fewer = table::without(rows, ik);
    sorted::lemma_in_order_is_distinct::<[u8; 32], u64>(rows);
    table::lemma_without(rows, ik);
    table::lemma_index_of(rows, ik);
    sorted::lemma_without_keeps_order::<[u8; 32], u64>(rows, ik);
    sorted::lemma_put::<[u8; 32], u64>(fewer, ik, lan.next_link);
}

/// The least of some numbers is one of them, and none of them is less.
pub proof fn lemma_least(numbers: Seq<u32>)
    requires
        numbers.len() > 0,
    ensures
        numbers.contains(least(numbers)),
        forall|i: int| 0 <= i < numbers.len() ==> least(numbers) <= #[trigger] numbers[i],
    decreases numbers.len(),
{
    if numbers.len() == 1 {
        assert(numbers[0] == least(numbers));
    } else {
        let fewer = numbers.drop_last();
        lemma_least(fewer);
        let k = choose|k: int| 0 <= k < fewer.len() && fewer[k] == least(fewer);
        assert(numbers[k] == least(fewer));
        assert(numbers[numbers.len() - 1] == numbers.last());
        assert forall|i: int| 0 <= i < numbers.len() implies least(numbers)
            <= #[trigger] numbers[i] by {
            if i < fewer.len() {
                assert(fewer[i] == numbers[i]);
            }
        }
    }
}

/// Settings that are the same are the same in each: whether we are switched on,
/// whether we are to be announced, the port and whom we look out for.
pub proof fn lemma_settings_are_the_same(a: LanRunner, b: LanRunner)
    requires
        a.same_settings(&b),
    ensures
        a.enabled == b.enabled,
        a.discovery_wanted == b.discovery_wanted,
        a.port == b.port,
        a.watched@ == b.watched@,
{
}

/// Of every link that was closed its peer is told, once and in order, and nothing
/// else is.
pub proof fn lemma_every_closed_link_is_told(
    links: Seq<(Seq<u8>, u64)>,
    events: Seq<TransportEvent>,
    i: int,
)
    requires
        farewells(links, events),
        0 <= i < links.len(),
    ensures
        events.len() == links.len(),
        events[i] is Disconnected,
        events[i]->Disconnected_peer_ik@ == links[i].0,
        events[i]->Disconnected_via == Transport::Lan,
{
}

} // verus!
