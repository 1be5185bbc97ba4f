//! The bridge to a radio that the platform holds: which channels there are, who
//! waits for them, and what the platform is asked to do.

use crate::link;
use crate::runner::{Transport, TransportError, TransportEvent};
use std::collections::HashMap;
use vstd::prelude::*;
use vstd::string::*;

verus! {

broadcast use {vstd::string::group_string_axioms, vstd::std_specs::hash::group_hash_axioms};

/// How many pieces of a channel wait to be read.
pub const INCOMING_QUEUE: usize = 128;

/// For how many milliseconds a piece waits for room before the reader is taken
/// for dead.
pub const ROOM_LIMIT_MS: u64 = 30_000;

/// After how many milliseconds it is asked again whether there is room.
pub const ROOM_POLL_MS: u64 = 2;

/// After how many bytes of a channel they are told.
pub const COUNT_STEP: u64 = 65_536;

/// How many seconds after the beginning of a slot the new beacon goes out.
pub const SLOT_MARGIN_SECS: u64 = 2;

/// A radio that the platform holds. It is told what to do; what came of it, the
/// platform says later.
pub trait BtRadio: Send + Sync + 'static {
    /// Listen for channels, and look out for announcements.
    fn start(&self);

    /// Announce this, in place of what was announced before.
    fn advertise(&self, payload: Vec<u8>);

    /// Stop announcing and looking out, and close every channel.
    fn stop(&self);

    /// Open a channel to a device.
    fn open(&self, channel: u64, addr: Vec<u8>, random: bool, psm: u16);

    /// Write to an open channel.
    fn write(&self, channel: u64, bytes: Vec<u8>);

    /// Close a channel.
    fn close(&self, channel: u64);
}

/// What came through one channel.
#[derive(Debug, Clone, Copy, PartialEq, Eq)]
pub struct Counted {
    /// How many bytes.
    pub bytes: u64,
    /// In how many pieces.
    pub chunks: u64,
    /// How many steps of `COUNT_STEP` had been reached at the last piece.
    pub said: u64,
    /// The fingerprint of all of it.
    pub rolling: u64,
}

/// Nothing came yet.
pub open spec fn uncounted() -> Counted {
    Counted { bytes: 0, chunks: 0, said: 0, rolling: link::FNV_OFFSET }
}

/// The sum of two numbers, or the largest number there is.
pub open spec fn sum_up(a: u64, b: int) -> u64 {
    if a + b > u64::MAX {
        u64::MAX
    } else {
        (a + b) as u64
    }
}

/// The count after one more piece.
pub open spec fn counted_after(before: Counted, data: Seq<u8>) -> Counted {
    let bytes = sum_up(before.bytes, data.len() as int);
    Counted {
        bytes,
        chunks: sum_up(before.chunks, 1),
        said: bytes / COUNT_STEP,
        rolling: link::fnv(before.rolling, data),
    }
}

/// The count after all of these pieces.
pub open spec fn counted_all(pieces: Seq<Seq<u8>>) -> Counted
    decreases pieces.len(),
{
    if pieces.len() == 0 {
        uncounted()
    } else {
        counted_after(counted_all(pieces.drop_last()), pieces.last())
    }
}

/// The pieces, one behind the other.
pub open spec fn joined(pieces: Seq<Seq<u8>>) -> Seq<u8>
    decreases pieces.len(),
{
    if pieces.len() == 0 {
        seq![]
    } else {
        joined(pieces.drop_last()) + pieces.last()
    }
}

/// The count says how many bytes and how many pieces came, and the fingerprint is
/// that of the stream, however it was cut.
pub proof fn lemma_count_is_of_the_stream(pieces: Seq<Seq<u8>>)
    requires
        joined(pieces).len() <= u64::MAX,
        pieces.len() <= u64::MAX,
    ensures
        counted_all(pieces).bytes == joined(pieces).len(),
        counted_all(pieces).chunks == pieces.len(),
        counted_all(pieces).rolling == link::fnv(link::FNV_OFFSET, joined(pieces)),
    decreases pieces.len(),
{
    if pieces.len() > 0 {
        lemma_count_is_of_the_stream(pieces.drop_last());
        link::lemma_fingerprint_ignores_cuts(
            link::FNV_OFFSET,
            joined(pieces.drop_last()),
            pieces.last(),
        );
    }
}

impl Default for Counted {
    /// Nothing came yet.
    fn default() -> (c: Counted)
        ensures
            c == uncounted(),
    {
        Counted { bytes: 0, chunks: 0, said: 0, rolling: link::FNV_OFFSET }
    }
}

impl Counted {
    /// Counts one more piece, and says whether another step was reached.
    pub fn count(&mut self, data: &[u8]) -> (news: bool)
        ensures
            *final(self) == counted_after(*old(self), data@),
            news == (final(self).said != old(self).said),
    {
        let n: usize = data.len();
        self.bytes = self.bytes.saturating_add(n as u64);
        self.chunks = self.chunks.saturating_add(1);
        self.rolling = link::fnv_update(self.rolling, data);
        let step: u64 = self.bytes / COUNT_STEP;
        let news = step != self.said;
        self.said = step;
        news
    }
}

/// How asking a channel to open ended.
#[derive(Debug, PartialEq, Eq)]
pub enum Dialed {
    /// It is open.
    Opened,
    /// It is not, for this reason.
    Failed(String),
    /// Nobody will say any more.
    Dropped,
    /// Nobody said anything in time.
    TimedOut,
}

/// What to ask of the radio, and what to tell, once the bridge was raised.
#[derive(Debug, PartialEq, Eq)]
pub enum Raised {
    /// Start the radio.
    Start,
    /// Tell this.
    Tell(TransportEvent),
}

/// What to do once the platform is ready.
#[derive(Debug, PartialEq, Eq)]
pub struct Readied {
    /// What to announce.
    pub advertise: Option<Vec<u8>>,
    /// What to tell, in this order.
    pub events: Vec<TransportEvent>,
    /// Whether to announce anew in each slot, in place of whoever does so now.
    pub rotate: bool,
}

/// What to do about a channel that was opened to us.
#[derive(Debug, Clone, Copy, PartialEq, Eq, Structural)]
pub enum Accepted {
    /// Read it, and hand its writer on.
    Read,
    /// Have the radio close it.
    Close,
    /// There is nobody to close it.
    Leave,
}

/// What to do about a channel that is gone.
pub struct Closed<D, A> {
    /// Whom to tell how the dial ended.
    pub reply: Option<(D, Result<(), String>)>,
    /// The writer that is of no more use.
    pub writer: Option<A>,
}

/// What to do once the bridge was lowered.
pub struct Lowered<A> {
    /// Whether there is a radio to stop.
    pub stop: bool,
    /// The writers that are of no more use, by their channels.
    pub writers: HashMap<u64, A>,
}

/// The bridge. `D` is told how a dial ended, `Q` takes what comes through a
/// channel, `A` tells the writer of a channel that it is of no more use.
pub struct BridgedAir<D, Q, A> {
    pub radio: bool,
    pub raised: bool,
    pub runtime: bool,
    pub next_channel: u64,
    pub dialing: HashMap<u64, D>,
    pub incoming: HashMap<u64, Q>,
    pub counted: HashMap<u64, Counted>,
    pub alive: HashMap<u64, A>,
}

/// What came through a channel up to now.
pub open spec fn counted_so_far(counts: Map<u64, Counted>, channel: u64) -> Counted {
    if counts.contains_key(channel) {
        counts[channel]
    } else {
        uncounted()
    }
}

/// Whom a channel that is settled is told to.
pub open spec fn waiting<D>(who: Map<u64, D>, channel: u64) -> Option<D> {
    if who.contains_key(channel) {
        Some(who[channel])
    } else {
        None
    }
}

/// Whoever waited for a channel is told that it is gone.
pub open spec fn told_gone<D>(reply: Option<(D, Result<(), String>)>, waited: Option<D>) -> bool {
    match (reply, waited) {
        (Some((to, Err(reason))), Some(who)) => to == who && reason@ == "канал закрылся"@,
        (None, None) => true,
        _ => false,
    }
}

/// The news that these peers were heard, one for each.
pub open spec fn seen(peers: Seq<[u8; 32]>) -> Seq<TransportEvent> {
    Seq::new(peers.len(), |i: int| TransportEvent::SeenOnBt { peer_ik: peers[i] })
}

/// The news that Bluetooth is gone.
pub open spec fn lost() -> TransportEvent {
    TransportEvent::Lost { transport: Transport::Bt }
}

impl<D, Q, A> BridgedAir<D, Q, A> {
    /// What is not changed where only channels are.
    pub open spec fn same_air(&self, other: &BridgedAir<D, Q, A>) -> bool {
        &&& self.radio == other.radio
        &&& self.raised == other.raised
        &&& self.runtime == other.runtime
        &&& self.next_channel == other.next_channel
    }

    /// A bridge without a radio, not raised.
    #[must_use]
    pub fn new() -> (b: BridgedAir<D, Q, A>)
        ensures
            !b.radio,
            !b.raised,
            !b.runtime,
            b.next_channel == 0,
            b.dialing@ == Map::<u64, D>::empty(),
            b.incoming@ == Map::<u64, Q>::empty(),
            b.counted@ == Map::<u64, Counted>::empty(),
            b.alive@ == Map::<u64, A>::empty(),
    {
        BridgedAir {
            radio: false,
            raised: false,
            runtime: false,
            next_channel: 0,
            dialing: HashMap::new(),
            incoming: HashMap::new(),
            counted: HashMap::new(),
            alive: HashMap::new(),
        }
    }

    /// There is a radio from now on.
    pub fn set_radio(&mut self)
        ensures
            *final(self) == (BridgedAir { radio: true, ..*old(self) }),
    {
        self.radio = true;
    }

    /// Whether there is a radio.
    #[must_use]
    pub fn has_radio(&self) -> (r: bool)
        ensures
            r == self.radio,
    {
        self.radio
    }

    /// Switched on. Without a radio, or without a place to run (`runtime`), it is
    /// told that Bluetooth is gone.
    pub fn raise(&mut self, runtime: bool) -> (r: Raised)
        ensures
            *final(self) == (BridgedAir {
                raised: true,
                runtime: old(self).runtime || runtime,
                ..*old(self)
            }),
            r == if runtime && old(self).radio {
                Raised::Start
            } else {
                Raised::Tell(lost())
            },
    {
        self.raised = true;
        if !runtime {
            return Raised::Tell(TransportEvent::Lost { transport: Transport::Bt });
        }
        self.runtime = true;
        if !self.radio {
            return Raised::Tell(TransportEvent::Lost { transport: Transport::Bt });
        }
        Raised::Start
    }

    /// Switched off: nobody is dialed, read or written to any more.
    pub fn lower(&mut self) -> (r: Lowered<A>)
        ensures
            !final(self).raised,
            !final(self).runtime,
            final(self).radio == old(self).radio,
            final(self).next_channel == old(self).next_channel,
            final(self).dialing@ == Map::<u64, D>::empty(),
            final(self).incoming@ == Map::<u64, Q>::empty(),
            final(self).alive@ == Map::<u64, A>::empty(),
            final(self).counted == old(self).counted,
            r.stop == old(self).radio,
            r.writers@ == old(self).alive@,
    {
        self.raised = false;
        self.runtime = false;
        self.incoming.clear();
        self.dialing.clear();
        let mut alive: HashMap<u64, A> = HashMap::new();
        core::mem::swap(&mut alive, &mut self.alive);
        Lowered { stop: self.radio, writers: alive }
    }

    /// What to announce: the payload, where there is one, where there is a radio
    /// and where we are switched on.
    pub fn announce(&self, payload: Option<Vec<u8>>) -> (r: Option<Vec<u8>>)
        ensures
            r == if self.radio && self.raised {
                payload
            } else {
                None
            },
    {
        if self.radio && self.raised {
            payload
        } else {
            None
        }
    }

    /// What is told where Bluetooth is gone.
    pub fn on_lost(&self) -> (r: Option<TransportEvent>)
        ensures
            r == if self.raised {
                Some(lost())
            } else {
                None
            },
    {
        if self.raised {
            Some(TransportEvent::Lost { transport: Transport::Bt })
        } else {
            None
        }
    }

    /// The platform is ready, and this is what there is to announce.
    pub fn on_ready(&self, payload: Option<Vec<u8>>) -> (r: Readied)
        ensures
            r.advertise == if self.radio && self.raised {
                payload
            } else {
                None
            },
            r.rotate == (r.advertise is Some && self.runtime),
            r.advertise is Some && self.runtime ==> r.events@ == seq![
                TransportEvent::Ready { transport: Transport::Bt },
            ],
            r.advertise is Some && !self.runtime ==> r.events@ == seq![
                TransportEvent::Ready { transport: Transport::Bt },
                lost(),
            ],
            r.advertise is None && self.raised ==> r.events@ == seq![lost()],
            !self.raised ==> r.events@ == Seq::<TransportEvent>::empty(),
    {
        let mut events: Vec<TransportEvent> = Vec::new();
        let advertise = self.announce(payload);
        let announced = advertise.is_some();
        if announced {
            events.push(TransportEvent::Ready { transport: Transport::Bt });
        }
        let rotate = announced && self.runtime;
        if !rotate {
            if let Some(event) = self.on_lost() {
                events.push(event);
            }
        }
        Readied { advertise, events, rotate }
    }

    /// These peers were heard in an announcement: each is told, where we are
    /// switched on.
    pub fn on_heard(&self, peers: &Vec<[u8; 32]>) -> (events: Vec<TransportEvent>)
        ensures
            events@ == if self.raised {
                seen(peers@)
            } else {
                Seq::<TransportEvent>::empty()
            },
    {
        let mut events: Vec<TransportEvent> = Vec::new();
        if !self.raised {
            return events;
        }
        let mut i: usize = 0;
        while i < peers.len()
            invariant
                i <= peers@.len(),
                events@ =~= seen(peers@).subrange(0, i as int),
            decreases peers@.len() - i,
        {
            events.push(TransportEvent::SeenOnBt { peer_ik: peers[i] });
            i = i + 1;
        }
        assert(seen(peers@).subrange(0, i as int) =~= seen(peers@));
        events
    }

    /// A dial ended: whoever waits for it is told, once.
    pub fn settle_dial(&mut self, channel: u64, outcome: Result<(), String>) -> (r: Option<
        (D, Result<(), String>),
    >)
        ensures
            final(self).dialing@ == old(self).dialing@.remove(channel),
            final(self).incoming == old(self).incoming,
            final(self).counted == old(self).counted,
            final(self).alive == old(self).alive,
            final(self).same_air(old(self)),
            r == match waiting(old(self).dialing@, channel) {
                Some(reply) => Some((reply, outcome)),
                None => None,
            },
    {
        match self.dialing.remove(&channel) {
            Some(reply) => Some((reply, outcome)),
            None => None,
        }
    }

    /// The channel that we asked for is open.
    pub fn on_opened(&mut self, channel: u64) -> (r: Option<(D, Result<(), String>)>)
        ensures
            final(self).dialing@ == old(self).dialing@.remove(channel),
            final(self).incoming == old(self).incoming,
            final(self).counted == old(self).counted,
            final(self).alive == old(self).alive,
            final(self).same_air(old(self)),
            r == match waiting(old(self).dialing@, channel) {
                Some(reply) => Some((reply, Ok::<(), String>(()))),
                None => None,
            },
    {
        self.settle_dial(channel, Ok(()))
    }

    /// The channel that we asked for did not open.
    pub fn on_open_failed(&mut self, channel: u64, reason: String) -> (r: Option<
        (D, Result<(), String>),
    >)
        ensures
            final(self).dialing@ == old(self).dialing@.remove(channel),
            final(self).incoming == old(self).incoming,
            final(self).counted == old(self).counted,
            final(self).alive == old(self).alive,
            final(self).same_air(old(self)),
            r == match waiting(old(self).dialing@, channel) {
                Some(reply) => Some((reply, Err::<(), String>(reason))),
                None => None,
            },
    {
        self.settle_dial(channel, Err(reason))
    }

    /// A channel was opened to us: what comes goes to `queue`, its writer is
    /// told by `writer`.
    pub fn on_incoming(&mut self, channel: u64, queue: Q, writer: A) -> (r: Accepted)
        ensures
            r == if old(self).raised && old(self).runtime {
                Accepted::Read
            } else if old(self).radio {
                Accepted::Close
            } else {
                Accepted::Leave
            },
            r == Accepted::Read ==> final(self).incoming@ == old(self).incoming@.insert(channel, queue) && final(self).alive@ == old(self).alive@.insert(channel, writer),
            r != Accepted::Read ==> *final(self) == *old(self),
            final(self).dialing == old(self).dialing,
            final(self).counted == old(self).counted,
            final(self).same_air(old(self)),
    {
        if !self.raised || !self.runtime {
            return if self.radio {
                Accepted::Close
            } else {
                Accepted::Leave
            };
        }
        let _ = self.incoming.insert(channel, queue);
        let _ = self.alive.insert(channel, writer);
        Accepted::Read
    }

    /// Bytes came through a channel. Where nobody waits for them, nothing comes of
    /// it; else they are counted, and the count is told at each step.
    pub fn on_bytes(&mut self, channel: u64, data: &[u8]) -> (r: Option<Option<Counted>>)
        ensures
            r is Some <==> old(self).incoming@.contains_key(channel),
            r is None ==> *final(self) == *old(self),
            r matches Some(report) ==> {
                let before = counted_so_far(old(self).counted@, channel);
                let after = counted_after(before, data@);
                &&& final(self).counted@ == old(self).counted@.insert(channel, after)
                &&& report == if after.said != before.said {
                    Some(after)
                } else {
                    None
                }
            },
            final(self).dialing == old(self).dialing,
            final(self).incoming == old(self).incoming,
            final(self).alive == old(self).alive,
            final(self).same_air(old(self)),
    {
        if !self.incoming.contains_key(&channel) {
            return None;
        }
        let mut counted = match self.counted.get(&channel) {
            Some(counted) => *counted,
            None => Counted::default(),
        };
        let news = counted.count(data);
        let _ = self.counted.insert(channel, counted);
        if news {
            Some(Some(counted))
        } else {
            Some(None)
        }
    }

    /// A channel is gone.
    pub fn on_closed(&mut self, channel: u64) -> (r: Closed<D, A>)
        ensures
            final(self).counted@ == old(self).counted@.remove(channel),
            final(self).incoming@ == old(self).incoming@.remove(channel),
            final(self).dialing@ == old(self).dialing@.remove(channel),
            final(self).alive@ == old(self).alive@.remove(channel),
            final(self).same_air(old(self)),
            told_gone(r.reply, waiting(old(self).dialing@, channel)),
            r.writer == waiting(old(self).alive@, channel),
    {
        let _ = self.counted.remove(&channel);
        let _ = self.incoming.remove(&channel);
        let reply = self.settle_dial(channel, Err("канал закрылся".to_owned()));
        let writer = self.alive.remove(&channel);
        Closed { reply, writer }
    }

    /// The reader of a channel takes nothing any more: the channel is gone, and
    /// the radio closes it, where there is one.
    pub fn on_stuck(&mut self, channel: u64) -> (r: (Closed<D, A>, bool))
        ensures
            final(self).counted@ == old(self).counted@.remove(channel),
            final(self).incoming@ == old(self).incoming@.remove(channel),
            final(self).dialing@ == old(self).dialing@.remove(channel),
            final(self).alive@ == old(self).alive@.remove(channel),
            final(self).same_air(old(self)),
            told_gone(r.0.reply, waiting(old(self).dialing@, channel)),
            r.0.writer == waiting(old(self).alive@, channel),
            r.1 == old(self).radio,
    {
        let closed = self.on_closed(channel);
        (closed, self.radio)
    }

    /// A channel is to be opened: the number it goes by. `reply` is told how that
    /// ended.
    pub fn begin_dial(&mut self, reply: D) -> (r: Result<u64, TransportError>)
        ensures
            !old(self).radio ==> r == Err::<u64, TransportError>(TransportError::Unavailable)
                && *final(self) == *old(self),
            old(self).radio ==> r == Ok::<u64, TransportError>(old(self).next_channel)
                && final(self).next_channel == old(self).next_channel.wrapping_add(1)
                && final(self).dialing@ == old(self).dialing@.insert(old(self).next_channel, reply),
            final(self).radio == old(self).radio,
            final(self).raised == old(self).raised,
            final(self).runtime == old(self).runtime,
            final(self).incoming == old(self).incoming,
            final(self).counted == old(self).counted,
            final(self).alive == old(self).alive,
    {
        if !self.radio {
            return Err(TransportError::Unavailable);
        }
        let channel: u64 = self.next_channel;
        self.next_channel = channel.wrapping_add(1);
        let _ = self.dialing.insert(channel, reply);
        Ok(channel)
    }

    /// How the dial of a channel ended. An open channel gets its writer, and is
    /// read where we are switched on. One that was not opened in time is to be
    /// closed, and nobody is told of it any more.
    pub fn finish_dial(&mut self, channel: u64, outcome: Dialed, queue: Q, writer: A) -> (r: Result<
        bool,
        TransportError,
    >)
        ensures
            outcome is Opened ==> r == Ok::<bool, TransportError>(old(self).raised),
            outcome matches Dialed::Failed(reason) ==> r == Err::<bool, TransportError>(
                TransportError::Refused(reason),
            ),
            outcome is Dropped ==> r == Err::<bool, TransportError>(TransportError::Unavailable),
            outcome is TimedOut ==> r == Err::<bool, TransportError>(TransportError::Timeout),
            final(self).alive@ == if outcome is Opened {
                old(self).alive@.insert(channel, writer)
            } else {
                old(self).alive@
            },
            final(self).incoming@ == if outcome is Opened && old(self).raised {
                old(self).incoming@.insert(channel, queue)
            } else {
                old(self).incoming@
            },
            final(self).dialing@ == if outcome is TimedOut {
                old(self).dialing@.remove(channel)
            } else {
                old(self).dialing@
            },
            final(self).counted == old(self).counted,
            final(self).same_air(old(self)),
    {
        match outcome {
            Dialed::Opened => {
                let _ = self.alive.insert(channel, writer);
                if self.raised {
                    let _ = self.incoming.insert(channel, queue);
                }
                Ok(self.raised)
            },
            Dialed::Failed(reason) => Err(TransportError::Refused(reason)),
            Dialed::Dropped => Err(TransportError::Unavailable),
            Dialed::TimedOut => {
                let _ = self.settle_dial(channel, Err("срок вышел".to_owned()));
                Err(TransportError::Timeout)
            },
        }
    }

    /// Whether a writer may write: it is of use still, and there is a radio.
    pub fn may_write(&self, alive: bool) -> (r: bool)
        ensures
            r == (alive && self.radio),
    {
        alive && self.radio
    }

    /// The writer of a channel is done with. Says whether there is a radio to
    /// close the channel.
    pub fn shut_down(&mut self, channel: u64) -> (close: bool)
        ensures
            final(self).alive@ == old(self).alive@.remove(channel),
            final(self).dialing == old(self).dialing,
            final(self).incoming == old(self).incoming,
            final(self).counted == old(self).counted,
            final(self).same_air(old(self)),
            close == old(self).radio,
    {
        let _ = self.alive.remove(&channel);
        self.radio
    }
}

/// A channel that is settled or gone stays so: nobody waits for it any more, and
/// a second word on it is told to nobody.
pub proof fn lemma_a_dial_is_answered_once<D>(dialing: Map<u64, D>, channel: u64)
    ensures
        waiting(dialing.remove(channel), channel) is None,
        forall|other: u64|
            other != channel ==> waiting(dialing.remove(channel), other) == waiting(dialing, other),
{
}

/// What became of putting a piece in the queue of its channel.
#[derive(Debug, Clone, Copy, PartialEq, Eq, Structural)]
pub enum Tried {
    Taken,
    Full,
    Closed,
}

/// Whether the piece is in the queue, once that is known: a full queue is asked
/// again until it is too late, one that is gone is not.
pub fn room(tried: Tried, late: bool) -> (r: Option<bool>)
    ensures
        r == match tried {
            Tried::Taken => Some(true),
            Tried::Closed => Some(false),
            Tried::Full => if late {
                Some(false)
            } else {
                None
            },
        },
{
    match tried {
        Tried::Taken => Some(true),
        Tried::Closed => Some(false),
        Tried::Full => {
            if late {
                Some(false)
            } else {
                None
            }
        },
    }
}

/// The seconds until the next slot of the beacon has begun for good.
pub fn rotation_pause(now: u64, slot: u64, slot_seconds: u64) -> (pause: u64)
    requires
        (slot + 1) * slot_seconds + SLOT_MARGIN_SECS <= u64::MAX,
        slot < u64::MAX,
    ensures
        (slot + 1) * slot_seconds > now ==> pause == (slot + 1) * slot_seconds - now
            + SLOT_MARGIN_SECS,
        (slot + 1) * slot_seconds <= now ==> pause == SLOT_MARGIN_SECS,
{
    let next: u64 = (slot + 1) * slot_seconds;
    next.saturating_sub(now) + SLOT_MARGIN_SECS
}

/// What came through a channel and was not read yet.
#[derive(Debug, PartialEq, Eq)]
pub struct Incoming {
    pub rest: Vec<u8>,
}

impl Incoming {
    /// Nothing yet.
    pub fn new() -> (i: Incoming)
        ensures
            i.rest@.len() == 0,
    {
        Incoming { rest: Vec::new() }
    }

    /// Whether another piece is needed before anything can be read.
    pub fn is_empty(&self) -> (r: bool)
        ensures
            r == (self.rest@.len() == 0),
    {
        self.rest.len() == 0
    }

    /// Another piece.
    pub fn fill(&mut self, chunk: Vec<u8>)
        requires
            old(self).rest@.len() == 0,
        ensures
            final(self).rest == chunk,
    {
        self.rest = chunk;
    }

    /// As much as there is room for.
    pub fn take(&mut self, room: usize) -> (taken: Vec<u8>)
        ensures
            taken@.len() == if old(self).rest@.len() <= room {
                old(self).rest@.len() as int
            } else {
                room as int
            },
            taken@ + final(self).rest@ == old(self).rest@,
    {
        let n: usize = if self.rest.len() <= room {
            self.rest.len()
        } else {
            room
        };
        let ghost before = self.rest@;
        let rest = self.rest.split_off(n);
        let mut taken: Vec<u8> = rest;
        core::mem::swap(&mut taken, &mut self.rest);
        assert(taken@ + self.rest@ =~= before);
        taken
    }
}

/// A piece more adds its bytes, one piece and its place in the fingerprint, and says
/// how many steps of sixty-four kibibytes there are; what no longer fits a number
/// stays at the greatest.
pub proof fn lemma_a_piece_is_counted(before: Counted, data: Seq<u8>)
    ensures
        ({
            let now = counted_after(before, data);
            &&& before.bytes + data.len() <= u64::MAX ==> now.bytes == before.bytes + data.len()
            &&& before.bytes + data.len() > u64::MAX ==> now.bytes == u64::MAX
            &&& before.chunks < u64::MAX ==> now.chunks == before.chunks + 1
            &&& before.chunks == u64::MAX ==> now.chunks == u64::MAX
            &&& now.said * 65536 <= now.bytes < (now.said + 1) * 65536
            &&& now.rolling == link::fnv(before.rolling, data)
        }),
        uncounted().bytes == 0,
        uncounted().chunks == 0,
        uncounted().said == 0,
        uncounted().rolling == 0xcbf2_9ce4_8422_2325,
{
}

/// What came through a channel is what was counted for it, and nothing where nothing
/// was; whoever waits for a channel is whoever was noted for it, and nobody else.
pub proof fn lemma_a_channel_has_its_own_count<D>(
    counts: Map<u64, Counted>,
    who: Map<u64, D>,
    channel: u64,
)
    ensures
        counts.contains_key(channel) ==> counted_so_far(counts, channel) == counts[channel],
        !counts.contains_key(channel) ==> counted_so_far(counts, channel).bytes == 0
            && counted_so_far(counts, channel).chunks == 0,
        who.contains_key(channel) <==> waiting(who, channel) is Some,
        who.contains_key(channel) ==> waiting(who, channel)->0 == who[channel],
{
}

/// Where a channel is gone, whoever waited for it is told so and that it failed; where
/// nobody waited, nobody is told.
pub proof fn lemma_who_waited_is_told<D>(
    reply: Option<(D, Result<(), String>)>,
    waited: Option<D>,
)
    requires
        told_gone(reply, waited),
    ensures
        reply is Some <==> waited is Some,
        reply matches Some((to, verdict)) ==> Some(to) == waited && verdict is Err
            && verdict->Err_0@ == "канал закрылся"@,
{
}

/// Each peer that was heard is told once, in order, and nobody else.
pub proof fn lemma_each_peer_heard_is_told(peers: Seq<[u8; 32]>, i: int)
    requires
        0 <= i < peers.len(),
    ensures
        seen(peers).len() == peers.len(),
        seen(peers)[i] == (TransportEvent::SeenOnBt { peer_ik: peers[i] }),
        lost() == (TransportEvent::Lost { transport: Transport::Bt }),
{
}

/// An air that is the same has the same radio, is raised as much, has a place to run
/// as much, and numbers the next channel the same.
pub proof fn lemma_the_air_is_the_same<D, Q, A>(a: BridgedAir<D, Q, A>, b: BridgedAir<D, Q, A>)
    requires
        a.same_air(&b),
    ensures
        a.radio == b.radio,
        a.raised == b.raised,
        a.runtime == b.runtime,
        a.next_channel == b.next_channel,
{
}

} // verus!
