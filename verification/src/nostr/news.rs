//! What is told of the transport itself: how its relays are, whether it is there,
//! and how far they were read.

use crate::nostr::state;
use crate::nostr::state::{State, Ticket};
use crate::runner::{NostrRelay, NostrSetup, Transport, TransportEvent};
use vstd::prelude::*;

verus! {

/// How the relays are is told first, each as it is known; after that at most one
/// thing more: that the transport is there where a relay is up and it was not, or
/// that it is gone where no relay is up and it was.
pub proof fn lemma_coming_and_going_are_told(
    alive: Seq<(Seq<char>, NostrRelay)>,
    was_ready: bool,
    events: Seq<TransportEvent>,
)
    requires
        state::settled(alive, was_ready, events),
    ensures
        events.len() == 1 || events.len() == 2,
        events[0] matches TransportEvent::NostrRelays { relays } && relays@.len() == alive.len()
            && forall|i: int| 0 <= i < alive.len() ==> relays@[i] == (#[trigger] alive[i]).1,
        events.contains(TransportEvent::Ready { transport: Transport::Nostr }) <==> !was_ready
            && exists|i: int| 0 <= i < alive.len() && (#[trigger] alive[i]).1.up,
        events.contains(TransportEvent::Lost { transport: Transport::Nostr }) <==> was_ready
            && forall|i: int| 0 <= i < alive.len() ==> !(#[trigger] alive[i]).1.up,
        events.len() == 2 ==> events[1] == (TransportEvent::Ready { transport: Transport::Nostr })
            || events[1] == (TransportEvent::Lost { transport: Transport::Nostr }),
{
    if state::any_up(alive) && !was_ready {
        assert(events[1] == (TransportEvent::Ready { transport: Transport::Nostr }));
    }
    if !state::any_up(alive) && was_ready {
        assert(events[1] == (TransportEvent::Lost { transport: Transport::Nostr }));
    }
}

/// How far was read is told where it is further than was read before, and at least
/// a minute further than was told last; what is told is the time itself.
pub proof fn lemma_the_time_read_up_to_is_told_by_the_minute(before: State, created_at: u64)
    ensures
        state::since_news(before, created_at) is Some <==> created_at > before.since && (created_at
            - before.since_told >= 60 || created_at == u64::MAX),
        state::since_news(before, created_at) matches Some(event) ==> event == (
        TransportEvent::NostrSince { created_at }),
{
}

/// The later of two times is one of them, and not before the other.
pub proof fn lemma_later(a: u64, b: u64)
    ensures
        state::later(a, b) >= a,
        state::later(a, b) >= b,
        state::later(a, b) == a || state::later(a, b) == b,
{
}

/// A setup with a key that can be read takes effect as it is given, but the time
/// read up to never goes back, and what is told of it starts there; without such a
/// key there is neither key nor relay, and what was read so far is kept.
pub proof fn lemma_a_setup_takes_effect(
    before: State,
    setup: NostrSetup,
    public: Option<[u8; 32]>,
    now: State,
)
    requires
        state::configured(before, setup, public, now),
    ensures
        now.since >= before.since,
        now.key is Some <==> setup is On && public is Some,
        setup is On && public is Some ==> {
            &&& now.key->0.public == public->0
            &&& now.key->0.secret == setup->secret
            &&& now.relays == setup->relays
            &&& now.via_tor == setup->via_tor
            &&& now.since >= setup->On_since
            &&& now.since == before.since || now.since == setup->On_since
            &&& now.since_told == now.since
        },
        setup is Off || public is None ==> {
            &&& now.relays@.len() == 0
            &&& now.via_tor == before.via_tor
            &&& now.since == before.since
            &&& now.since_told == before.since_told
        },
{
}

/// A frame gets the next number and the mark drawn for it where there is a key to
/// sign its parts with and there are not too many of them to count; else nothing
/// happens. No number is given out twice.
pub proof fn lemma_a_frame_gets_the_next_number(
    before: State,
    parts: nat,
    signs: bool,
    uid: Option<[u8; 16]>,
    now: State,
    ticket: Option<Ticket>,
)
    requires
        state::ticketed(before, parts, signs, uid, now, ticket),
        before.next_token < u64::MAX,
    ensures
        ticket is Some <==> before.key is Some && signs && parts <= 65535 && uid is Some,
        ticket matches Some(t) ==> {
            &&& t.token == before.next_token
            &&& t.total == parts
            &&& uid == Some(t.uid)
            &&& now.next_token == t.token + 1
        },
        ticket is None ==> now == before,
        now.outgoing == before.outgoing,
        now.flying == before.flying,
        now.links == before.links,
        now.alive == before.alive,
{
}

/// Each part of a frame says which it is and of how many, and bears the mark of
/// the frame; it vanishes its lifetime after it was published, or at the end of
/// time where that comes first.
pub proof fn lemma_each_part_says_which_it_is(ticket: Ticket, created_at: u64, ttl: u64, i: int)
    requires
        0 <= i < ticket.total,
    ensures
        state::pieces_of(ticket, created_at, ttl).len() == ticket.total,
        state::pieces_of(ticket, created_at, ttl)[i].index == i,
        state::pieces_of(ticket, created_at, ttl)[i].total == ticket.total,
        state::pieces_of(ticket, created_at, ttl)[i].uid == ticket.uid,
        state::pieces_of(ticket, created_at, ttl)[i].created_at == created_at,
        created_at + ttl <= u64::MAX ==> state::pieces_of(ticket, created_at, ttl)[i].expires_at
            == created_at + ttl,
        created_at + ttl > u64::MAX ==> state::pieces_of(ticket, created_at, ttl)[i].expires_at
            == u64::MAX,
        created_at + ttl <= u64::MAX ==> state::expiry(created_at, ttl) == created_at + ttl,
        created_at + ttl > u64::MAX ==> state::expiry(created_at, ttl) == u64::MAX,
{
}

/// Books that are the same hold the same frames, the same parts on their way, and
/// the same next number.
pub proof fn lemma_the_books_are_the_same(a: State, b: State)
    requires
        state::same_books(a, b),
    ensures
        a.outgoing@ == b.outgoing@,
        a.flying.rows() == b.flying.rows(),
        a.next_token == b.next_token,
{
}

/// A frame is on its way where each of its parts was offered and some relay took it:
/// one part that nobody took, or that was not offered, and it is not.
pub proof fn lemma_a_frame_is_on_its_way_with_all_its_parts(offers: Seq<Vec<bool>>, parts: nat)
    ensures
        state::all_taken(offers, parts) <==> offers.len() == parts && forall|i: int|
            0 <= i < parts ==> (#[trigger] offers[i])@.contains(true),
{
    if state::all_taken(offers, parts) {
        assert forall|i: int| 0 <= i < parts implies (#[trigger] offers[i])@.contains(true) by {
            assert(state::part_taken(offers[i]@));
        }
    } else if offers.len() == parts && forall|i: int|
        0 <= i < parts ==> (#[trigger] offers[i])@.contains(true) {
        assert forall|i: int| 0 <= i < offers.len() implies state::part_taken(
            #[trigger] offers[i]@,
        ) by {
            assert(offers[i]@.contains(true));
        }
    }
}

/// At most one event is told where there may be one: that one, or none.
pub proof fn lemma_at_most_one_is_told(event: Option<TransportEvent>)
    ensures
        event is None ==> state::at_most_one(event).len() == 0,
        event is Some ==> state::at_most_one(event).len() == 1 && state::at_most_one(event)[0]
            == event->0,
{
}

} // verus!
