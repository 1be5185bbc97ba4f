//! What the answers of relays come to, over all the parts of a frame: when it
//! counts as handed over, when as failed, and what is left alone.

use crate::nostr::state;
use crate::nostr::state::{Flying, Outgoing, State};
use crate::runner::{Transport, TransportEvent};
use crate::table;
use vstd::prelude::*;

verus! {

/// How often the part was refused.
pub open spec fn refusals_of(said: Seq<(Seq<char>, bool)>, id: Seq<char>) -> nat
    decreases said.len(),
{
    if said.len() == 0 {
        0
    } else {
        refusals_of(said.drop_last(), id) + if said.last() == (id, false) {
            1nat
        } else {
            0nat
        }
    }
}

/// A run of answers: each is a part and whether it was taken, and leads from one
/// state to the next, with what is told on the way.
pub open spec fn run_of(
    states: Seq<State>,
    said: Seq<(Seq<char>, bool)>,
    told: Seq<Seq<TransportEvent>>,
) -> bool {
    &&& states.len() == said.len() + 1
    &&& told.len() == said.len()
    &&& forall|i: int|
        #![trigger said[i]]
        0 <= i < said.len() ==> states[i].wf() && state::answered(
            states[i],
            said[i].0,
            said[i].1,
            states[i + 1],
            told[i],
        )
}

/// What is left once a frame is given up: every part of another frame as it was,
/// and none of its own.
pub proof fn lemma_other_frames_keep_flying(flying: Seq<(Seq<char>, Flying)>, token: u64, id: Seq<char>)
    requires
        table::distinct(flying),
    ensures
        table::holds(state::without_token(flying, token), id) <==> table::holds(flying, id)
            && table::at(flying, id).token != token,
        table::holds(flying, id) && table::at(flying, id).token != token ==> table::at(
            state::without_token(flying, token),
            id,
        ) == table::at(flying, id),
    decreases flying.len(),
{
    if flying.len() > 0 {
        let fewer = flying.drop_last();
        assert(table::distinct(fewer)) by {
            assert forall|i: int, j: int| 0 <= i < j < fewer.len() implies fewer[i].0
                != fewer[j].0 by {
                assert(fewer[i] == flying[i] && fewer[j] == flying[j]);
            }
        }
        lemma_other_frames_keep_flying(fewer, token, id);
        let kept = state::without_token(fewer, token);
        table::lemma_index_of(fewer, id);
        table::lemma_index_of(kept, id);
        if flying.last().0 == id {
            assert(!table::holds(fewer, id)) by {
                if let Some(i) = table::index_of(fewer, id) {
                    assert(fewer[i] == flying[i]);
                    assert(flying[i].0 != flying[flying.len() - 1].0);
                }
            }
        }
        if flying.last().1.token != token {
            let now = kept.push(flying.last());
            assert(now.drop_last() =~= kept);
            assert(now.last() == flying.last());
            if flying.last().0 != id {
                assert(table::index_of(now, id) == table::index_of(kept, id));
                if let Some(i) = table::index_of(kept, id) {
                    assert(now[i] == kept[i]);
                }
            }
        }
        if flying.last().0 != id {
            if let Some(i) = table::index_of(fewer, id) {
                assert(fewer[i] == flying[i]);
            }
        }
    }
}

/// An answer on a part that is not on its way changes nothing and tells nothing.
pub proof fn lemma_an_unknown_part_changes_nothing(
    before: State,
    id: Seq<char>,
    ok: bool,
    now: State,
    events: Seq<TransportEvent>,
)
    requires
        state::answered(before, id, ok, now, events),
        forall|i: int|
            0 <= i < before.flying.rows().len() ==> (#[trigger] before.flying.rows()[i]).0 != id,
    ensures
        now == before,
        events.len() == 0,
{
    table::lemma_index_of(before.flying.rows(), id);
}

/// A refusal that others may still make good fails nothing: nothing is told, the
/// frame stays booked as it was, the part stays on its way with one refusal more,
/// and every other part is as it was.
pub proof fn lemma_a_refusal_is_not_the_end(
    before: State,
    id: Seq<char>,
    now: State,
    events: Seq<TransportEvent>,
)
    requires
        before.wf(),
        state::answered(before, id, false, now, events),
        table::holds(before.flying.rows(), id),
        table::at(before.flying.rows(), id).answers + 1 < table::at(
            before.flying.rows(),
            id,
        ).relays,
    ensures
        events.len() == 0,
        now.outgoing@ == before.outgoing@,
        table::holds(now.flying.rows(), id),
        table::at(now.flying.rows(), id).answers == table::at(before.flying.rows(), id).answers + 1,
        table::at(now.flying.rows(), id).relays == table::at(before.flying.rows(), id).relays,
        table::at(now.flying.rows(), id).token == table::at(before.flying.rows(), id).token,
        forall|other: Seq<char>|
            other != id ==> #[trigger] table::holds(now.flying.rows(), other) == table::holds(
                before.flying.rows(),
                other,
            ),
        forall|other: Seq<char>|
            other != id && table::holds(before.flying.rows(), other) ==> #[trigger] table::at(
                now.flying.rows(),
                other,
            ) == table::at(before.flying.rows(), other),
{
    let part = table::at(before.flying.rows(), id);
    table::lemma_put(
        before.flying.rows(),
        id,
        Flying { answers: (part.answers + 1) as usize, ..part },
    );
}

/// Once the last of the relays that were given a part has refused it, the frame has
/// failed: that is told once, of the peer the frame was for; the frame and all its
/// parts are gone, and every other frame and every part of one is as it was.
pub proof fn lemma_the_last_refusal_fails_the_frame(
    before: State,
    id: Seq<char>,
    now: State,
    events: Seq<TransportEvent>,
)
    requires
        before.wf(),
        state::answered(before, id, false, now, events),
        table::holds(before.flying.rows(), id),
        table::at(before.flying.rows(), id).answers + 1 == table::at(
            before.flying.rows(),
            id,
        ).relays,
        before.outgoing@.contains_key(table::at(before.flying.rows(), id).token),
    ensures
        events.len() == 1,
        events[0] == (TransportEvent::ConnectFailed {
            peer_ik: before.outgoing@[table::at(before.flying.rows(), id).token].peer_ik,
            via: Transport::Nostr,
        }),
        !now.outgoing@.contains_key(table::at(before.flying.rows(), id).token),
        forall|other: u64|
            other != table::at(before.flying.rows(), id).token ==> #[trigger] now.outgoing@.contains_key(
                other,
            ) == before.outgoing@.contains_key(other) && now.outgoing@[other]
                == before.outgoing@[other],
        forall|p: Seq<char>| #[trigger]
            table::holds(now.flying.rows(), p) <==> table::holds(before.flying.rows(), p)
                && table::at(before.flying.rows(), p).token != table::at(
                before.flying.rows(),
                id,
            ).token,
        forall|p: Seq<char>| #[trigger]
            table::holds(now.flying.rows(), p) ==> table::at(now.flying.rows(), p) == table::at(
                before.flying.rows(),
                p,
            ),
{
    let flying = before.flying.rows();
    let part = table::at(flying, id);
    let left = table::without(flying, id);
    table::lemma_without(flying, id);
    assert forall|p: Seq<char>| #[trigger]
        table::holds(now.flying.rows(), p) implies table::at(now.flying.rows(), p) == table::at(
        flying,
        p,
    ) && table::holds(flying, p) && table::at(flying, p).token != part.token by {
        lemma_other_frames_keep_flying(left, part.token, p);
    }
    assert forall|p: Seq<char>|
        table::holds(flying, p) && table::at(flying, p).token != part.token implies #[trigger] table::holds(
        now.flying.rows(),
        p,
    ) by {
        lemma_other_frames_keep_flying(left, part.token, p);
    }
}

/// Failure is told only where the last relay given a part refused it, and of no
/// other frame than the one it is a part of.
pub proof fn lemma_failure_takes_every_refusal(
    before: State,
    id: Seq<char>,
    ok: bool,
    now: State,
    events: Seq<TransportEvent>,
    i: int,
)
    requires
        before.wf(),
        state::answered(before, id, ok, now, events),
        0 <= i < events.len(),
        events[i] is ConnectFailed,
    ensures
        !ok,
        table::holds(before.flying.rows(), id),
        table::at(before.flying.rows(), id).answers + 1 == table::at(
            before.flying.rows(),
            id,
        ).relays,
        before.outgoing@.contains_key(table::at(before.flying.rows(), id).token),
        events[i]->ConnectFailed_peer_ik == before.outgoing@[table::at(
            before.flying.rows(),
            id,
        ).token].peer_ik,
        events[i]->ConnectFailed_via == Transport::Nostr,
{
    let flying = before.flying.rows();
    table::lemma_index_of(flying, id);
    if let Some(k) = table::index_of(flying, id) {
        assert(flying[k].1.answers < flying[k].1.relays);
    }
}

/// A part that a relay took is off the list, and no other is. The frame waits for
/// one part less; with its last it is gone from the books and said to be handed
/// over, to whom and under what number it was sent.
pub proof fn lemma_a_part_is_taken(
    before: State,
    id: Seq<char>,
    now: State,
    events: Seq<TransportEvent>,
)
    requires
        before.wf(),
        state::answered(before, id, true, now, events),
        table::holds(before.flying.rows(), id),
    ensures
        !table::holds(now.flying.rows(), id),
        forall|other: Seq<char>|
            other != id ==> #[trigger] table::holds(now.flying.rows(), other) == table::holds(
                before.flying.rows(),
                other,
            ),
        forall|other: Seq<char>|
            other != id && table::holds(before.flying.rows(), other) ==> #[trigger] table::at(
                now.flying.rows(),
                other,
            ) == table::at(before.flying.rows(), other),
        forall|other: u64|
            other != table::at(before.flying.rows(), id).token ==> #[trigger] now.outgoing@.contains_key(
                other,
            ) == before.outgoing@.contains_key(other) && now.outgoing@[other]
                == before.outgoing@[other],
        ({
            let token = table::at(before.flying.rows(), id).token;
            let frame = before.outgoing@[token];
            &&& !before.outgoing@.contains_key(token) ==> events.len() == 0
                && !now.outgoing@.contains_key(token)
            &&& before.outgoing@.contains_key(token) && frame.waiting > 1 ==> {
                &&& events.len() == 0
                &&& now.outgoing@.contains_key(token)
                &&& now.outgoing@[token].waiting == frame.waiting - 1
                &&& now.outgoing@[token].peer_ik == frame.peer_ik
                &&& now.outgoing@[token].handoff == frame.handoff
            }
            &&& before.outgoing@.contains_key(token) && frame.waiting == 1 ==> {
                &&& !now.outgoing@.contains_key(token)
                &&& frame.handoff is None ==> events.len() == 0
                &&& frame.handoff matches Some(number) ==> events.len() == 1 && events[0] == (
                TransportEvent::Handed {
                    peer_ik: frame.peer_ik,
                    via: Transport::Nostr,
                    handoff: number,
                })
            }
        }),
{
    table::lemma_without(before.flying.rows(), id);
}

/// As long as no part was refused by as many relays as were given it, refusals
/// tell nothing: every frame stays booked as it was, and every part stays on its
/// way with as many refusals more as came for it.
pub proof fn lemma_refusals_short_of_all_tell_nothing(
    states: Seq<State>,
    said: Seq<(Seq<char>, bool)>,
    told: Seq<Seq<TransportEvent>>,
)
    requires
        run_of(states, said, told),
        forall|i: int| 0 <= i < said.len() ==> !(#[trigger] said[i]).1,
        forall|id: Seq<char>| #[trigger]
            table::holds(states[0].flying.rows(), id) ==> table::at(
                states[0].flying.rows(),
                id,
            ).answers + refusals_of(said, id) < table::at(states[0].flying.rows(), id).relays,
    ensures
        forall|i: int| 0 <= i < told.len() ==> (#[trigger] told[i]).len() == 0,
        states.last().outgoing@ == states[0].outgoing@,
        forall|id: Seq<char>| #[trigger]
            table::holds(states.last().flying.rows(), id) == table::holds(
                states[0].flying.rows(),
                id,
            ),
        forall|id: Seq<char>| #[trigger]
            table::holds(states.last().flying.rows(), id) ==> {
                let was = table::at(states[0].flying.rows(), id);
                let is_now = table::at(states.last().flying.rows(), id);
                &&& is_now.answers == was.answers + refusals_of(said, id)
                &&& is_now.token == was.token
                &&& is_now.relays == was.relays
            },
    decreases said.len(),
{
    if said.len() > 0 {
        let n = said.len() - 1;
        let before = states.drop_last();
        let fewer = said.drop_last();
        assert(run_of(before, fewer, told.drop_last())) by {
            assert forall|i: int| 0 <= i < fewer.len() implies (#[trigger] before[i]).wf()
                && state::answered(
                before[i],
                fewer[i].0,
                fewer[i].1,
                before[i + 1],
                told.drop_last()[i],
            ) by {
                assert(said[i] == fewer[i]);
            }
        }
        assert forall|i: int| 0 <= i < fewer.len() implies !(#[trigger] fewer[i]).1 by {
            assert(said[i] == fewer[i]);
        }
        lemma_refusals_short_of_all_tell_nothing(before, fewer, told.drop_last());
        assert(before.last() == states[n]);
        assert(before[0] == states[0]);
        let id = said[n].0;
        let flying = states[n].flying.rows();
        assert(said[n].1 == false);
        assert(state::answered(states[n], id, false, states[n + 1], told[n]));
        assert(states.last() == states[n + 1]);
        if table::holds(flying, id) {
            assert(refusals_of(said, id) == refusals_of(fewer, id) + 1);
            lemma_a_refusal_is_not_the_end(states[n], id, states[n + 1], told[n]);
        }
        assert forall|p: Seq<char>| p != id implies refusals_of(said, p) == refusals_of(fewer, p) by {
        }
        assert forall|i: int| 0 <= i < told.len() implies (#[trigger] told[i]).len() == 0 by {
            if i < n {
                assert(told[i] == told.drop_last()[i]);
            }
        }
    }
}

/// One relay is enough: however many refused a part before, short of all of them,
/// the frame whose last waiting part is taken in the end was handed over.
pub proof fn lemma_one_relay_is_enough(
    states: Seq<State>,
    said: Seq<(Seq<char>, bool)>,
    told: Seq<Seq<TransportEvent>>,
    id: Seq<char>,
    number: u64,
    now: State,
    events: Seq<TransportEvent>,
)
    requires
        run_of(states, said, told),
        forall|i: int| 0 <= i < said.len() ==> !(#[trigger] said[i]).1,
        forall|p: Seq<char>| #[trigger]
            table::holds(states[0].flying.rows(), p) ==> table::at(
                states[0].flying.rows(),
                p,
            ).answers + refusals_of(said, p) < table::at(states[0].flying.rows(), p).relays,
        states.last().wf(),
        table::holds(states[0].flying.rows(), id),
        states[0].outgoing@.contains_key(table::at(states[0].flying.rows(), id).token),
        states[0].outgoing@[table::at(states[0].flying.rows(), id).token].waiting == 1,
        states[0].outgoing@[table::at(states[0].flying.rows(), id).token].handoff == Some(number),
        state::answered(states.last(), id, true, now, events),
    ensures
        forall|i: int| 0 <= i < told.len() ==> (#[trigger] told[i]).len() == 0,
        events.len() == 1,
        events[0] == (TransportEvent::Handed {
            peer_ik: states[0].outgoing@[table::at(states[0].flying.rows(), id).token].peer_ik,
            via: Transport::Nostr,
            handoff: number,
        }),
{
    lemma_refusals_short_of_all_tell_nothing(states, said, told);
    assert(table::holds(states.last().flying.rows(), id));
    lemma_a_part_is_taken(states.last(), id, now, events);
}

/// A frame takes off with every one of its parts: each is on its way, given to all
/// the relays and refused by none.
pub proof fn lemma_every_part_takes_off(
    flying: Seq<(Seq<char>, Flying)>,
    ids: Seq<Seq<char>>,
    token: u64,
    relays: usize,
    n: nat,
)
    requires
        table::distinct(flying),
        n <= ids.len(),
    ensures
        table::distinct(state::launched(flying, ids, token, relays, n)),
        forall|i: int|
            0 <= i < n ==> {
                let part = table::at(state::launched(flying, ids, token, relays, n), #[trigger] ids[i]);
                &&& table::holds(state::launched(flying, ids, token, relays, n), ids[i])
                &&& part.token == token
                &&& part.answers == 0
                &&& part.relays == relays
            },
    decreases n,
{
    if n > 0 {
        let m = (n - 1) as nat;
        lemma_every_part_takes_off(flying, ids, token, relays, m);
        let before = state::launched(flying, ids, token, relays, m);
        table::lemma_put(before, ids[n - 1], Flying { token, answers: 0, relays });
    }
}

/// A frame that takes off leaves every part that is not of it as it was.
pub proof fn lemma_other_parts_stay(
    flying: Seq<(Seq<char>, Flying)>,
    ids: Seq<Seq<char>>,
    token: u64,
    relays: usize,
    n: nat,
    p: Seq<char>,
)
    requires
        table::distinct(flying),
        n <= ids.len(),
        forall|i: int| 0 <= i < n ==> #[trigger] ids[i] != p,
    ensures
        table::holds(state::launched(flying, ids, token, relays, n), p) == table::holds(flying, p),
        table::holds(flying, p) ==> table::at(state::launched(flying, ids, token, relays, n), p)
            == table::at(flying, p),
    decreases n,
{
    if n > 0 {
        let m = (n - 1) as nat;
        lemma_other_parts_stay(flying, ids, token, relays, m, p);
        lemma_every_part_takes_off(flying, ids, token, relays, m);
        let before = state::launched(flying, ids, token, relays, m);
        table::lemma_put(before, ids[n - 1], Flying { token, answers: 0, relays });
        assert(ids[n - 1] != p);
    }
}

/// A frame was put on the books, with each of its parts given to so many relays.
pub open spec fn booked(
    before: State,
    now: State,
    token: u64,
    frame: Outgoing,
    ids: Seq<Seq<char>>,
    relays: usize,
) -> bool {
    &&& now.flying.rows() == state::launched(before.flying.rows(), ids, token, relays, ids.len())
    &&& now.outgoing@ == before.outgoing@.insert(token, frame)
}

/// A frame is handed over with the last of its parts and not before: where relays
/// take its parts one after the other, nothing is told until the last is taken, and
/// that it is handed over is told then, to whom and under what number it was sent.
pub proof fn lemma_a_frame_is_handed_with_its_last_part(
    before: State,
    token: u64,
    frame: Outgoing,
    ids: Seq<Seq<char>>,
    relays: usize,
    states: Seq<State>,
    said: Seq<(Seq<char>, bool)>,
    told: Seq<Seq<TransportEvent>>,
)
    requires
        before.wf(),
        run_of(states, said, told),
        booked(before, states[0], token, frame, ids, relays),
        frame.waiting == ids.len(),
        forall|i: int, j: int| 0 <= i < j < ids.len() ==> ids[i] != ids[j],
        said.len() <= ids.len(),
        forall|i: int| 0 <= i < said.len() ==> #[trigger] said[i] == (ids[i], true),
    ensures
        forall|i: int| 0 <= i < told.len() && i < ids.len() - 1 ==> (#[trigger] told[i]).len() == 0,
        said.len() < ids.len() ==> states.last().outgoing@.contains_key(token)
            && states.last().outgoing@[token].waiting == ids.len() - said.len()
            && states.last().outgoing@[token].peer_ik == frame.peer_ik
            && states.last().outgoing@[token].handoff == frame.handoff,
        forall|i: int|
            said.len() <= i < ids.len() ==> table::holds(
                states.last().flying.rows(),
                #[trigger] ids[i],
            ) && table::at(states.last().flying.rows(), ids[i]).token == token,
        said.len() == ids.len() && ids.len() > 0 ==> {
            &&& !states.last().outgoing@.contains_key(token)
            &&& frame.handoff matches Some(number) ==> told.last().len() == 1 && told.last()[0] == (
            TransportEvent::Handed { peer_ik: frame.peer_ik, via: Transport::Nostr, handoff: number })
        },
    decreases said.len(),
{
    lemma_every_part_takes_off(before.flying.rows(), ids, token, relays, ids.len());
    if said.len() > 0 {
        let n = said.len() - 1;
        let earlier = states.drop_last();
        let fewer = said.drop_last();
        assert(run_of(earlier, fewer, told.drop_last())) by {
            assert forall|i: int| 0 <= i < fewer.len() implies (#[trigger] earlier[i]).wf()
                && state::answered(
                earlier[i],
                fewer[i].0,
                fewer[i].1,
                earlier[i + 1],
                told.drop_last()[i],
            ) by {
                assert(said[i] == fewer[i]);
            }
        }
        assert forall|i: int| 0 <= i < fewer.len() implies #[trigger] fewer[i] == (ids[i], true) by {
            assert(said[i] == fewer[i]);
        }
        lemma_a_frame_is_handed_with_its_last_part(
            before,
            token,
            frame,
            ids,
            relays,
            earlier,
            fewer,
            told.drop_last(),
        );
        assert(earlier.last() == states[n]);
        assert(said[n] == (ids[n], true));
        assert(table::holds(states[n].flying.rows(), ids[n]));
        lemma_a_part_is_taken(states[n], ids[n], states[n + 1], told[n]);
        assert(states.last() == states[n + 1]);
        assert forall|i: int| 0 <= i < told.len() && i < ids.len() - 1 implies (
        #[trigger] told[i]).len() == 0 by {
            if i < n {
                assert(told[i] == told.drop_last()[i]);
            }
        }
        assert forall|i: int| said.len() <= i < ids.len() implies table::holds(
            states.last().flying.rows(),
            #[trigger] ids[i],
        ) && table::at(states.last().flying.rows(), ids[i]).token == token by {
            assert(ids[n] != ids[i]);
            assert(table::holds(states[n].flying.rows(), ids[i]));
        }
    }
}

} // verus!
