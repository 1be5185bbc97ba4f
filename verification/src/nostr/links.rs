//! Which links there are once relays were asked for: which stay, which one goes,
//! and where a frame is put.

use crate::nostr::state;
use crate::nostr::state::{Link, Links, Opening};
use crate::table;
use vstd::prelude::*;

verus! {

/// The links to relays of other people are counted, and no others.
pub proof fn lemma_peers_are_counted(links: Links)
    ensures
        state::peer_count(links) == links.filter(|row: (Seq<char>, Link)| !row.1.own).len(),
        state::own_count(links) == links.filter(|row: (Seq<char>, Link)| row.1.own).len(),
    decreases links.len(),
{
    reveal(Seq::filter);
    if links.len() > 0 {
        lemma_peers_are_counted(links.drop_last());
    }
}

/// To make room, the link to a relay of other people goes that was used least
/// lately: no other of theirs was used before it, and all the rest stay in their
/// order. Where they have none, nothing goes.
pub proof fn lemma_the_least_used_goes(links: Links)
    ensures
        (exists|i: int| 0 <= i < links.len() && !(#[trigger] links[i]).1.own) ==> exists|i: int|
            {
                &&& 0 <= i < links.len()
                &&& !links[i].1.own
                &&& #[trigger] links.remove(i) == state::evicted(links)
                &&& forall|j: int|
                    0 <= j < links.len() && !(#[trigger] links[j]).1.own ==> links[i].1.used
                        <= links[j].1.used
            },
        (forall|i: int| 0 <= i < links.len() ==> (#[trigger] links[i]).1.own) ==> state::evicted(
            links,
        ) == links,
{
    lemma_oldest(links);
    if let Some(i) = state::oldest_peer(links) {
        assert(links.remove(i) == state::evicted(links));
    }
}

/// What `oldest_peer` says.
proof fn lemma_oldest(links: Links)
    ensures
        state::oldest_peer(links) matches Some(i) ==> 0 <= i < links.len() && !links[i].1.own
            && forall|j: int|
            0 <= j < links.len() && !(#[trigger] links[j]).1.own ==> links[i].1.used
                <= links[j].1.used,
        state::oldest_peer(links) is None ==> forall|j: int|
            0 <= j < links.len() ==> (#[trigger] links[j]).1.own,
    decreases links.len(),
{
    if links.len() > 0 {
        let fewer = links.drop_last();
        lemma_oldest(fewer);
        assert forall|j: int| 0 <= j < fewer.len() implies #[trigger] links[j] == fewer[j] by {
        }
    }
}

/// A relay that there is a link to keeps it: the link counts as used now, and is
/// otherwise as it was; so is every other.
pub proof fn lemma_a_link_is_kept(
    links: Links,
    uses: u64,
    how: Opening,
    url: Seq<char>,
    usable: bool,
)
    requires
        table::distinct(links),
        uses < u64::MAX,
        table::holds(links, url),
    ensures
        state::ensured(links, uses as int, how, url, usable).1,
        ({
            let now = state::ensured(links, uses as int, how, url, usable).0;
            let was = table::at(links, url);
            let link = table::at(now, url);
            &&& now.len() == links.len()
            &&& table::holds(now, url)
            &&& link.used == uses + 1
            &&& link.id == was.id
            &&& link.own == was.own
            &&& link.since == was.since
            &&& link.via_tor == was.via_tor
            &&& forall|other: Seq<char>|
                other != url ==> #[trigger] table::holds(now, other) == table::holds(links, other)
            &&& forall|other: Seq<char>|
                other != url && table::holds(links, other) ==> #[trigger] table::at(now, other)
                    == table::at(links, other)
        }),
{
    let used = (uses + 1) as u64;
    table::lemma_index_of(links, url);
    table::lemma_put(links, url, Link { used, ..table::at(links, url) });
}

/// No link is opened to an address of no use, nor where none is opened at all.
pub proof fn lemma_no_link_is_opened(
    links: Links,
    uses: u64,
    how: Opening,
    url: Seq<char>,
    usable: bool,
)
    requires
        !table::holds(links, url),
        !how.open || !usable,
    ensures
        !state::ensured(links, uses as int, how, url, usable).1,
        state::ensured(links, uses as int, how, url, usable).0 == links,
{
}

/// A link is opened to a relay that there is none to, as one of other people, under
/// a number of its own, with the settings of now. As long as there are fewer than
/// eight links to relays of other people, every other link is as it was.
pub proof fn lemma_a_link_is_opened(
    links: Links,
    uses: u64,
    how: Opening,
    url: Seq<char>,
)
    requires
        table::distinct(links),
        uses < u64::MAX,
        !table::holds(links, url),
        how.open,
    ensures
        state::ensured(links, uses as int, how, url, true).1,
        ({
            let now = state::ensured(links, uses as int, how, url, true).0;
            let link = table::at(now, url);
            &&& table::holds(now, url)
            &&& link.id == uses + 1
            &&& link.used == uses + 1
            &&& !link.own
            &&& link.since == how.since
            &&& link.via_tor == how.via_tor
            &&& links.filter(|row: (Seq<char>, Link)| !row.1.own).len() < 8 ==> {
                &&& forall|other: Seq<char>|
                    other != url ==> #[trigger] table::holds(now, other) == table::holds(
                        links,
                        other,
                    )
                &&& forall|other: Seq<char>|
                    other != url && table::holds(links, other) ==> #[trigger] table::at(now, other)
                        == table::at(links, other)
            }
        }),
{
    let used = (uses + 1) as u64;
    let fresh = Link { id: used, own: false, used, since: how.since, via_tor: how.via_tor };
    lemma_peers_are_counted(links);
    let room = if state::peer_count(links) >= 8 {
        state::evicted(links)
    } else {
        links
    };
    lemma_oldest(links);
    if state::peer_count(links) >= 8 {
        if let Some(i) = state::oldest_peer(links) {
            table::lemma_index_is(links, links[i].0, i);
            table::lemma_without(links, links[i].0);
        }
    }
    table::lemma_put(room, url, fresh);
}

/// Where there are eight links to relays of other people already, the one of them
/// that was used least lately makes room for the new one; every other link is as it
/// was.
pub proof fn lemma_room_is_made(links: Links, uses: u64, how: Opening, url: Seq<char>)
    requires
        table::distinct(links),
        uses < u64::MAX,
        !table::holds(links, url),
        how.open,
        links.filter(|row: (Seq<char>, Link)| !row.1.own).len() >= 8,
    ensures
        exists|i: int|
            {
                let now = state::ensured(links, uses as int, how, url, true).0;
                &&& 0 <= i < links.len()
                &&& !(#[trigger] links[i]).1.own
                &&& !table::holds(now, links[i].0)
                &&& forall|j: int|
                    0 <= j < links.len() && !(#[trigger] links[j]).1.own ==> links[i].1.used
                        <= links[j].1.used
                &&& forall|j: int|
                    0 <= j < links.len() && j != i ==> table::holds(now, (#[trigger] links[j]).0)
                        && table::at(now, links[j].0) == links[j].1
            },
{
    let used = (uses + 1) as u64;
    let fresh = Link { id: used, own: false, used, since: how.since, via_tor: how.via_tor };
    lemma_peers_are_counted(links);
    lemma_oldest(links);
    lemma_all_own(links);
    let i = state::oldest_peer(links)->0;
    table::lemma_index_is(links, links[i].0, i);
    table::lemma_without(links, links[i].0);
    table::lemma_index_of(links, url);
    let room = state::evicted(links);
    assert(room == table::without(links, links[i].0));
    table::lemma_put(room, url, fresh);
    let now = state::ensured(links, uses as int, how, url, true).0;
    assert forall|j: int| 0 <= j < links.len() && j != i implies table::holds(
        now,
        (#[trigger] links[j]).0,
    ) && table::at(now, links[j].0) == links[j].1 by {
        table::lemma_index_is(links, links[j].0, j);
        assert(links[j].0 != links[i].0) by {
            if i < j {
                assert(links[i].0 != links[j].0);
            } else {
                assert(links[j].0 != links[i].0);
            }
        }
        assert(table::holds(links, links[j].0));
        assert(links[j].0 != url);
    }
    assert(links[i].0 != url);
    assert(!links[i].1.own);
}

/// Where all are our own, none is counted as of other people.
proof fn lemma_all_own(links: Links)
    ensures
        (forall|j: int| 0 <= j < links.len() ==> (#[trigger] links[j]).1.own) ==> state::peer_count(
            links,
        ) == 0,
    decreases links.len(),
{
    if links.len() > 0 {
        lemma_all_own(links.drop_last());
        if forall|j: int| 0 <= j < links.len() ==> (#[trigger] links[j]).1.own {
            assert forall|j: int| 0 <= j < links.drop_last().len() implies (
            #[trigger] links.drop_last()[j]).1.own by {
                assert(links[j].1.own);
            }
            assert(links[links.len() - 1].1.own);
        }
    }
}

/// Of the relays that a peer names, every one of use is asked for where links are
/// opened, and nobody that was not named is.
pub proof fn lemma_useful_relays_are_asked(
    links: Links,
    uses: int,
    how: Opening,
    urls: Seq<Seq<char>>,
    usable: Seq<bool>,
    n: nat,
)
    requires
        n <= urls.len(),
        n <= usable.len(),
    ensures
        forall|i: int|
            0 <= i < n && how.open && usable[i] ==> state::named(
                links,
                uses,
                how,
                urls,
                usable,
                n,
            ).2.contains(#[trigger] urls[i]),
        forall|k: int|
            0 <= k < state::named(links, uses, how, urls, usable, n).2.len() ==> urls.take(
                n as int,
            ).contains(#[trigger] state::named(links, uses, how, urls, usable, n).2[k]),
    decreases n,
{
    if n > 0 {
        let m = (n - 1) as nat;
        lemma_useful_relays_are_asked(links, uses, how, urls, usable, m);
        let before = state::named(links, uses, how, urls, usable, m);
        let now = state::named(links, uses, how, urls, usable, n);
        let url = urls[n - 1];
        assert forall|i: int| 0 <= i < n && how.open && usable[i] implies now.2.contains(
            #[trigger] urls[i],
        ) by {
            if i < m {
                assert(before.2.contains(urls[i]));
                let k = choose|k: int| 0 <= k < before.2.len() && before.2[k] == urls[i];
                assert(now.2[k] == urls[i]);
            } else if !before.2.contains(url) {
                assert(state::ensured(before.0, before.1, how, url, usable[n - 1]).1);
                assert(now.2[before.2.len() as int] == url);
            }
        }
        assert forall|k: int| 0 <= k < now.2.len() implies urls.take(n as int).contains(
            #[trigger] now.2[k],
        ) by {
            if k < before.2.len() {
                assert(now.2[k] == before.2[k]);
                let j = choose|j: int|
                    0 <= j < urls.take(m as int).len() && urls.take(m as int)[j] == before.2[k];
                assert(urls.take(n as int)[j] == before.2[k]);
            } else {
                assert(urls.take(n as int)[m as int] == url);
            }
        }
    }
}

/// A frame is put on the links to the relays that were asked for, one link each,
/// in the order they were named; on no link that has gone since.
pub proof fn lemma_a_frame_is_put_on_the_links_asked_for(links: Links, urls: Seq<Seq<char>>)
    ensures
        state::ids_of(links, urls) == urls.filter(
            |url: Seq<char>| table::holds(links, url),
        ).map_values(|url: Seq<char>| table::at(links, url).id),
    decreases urls.len(),
{
    reveal(Seq::filter);
    let there = |url: Seq<char>| table::holds(links, url);
    let number = |url: Seq<char>| table::at(links, url).id;
    if urls.len() > 0 {
        lemma_a_frame_is_put_on_the_links_asked_for(links, urls.drop_last());
        let before = urls.drop_last().filter(there);
        assert(before.push(urls.last()).map_values(number) =~= before.map_values(number).push(
            number(urls.last()),
        ));
    }
    assert(state::ids_of(links, urls) =~= urls.filter(there).map_values(number));
}

/// Where a peer names no relays, a frame is put on every link of our own and on no
/// other.
pub proof fn lemma_own_links_are_used(links: Links)
    ensures
        state::own_ids(links) == links.filter(|row: (Seq<char>, Link)| row.1.own).map_values(
            |row: (Seq<char>, Link)| row.1.id,
        ),
    decreases links.len(),
{
    reveal(Seq::filter);
    let own = |row: (Seq<char>, Link)| row.1.own;
    let number = |row: (Seq<char>, Link)| row.1.id;
    if links.len() > 0 {
        lemma_own_links_are_used(links.drop_last());
        let before = links.drop_last().filter(own);
        assert(before.push(links.last()).map_values(number) =~= before.map_values(number).push(
            number(links.last()),
        ));
    }
    assert(state::own_ids(links) =~= links.filter(own).map_values(number));
}

/// Opened anew, there is a link of our own to each of the first relays of ours, with
/// the settings of now, and to no other relay; each has a number that no link had
/// before.
pub proof fn lemma_own_links_are_raised(
    urls: Seq<Seq<char>>,
    uses: u64,
    since: u64,
    via_tor: bool,
    n: nat,
    url: Seq<char>,
)
    requires
        n <= urls.len(),
        uses + n <= u64::MAX,
    ensures
        table::distinct(state::raised(urls, uses as int, since, via_tor, n)),
        table::holds(state::raised(urls, uses as int, since, via_tor, n), url) <==> urls.take(
            n as int,
        ).contains(url),
        table::holds(state::raised(urls, uses as int, since, via_tor, n), url) ==> {
            let link = table::at(state::raised(urls, uses as int, since, via_tor, n), url);
            &&& link.own
            &&& link.since == since
            &&& link.via_tor == via_tor
            &&& uses < link.id <= uses + n
            &&& link.used == link.id
            &&& urls[link.id - uses - 1] == url
        },
    decreases n,
{
    let now = state::raised(urls, uses as int, since, via_tor, n);
    if n > 0 {
        let m = (n - 1) as nat;
        lemma_own_links_are_raised(urls, uses, since, via_tor, m, url);
        let before = state::raised(urls, uses as int, since, via_tor, m);
        let used = (uses + n) as u64;
        table::lemma_put(before, urls[n - 1], Link { id: used, own: true, used, since, via_tor });
        if urls.take(n as int).contains(url) {
            let k = choose|k: int| 0 <= k < n && urls.take(n as int)[k] == url;
            if k < m {
                assert(urls.take(m as int)[k] == url);
            }
        }
        if urls.take(m as int).contains(url) {
            let k = choose|k: int| 0 <= k < m && urls.take(m as int)[k] == url;
            assert(urls.take(n as int)[k] == url);
        }
        assert(urls.take(n as int)[m as int] == urls[n - 1]);
    }
}

/// Of our own relays the first eight are read, or all where there are fewer; none
/// while the transport is off or has no key.
pub proof fn lemma_eight_relays_are_read(now: state::State, uses: u64)
    ensures
        now.relays@.len() <= 8 ==> state::raised_count(now.relays@.len()) == now.relays@.len(),
        now.relays@.len() >= 8 ==> state::raised_count(now.relays@.len()) == 8,
        now.key is None || !now.enabled ==> state::reopened(now, uses).len() == 0
            && state::uses_reopened(now, uses) == uses,
        now.key is Some && now.enabled ==> state::reopened(now, uses) == state::raised(
            state::texts(now.relays@),
            uses as int,
            now.since,
            now.via_tor,
            state::raised_count(now.relays@.len()),
        ) && state::uses_reopened(now, uses) == uses + state::raised_count(now.relays@.len()),
{
}

/// Relays are asked for in the order that the peer names them: what further names
/// come to stands behind what the first came to.
pub proof fn lemma_relays_are_asked_in_order(
    links: Links,
    uses: int,
    how: Opening,
    urls: Seq<Seq<char>>,
    usable: Seq<bool>,
    m: nat,
    n: nat,
)
    requires
        m <= n,
    ensures
        state::named(links, uses, how, urls, usable, m).2.is_prefix_of(
            state::named(links, uses, how, urls, usable, n).2,
        ),
        state::named(links, uses, how, urls, usable, m).1 <= state::named(
            links,
            uses,
            how,
            urls,
            usable,
            n,
        ).1,
    decreases n,
{
    if m < n {
        lemma_relays_are_asked_in_order(links, uses, how, urls, usable, m, (n - 1) as nat);
    }
}

} // verus!
