//! Aggregates as mathematics: a map from station to statistics, and the
//! listings that carry one from a worker to the merger.

use crate::stat::{
    is_temperature, lemma_join_valid, lemma_with_valid, stat_join, stat_of, stat_with, Stat,
    MAX_COUNT,
};
use vstd::prelude::*;

verus! {

/// One station with its statistics, the key owned.
#[derive(Clone, Debug, PartialEq, Eq)]
pub struct ResultEntry {
    pub key: Vec<u8>,
    pub value: Stat,
}

impl View for ResultEntry {
    type V = (Seq<u8>, Stat);

    /// The station and its statistics as plain values.
    open spec fn view(&self) -> (Seq<u8>, Stat) {
        (self.key@, self.value)
    }
}

/// The aggregate after one more reading of `station`.
pub open spec fn record(tally: Map<Seq<u8>, Stat>, station: Seq<u8>, tenths: int) -> Map<
    Seq<u8>,
    Stat,
> {
    if tally.contains_key(station) {
        tally.insert(station, stat_with(tally[station], tenths))
    } else {
        tally.insert(station, stat_of(tenths))
    }
}

/// The aggregate after taking in the statistics that another aggregate
/// holds for `station`.
pub open spec fn absorb(tally: Map<Seq<u8>, Stat>, station: Seq<u8>, stat: Stat) -> Map<
    Seq<u8>,
    Stat,
> {
    if tally.contains_key(station) {
        tally.insert(station, stat_join(tally[station], stat))
    } else {
        tally.insert(station, stat)
    }
}

/// Every station of the aggregate has valid statistics.
pub open spec fn all_valid(tally: Map<Seq<u8>, Stat>) -> bool {
    forall|station: Seq<u8>| #[trigger] tally.contains_key(station) ==> tally[station].valid()
}

/// The number of readings that the aggregate stands for: the sum of the
/// counts of its stations.
pub open spec fn map_total(tally: Map<Seq<u8>, Stat>) -> nat
    decreases tally.dom().len(),
    when tally.dom().finite()
{
    if tally.dom().len() == 0 {
        0
    } else {
        let station = tally.dom().choose();
        tally[station].count as nat + map_total(tally.remove(station))
    }
}

/// The stations and statistics of a vector of entries, as plain values.
pub open spec fn listing(entries: Seq<ResultEntry>) -> Seq<(Seq<u8>, Stat)> {
    Seq::new(entries.len(), |i: int| entries[i]@)
}

/// No station occurs twice in the listing.
pub open spec fn distinct_keys(list: Seq<(Seq<u8>, Stat)>) -> bool {
    forall|i: int, j: int| 0 <= i < j < list.len() ==> list[i].0 != list[j].0
}

/// The listing names each station of the aggregate once, with the
/// statistics that the aggregate holds for it, and nothing else.
pub open spec fn lists(list: Seq<(Seq<u8>, Stat)>, tally: Map<Seq<u8>, Stat>) -> bool {
    &&& distinct_keys(list)
    &&& forall|i: int|
        0 <= i < list.len() ==> tally.contains_key(#[trigger] list[i].0) && tally[list[i].0]
            == list[i].1
    &&& forall|station: Seq<u8>| #[trigger]
        tally.contains_key(station) ==> exists|i: int| 0 <= i < list.len() && list[i].0 == station
}

/// The sum of the counts of a listing.
pub open spec fn listing_total(list: Seq<(Seq<u8>, Stat)>) -> nat
    decreases list.len(),
{
    if list.len() == 0 {
        0
    } else {
        listing_total(list.drop_last()) + list.last().1.count as nat
    }
}

/// The aggregate that takes in the entries of a listing one after the
/// other, starting from `tally`.
pub open spec fn absorb_all(tally: Map<Seq<u8>, Stat>, list: Seq<(Seq<u8>, Stat)>) -> Map<
    Seq<u8>,
    Stat,
>
    decreases list.len(),
{
    if list.len() == 0 {
        tally
    } else {
        absorb(absorb_all(tally, list.drop_last()), list.last().0, list.last().1)
    }
}

/// The total of an aggregate is the count of any one station and the
/// total of the rest.
pub proof fn lemma_total_split(tally: Map<Seq<u8>, Stat>, station: Seq<u8>)
    requires
        tally.dom().finite(),
        tally.contains_key(station),
    ensures
        map_total(tally) == tally[station].count + map_total(tally.remove(station)),
    decreases tally.dom().len(),
{
    let chosen = tally.dom().choose();
    if chosen != station {
        let rest = tally.remove(chosen);
        lemma_total_split(rest, station);
        lemma_total_split(tally.remove(station), chosen);
        assert(rest.remove(station) =~= tally.remove(station).remove(chosen));
    }
}

/// One more reading adds one to the total.
pub proof fn lemma_record_total(tally: Map<Seq<u8>, Stat>, station: Seq<u8>, tenths: int)
    requires
        tally.dom().finite(),
        tally.contains_key(station) ==> tally[station].count < u64::MAX,
    ensures
        record(tally, station, tenths).dom().finite(),
        map_total(record(tally, station, tenths)) == map_total(tally) + 1,
{
    let after = record(tally, station, tenths);
    lemma_total_split(after, station);
    if tally.contains_key(station) {
        lemma_total_split(tally, station);
        assert(after.remove(station) =~= tally.remove(station));
    } else {
        assert(after.remove(station) =~= tally);
    }
}

/// Taking in the statistics of a station adds their count to the total.
pub proof fn lemma_absorb_total(tally: Map<Seq<u8>, Stat>, station: Seq<u8>, stat: Stat)
    requires
        tally.dom().finite(),
        tally.contains_key(station) ==> tally[station].count + stat.count <= u64::MAX,
    ensures
        absorb(tally, station, stat).dom().finite(),
        map_total(absorb(tally, station, stat)) == map_total(tally) + stat.count,
{
    let after = absorb(tally, station, stat);
    lemma_total_split(after, station);
    if tally.contains_key(station) {
        lemma_total_split(tally, station);
        assert(after.remove(station) =~= tally.remove(station));
    } else {
        assert(after.remove(station) =~= tally);
    }
}

/// An aggregate that a listing lists has finitely many stations, as many
/// as the listing has entries, and the listing's total.
pub proof fn lemma_listed_total(list: Seq<(Seq<u8>, Stat)>, tally: Map<Seq<u8>, Stat>)
    requires
        lists(list, tally),
    ensures
        tally.dom().finite(),
        tally.dom().len() == list.len(),
        map_total(tally) == listing_total(list),
    decreases list.len(),
{
    if list.len() == 0 {
        assert(tally.dom() =~= Set::<Seq<u8>>::empty());
    } else {
        let front = list.drop_last();
        let station = list.last().0;
        let rest = tally.remove(station);
        assert forall|other: Seq<u8>| #[trigger] rest.contains_key(other) implies exists|i: int|
            0 <= i < front.len() && front[i].0 == other by {
            let i = choose|i: int| 0 <= i < list.len() && list[i].0 == other;
            assert(front[i].0 == other);
        }
        assert forall|i: int| 0 <= i < front.len() implies rest.contains_key(
            #[trigger] front[i].0,
        ) && rest[front[i].0] == front[i].1 by {
            assert(list[i].0 == front[i].0);
        }
        assert(lists(front, rest));
        lemma_listed_total(front, rest);
        assert(tally.dom() =~= rest.dom().insert(station));
        lemma_total_split(tally, station);
    }
}

/// Nothing that is valid stops being so by one more reading, as long as
/// the counts stay below `MAX_COUNT`.
pub proof fn lemma_record_valid(tally: Map<Seq<u8>, Stat>, station: Seq<u8>, tenths: int)
    requires
        all_valid(tally),
        is_temperature(tenths),
        tally.contains_key(station) ==> tally[station].count < MAX_COUNT,
    ensures
        all_valid(record(tally, station, tenths)),
{
    if tally.contains_key(station) {
        lemma_with_valid(tally[station], tenths);
    }
}

/// Nothing that is valid stops being so by taking in valid statistics, as
/// long as the counts stay within `MAX_COUNT`.
pub proof fn lemma_absorb_valid(tally: Map<Seq<u8>, Stat>, station: Seq<u8>, stat: Stat)
    requires
        all_valid(tally),
        stat.valid(),
        tally.contains_key(station) ==> tally[station].count + stat.count <= MAX_COUNT,
    ensures
        all_valid(absorb(tally, station, stat)),
{
    if tally.contains_key(station) {
        lemma_join_valid(tally[station], stat);
    }
}

/// Two aggregates as one: a station that both hold has the statistics of
/// both joined, any other station the statistics that one of them holds.
pub open spec fn join(a: Map<Seq<u8>, Stat>, b: Map<Seq<u8>, Stat>) -> Map<Seq<u8>, Stat> {
    Map::new(
        |station: Seq<u8>| a.contains_key(station) || b.contains_key(station),
        |station: Seq<u8>|
            if a.contains_key(station) && b.contains_key(station) {
                stat_join(a[station], b[station])
            } else if a.contains_key(station) {
                a[station]
            } else {
                b[station]
            },
    )
}

/// A listing without its last entry lists the aggregate without that
/// entry's station.
pub proof fn lemma_lists_drop_last(list: Seq<(Seq<u8>, Stat)>, tally: Map<Seq<u8>, Stat>)
    requires
        lists(list, tally),
        list.len() > 0,
    ensures
        lists(list.drop_last(), tally.remove(list.last().0)),
        tally.contains_key(list.last().0),
        tally[list.last().0] == list.last().1,
{
    let front = list.drop_last();
    let rest = tally.remove(list.last().0);
    assert forall|other: Seq<u8>| #[trigger] rest.contains_key(other) implies exists|i: int|
        0 <= i < front.len() && front[i].0 == other by {
        let i = choose|i: int| 0 <= i < list.len() && list[i].0 == other;
        assert(front[i].0 == other);
    }
    assert forall|i: int| 0 <= i < front.len() implies rest.contains_key(#[trigger] front[i].0)
        && rest[front[i].0] == front[i].1 by {
        assert(list[i].0 == front[i].0);
    }
    assert(tally.contains_key(list[list.len() - 1].0));
}

/// One more reading can be taken into the joined aggregate or into its
/// second part: the outcome is the same.
pub proof fn lemma_record_join(
    a: Map<Seq<u8>, Stat>,
    b: Map<Seq<u8>, Stat>,
    station: Seq<u8>,
    tenths: int,
)
    requires
        all_valid(a),
        all_valid(b),
        is_temperature(tenths),
        a.contains_key(station) && b.contains_key(station) ==> a[station].count + b[station].count
            < MAX_COUNT,
    ensures
        record(join(a, b), station, tenths) == join(a, record(b, station, tenths)),
{
    if a.contains_key(station) {
        crate::stat::lemma_sum_bounds(a[station]);
    }
    if b.contains_key(station) {
        crate::stat::lemma_sum_bounds(b[station]);
    }
    assert(record(join(a, b), station, tenths) =~= join(a, record(b, station, tenths)));
}

/// Taking in, entry by entry, a listing of a second aggregate joins the
/// two aggregates.
pub proof fn lemma_absorb_listing(
    tally: Map<Seq<u8>, Stat>,
    list: Seq<(Seq<u8>, Stat)>,
    other: Map<Seq<u8>, Stat>,
)
    requires
        lists(list, other),
    ensures
        absorb_all(tally, list) == join(tally, other),
    decreases list.len(),
{
    if list.len() == 0 {
        assert(absorb_all(tally, list) =~= join(tally, other));
    } else {
        lemma_lists_drop_last(list, other);
        lemma_absorb_listing(tally, list.drop_last(), other.remove(list.last().0));
        assert(absorb_all(tally, list) =~= join(tally, other));
    }
}

/// Taking in two listings laid end to end is taking in the first and then
/// the second.
pub proof fn lemma_absorb_concat(
    tally: Map<Seq<u8>, Stat>,
    first: Seq<(Seq<u8>, Stat)>,
    second: Seq<(Seq<u8>, Stat)>,
)
    ensures
        absorb_all(tally, first + second) == absorb_all(absorb_all(tally, first), second),
    decreases second.len(),
{
    if second.len() == 0 {
        assert(first + second =~= first);
    } else {
        lemma_absorb_concat(tally, first, second.drop_last());
        assert((first + second).drop_last() =~= first + second.drop_last());
    }
}

/// The total of two listings laid end to end is the sum of their totals.
pub proof fn lemma_listing_total_concat(first: Seq<(Seq<u8>, Stat)>, second: Seq<(Seq<u8>, Stat)>)
    ensures
        listing_total(first + second) == listing_total(first) + listing_total(second),
    decreases second.len(),
{
    if second.len() == 0 {
        assert(first + second =~= first);
    } else {
        lemma_listing_total_concat(first, second.drop_last());
        assert((first + second).drop_last() =~= first + second.drop_last());
    }
}

/// Joining two aggregates does not depend on their order.
pub proof fn lemma_join_commutes(a: Map<Seq<u8>, Stat>, b: Map<Seq<u8>, Stat>)
    ensures
        join(a, b) == join(b, a),
{
    assert(join(a, b) =~= join(b, a));
}

/// Joining three aggregates does not depend on which two are joined
/// first, as long as the counts of a station stay within `MAX_COUNT`.
pub proof fn lemma_join_associates(
    a: Map<Seq<u8>, Stat>,
    b: Map<Seq<u8>, Stat>,
    c: Map<Seq<u8>, Stat>,
)
    requires
        all_valid(a),
        all_valid(b),
        all_valid(c),
        forall|station: Seq<u8>|
            a.contains_key(station) && b.contains_key(station) && c.contains_key(station)
                ==> a[station].count + b[station].count + c[station].count <= MAX_COUNT,
    ensures
        join(join(a, b), c) == join(a, join(b, c)),
{
    assert forall|station: Seq<u8>| #[trigger] join(join(a, b), c).contains_key(station) implies
        join(join(a, b), c)[station] == join(a, join(b, c))[station] by {
        if a.contains_key(station) {
            crate::stat::lemma_sum_bounds(a[station]);
        }
        if b.contains_key(station) {
            crate::stat::lemma_sum_bounds(b[station]);
        }
        if c.contains_key(station) {
            crate::stat::lemma_sum_bounds(c[station]);
        }
    }
    assert(join(join(a, b), c) =~= join(a, join(b, c)));
}

} // verus!
