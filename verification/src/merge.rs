//! Reducing the partial aggregates of all workers to one, ordered by
//! station name.
//!
//! The entries are gathered in a hash map of the standard library that
//! hashes with `ahash`, and then laid out in ascending order of their keys.

use crate::aggregate::{
    absorb, absorb_all, all_valid, lemma_absorb_total, lemma_absorb_valid, lemma_listed_total,
    lemma_total_split, listing, listing_total, lists, map_total, ResultEntry,
};
use crate::order::{key_less, lemma_lex_asymmetric, lemma_lex_total, lemma_lex_transitive, lex_less};
use crate::stat::{Stat, MAX_COUNT};
use std::collections::HashMap;
use vstd::prelude::*;
use vstd::slice::slice_to_vec;

verus! {

/// The most stations for which a map is given room in advance.
pub const MAX_RESERVED: usize = 65536;

/// The number of stations for which [`merge`] makes room in advance.
pub const EXPECTED_STATIONS: usize = 413;

/// The seeds of the hasher. They are fixed: the report depends on none of
/// them, and a map made from them needs no source of randomness.
pub const SEEDS: (u64, u64, u64, u64) = (
    0x243f_6a88_85a3_08d3,
    0x1319_8a2e_0370_7344,
    0xa409_3822_299f_31d0,
    0x082e_fa98_ec4e_6c89,
);

/// The hasher state of `ahash`, `ahash::RandomState`. It is carried from
/// where it is made into the map and never looked into.
#[verifier::external_type_specification]
#[verifier::external_body]
pub struct ExRandomState(ahash::RandomState);

/// The map in which the merger gathers the stations.
pub type StationMap = HashMap<Vec<u8>, Stat, ahash::RandomState>;

/// The stations that a map holds, each with its statistics.
pub uninterp spec fn stations_of(map: StationMap) -> Map<Seq<u8>, Stat>;

/// The hasher state for the given four seeds.
///
/// Trusted: calls `ahash::RandomState::with_seeds`, which keeps the four
/// seeds, each combined with a constant of its own, and reads nothing else.
/// Nothing is claimed of the state.
#[verifier::external_body]
fn seeded_state(k0: u64, k1: u64, k2: u64, k3: u64) -> (state: ahash::RandomState) {
    ahash::RandomState::with_seeds(k0, k1, k2, k3)
}

/// An empty map with room for `capacity` stations.
///
/// Trusted: calls `HashMap::with_capacity_and_hasher` of the standard
/// library, which creates an empty map that hashes with the given state.
#[verifier::external_body]
fn empty_station_map(capacity: usize, state: ahash::RandomState) -> (made: StationMap)
    requires
        capacity <= MAX_RESERVED,
    ensures
        forall|station: Seq<u8>| !stations_of(made).contains_key(station),
{
    HashMap::with_capacity_and_hasher(capacity, state)
}

/// The statistics that the map holds for `station`, if it holds any.
///
/// Trusted: calls `HashMap::get` of the standard library, which returns
/// the value of the key that equals `station` byte for byte, and `None`
/// where the map has no such key.
#[verifier::external_body]
fn station_map_get(map: &StationMap, station: &[u8]) -> (held: Option<Stat>)
    ensures
        held == if stations_of(*map).contains_key(station@) {
            Some(stations_of(*map)[station@])
        } else {
            None
        },
{
    map.get(station).copied()
}

/// Sets the statistics that the map holds for `station`.
///
/// Trusted: calls `HashMap::insert` of the standard library, which maps
/// the key to the value, replacing the value of an equal key, and leaves
/// every other key as it was.
#[verifier::external_body]
fn station_map_insert(map: &mut StationMap, station: Vec<u8>, stat: Stat)
    ensures
        stations_of(*final(map)) == stations_of(*old(map)).insert(station@, stat),
{
    map.insert(station, stat);
}

/// The stations of the map with their statistics, in no particular order.
///
/// Trusted: calls `HashMap::into_iter` of the standard library, which
/// visits every key of the map once with its value, in an order that is
/// not specified, and moves each pair into an entry.
#[verifier::external_body]
fn station_map_entries(map: StationMap) -> (entries: Vec<ResultEntry>)
    ensures
        lists(listing(entries@), stations_of(map)),
{
    map.into_iter().map(|(key, value)| ResultEntry { key, value }).collect()
}

/// The stations of the listing stand in strictly ascending order.
pub open spec fn ascending(list: Seq<(Seq<u8>, Stat)>) -> bool {
    forall|i: int, j: int| 0 <= i < j < list.len() ==> lex_less(list[i].0, list[j].0)
}

/// The aggregate of all the entries, taken in one after the other.
pub open spec fn merged(list: Seq<(Seq<u8>, Stat)>) -> Map<Seq<u8>, Stat> {
    absorb_all(Map::empty(), list)
}

/// The entries can be merged: each holds valid statistics, and together
/// they stand for no more than `MAX_COUNT` readings.
pub open spec fn mergeable(list: Seq<(Seq<u8>, Stat)>) -> bool {
    &&& forall|i: int| 0 <= i < list.len() ==> (#[trigger] list[i]).1.valid()
    &&& listing_total(list) <= MAX_COUNT
}

/// The total of the first entries and one more is the total of one entry
/// more.
pub proof fn lemma_total_step(list: Seq<(Seq<u8>, Stat)>, upto: int)
    requires
        0 <= upto < list.len(),
    ensures
        listing_total(list.take(upto + 1)) == listing_total(list.take(upto)) + list[upto].1.count,
        absorb_all(Map::empty(), list.take(upto + 1)) == absorb(
            absorb_all(Map::empty(), list.take(upto)),
            list[upto].0,
            list[upto].1,
        ),
{
    assert(list.take(upto + 1).drop_last() =~= list.take(upto));
}

/// The total of the first entries is no more than the total of all.
pub proof fn lemma_total_monotone(list: Seq<(Seq<u8>, Stat)>, upto: int)
    requires
        0 <= upto <= list.len(),
    ensures
        listing_total(list.take(upto)) <= listing_total(list),
    decreases list.len() - upto,
{
    if upto < list.len() {
        lemma_total_step(list, upto);
        lemma_total_monotone(list, upto + 1);
    } else {
        assert(list.take(upto) =~= list);
    }
}

/// Whether the entries can be merged.
pub fn can_merge(entries: &[ResultEntry]) -> (ok: bool)
    ensures
        ok == mergeable(listing(entries@)),
{
    let ghost list = listing(entries@);
    let mut total: u64 = 0;
    let mut at: usize = 0;
    assert(list.take(0) =~= Seq::<(Seq<u8>, Stat)>::empty());
    while at < entries.len()
        invariant
            at <= entries@.len(),
            list == listing(entries@),
            forall|i: int| 0 <= i < at ==> (#[trigger] list[i]).1.valid(),
            total == listing_total(list.take(at as int)),
            total <= MAX_COUNT,
        decreases entries@.len() - at,
    {
        let stat = entries[at].value;
        assert(stat == list[at as int].1);
        proof {
            lemma_total_step(list, at as int);
            lemma_total_monotone(list, at as int + 1);
        }
        if !stat.is_valid() {
            return false;
        }
        if stat.count > MAX_COUNT - total {
            return false;
        }
        total = total + stat.count;
        at = at + 1;
    }
    assert(list.take(at as int) =~= list);
    true
}

/// The aggregate after the first entries is finite and valid, and stands
/// for as many readings as those entries.
pub proof fn lemma_merged_prefix(list: Seq<(Seq<u8>, Stat)>, upto: int)
    requires
        mergeable(list),
        0 <= upto <= list.len(),
    ensures
        merged(list.take(upto)).dom().finite(),
        all_valid(merged(list.take(upto))),
        map_total(merged(list.take(upto))) == listing_total(list.take(upto)),
    decreases upto,
{
    if upto == 0 {
        assert(list.take(0) =~= Seq::<(Seq<u8>, Stat)>::empty());
        assert(merged(list.take(0)).dom() =~= Set::<Seq<u8>>::empty());
    } else {
        let before = merged(list.take(upto - 1));
        let (station, stat) = list[upto - 1];
        lemma_merged_prefix(list, upto - 1);
        lemma_total_step(list, upto - 1);
        lemma_total_monotone(list, upto);
        if before.contains_key(station) {
            lemma_total_split(before, station);
        }
        lemma_absorb_valid(before, station, stat);
        lemma_absorb_total(before, station, stat);
    }
}

/// Merging mergeable entries gives a finite aggregate of valid statistics
/// that stands for as many readings as the entries do.
pub proof fn lemma_merged_total(list: Seq<(Seq<u8>, Stat)>)
    requires
        mergeable(list),
    ensures
        merged(list).dom().finite(),
        all_valid(merged(list)),
        map_total(merged(list)) == listing_total(list),
{
    lemma_merged_prefix(list, list.len() as int);
    assert(list.take(list.len() as int) =~= list);
}

/// Taking in two entries does not depend on which is taken in first.
proof fn lemma_absorb_swap(
    tally: Map<Seq<u8>, Stat>,
    first: (Seq<u8>, Stat),
    second: (Seq<u8>, Stat),
)
    requires
        tally.dom().finite(),
        all_valid(tally),
        first.1.valid(),
        second.1.valid(),
        map_total(tally) + first.1.count + second.1.count <= MAX_COUNT,
    ensures
        absorb(absorb(tally, first.0, first.1), second.0, second.1) == absorb(
            absorb(tally, second.0, second.1),
            first.0,
            first.1,
        ),
{
    crate::stat::lemma_sum_bounds(first.1);
    crate::stat::lemma_sum_bounds(second.1);
    if tally.contains_key(first.0) {
        lemma_total_split(tally, first.0);
        crate::stat::lemma_sum_bounds(tally[first.0]);
    }
    if tally.contains_key(second.0) {
        lemma_total_split(tally, second.0);
        crate::stat::lemma_sum_bounds(tally[second.0]);
    }
    assert(absorb(absorb(tally, first.0, first.1), second.0, second.1) =~= absorb(
        absorb(tally, second.0, second.1),
        first.0,
        first.1,
    ));
}

/// The total of a listing is the count of any one entry and the total of
/// the others.
proof fn lemma_total_remove(list: Seq<(Seq<u8>, Stat)>, index: int)
    requires
        0 <= index < list.len(),
    ensures
        listing_total(list) == listing_total(list.remove(index)) + list[index].1.count,
    decreases list.len(),
{
    if index == list.len() - 1 {
        assert(list.remove(index) =~= list.drop_last());
    } else {
        lemma_total_remove(list.drop_last(), index);
        assert(list.remove(index).drop_last() =~= list.drop_last().remove(index));
    }
}

/// Any one entry can be taken in last.
proof fn lemma_absorb_remove(list: Seq<(Seq<u8>, Stat)>, index: int)
    requires
        mergeable(list),
        0 <= index < list.len(),
    ensures
        mergeable(list.remove(index)),
        merged(list) == absorb(merged(list.remove(index)), list[index].0, list[index].1),
    decreases list.len(),
{
    let others = list.remove(index);
    lemma_total_remove(list, index);
    assert forall|i: int| 0 <= i < others.len() implies (#[trigger] others[i]).1.valid() by {
        if i < index {
            assert(others[i] == list[i]);
        } else {
            assert(others[i] == list[i + 1]);
        }
    }
    if index == list.len() - 1 {
        assert(others =~= list.drop_last());
    } else {
        let front = list.drop_last();
        let last = list.last();
        assert(list.take(list.len() - 1) =~= front);
        lemma_total_monotone(list, list.len() - 1);
        assert forall|i: int| 0 <= i < front.len() implies (#[trigger] front[i]).1.valid() by {
            assert(front[i] == list[i]);
        }
        lemma_absorb_remove(front, index);
        let rest = front.remove(index);
        assert(others.drop_last() =~= rest);
        assert(others.last() == last);
        lemma_merged_total(rest);
        lemma_total_remove(front, index);
        lemma_absorb_swap(merged(rest), front[index], last);
    }
}

/// The law of the order of arrival: entries that can be merged give the
/// same aggregate in whatever order they are taken in.
pub proof fn lemma_merge_any_order(a: Seq<(Seq<u8>, Stat)>, b: Seq<(Seq<u8>, Stat)>)
    requires
        mergeable(a),
        a.to_multiset() == b.to_multiset(),
    ensures
        mergeable(b),
        merged(a) == merged(b),
        listing_total(a) == listing_total(b),
    decreases a.len(),
{
    vstd::seq_lib::to_multiset_len(a);
    vstd::seq_lib::to_multiset_len(b);
    if a.len() == 0 {
        assert(a =~= b);
    } else {
        let last = a.last();
        let front = a.drop_last();
        assert(a[a.len() - 1] == last);
        vstd::seq_lib::to_multiset_contains(a, last);
        vstd::seq_lib::to_multiset_contains(b, last);
        let index = choose|index: int| 0 <= index < b.len() && b[index] == last;
        let others = b.remove(index);
        vstd::seq_lib::to_multiset_remove(a, a.len() - 1);
        vstd::seq_lib::to_multiset_remove(b, index);
        assert(a.remove(a.len() - 1) =~= front);
        assert(a.take(a.len() - 1) =~= front);
        lemma_total_monotone(a, a.len() - 1);
        assert forall|i: int| 0 <= i < front.len() implies (#[trigger] front[i]).1.valid() by {
            assert(front[i] == a[i]);
        }
        lemma_merge_any_order(front, others);
        lemma_total_remove(b, index);
        assert forall|i: int| 0 <= i < b.len() implies (#[trigger] b[i]).1.valid() by {
            if i < index {
                assert(others[i] == b[i]);
            } else if i > index {
                assert(others[i - 1] == b[i]);
            }
        }
        lemma_absorb_remove(b, index);
    }
}

/// The listing of an aggregate in ascending order of its stations.
pub open spec fn canonical(tally: Map<Seq<u8>, Stat>) -> Seq<(Seq<u8>, Stat)> {
    choose|list: Seq<(Seq<u8>, Stat)>| ascending(list) && lists(list, tally)
}

/// An aggregate has no more than one ascending listing.
pub proof fn lemma_ascending_unique(
    a: Seq<(Seq<u8>, Stat)>,
    b: Seq<(Seq<u8>, Stat)>,
    tally: Map<Seq<u8>, Stat>,
)
    requires
        ascending(a),
        lists(a, tally),
        ascending(b),
        lists(b, tally),
    ensures
        a == b,
    decreases a.len(),
{
    lemma_listed_total(a, tally);
    lemma_listed_total(b, tally);
    if a.len() > 0 {
        let last = a.len() - 1;
        let station = a[last].0;
        if station != b[last].0 {
            assert(tally.contains_key(station));
            let j = choose|j: int| 0 <= j < b.len() && b[j].0 == station;
            assert(lex_less(b[j].0, b[last].0));
            assert(tally.contains_key(b[last].0));
            let i = choose|i: int| 0 <= i < a.len() && a[i].0 == b[last].0;
            assert(lex_less(a[i].0, a[last].0));
            lemma_lex_asymmetric(station, b[last].0);
        }
        crate::aggregate::lemma_lists_drop_last(a, tally);
        crate::aggregate::lemma_lists_drop_last(b, tally);
        assert(ascending(a.drop_last()));
        assert(ascending(b.drop_last()));
        lemma_ascending_unique(a.drop_last(), b.drop_last(), tally.remove(station));
        assert(a =~= a.drop_last().push(a[last]));
        assert(b =~= b.drop_last().push(b[last]));
    } else {
        assert(a =~= b);
    }
}

/// An ascending listing of an aggregate is its canonical listing.
pub proof fn lemma_canonical(list: Seq<(Seq<u8>, Stat)>, tally: Map<Seq<u8>, Stat>)
    requires
        ascending(list),
        lists(list, tally),
    ensures
        canonical(tally) == list,
{
    lemma_ascending_unique(canonical(tally), list, tally);
}

/// An entry put into an ascending listing behind the smaller keys and
/// before the greater ones leaves the listing ascending, and adds nothing
/// but itself.
proof fn lemma_insert_ascending(
    before: Seq<(Seq<u8>, Stat)>,
    place: int,
    fresh: (Seq<u8>, Stat),
)
    requires
        ascending(before),
        0 <= place <= before.len(),
        forall|j: int| 0 <= j < place ==> lex_less(#[trigger] before[j].0, fresh.0),
        place < before.len() ==> !lex_less(before[place].0, fresh.0),
        forall|j: int| 0 <= j < before.len() ==> #[trigger] before[j].0 != fresh.0,
    ensures
        ascending(before.insert(place, fresh)),
        forall|entry: (Seq<u8>, Stat)| #[trigger]
            before.insert(place, fresh).contains(entry) <==> (entry == fresh || before.contains(
                entry,
            )),
{
    let after = before.insert(place, fresh);
    assert forall|j: int| place <= j < before.len() implies lex_less(
        fresh.0,
        #[trigger] before[j].0,
    ) by {
        assert(before[place].0 != fresh.0);
        lemma_lex_total(fresh.0, before[place].0);
        if j > place {
            assert(lex_less(before[place].0, before[j].0));
            lemma_lex_transitive(fresh.0, before[place].0, before[j].0);
        }
    }
    assert forall|i: int, j: int| 0 <= i < j < after.len() implies lex_less(
        after[i].0,
        after[j].0,
    ) by {
        if j < place {
            assert(lex_less(before[i].0, before[j].0));
        } else if j == place {
            assert(lex_less(before[i].0, fresh.0));
        } else if i < place {
            assert(lex_less(before[i].0, before[j - 1].0));
        } else if i == place {
            assert(lex_less(fresh.0, before[j - 1].0));
        } else {
            assert(lex_less(before[i - 1].0, before[j - 1].0));
        }
    }
    assert forall|entry: (Seq<u8>, Stat)| #[trigger]
        after.contains(entry) <==> (entry == fresh || before.contains(entry)) by {
        if after.contains(entry) {
            let j = choose|j: int| 0 <= j < after.len() && after[j] == entry;
            if j < place {
                assert(before[j] == entry);
            } else if j > place {
                assert(before[j - 1] == entry);
            }
        }
        if entry == fresh {
            assert(after[place] == entry);
        }
        if before.contains(entry) {
            let j = choose|j: int| 0 <= j < before.len() && before[j] == entry;
            if j < place {
                assert(after[j] == entry);
            } else {
                assert(after[j + 1] == entry);
            }
        }
    }
}

/// The first entries of a listing and one more hold what the first hold,
/// and that one.
proof fn lemma_take_contains(list: Seq<(Seq<u8>, Stat)>, upto: int)
    requires
        0 <= upto < list.len(),
    ensures
        forall|entry: (Seq<u8>, Stat)| #[trigger]
            list.take(upto + 1).contains(entry) <==> (entry == list[upto] || list.take(
                upto,
            ).contains(entry)),
{
    let shorter = list.take(upto);
    let longer = list.take(upto + 1);
    assert forall|entry: (Seq<u8>, Stat)| #[trigger]
        longer.contains(entry) <==> (entry == list[upto] || shorter.contains(entry)) by {
        if longer.contains(entry) {
            let j = choose|j: int| 0 <= j < longer.len() && longer[j] == entry;
            if j < upto {
                assert(shorter[j] == entry);
            }
        }
        if entry == list[upto] {
            assert(longer[upto] == entry);
        }
        if shorter.contains(entry) {
            let j = choose|j: int| 0 <= j < shorter.len() && shorter[j] == entry;
            assert(longer[j] == entry);
        }
    }
}

/// Lays the entries of a listing out in ascending order of their keys.
fn sort_entries(raw: &Vec<ResultEntry>) -> (sorted: Vec<ResultEntry>)
    requires
        forall|i: int, j: int|
            0 <= i < j < raw@.len() ==> listing(raw@)[i].0 != listing(raw@)[j].0,
    ensures
        ascending(listing(sorted@)),
        forall|entry: (Seq<u8>, Stat)| #[trigger]
            listing(sorted@).contains(entry) <==> listing(raw@).contains(entry),
{
    let ghost loose = listing(raw@);
    let mut sorted: Vec<ResultEntry> = Vec::with_capacity(raw.len());
    let mut taken: usize = 0;
    assert(loose.take(0) =~= Seq::<(Seq<u8>, Stat)>::empty());
    while taken < raw.len()
        invariant
            taken <= raw@.len(),
            loose == listing(raw@),
            forall|i: int, j: int| 0 <= i < j < loose.len() ==> loose[i].0 != loose[j].0,
            ascending(listing(sorted@)),
            forall|entry: (Seq<u8>, Stat)| #[trigger]
                listing(sorted@).contains(entry) <==> loose.take(taken as int).contains(entry),
        decreases raw@.len() - taken,
    {
        let entry = &raw[taken];
        let key = slice_to_vec(entry.key.as_slice());
        let ghost before = listing(sorted@);
        let ghost fresh = loose[taken as int];
        assert(fresh == (key@, entry.value));
        let mut place: usize = 0;
        while place < sorted.len() && key_less(sorted[place].key.as_slice(), key.as_slice())
            invariant
                place <= sorted@.len(),
                before == listing(sorted@),
                forall|j: int| 0 <= j < place ==> lex_less(#[trigger] before[j].0, key@),
            decreases sorted@.len() - place,
        {
            assert(before[place as int].0 == sorted@[place as int].key@);
            place = place + 1;
        }
        proof {
            if place < before.len() {
                assert(before[place as int].0 == sorted@[place as int].key@);
            }
            assert forall|j: int| 0 <= j < before.len() implies #[trigger] before[j].0
                != fresh.0 by {
                assert(before.contains(before[j]));
                let i = choose|i: int|
                    0 <= i < loose.take(taken as int).len() && loose.take(taken as int)[i]
                        == before[j];
                assert(loose[i].0 != loose[taken as int].0);
            }
            lemma_insert_ascending(before, place as int, fresh);
            lemma_take_contains(loose, taken as int);
        }
        sorted.insert(place, ResultEntry { key, value: entry.value });
        assert(listing(sorted@) =~= before.insert(place as int, fresh));
        taken = taken + 1;
    }
    assert(loose.take(taken as int) =~= loose);
    sorted
}

/// Merges the entries of all partial aggregates, in whatever order they
/// arrive, into one entry for each station, in ascending order of the
/// station names.
pub fn merge(entries: &[ResultEntry]) -> (done: Vec<ResultEntry>)
    requires
        mergeable(listing(entries@)),
    ensures
        ascending(listing(done@)),
        lists(listing(done@), merged(listing(entries@))),
        all_valid(merged(listing(entries@))),
        listing_total(listing(done@)) == listing_total(listing(entries@)),
{
    let ghost list = listing(entries@);
    let state = seeded_state(SEEDS.0, SEEDS.1, SEEDS.2, SEEDS.3);
    let mut map = empty_station_map(EXPECTED_STATIONS, state);
    let mut at: usize = 0;
    assert(list.take(0) =~= Seq::<(Seq<u8>, Stat)>::empty());
    assert(stations_of(map) =~= Map::<Seq<u8>, Stat>::empty());
    while at < entries.len()
        invariant
            at <= entries@.len(),
            list == listing(entries@),
            mergeable(list),
            stations_of(map) == merged(list.take(at as int)),
        decreases entries@.len() - at,
    {
        let entry = &entries[at];
        let ghost before = stations_of(map);
        assert(list[at as int] == (entry.key@, entry.value));
        proof {
            lemma_merged_prefix(list, at as int);
            lemma_merged_prefix(list, at as int + 1);
            lemma_total_step(list, at as int);
            lemma_total_monotone(list, at as int + 1);
            if before.contains_key(entry.key@) {
                lemma_total_split(before, entry.key@);
            }
        }
        let joined = match station_map_get(&map, entry.key.as_slice()) {
            Some(held) => held.combine(entry.value),
            None => entry.value,
        };
        station_map_insert(&mut map, slice_to_vec(entry.key.as_slice()), joined);
        at = at + 1;
    }
    assert(list.take(at as int) =~= list);
    let ghost total = stations_of(map);
    let raw = station_map_entries(map);
    let done = sort_entries(&raw);
    proof {
        lemma_merged_total(list);
        let sorted = listing(done@);
        let loose = listing(raw@);
        assert forall|i: int, j: int| 0 <= i < j < sorted.len() implies sorted[i].0
            != sorted[j].0 by {
            lemma_lex_asymmetric(sorted[i].0, sorted[j].0);
        }
        assert forall|j: int| 0 <= j < sorted.len() implies total.contains_key(
            #[trigger] sorted[j].0,
        ) && total[sorted[j].0] == sorted[j].1 by {
            assert(sorted.contains(sorted[j]));
            let i = choose|i: int| 0 <= i < loose.len() && loose[i] == sorted[j];
            assert(total.contains_key(loose[i].0));
        }
        assert forall|station: Seq<u8>| #[trigger] total.contains_key(station) implies exists|
            j: int,
        |
            0 <= j < sorted.len() && sorted[j].0 == station by {
            let i = choose|i: int| 0 <= i < loose.len() && loose[i].0 == station;
            assert(loose.contains(loose[i]));
            assert(sorted.contains(loose[i]));
            let j = choose|j: int| 0 <= j < sorted.len() && sorted[j] == loose[i];
            assert(sorted[j].0 == station);
        }
        lemma_listed_total(sorted, total);
    }
    done
}

} // verus!
