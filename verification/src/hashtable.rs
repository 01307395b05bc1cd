//! An open-addressed table from byte-string keys to values.
//!
//! The table has a fixed, power-of-two number of slots and never grows or
//! forgets a key. A key is looked for from the slot that its hash names,
//! one slot at a time and around the end, until the key or an empty slot is
//! met.

use crate::aggregate::{listing, lists, record, ResultEntry};
use crate::error::Error;
use crate::hash::{fnv1a, fnv1a_update, lemma_fnv1a_extend, FNV_OFFSET};
use crate::stat::{is_temperature, Stat, MAX_COUNT};
use vstd::slice::slice_to_vec;
use vstd::prelude::*;

verus! {

/// The number of slots of a table made by [`HashTable::new`].
pub const INITIAL_CAPACITY: usize = 131072;

/// A key with its value, as one slot holds them.
#[derive(Debug)]
pub struct Entry<'a, T: Copy> {
    pub key: &'a [u8],
    pub value: T,
}

/// What a search for a key ended on.
enum Probe {
    /// The key is in this slot.
    Present(usize),
    /// The key is not in the table, and this empty slot is where it goes.
    Vacant(usize),
    /// The key is not in the table, and no slot is empty.
    Full,
}

/// Whether `capacity` is a power of two.
pub open spec fn is_power_of_two(capacity: usize) -> bool {
    capacity > 0 && capacity & ((capacity - 1) as usize) == 0
}

/// The slot at which the search for `key` starts.
pub open spec fn ideal_slot(key: Seq<u8>, capacity: usize) -> int {
    (fnv1a(key) & ((capacity - 1) as u64)) as int
}

/// The slot reached from `start` after `step` steps around the table.
pub open spec fn probe(start: int, step: int, capacity: int) -> int {
    if start + step < capacity {
        start + step
    } else {
        start + step - capacity
    }
}

/// The number of steps from `start` to `slot`, around the table.
pub open spec fn distance(start: int, slot: int, capacity: int) -> int {
    if slot >= start {
        slot - start
    } else {
        slot - start + capacity
    }
}

/// Whether slot `slot` holds `key`.
pub open spec fn holds<T: Copy>(slots: Seq<Option<Entry<T>>>, slot: int, key: Seq<u8>) -> bool {
    0 <= slot < slots.len() && slots[slot] is Some && slots[slot].unwrap().key@ == key
}

/// The slot that holds `key`, where one does.
pub open spec fn slot_of<T: Copy>(slots: Seq<Option<Entry<T>>>, key: Seq<u8>) -> int {
    choose|slot: int| holds(slots, slot, key)
}

/// The keys of the occupied slots, each with its value.
pub open spec fn contents<T: Copy>(slots: Seq<Option<Entry<T>>>) -> Map<Seq<u8>, T> {
    Map::new(
        |key: Seq<u8>| exists|slot: int| holds(slots, slot, key),
        |key: Seq<u8>| slots[slot_of(slots, key)].unwrap().value,
    )
}

/// Every slot between the ideal slot of the key in `slot` and `slot` itself
/// is occupied, so that a search for the key gets as far as `slot`.
pub open spec fn reachable<T: Copy>(slots: Seq<Option<Entry<T>>>, slot: int) -> bool {
    let start = ideal_slot(slots[slot].unwrap().key@, slots.len() as usize);
    forall|step: int|
        0 <= step < distance(start, slot, slots.len() as int) ==> (#[trigger] slots[probe(
            start,
            step,
            slots.len() as int,
        )]) is Some
}

/// No key is held twice, and each key can be reached from its ideal slot.
pub open spec fn probe_chains_intact<T: Copy>(slots: Seq<Option<Entry<T>>>) -> bool {
    &&& forall|a: int, b: int|
        0 <= a < slots.len() && 0 <= b < slots.len() && a != b && slots[a] is Some
            && slots[b] is Some ==> slots[a].unwrap().key@ != slots[b].unwrap().key@
    &&& forall|slot: int|
        0 <= slot < slots.len() && (#[trigger] slots[slot]) is Some ==> reachable(slots, slot)
}

/// The number of occupied slots.
pub open spec fn occupied<T: Copy>(slots: Seq<Option<Entry<T>>>) -> nat
    decreases slots.len(),
{
    if slots.len() == 0 {
        0
    } else if slots.last() is Some {
        occupied(slots.drop_last()) + 1
    } else {
        occupied(slots.drop_last())
    }
}

proof fn lemma_ideal_slot_in_range(hash: u64, capacity: u64)
    by (bit_vector)
    requires
        capacity > 0,
    ensures
        hash & ((capacity - 1) as u64) < capacity,
{
}

/// Filling or refilling one slot changes the number of occupied slots by
/// what that slot adds.
proof fn lemma_occupied_update<T: Copy>(slots: Seq<Option<Entry<T>>>, slot: int, entry: Entry<T>)
    requires
        0 <= slot < slots.len(),
    ensures
        occupied(slots.update(slot, Some(entry))) == occupied(slots) + if slots[slot] is Some {
            0nat
        } else {
            1nat
        },
    decreases slots.len(),
{
    let filled = slots.update(slot, Some(entry));
    if slot == slots.len() - 1 {
        assert(filled.drop_last() =~= slots.drop_last());
    } else {
        lemma_occupied_update(slots.drop_last(), slot, entry);
        assert(filled.drop_last() =~= slots.drop_last().update(slot, Some(entry)));
    }
}

/// The occupied slots are no more than the slots, and as many only where
/// every slot is occupied.
proof fn lemma_occupied_bounds<T: Copy>(slots: Seq<Option<Entry<T>>>)
    ensures
        occupied(slots) <= slots.len(),
        occupied(slots) == slots.len() <==> forall|slot: int|
            0 <= slot < slots.len() ==> (#[trigger] slots[slot]) is Some,
    decreases slots.len(),
{
    if slots.len() > 0 {
        let front = slots.drop_last();
        lemma_occupied_bounds(front);
        if occupied(slots) == slots.len() {
            assert forall|slot: int| 0 <= slot < slots.len() implies (#[trigger] slots[slot])
                is Some by {
                if slot < front.len() {
                    assert(front[slot] is Some);
                }
            }
        }
        if forall|slot: int| 0 <= slot < slots.len() ==> (#[trigger] slots[slot]) is Some {
            assert forall|slot: int| 0 <= slot < front.len() implies (#[trigger] front[slot])
                is Some by {
                assert(slots[slot] is Some);
            }
        }
    }
}

/// A table without an occupied slot holds nothing.
proof fn lemma_contents_of_empty<T: Copy>(slots: Seq<Option<Entry<T>>>)
    requires
        forall|slot: int| 0 <= slot < slots.len() ==> (#[trigger] slots[slot]) is None,
    ensures
        contents(slots) == Map::<Seq<u8>, T>::empty(),
        occupied(slots) == 0,
        probe_chains_intact(slots),
    decreases slots.len(),
{
    assert(contents(slots) =~= Map::<Seq<u8>, T>::empty());
    if slots.len() > 0 {
        let front = slots.drop_last();
        assert forall|slot: int| 0 <= slot < front.len() implies (#[trigger] front[slot])
            is None by {
            assert(slots[slot] is None);
        }
        lemma_contents_of_empty(front);
    }
}

/// What a slot holds is what the table maps its key to.
proof fn lemma_contents_at<T: Copy>(slots: Seq<Option<Entry<T>>>, slot: int)
    requires
        probe_chains_intact(slots),
        0 <= slot < slots.len(),
        slots[slot] is Some,
    ensures
        contents(slots).contains_key(slots[slot].unwrap().key@),
        contents(slots)[slots[slot].unwrap().key@] == slots[slot].unwrap().value,
        slot_of(slots, slots[slot].unwrap().key@) == slot,
{
    let key = slots[slot].unwrap().key@;
    assert(holds(slots, slot, key));
}

/// Putting `entry` into `slot`, which is empty or holds the same key, maps
/// the key to the entry's value and changes nothing else.
proof fn lemma_store<T: Copy>(slots: Seq<Option<Entry<T>>>, slot: int, entry: Entry<T>)
    requires
        probe_chains_intact(slots),
        0 <= slot < slots.len(),
        match slots[slot] {
            Some(held) => held.key@ == entry.key@,
            None => {
                &&& !contents(slots).contains_key(entry.key@)
                &&& forall|step: int|
                    0 <= step < distance(
                        ideal_slot(entry.key@, slots.len() as usize),
                        slot,
                        slots.len() as int,
                    ) ==> (#[trigger] slots[probe(
                        ideal_slot(entry.key@, slots.len() as usize),
                        step,
                        slots.len() as int,
                    )]) is Some
            },
        },
    ensures
        probe_chains_intact(slots.update(slot, Some(entry))),
        contents(slots.update(slot, Some(entry))) == contents(slots).insert(
            entry.key@,
            entry.value,
        ),
{
    let stored = slots.update(slot, Some(entry));
    let capacity = slots.len() as int;
    assert forall|a: int, b: int|
        0 <= a < stored.len() && 0 <= b < stored.len() && a != b && stored[a] is Some
            && stored[b] is Some implies stored[a].unwrap().key@ != stored[b].unwrap().key@ by {
        if a == slot && slots[slot] is None {
            assert(holds(slots, b, slots[b].unwrap().key@));
        }
        if b == slot && slots[slot] is None {
            assert(holds(slots, a, slots[a].unwrap().key@));
        }
    }
    assert forall|other: int|
        0 <= other < stored.len() && (#[trigger] stored[other]) is Some implies reachable(
        stored,
        other,
    ) by {
        let start = ideal_slot(stored[other].unwrap().key@, stored.len() as usize);
        assert forall|step: int| 0 <= step < distance(start, other, capacity) implies (
        #[trigger] stored[probe(start, step, capacity)]) is Some by {
            if other != slot || slots[slot] is Some {
                assert(slots[other] is Some);
                assert(reachable(slots, other));
            }
            assert(slots[probe(start, step, capacity)] is Some);
        }
    }
    assert forall|key: Seq<u8>|
        contents(stored).contains_key(key) <==> #[trigger] contents(slots).insert(
            entry.key@,
            entry.value,
        ).contains_key(key) by {
        if contents(stored).contains_key(key) {
            let at = choose|at: int| holds(stored, at, key);
            if at != slot {
                assert(holds(slots, at, key));
            }
        }
        if key == entry.key@ {
            assert(holds(stored, slot, key));
        } else if contents(slots).contains_key(key) {
            let at = choose|at: int| holds(slots, at, key);
            assert(holds(stored, at, key));
        }
    }
    assert forall|key: Seq<u8>| #[trigger] contents(stored).contains_key(key) implies contents(
        stored,
    )[key] == contents(slots).insert(entry.key@, entry.value)[key] by {
        let at = choose|at: int| holds(stored, at, key);
        lemma_contents_at(stored, at);
        if at != slot {
            assert(holds(slots, at, key));
            lemma_contents_at(slots, at);
        }
    }
    assert(contents(stored) =~= contents(slots).insert(entry.key@, entry.value));
}

/// Whether two byte strings are equal.
fn same_bytes(left: &[u8], right: &[u8]) -> (same: bool)
    ensures
        same == (left@ == right@),
{
    if left.len() != right.len() {
        return false;
    }
    let mut at: usize = 0;
    while at < left.len()
        invariant
            left@.len() == right@.len(),
            at <= left.len(),
            forall|i: int| 0 <= i < at ==> left@[i] == right@[i],
        decreases left.len() - at,
    {
        if left[at] != right[at] {
            return false;
        }
        at = at + 1;
    }
    assert(left@ =~= right@);
    true
}

/// A table from byte-string keys, borrowed for `'a`, to values of `T`.
#[derive(Debug)]
pub struct HashTable<'a, T: Copy> {
    entries: Vec<Option<Entry<'a, T>>>,
    capacity: usize,
    length: usize,
}

impl<'a, T: Copy> View for HashTable<'a, T> {
    type V = Map<Seq<u8>, T>;

    /// The keys held, each with its value.
    closed spec fn view(&self) -> Map<Seq<u8>, T> {
        contents(self.entries@)
    }
}

impl<'a, T: Copy> HashTable<'a, T> {
    /// The number of slots.
    pub closed spec fn slot_count(&self) -> nat {
        self.capacity as nat
    }

    /// The number of keys held.
    pub closed spec fn key_count(&self) -> nat {
        self.length as nat
    }

    /// The slots are a power of two in number, no key is held twice, every
    /// key can be reached from the slot that its hash names, and the keys
    /// held are counted.
    pub closed spec fn wf(&self) -> bool {
        &&& self.capacity == self.entries@.len()
        &&& is_power_of_two(self.capacity)
        &&& probe_chains_intact(self.entries@)
        &&& self.length == occupied(self.entries@)
        &&& self@.dom().finite()
        &&& self@.dom().len() == self.length
    }

    /// A well-formed table holds as many keys as `key_count` says, and no
    /// more than it has slots.
    pub proof fn lemma_key_count(&self)
        requires
            self.wf(),
        ensures
            self@.dom().finite(),
            self@.dom().len() == self.key_count(),
            self.key_count() <= self.slot_count(),
            self.slot_count() >= 1,
    {
        lemma_occupied_bounds(self.entries@);
    }

    /// An empty table of [`INITIAL_CAPACITY`] slots.
    pub fn new() -> (table: Self)
        ensures
            table.wf(),
            table@ == Map::<Seq<u8>, T>::empty(),
            table.slot_count() == INITIAL_CAPACITY,
            table.key_count() == 0,
    {
        assert(131072usize & 131071usize == 0) by (bit_vector);
        Self::filled_with_none(INITIAL_CAPACITY)
    }

    /// An empty table of `capacity` slots, where `capacity` is a power of
    /// two; `None` where it is not.
    pub fn with_capacity(capacity: usize) -> (made: Option<Self>)
        ensures
            made is Some <==> is_power_of_two(capacity),
            made matches Some(table) ==> {
                &&& table.wf()
                &&& table@ == Map::<Seq<u8>, T>::empty()
                &&& table.slot_count() == capacity
                &&& table.key_count() == 0
            },
    {
        if capacity == 0 || capacity & (capacity - 1) != 0 {
            return None;
        }
        Some(Self::filled_with_none(capacity))
    }

    fn filled_with_none(capacity: usize) -> (table: Self)
        requires
            is_power_of_two(capacity),
        ensures
            table.wf(),
            table@ == Map::<Seq<u8>, T>::empty(),
            table.slot_count() == capacity,
            table.key_count() == 0,
    {
        let mut entries: Vec<Option<Entry<'a, T>>> = Vec::with_capacity(capacity);
        let mut made: usize = 0;
        while made < capacity
            invariant
                made <= capacity,
                entries@.len() == made,
                forall|slot: int| 0 <= slot < made ==> (#[trigger] entries@[slot]) is None,
            decreases capacity - made,
        {
            entries.push(None);
            made = made + 1;
        }
        proof {
            lemma_contents_of_empty(entries@);
        }
        HashTable { entries, capacity, length: 0 }
    }

    /// The FNV-1a hash of `key`.
    pub fn hash_key(key: &[u8]) -> (hash: u64)
        ensures
            hash == fnv1a(key@),
    {
        let mut hash: u64 = FNV_OFFSET;
        let mut at: usize = 0;
        assert(key@.take(0) =~= Seq::<u8>::empty());
        while at < key.len()
            invariant
                at <= key.len(),
                hash == fnv1a(key@.take(at as int)),
            decreases key.len() - at,
        {
            proof {
                lemma_fnv1a_extend(key@, at as int);
            }
            hash = fnv1a_update(hash, key[at]);
            at = at + 1;
        }
        assert(key@.take(at as int) =~= key@);
        hash
    }

    /// Searches for `key`, whose hash is `hash`, from its ideal slot on.
    fn locate(&self, key: &[u8], hash: u64) -> (found: Probe)
        requires
            self.wf(),
            hash == fnv1a(key@),
        ensures
            match found {
                Probe::Present(slot) => holds(self.entries@, slot as int, key@),
                Probe::Vacant(slot) => {
                    &&& slot < self.entries@.len()
                    &&& self.entries@[slot as int] is None
                    &&& !self@.contains_key(key@)
                    &&& forall|step: int|
                        0 <= step < distance(
                            ideal_slot(key@, self.capacity),
                            slot as int,
                            self.capacity as int,
                        ) ==> (#[trigger] self.entries@[probe(
                            ideal_slot(key@, self.capacity),
                            step,
                            self.capacity as int,
                        )]) is Some
                },
                Probe::Full => !self@.contains_key(key@) && self.length == self.capacity,
            },
    {
        let capacity = self.capacity;
        proof {
            lemma_ideal_slot_in_range(hash, capacity as u64);
        }
        let start: usize = (hash & ((capacity - 1) as u64)) as usize;
        let mut slot: usize = start;
        let mut step: usize = 0;
        while step < capacity
            invariant
                self.wf(),
                capacity == self.capacity,
                start == ideal_slot(key@, capacity),
                0 <= start < capacity,
                step <= capacity,
                slot == probe(start as int, step as int, capacity as int),
                forall|earlier: int|
                    0 <= earlier < step ==> {
                        let passed = #[trigger] self.entries@[probe(
                            start as int,
                            earlier,
                            capacity as int,
                        )];
                        passed is Some && passed.unwrap().key@ != key@
                    },
            decreases capacity - step,
        {
            match &self.entries[slot] {
                None => {
                    proof {
                        self.lemma_absent_by_gap(key@, start as int, step as int);
                    }
                    return Probe::Vacant(slot);
                },
                Some(entry) => {
                    if same_bytes(entry.key, key) {
                        return Probe::Present(slot);
                    }
                },
            }
            slot = slot + 1;
            if slot >= capacity {
                slot = 0;
            }
            step = step + 1;
        }
        proof {
            self.lemma_absent_when_full(key@, start as int);
        }
        Probe::Full
    }

    /// A search that has passed `step` occupied slots holding other keys
    /// and now stands on an empty slot has shown that the key is absent.
    proof fn lemma_absent_by_gap(&self, key: Seq<u8>, start: int, step: int)
        requires
            self.wf(),
            start == ideal_slot(key, self.capacity),
            0 <= start < self.capacity,
            0 <= step < self.capacity,
            self.entries@[probe(start, step, self.capacity as int)] is None,
            forall|earlier: int|
                0 <= earlier < step ==> {
                    let passed = #[trigger] self.entries@[probe(
                        start,
                        earlier,
                        self.capacity as int,
                    )];
                    passed is Some && passed.unwrap().key@ != key
                },
        ensures
            !self@.contains_key(key),
            forall|earlier: int|
                0 <= earlier < distance(
                    start,
                    probe(start, step, self.capacity as int),
                    self.capacity as int,
                ) ==> (#[trigger] self.entries@[probe(start, earlier, self.capacity as int)])
                    is Some,
    {
        let slots = self.entries@;
        let capacity = self.capacity as int;
        if self@.contains_key(key) {
            let at = choose|at: int| holds(slots, at, key);
            let far = distance(start, at, capacity);
            assert(probe(start, far, capacity) == at);
            assert(reachable(slots, at));
            if step < far {
                assert(slots[probe(start, step, capacity)] is Some);
            } else if far < step {
                assert(slots[probe(start, far, capacity)].unwrap().key@ != key);
            }
        }
    }

    /// A search that has gone once around the table over occupied slots
    /// holding other keys has shown that the key is absent and the table
    /// full.
    proof fn lemma_absent_when_full(&self, key: Seq<u8>, start: int)
        requires
            self.wf(),
            0 <= start < self.capacity,
            forall|earlier: int|
                0 <= earlier < self.capacity ==> {
                    let passed = #[trigger] self.entries@[probe(
                        start,
                        earlier,
                        self.capacity as int,
                    )];
                    passed is Some && passed.unwrap().key@ != key
                },
        ensures
            !self@.contains_key(key),
            self.length == self.capacity,
    {
        let slots = self.entries@;
        let capacity = self.capacity as int;
        assert forall|slot: int| 0 <= slot < slots.len() implies (#[trigger] slots[slot]) is Some
            && slots[slot].unwrap().key@ != key by {
            let far = distance(start, slot, capacity);
            assert(probe(start, far, capacity) == slot);
        }
        lemma_occupied_bounds(slots);
        if self@.contains_key(key) {
            let at = choose|at: int| holds(slots, at, key);
            assert(slots[at].unwrap().key@ != key);
        }
    }

    /// The value that `key` maps to, if the table holds the key.
    pub fn get(&self, key: &[u8]) -> (value: Option<&T>)
        requires
            self.wf(),
        ensures
            match value {
                Some(held) => self@.contains_key(key@) && *held == self@[key@],
                None => !self@.contains_key(key@),
            },
    {
        let hash = Self::hash_key(key);
        match self.locate(key, hash) {
            Probe::Present(slot) => {
                proof {
                    lemma_contents_at(self.entries@, slot as int);
                }
                match &self.entries[slot] {
                    Some(entry) => Some(&entry.value),
                    None => None,
                }
            },
            _ => None,
        }
    }

    /// Maps `key` to `value`, whether or not the table held the key.
    /// Fails, and leaves the table as it was, only where the key is new
    /// and no slot is empty.
    pub fn set(&mut self, key: &'a [u8], value: T) -> (done: Result<(), Error>)
        requires
            old(self).wf(),
        ensures
            final(self).wf(),
            final(self).slot_count() == old(self).slot_count(),
            match done {
                Ok(()) => final(self)@ == old(self)@.insert(key@, value),
                Err(error) => error == Error::TableFull && final(self)@ == old(self)@,
            },
            done is Err <==> !old(self)@.contains_key(key@) && old(self).key_count() == old(
                self,
            ).slot_count(),
    {
        match self.set_entry(key, value) {
            Ok(_) => Ok(()),
            Err(error) => Err(error),
        }
    }

    /// Maps `key` to `value` and tells whether the key was there: the
    /// stored key where it was, `None` where it is new.
    pub fn set_entry(&mut self, key: &'a [u8], value: T) -> (done: Result<Option<&'a [u8]>, Error>)
        requires
            old(self).wf(),
        ensures
            final(self).wf(),
            final(self).slot_count() == old(self).slot_count(),
            match done {
                Ok(Some(stored)) => {
                    &&& old(self)@.contains_key(key@)
                    &&& stored@ == key@
                    &&& final(self)@ == old(self)@.insert(key@, value)
                    &&& final(self).key_count() == old(self).key_count()
                },
                Ok(None) => {
                    &&& !old(self)@.contains_key(key@)
                    &&& final(self)@ == old(self)@.insert(key@, value)
                    &&& final(self).key_count() == old(self).key_count() + 1
                },
                Err(error) => {
                    &&& error == Error::TableFull
                    &&& !old(self)@.contains_key(key@)
                    &&& old(self).key_count() == old(self).slot_count()
                    &&& final(self)@ == old(self)@
                    &&& final(self).key_count() == old(self).key_count()
                },
            },
            done is Err <==> !old(self)@.contains_key(key@) && old(self).key_count() == old(
                self,
            ).slot_count(),
    {
        let hash = Self::hash_key(key);
        let found = self.locate(key, hash);
        self.store(found, key, value)
    }

    /// Puts `key` with `value` where the search `found` it or found room
    /// for it.
    fn store(&mut self, found: Probe, key: &'a [u8], value: T) -> (done: Result<
        Option<&'a [u8]>,
        Error,
    >)
        requires
            old(self).wf(),
            match found {
                Probe::Present(slot) => holds(old(self).entries@, slot as int, key@),
                Probe::Vacant(slot) => {
                    &&& slot < old(self).entries@.len()
                    &&& old(self).entries@[slot as int] is None
                    &&& !old(self)@.contains_key(key@)
                    &&& forall|step: int|
                        0 <= step < distance(
                            ideal_slot(key@, old(self).capacity),
                            slot as int,
                            old(self).capacity as int,
                        ) ==> (#[trigger] old(self).entries@[probe(
                            ideal_slot(key@, old(self).capacity),
                            step,
                            old(self).capacity as int,
                        )]) is Some
                },
                Probe::Full => !old(self)@.contains_key(key@) && old(self).length == old(
                    self,
                ).capacity,
            },
        ensures
            final(self).wf(),
            final(self).slot_count() == old(self).slot_count(),
            match done {
                Ok(Some(stored)) => {
                    &&& old(self)@.contains_key(key@)
                    &&& stored@ == key@
                    &&& final(self)@ == old(self)@.insert(key@, value)
                    &&& final(self).key_count() == old(self).key_count()
                },
                Ok(None) => {
                    &&& !old(self)@.contains_key(key@)
                    &&& final(self)@ == old(self)@.insert(key@, value)
                    &&& final(self).key_count() == old(self).key_count() + 1
                },
                Err(error) => {
                    &&& error == Error::TableFull
                    &&& !old(self)@.contains_key(key@)
                    &&& old(self).key_count() == old(self).slot_count()
                    &&& final(self)@ == old(self)@
                    &&& final(self).key_count() == old(self).key_count()
                },
            },
            done is Err <==> !old(self)@.contains_key(key@) && old(self).key_count() == old(
                self,
            ).slot_count(),
    {
        let ghost before = self.entries@;
        proof {
            lemma_occupied_bounds(before);
        }
        match found {
            Probe::Present(slot) => {
                let stored: &'a [u8] = match &self.entries[slot] {
                    Some(entry) => entry.key,
                    None => key,
                };
                let entry = Entry { key: stored, value };
                proof {
                    lemma_contents_at(before, slot as int);
                    lemma_store(before, slot as int, entry);
                    lemma_occupied_update(before, slot as int, entry);
                    assert(old(self)@.insert(key@, value).dom() =~= old(self)@.dom());
                }
                self.entries[slot] = Some(entry);
                Ok(Some(stored))
            },
            Probe::Vacant(slot) => {
                let entry = Entry { key, value };
                proof {
                    lemma_store(before, slot as int, entry);
                    lemma_occupied_update(before, slot as int, entry);
                    lemma_occupied_bounds(before.update(slot as int, Some(entry)));
                    assert(old(self)@.insert(key@, value).dom() =~= old(self)@.dom().insert(
                        key@,
                    ));
                }
                self.entries[slot] = Some(entry);
                self.length = self.length + 1;
                Ok(None)
            },
            Probe::Full => Err(Error::TableFull),
        }
    }

    /// The number of slots.
    pub fn capacity(&self) -> (slots: usize)
        ensures
            slots == self.slot_count(),
    {
        self.capacity
    }

    /// The number of keys held.
    pub fn len(&self) -> (keys: usize)
        ensures
            keys == self.key_count(),
    {
        self.length
    }
}

impl<'a> HashTable<'a, Stat> {
    /// Takes in one reading of the station `key`: a station that the table
    /// does not hold yet starts with this reading alone. Fails, and leaves
    /// the table as it was, only where the station is new and no slot is
    /// empty.
    pub fn upsert(&mut self, key: &'a [u8], value: i32) -> (done: Result<(), Error>)
        requires
            old(self).wf(),
            is_temperature(value as int),
            old(self)@.contains_key(key@) ==> old(self)@[key@].valid() && old(self)@[key@].count
                < MAX_COUNT,
        ensures
            final(self).wf(),
            final(self).slot_count() == old(self).slot_count(),
            match done {
                Ok(()) => final(self)@ == record(old(self)@, key@, value as int),
                Err(error) => error == Error::TableFull && final(self)@ == old(self)@,
            },
            done is Err <==> !old(self)@.contains_key(key@) && old(self).key_count() == old(
                self,
            ).slot_count(),
    {
        let hash = Self::hash_key(key);
        self.upsert_hashed(key, hash, value)
    }

    /// As [`HashTable::upsert`], for a caller that has hashed the key
    /// already.
    pub fn upsert_hashed(&mut self, key: &'a [u8], hash: u64, value: i32) -> (done: Result<
        (),
        Error,
    >)
        requires
            old(self).wf(),
            hash == fnv1a(key@),
            is_temperature(value as int),
            old(self)@.contains_key(key@) ==> old(self)@[key@].valid() && old(self)@[key@].count
                < MAX_COUNT,
        ensures
            final(self).wf(),
            final(self).slot_count() == old(self).slot_count(),
            match done {
                Ok(()) => final(self)@ == record(old(self)@, key@, value as int),
                Err(error) => error == Error::TableFull && final(self)@ == old(self)@,
            },
            done is Err <==> !old(self)@.contains_key(key@) && old(self).key_count() == old(
                self,
            ).slot_count(),
    {
        let found = self.locate(key, hash);
        let stat = match found {
            Probe::Present(slot) => {
                proof {
                    lemma_contents_at(self.entries@, slot as int);
                }
                match &self.entries[slot] {
                    Some(entry) => entry.value.record(value),
                    None => Stat::single(value),
                }
            },
            _ => Stat::single(value),
        };
        match self.store(found, key, stat) {
            Ok(_) => Ok(()),
            Err(error) => Err(error),
        }
    }

    /// Every station held with its statistics, each once and in no
    /// particular order, the keys copied out.
    pub fn drain(self) -> (entries: Vec<ResultEntry>)
        requires
            self.wf(),
        ensures
            lists(listing(entries@), self@),
    {
        let mut entries: Vec<ResultEntry> = Vec::new();
        let ghost mut origin: Seq<int> = Seq::empty();
        let mut slot: usize = 0;
        while slot < self.capacity
            invariant
                self.wf(),
                slot <= self.capacity,
                origin.len() == entries@.len(),
                forall|i: int|
                    0 <= i < origin.len() ==> 0 <= #[trigger] origin[i] < slot && holds(
                        self.entries@,
                        origin[i],
                        entries@[i].key@,
                    ) && self.entries@[origin[i]].unwrap().value == entries@[i].value,
                forall|i: int, j: int| 0 <= i < j < origin.len() ==> origin[i] < origin[j],
                forall|at: int|
                    0 <= at < slot && (#[trigger] self.entries@[at]) is Some ==> origin.contains(
                        at,
                    ),
            decreases self.capacity - slot,
        {
            match &self.entries[slot] {
                Some(entry) => {
                    let ghost before = origin;
                    entries.push(ResultEntry { key: slice_to_vec(entry.key), value: entry.value });
                    proof {
                        origin = origin.push(slot as int);
                        assert forall|at: int|
                            0 <= at < slot + 1 && (#[trigger] self.entries@[at])
                                is Some implies origin.contains(at) by {
                            if at < slot {
                                let i = choose|i: int| 0 <= i < before.len() && before[i] == at;
                                assert(origin[i] == at);
                            } else {
                                assert(origin[before.len() as int] == at);
                            }
                        }
                    }
                },
                None => {},
            }
            slot = slot + 1;
        }
        proof {
            let list = listing(entries@);
            let slots = self.entries@;
            assert forall|i: int| 0 <= i < list.len() implies self@.contains_key(
                #[trigger] list[i].0,
            ) && self@[list[i].0] == list[i].1 by {
                assert(holds(slots, origin[i], entries@[i].key@));
                lemma_contents_at(slots, origin[i]);
            }
            assert forall|station: Seq<u8>| #[trigger] self@.contains_key(station) implies exists|
                i: int,
            |
                0 <= i < list.len() && list[i].0 == station by {
                let at = choose|at: int| holds(slots, at, station);
                assert(slots[at] is Some);
                let i = choose|i: int| 0 <= i < origin.len() && origin[i] == at;
                assert(holds(slots, origin[i], entries@[i].key@));
                assert(list[i].0 == station);
            }
            assert forall|i: int, j: int| 0 <= i < j < list.len() implies list[i].0
                != list[j].0 by {
                assert(holds(slots, origin[i], entries@[i].key@));
                assert(holds(slots, origin[j], entries@[j].key@));
            }
        }
        entries
    }
}

} // verus!
