//! Finding every occurrence of one byte in a slice, a block of lanes at a time.
//!
//! A block of [`LANES`] bytes is compared against the needle lane by lane and
//! the outcome is kept as a bitmask, one bit per lane. Matches are handed out
//! lowest lane first; when the mask runs dry the next block is loaded.

use vstd::prelude::*;

verus! {

/// Number of bytes compared in one step.
pub const LANES: usize = 16;

/// The indices at which `flags` is true, in ascending order.
pub open spec fn hits(flags: Seq<bool>) -> Seq<int>
    decreases flags.len(),
{
    if flags.len() == 0 {
        Seq::empty()
    } else if flags.last() {
        hits(flags.drop_last()).push(flags.len() - 1)
    } else {
        hits(flags.drop_last())
    }
}

/// For each byte of `haystack`, whether it equals `needle`.
pub open spec fn match_flags(haystack: Seq<u8>, needle: u8) -> Seq<bool> {
    Seq::new(haystack.len(), |i: int| haystack[i] == needle)
}

/// The indices `i` with `haystack[i] == needle`, in ascending order.
pub open spec fn positions_of(haystack: Seq<u8>, needle: u8) -> Seq<int> {
    hits(match_flags(haystack, needle))
}

/// Every index of `indices` moved up by `by`.
pub open spec fn shift(indices: Seq<int>, by: int) -> Seq<int> {
    Seq::new(indices.len(), |k: int| indices[k] + by)
}

/// Whether lane `lane` is set in `mask`.
pub open spec fn lane_set(mask: u16, lane: int) -> bool {
    0 <= lane < 16 && (mask >> (lane as u16)) & 1 == 1
}

/// The lanes of a mask as a sequence of flags.
pub open spec fn lane_flags(mask: u16) -> Seq<bool> {
    Seq::new(16, |lane: int| lane_set(mask, lane))
}

/// `hits` lists exactly the true indices, each once, in strictly ascending
/// order.
pub proof fn lemma_hits_exact(flags: Seq<bool>)
    ensures
        forall|k: int|
            0 <= k < hits(flags).len() ==> 0 <= #[trigger] hits(flags)[k] < flags.len()
                && flags[hits(flags)[k]],
        forall|j: int, k: int|
            0 <= j < k < hits(flags).len() ==> hits(flags)[j] < hits(flags)[k],
        forall|i: int| 0 <= i < flags.len() && flags[i] ==> hits(flags).contains(i),
        hits(flags).len() <= flags.len(),
    decreases flags.len(),
{
    if flags.len() > 0 {
        let front = flags.drop_last();
        lemma_hits_exact(front);
        let last = flags.len() - 1;
        assert forall|i: int| 0 <= i < flags.len() && flags[i] implies hits(flags).contains(i) by {
            if i < last {
                assert(front[i]);
                let k = choose|k: int| 0 <= k < hits(front).len() && hits(front)[k] == i;
                assert(hits(flags)[k] == i);
            } else {
                assert(hits(flags)[hits(front).len() as int] == i);
            }
        }
    }
}

/// The byte scanner's law: `positions_of` holds exactly the indices at which
/// the needle stands, each once, in strictly ascending order.
pub proof fn lemma_positions_exact(haystack: Seq<u8>, needle: u8)
    ensures
        forall|k: int|
            0 <= k < positions_of(haystack, needle).len() ==> 0 <= #[trigger] positions_of(
                haystack,
                needle,
            )[k] < haystack.len() && haystack[positions_of(haystack, needle)[k]] == needle,
        forall|j: int, k: int|
            0 <= j < k < positions_of(haystack, needle).len() ==> positions_of(haystack, needle)[j]
                < positions_of(haystack, needle)[k],
        forall|i: int|
            0 <= i < haystack.len() && haystack[i] == needle ==> positions_of(
                haystack,
                needle,
            ).contains(i),
        positions_of(haystack, needle).len() <= haystack.len(),
{
    let flags = match_flags(haystack, needle);
    lemma_hits_exact(flags);
    assert forall|i: int| 0 <= i < haystack.len() && haystack[i] == needle implies positions_of(
        haystack,
        needle,
    ).contains(i) by {
        assert(flags[i]);
    }
}

/// Where no flag is true there are no hits.
pub proof fn lemma_hits_none(flags: Seq<bool>)
    requires
        forall|i: int| 0 <= i < flags.len() ==> !flags[i],
    ensures
        hits(flags) == Seq::<int>::empty(),
    decreases flags.len(),
{
    if flags.len() > 0 {
        lemma_hits_none(flags.drop_last());
    }
}

/// The hits of two sequences laid end to end are the hits of the first,
/// followed by those of the second moved up by the first one's length.
pub proof fn lemma_hits_concat(a: Seq<bool>, b: Seq<bool>)
    ensures
        hits(a + b) == hits(a) + shift(hits(b), a.len() as int),
    decreases b.len(),
{
    if b.len() == 0 {
        assert(a + b =~= a);
        assert(hits(a) + shift(hits(b), a.len() as int) =~= hits(a));
    } else {
        lemma_hits_concat(a, b.drop_last());
        assert((a + b).drop_last() =~= a + b.drop_last());
        assert((a + b).last() == b.last());
        if b.last() {
            assert(hits(a + b) =~= hits(a) + shift(hits(b), a.len() as int));
        } else {
            assert(hits(a + b) =~= hits(a) + shift(hits(b), a.len() as int));
        }
    }
}

/// The positions in a slice cut in two at `cut`.
pub proof fn lemma_positions_split(haystack: Seq<u8>, needle: u8, cut: int)
    requires
        0 <= cut <= haystack.len(),
    ensures
        positions_of(haystack, needle) == positions_of(haystack.take(cut), needle) + shift(
            positions_of(haystack.skip(cut), needle),
            cut,
        ),
{
    let a = match_flags(haystack.take(cut), needle);
    let b = match_flags(haystack.skip(cut), needle);
    assert(match_flags(haystack, needle) =~= a + b);
    lemma_hits_concat(a, b);
}

/// A slice in which the needle does not stand has no positions.
pub proof fn lemma_positions_none(haystack: Seq<u8>, needle: u8)
    requires
        forall|i: int| 0 <= i < haystack.len() ==> haystack[i] != needle,
    ensures
        positions_of(haystack, needle) == Seq::<int>::empty(),
{
    lemma_hits_none(match_flags(haystack, needle));
}

/// Where the needle stands first at `first`, that is the first position,
/// and the others are those of what follows it.
pub proof fn lemma_positions_first(haystack: Seq<u8>, needle: u8, first: int)
    requires
        0 <= first < haystack.len(),
        haystack[first] == needle,
        forall|i: int| 0 <= i < first ==> haystack[i] != needle,
    ensures
        positions_of(haystack, needle) == seq![first] + shift(
            positions_of(haystack.skip(first + 1), needle),
            first + 1,
        ),
{
    lemma_positions_split(haystack, needle, first);
    lemma_positions_none(haystack.take(first), needle);
    let rest = haystack.skip(first);
    lemma_positions_split(rest, needle, 1);
    assert(rest.skip(1) =~= haystack.skip(first + 1));
    let head = rest.take(1);
    assert(match_flags(head, needle) =~= seq![true]);
    lemma_hits_none(match_flags(head, needle).drop_last());
    assert(hits(match_flags(head, needle)) =~= seq![0int]);
    assert(positions_of(haystack, needle) =~= seq![first] + shift(
        positions_of(haystack.skip(first + 1), needle),
        first + 1,
    ));
}

/// Flags that are false from `n` on have the hits of their first `n`.
proof fn lemma_hits_padded(flags: Seq<bool>, n: int)
    requires
        0 <= n <= flags.len(),
        forall|i: int| n <= i < flags.len() ==> !flags[i],
    ensures
        hits(flags) == hits(flags.take(n)),
{
    let a = flags.take(n);
    let b = flags.skip(n);
    assert(flags =~= a + b);
    lemma_hits_concat(a, b);
    lemma_hits_none(b);
    assert(hits(a) + shift(hits(b), a.len() as int) =~= hits(a));
}

/// Where `first` is the lowest true index, it is the first hit, and the
/// other hits are those of the flags with `first` cleared.
proof fn lemma_hits_first(flags: Seq<bool>, first: int)
    requires
        0 <= first < flags.len(),
        flags[first],
        forall|i: int| 0 <= i < first ==> !flags[i],
    ensures
        hits(flags).len() > 0,
        hits(flags)[0] == first,
        hits(flags.update(first, false)) == hits(flags).skip(1),
    decreases flags.len(),
{
    let cleared = flags.update(first, false);
    let front = flags.drop_last();
    if first == flags.len() - 1 {
        lemma_hits_none(front);
        lemma_hits_none(cleared);
        assert(hits(flags) =~= seq![first]);
        assert(hits(flags).skip(1) =~= Seq::<int>::empty());
    } else {
        lemma_hits_first(front, first);
        assert(cleared.drop_last() =~= front.update(first, false));
        assert(cleared.last() == flags.last());
        if flags.last() {
            assert(hits(cleared) =~= hits(flags).skip(1));
        } else {
            assert(hits(cleared) =~= hits(flags).skip(1));
        }
    }
}

proof fn lemma_lane_raise(mask: u16, lane: u16, other: u16)
    by (bit_vector)
    requires
        lane < 16,
        other < 16,
    ensures
        ((mask | (1u16 << lane)) >> other) & 1 == 1 <==> (other == lane || (mask >> other) & 1
            == 1),
{
}

proof fn lemma_lane_clear(mask: u16, lane: u16, other: u16)
    by (bit_vector)
    requires
        lane < 16,
        other < 16,
    ensures
        ((mask & !(1u16 << lane)) >> other) & 1 == 1 <==> (other != lane && (mask >> other) & 1
            == 1),
{
}

proof fn lemma_lane_empty(lane: u16)
    by (bit_vector)
    requires
        lane < 16,
    ensures
        (0u16 >> lane) & 1 == 0,
{
}

/// The mask of the lanes at which `block` holds `needle`. A block shorter
/// than [`LANES`] leaves its missing lanes unset, as if it had been filled up
/// with bytes that differ from the needle.
fn lane_mask(block: &[u8], needle: u8) -> (mask: u16)
    requires
        block.len() <= LANES,
    ensures
        hits(lane_flags(mask)) == positions_of(block@, needle),
        forall|lane: int| lane_set(mask, lane) ==> lane < block.len(),
{
    let mut mask: u16 = 0;
    let mut lane: usize = 0;
    proof {
        assert forall|j: int| 0 <= j < 16 implies !lane_set(0u16, j) by {
            lemma_lane_empty(j as u16);
        }
    }
    while lane < block.len()
        invariant
            lane <= block.len() <= LANES,
            forall|j: int|
                0 <= j < 16 ==> (lane_set(mask, j) <==> (j < lane && block@[j] == needle)),
        decreases block.len() - lane,
    {
        if block[lane] == needle {
            let raised: u16 = mask | (1u16 << (lane as u16));
            proof {
                assert forall|j: int| 0 <= j < 16 implies (lane_set(raised, j) <==> (j < lane + 1
                    && block@[j] == needle)) by {
                    lemma_lane_raise(mask, lane as u16, j as u16);
                    assert(lane_set(mask, j) <==> (j < lane && block@[j] == needle));
                }
            }
            mask = raised;
        }
        lane = lane + 1;
    }
    proof {
        let flags = lane_flags(mask);
        let n = block@.len() as int;
        lemma_hits_padded(flags, n);
        assert(flags.take(n) =~= match_flags(block@, needle));
    }
    mask
}

/// A single-pass scanner for the positions of one byte.
#[derive(Debug)]
pub struct SimdFind<'a> {
    needle: u8,
    haystack: &'a [u8],
    mask: u16,
    base: usize,
    read: usize,
}

impl<'a> SimdFind<'a> {
    /// The byte being looked for.
    pub closed spec fn needle(&self) -> u8 {
        self.needle
    }

    /// The matches of the block loaded last that are still to be handed
    /// out, as positions in the whole input, ascending.
    pub closed spec fn pending(&self) -> Seq<int> {
        shift(hits(lane_flags(self.mask)), self.base as int)
    }

    /// The bytes that no block has covered yet.
    pub closed spec fn unread(&self) -> Seq<u8> {
        self.haystack@
    }

    /// The position in the whole input at which `unread` begins.
    pub closed spec fn read(&self) -> nat {
        self.read as nat
    }

    /// Every position that is still to come, in the order in which `next`
    /// will return them.
    pub open spec fn remaining(&self) -> Seq<int> {
        self.pending() + shift(positions_of(self.unread(), self.needle()), self.read() as int)
    }

    /// The pending matches lie below the read position, and the end of the
    /// input is a position that fits the machine word.
    pub open spec fn wf(&self) -> bool {
        &&& self.read() + self.unread().len() <= usize::MAX
        &&& forall|k: int|
            0 <= k < self.pending().len() ==> 0 <= #[trigger] self.pending()[k] < self.read()
    }

    /// A scanner at the start of `haystack`.
    pub fn new(needle: u8, haystack: &'a [u8]) -> (scanner: SimdFind<'a>)
        ensures
            scanner.wf(),
            scanner.needle() == needle,
            scanner.pending() == Seq::<int>::empty(),
            scanner.unread() == haystack@,
            scanner.read() == 0,
            scanner.remaining() == positions_of(haystack@, needle),
    {
        let scanner = SimdFind { needle, haystack, mask: 0, base: 0, read: 0 };
        proof {
            assert forall|j: int| 0 <= j < 16 implies !lane_set(0u16, j) by {
                lemma_lane_empty(j as u16);
            }
            lemma_hits_none(lane_flags(0u16));
            assert(haystack.len() == haystack@.len());
            assert(scanner.pending() =~= Seq::<int>::empty());
            assert(scanner.remaining() =~= positions_of(haystack@, needle));
        }
        scanner
    }

    /// Hands out the lowest pending match of the loaded block, if there is
    /// one, and takes it off the mask.
    pub fn consume_first_match(&mut self) -> (found: Option<usize>)
        requires
            old(self).wf(),
        ensures
            final(self).wf(),
            final(self).needle() == old(self).needle(),
            final(self).unread() == old(self).unread(),
            final(self).read() == old(self).read(),
            match found {
                Some(index) => old(self).pending().len() > 0 && index == old(self).pending()[0]
                    && final(self).pending() == old(self).pending().skip(1),
                None => old(self).pending().len() == 0 && final(self).pending().len() == 0,
            },
    {
        let ghost flags = lane_flags(self.mask);
        if self.mask == 0 {
            proof {
                assert forall|j: int| 0 <= j < 16 implies !lane_set(0u16, j) by {
                    lemma_lane_empty(j as u16);
                }
                lemma_hits_none(flags);
            }
            return None;
        }
        let lowest: u32 = self.mask.trailing_zeros();
        proof {
            vstd::std_specs::bits::axiom_u16_trailing_zeros(self.mask);
            assert(lowest < 16);
            assert(flags[lowest as int]);
            assert forall|j: int| 0 <= j < lowest implies !flags[j] by {
                assert((self.mask >> (j as u16)) & 1u16 == 0u16);
            }
            lemma_hits_first(flags, lowest as int);
            assert(old(self).pending()[0] == lowest + self.base);
        }
        let lane: u16 = lowest as u16;
        let cleared: u16 = self.mask & !(1u16 << lane);
        proof {
            assert forall|j: int| 0 <= j < 16 implies (lane_set(cleared, j) <==> (j != lowest
                && lane_set(self.mask, j))) by {
                lemma_lane_clear(self.mask, lane, j as u16);
            }
            assert(lane_flags(cleared) =~= flags.update(lowest as int, false));
        }
        self.mask = cleared;
        proof {
            assert(self.pending() =~= old(self).pending().skip(1));
        }
        Some(lowest as usize + self.base)
    }

    /// Loads the first [`LANES`] bytes of `slice` as the block that follows
    /// what has been read so far. Matches of an earlier block that were not
    /// consumed are dropped.
    pub fn load_chunk(&mut self, slice: &[u8])
        requires
            slice.len() >= LANES,
            old(self).read() + LANES + old(self).unread().len() <= usize::MAX,
        ensures
            final(self).wf(),
            final(self).needle() == old(self).needle(),
            final(self).unread() == old(self).unread(),
            final(self).read() == old(self).read() + LANES,
            final(self).pending() == shift(
                positions_of(slice@.take(LANES as int), old(self).needle()),
                old(self).read() as int,
            ),
    {
        let block = &slice[0..LANES];
        self.mask = lane_mask(block, self.needle);
        self.base = self.read;
        self.read = self.read + LANES;
        proof {
            assert(block@ =~= slice@.take(LANES as int));
            lemma_hits_exact(lane_flags(self.mask));
        }
    }

    /// The next position of the needle, or `None` when there is no further
    /// one.
    pub fn next(&mut self) -> (found: Option<usize>)
        requires
            old(self).wf(),
        ensures
            final(self).wf(),
            final(self).needle() == old(self).needle(),
            match found {
                Some(index) => old(self).remaining().len() > 0 && index == old(self).remaining()[0]
                    && final(self).remaining() == old(self).remaining().skip(1),
                None => old(self).remaining().len() == 0 && final(self).remaining().len() == 0,
            },
    {
        let ghost start = old(self).remaining();
        if let Some(index) = self.consume_first_match() {
            proof {
                assert(self.remaining() =~= start.skip(1));
            }
            return Some(index);
        }
        assert(self.remaining() =~= start);
        while self.haystack.len() > LANES
            invariant
                self.wf(),
                self.needle() == old(self).needle(),
                self.pending().len() == 0,
                self.remaining() == start,
                start == old(self).remaining(),
            decreases self.haystack.len(),
        {
            let whole = self.haystack;
            let ghost before = *self;
            self.haystack = &whole[LANES..whole.len()];
            self.load_chunk(&whole[0..LANES]);
            proof {
                lemma_positions_split(whole@, self.needle, LANES as int);
                assert(whole@.take(LANES as int).take(LANES as int) =~= whole@.take(LANES as int));
                assert(self.unread() =~= whole@.skip(LANES as int));
                assert(self.remaining() =~= before.remaining());
            }
            let ghost loaded = *self;
            if let Some(index) = self.consume_first_match() {
                proof {
                    assert(start[0] == loaded.pending()[0]);
                    assert(self.remaining() =~= start.skip(1));
                }
                return Some(index);
            }
            proof {
                assert(self.remaining() =~= start);
            }
        }
        let tail = self.haystack;
        let width = tail.len();
        if width == 0 {
            return None;
        }
        let ghost before = *self;
        self.mask = lane_mask(tail, self.needle);
        self.base = self.read;
        self.read = self.read + width;
        self.haystack = &tail[width..width];
        proof {
            lemma_hits_exact(lane_flags(self.mask));
            assert(self.unread() =~= Seq::<u8>::empty());
            assert(positions_of(self.unread(), self.needle) =~= Seq::<int>::empty());
            assert(self.remaining() =~= before.remaining());
        }
        match self.consume_first_match() {
            Some(index) => {
                proof {
                    assert(self.remaining() =~= start.skip(1));
                }
                Some(index)
            },
            None => {
                proof {
                    assert(self.remaining() =~= Seq::<int>::empty());
                }
                None
            },
        }
    }
}

} // verus!
