//! Cutting an input between two lines and aggregating the parts gives the
//! aggregate of the whole.

use crate::aggregate::{
    all_valid, join, lemma_absorb_concat, lemma_absorb_listing, lemma_record_join,
    lemma_record_valid, lists,
};
use crate::chunk::{
    chunk_tally, line_bytes, line_count, line_ends, line_start, read_line, split_line, tally,
    NEWLINE,
};
use crate::find::{lemma_positions_exact, lemma_positions_split, match_flags};
use crate::merge::merged;
use crate::stat::{Stat, MAX_COUNT};
use crate::temperature::lemma_value_in_range;
use vstd::prelude::*;

verus! {

/// Whether `bytes` can stand before a cut: they are empty or end with a
/// newline.
pub open spec fn is_line_aligned(bytes: Seq<u8>) -> bool {
    bytes.len() == 0 || bytes.last() == NEWLINE
}

/// The last line of bytes that end with a newline ends at their end.
pub proof fn lemma_last_line_end(bytes: Seq<u8>)
    requires
        bytes.len() > 0,
        bytes.last() == NEWLINE,
    ensures
        line_count(bytes) > 0,
        line_ends(bytes).last() == bytes.len() - 1,
{
    let flags = match_flags(bytes, NEWLINE);
    assert(flags.last());
}

/// The lines of two ranges laid end to end are the lines of the first and
/// then the lines of the second.
pub proof fn lemma_lines_concat(first: Seq<u8>, second: Seq<u8>)
    requires
        is_line_aligned(first),
    ensures
        line_count(first + second) == line_count(first) + line_count(second),
        forall|line: int|
            0 <= line < line_count(first) ==> #[trigger] line_bytes(first + second, line)
                == line_bytes(first, line),
        forall|line: int|
            0 <= line < line_count(second) ==> #[trigger] line_bytes(
                first + second,
                line_count(first) + line,
            ) == line_bytes(second, line),
        forall|line: int|
            0 <= line < line_count(first) ==> #[trigger] line_start(first + second, line)
                == line_start(first, line),
        forall|line: int|
            0 <= line < line_count(second) ==> #[trigger] line_start(
                first + second,
                line_count(first) + line,
            ) == first.len() + line_start(second, line),
{
    let whole = first + second;
    let cut = first.len() as int;
    let before = line_count(first) as int;
    assert(whole.take(cut) =~= first);
    assert(whole.skip(cut) =~= second);
    lemma_positions_split(whole, NEWLINE, cut);
    lemma_positions_exact(first, NEWLINE);
    lemma_positions_exact(second, NEWLINE);
    if first.len() > 0 {
        lemma_last_line_end(first);
    }
    assert forall|line: int| 0 <= line < line_count(first) implies #[trigger] line_start(
        whole,
        line,
    ) == line_start(first, line) by {
        if line > 0 {
            assert(line_ends(whole)[line - 1] == line_ends(first)[line - 1]);
        }
    }
    assert forall|line: int| 0 <= line < line_count(first) implies #[trigger] line_bytes(
        whole,
        line,
    ) == line_bytes(first, line) by {
        assert(line_start(whole, line) == line_start(first, line));
        assert(line_ends(whole)[line] == line_ends(first)[line]);
        if line > 0 {
            assert(line_ends(first)[line - 1] < line_ends(first)[line]);
        }
        assert(line_bytes(whole, line) =~= line_bytes(first, line));
    }
    assert forall|line: int| 0 <= line < line_count(second) implies #[trigger] line_start(
        whole,
        before + line,
    ) == cut + line_start(second, line) by {
        if line > 0 {
            assert(line_ends(whole)[before + line - 1] == cut + line_ends(second)[line - 1]);
        } else if before > 0 {
            assert(line_ends(whole)[before - 1] == line_ends(first)[before - 1]);
        }
    }
    assert forall|line: int| 0 <= line < line_count(second) implies #[trigger] line_bytes(
        whole,
        before + line,
    ) == line_bytes(second, line) by {
        assert(line_start(whole, before + line) == cut + line_start(second, line));
        assert(line_ends(whole)[before + line] == cut + line_ends(second)[line]);
        if line > 0 {
            assert(line_ends(second)[line - 1] < line_ends(second)[line]);
        }
        assert(line_bytes(whole, before + line) =~= line_bytes(second, line));
    }
}

/// The aggregate of the first lines is valid and holds no count above the
/// number of those lines, as long as they are no more than `MAX_COUNT`.
pub proof fn lemma_tally_valid(chunk: Seq<u8>, lines: nat)
    requires
        lines <= MAX_COUNT,
    ensures
        all_valid(tally(chunk, lines)),
        forall|station: Seq<u8>| #[trigger]
            tally(chunk, lines).contains_key(station) ==> tally(chunk, lines)[station].count
                <= lines,
    decreases lines,
{
    if lines > 0 {
        let before = tally(chunk, (lines - 1) as nat);
        lemma_tally_valid(chunk, (lines - 1) as nat);
        let bytes = line_bytes(chunk, lines - 1);
        if read_line(bytes) is Some {
            let (station, tenths) = read_line(bytes).unwrap();
            lemma_value_in_range(split_line(bytes).unwrap().1);
            lemma_record_valid(before, station, tenths);
        }
    }
}

/// The aggregate of lines of the first of two ranges laid end to end is
/// their aggregate in the first range alone.
proof fn lemma_tally_first(first: Seq<u8>, second: Seq<u8>, lines: nat)
    requires
        is_line_aligned(first),
        lines <= line_count(first),
    ensures
        tally(first + second, lines) == tally(first, lines),
    decreases lines,
{
    if lines > 0 {
        lemma_tally_first(first, second, (lines - 1) as nat);
        lemma_lines_concat(first, second);
        assert(line_bytes(first + second, lines - 1) == line_bytes(first, lines - 1));
    }
}

/// The aggregate of the first range and some lines of the second is the
/// two aggregates joined.
proof fn lemma_tally_second(first: Seq<u8>, second: Seq<u8>, lines: nat)
    requires
        is_line_aligned(first),
        lines <= line_count(second),
        first.len() + second.len() <= MAX_COUNT,
    ensures
        tally(first + second, line_count(first) + lines) == join(
            chunk_tally(first),
            tally(second, lines),
        ),
    decreases lines,
{
    let whole = first + second;
    let before = line_count(first);
    lemma_positions_exact(first, NEWLINE);
    lemma_positions_exact(second, NEWLINE);
    if lines == 0 {
        lemma_tally_first(first, second, before);
        assert(join(chunk_tally(first), tally(second, 0)) =~= chunk_tally(first));
    } else {
        let fewer = (lines - 1) as nat;
        lemma_tally_second(first, second, fewer);
        lemma_lines_concat(first, second);
        let bytes = line_bytes(second, lines - 1);
        assert(line_bytes(whole, before + lines - 1) == bytes);
        if read_line(bytes) is Some {
            let (station, tenths) = read_line(bytes).unwrap();
            lemma_value_in_range(split_line(bytes).unwrap().1);
            lemma_tally_valid(first, before);
            lemma_tally_valid(second, fewer);
            lemma_record_join(chunk_tally(first), tally(second, fewer), station, tenths);
        }
    }
}

/// The law of the cut: where an input is cut between two lines, the
/// aggregate of the whole is the aggregates of the two parts joined, and
/// its lines are the lines of the two parts.
pub proof fn lemma_partition(first: Seq<u8>, second: Seq<u8>)
    requires
        is_line_aligned(first),
        first.len() + second.len() <= MAX_COUNT,
    ensures
        chunk_tally(first + second) == join(chunk_tally(first), chunk_tally(second)),
        line_count(first + second) == line_count(first) + line_count(second),
{
    lemma_lines_concat(first, second);
    lemma_tally_second(first, second, line_count(second));
}

/// The law of the merge: where an input is cut between two lines and each
/// part is aggregated on its own, merging a listing of the one aggregate
/// and a listing of the other, in either order of the two, gives the
/// aggregate of the whole.
pub proof fn lemma_merge_of_parts(
    first: Seq<u8>,
    second: Seq<u8>,
    left: Seq<(Seq<u8>, Stat)>,
    right: Seq<(Seq<u8>, Stat)>,
)
    requires
        is_line_aligned(first),
        first.len() + second.len() <= MAX_COUNT,
        lists(left, chunk_tally(first)),
        lists(right, chunk_tally(second)),
    ensures
        merged(left + right) == chunk_tally(first + second),
        merged(right + left) == chunk_tally(first + second),
{
    let a = chunk_tally(first);
    let b = chunk_tally(second);
    let nothing = Map::<Seq<u8>, Stat>::empty();
    lemma_partition(first, second);
    lemma_absorb_concat(nothing, left, right);
    lemma_absorb_listing(nothing, left, a);
    assert(join(nothing, a) =~= a);
    lemma_absorb_listing(a, right, b);
    lemma_absorb_concat(nothing, right, left);
    lemma_absorb_listing(nothing, right, b);
    assert(join(nothing, b) =~= b);
    lemma_absorb_listing(b, left, a);
    assert(join(b, a) =~= join(a, b));
}

/// The parts of an input laid end to end.
pub open spec fn concat_parts(parts: Seq<Seq<u8>>) -> Seq<u8>
    decreases parts.len(),
{
    if parts.len() == 0 {
        Seq::empty()
    } else {
        concat_parts(parts.drop_last()) + parts.last()
    }
}

/// The listings of the parts laid end to end.
pub open spec fn concat_listings(listings: Seq<Seq<(Seq<u8>, Stat)>>) -> Seq<(Seq<u8>, Stat)>
    decreases listings.len(),
{
    if listings.len() == 0 {
        Seq::empty()
    } else {
        concat_listings(listings.drop_last()) + listings.last()
    }
}

/// Parts that can each stand before a cut can do so together.
pub proof fn lemma_concat_line_aligned(parts: Seq<Seq<u8>>)
    requires
        forall|i: int| 0 <= i < parts.len() ==> is_line_aligned(#[trigger] parts[i]),
    ensures
        is_line_aligned(concat_parts(parts)),
    decreases parts.len(),
{
    if parts.len() > 0 {
        let front = parts.drop_last();
        assert forall|i: int| 0 <= i < front.len() implies is_line_aligned(#[trigger] front[i]) by {
            assert(front[i] == parts[i]);
        }
        lemma_concat_line_aligned(front);
        assert(is_line_aligned(parts[parts.len() - 1]));
        if parts.last().len() == 0 {
            assert(concat_parts(parts) =~= concat_parts(front));
        }
    }
}

/// The law of the partition: however an input is cut into parts between
/// its lines, merging the listings of the aggregates of the parts, in the
/// order of the parts, gives the aggregate of the whole input.
pub proof fn lemma_merge_of_all_parts(
    parts: Seq<Seq<u8>>,
    listings: Seq<Seq<(Seq<u8>, Stat)>>,
)
    requires
        parts.len() == listings.len(),
        forall|i: int| 0 <= i < parts.len() - 1 ==> is_line_aligned(#[trigger] parts[i]),
        concat_parts(parts).len() <= MAX_COUNT,
        forall|i: int|
            0 <= i < parts.len() ==> lists(#[trigger] listings[i], chunk_tally(parts[i])),
    ensures
        merged(concat_listings(listings)) == chunk_tally(concat_parts(parts)),
    decreases parts.len(),
{
    let nothing = Map::<Seq<u8>, Stat>::empty();
    if parts.len() == 0 {
        lemma_positions_exact(Seq::<u8>::empty(), NEWLINE);
        assert(merged(concat_listings(listings)) =~= chunk_tally(concat_parts(parts)));
    } else {
        let front = parts.drop_last();
        let held = listings.drop_last();
        assert forall|i: int| 0 <= i < front.len() implies is_line_aligned(#[trigger] front[i]) by {
            assert(front[i] == parts[i]);
        }
        assert forall|i: int| 0 <= i < front.len() implies lists(
            #[trigger] held[i],
            chunk_tally(front[i]),
        ) by {
            assert(held[i] == listings[i]);
            assert(front[i] == parts[i]);
        }
        lemma_concat_line_aligned(front);
        lemma_merge_of_all_parts(front, held);
        lemma_partition(concat_parts(front), parts.last());
        lemma_absorb_concat(nothing, concat_listings(held), listings.last());
        assert(lists(listings[listings.len() - 1], chunk_tally(parts[parts.len() - 1])));
        lemma_absorb_listing(
            chunk_tally(concat_parts(front)),
            listings.last(),
            chunk_tally(parts.last()),
        );
    }
}

} // verus!
