//! From the bytes of an input to its report, one range after the other.

use crate::aggregate::{
    all_valid, lemma_absorb_concat, lemma_absorb_listing, lemma_listed_total,
    lemma_listing_total_concat, listing, listing_total, lists, ResultEntry,
};
use crate::chunk::{
    chunk_fault, chunk_tally, lemma_tally_counts, line_bytes, line_count, process_chunk,
    read_line, NEWLINE,
};
use crate::error::Error;
use crate::find::{lemma_positions_exact, positions_of};
use crate::hashtable::INITIAL_CAPACITY;
use crate::merge::{canonical, lemma_canonical, merge, merged};
use crate::partition::{is_line_aligned, lemma_partition, lemma_tally_valid};
use crate::plan::{
    is_plan, lemma_plan_line_aligned, lemma_plan_unique, plan_chunks, plan_fault, plan_of,
};
use crate::report::{format_report, report_text};
use crate::stat::{lemma_mean_between, mean_tenths, Stat, MAX_COUNT};
use vstd::prelude::*;

verus! {

/// The fault of the first faulty one among the first `upto` ranges.
pub open spec fn ranges_fault(data: Seq<u8>, ranges: Seq<(usize, usize)>, upto: nat) -> Option<
    Error,
>
    decreases upto,
{
    if upto == 0 {
        None
    } else {
        match ranges_fault(data, ranges, (upto - 1) as nat) {
            Some(error) => Some(error),
            None => chunk_fault(
                data.subrange(ranges[upto - 1].0 as int, ranges[upto - 1].1 as int),
                ranges[upto - 1].0 as int,
                INITIAL_CAPACITY as nat,
            ),
        }
    }
}

/// Why a run over `data` with `workers` workers fails: the input cannot be
/// cut, or else the first fault of the first faulty range.
pub open spec fn run_fault(data: Seq<u8>, workers: int) -> Option<Error> {
    match plan_fault(data, workers) {
        Some(error) => Some(error),
        None => ranges_fault(data, plan_of(data, workers), workers as nat),
    }
}

/// The report of an input: its stations in ascending order, each with the
/// statistics of all its lines. The number of workers has no part in it.
pub open spec fn report_of(data: Seq<u8>) -> Seq<u8> {
    report_text(canonical(chunk_tally(data)))
}

/// A fault found among the first ranges is the fault of any longer run of
/// ranges.
proof fn lemma_ranges_fault_persists(
    data: Seq<u8>,
    ranges: Seq<(usize, usize)>,
    found: nat,
    upto: nat,
)
    requires
        found <= upto,
        ranges_fault(data, ranges, found) is Some,
    ensures
        ranges_fault(data, ranges, upto) == ranges_fault(data, ranges, found),
    decreases upto,
{
    if found < upto {
        lemma_ranges_fault_persists(data, ranges, found, (upto - 1) as nat);
    }
}

/// Where the entries of the ranges before `start` stand for the input up
/// to `start`, they and the entries of the range from `start` to `end`
/// stand for the input up to `end`.
proof fn lemma_range_taken_in(
    data: Seq<u8>,
    start: int,
    end: int,
    held: Seq<(Seq<u8>, Stat)>,
    more: Seq<(Seq<u8>, Stat)>,
)
    requires
        0 <= start <= end <= data.len() <= MAX_COUNT,
        is_line_aligned(data.take(start)),
        forall|i: int| 0 <= i < held.len() ==> (#[trigger] held[i]).1.valid(),
        listing_total(held) == line_count(data.take(start)),
        merged(held) == chunk_tally(data.take(start)),
        lists(more, chunk_tally(data.subrange(start, end))),
        all_valid(chunk_tally(data.subrange(start, end))),
        listing_total(more) == line_count(data.subrange(start, end)),
    ensures
        forall|i: int| 0 <= i < (held + more).len() ==> (#[trigger] (held + more)[i]).1.valid(),
        listing_total(held + more) == line_count(data.take(end)),
        merged(held + more) == chunk_tally(data.take(end)),
{
    let first = data.take(start);
    let second = data.subrange(start, end);
    assert(first + second =~= data.take(end));
    lemma_partition(first, second);
    lemma_absorb_concat(Map::<Seq<u8>, Stat>::empty(), held, more);
    lemma_absorb_listing(chunk_tally(first), more, chunk_tally(second));
    lemma_listing_total_concat(held, more);
    let all = held + more;
    assert forall|i: int| 0 <= i < all.len() implies (#[trigger] all[i]).1.valid() by {
        if i >= held.len() {
            assert(chunk_tally(second).contains_key(more[i - held.len()].0));
        }
    }
}

/// Reads `data` as `workers` ranges and reports minimum, mean and maximum
/// of every station. The report is the same for every number of workers
/// with which the run succeeds.
pub fn summarize(data: &[u8], workers: usize) -> (done: Result<Vec<u8>, Error>)
    requires
        workers >= 1,
        data@.len() <= MAX_COUNT,
    ensures
        match done {
            Ok(report) => run_fault(data@, workers as int) is None && report@ == report_of(data@),
            Err(error) => run_fault(data@, workers as int) == Some(error),
        },
{
    let ranges = match plan_chunks(data, workers) {
        Ok(ranges) => ranges,
        Err(error) => {
            return Err(error);
        },
    };
    proof {
        lemma_plan_unique(data@, workers as int, ranges@, plan_of(data@, workers as int));
    }
    let mut all: Vec<ResultEntry> = Vec::new();
    let mut index: usize = 0;
    let ghost mut read: int = 0;
    proof {
        assert(data@.take(0) =~= Seq::<u8>::empty());
        lemma_positions_exact(data@.take(0), NEWLINE);
        assert(merged(listing(all@)) =~= chunk_tally(data@.take(0)));
    }
    while index < ranges.len()
        invariant
            workers >= 1,
            data@.len() <= MAX_COUNT,
            is_plan(data@, workers as int, ranges@),
            ranges@ == plan_of(data@, workers as int),
            plan_fault(data@, workers as int) is None,
            index <= workers,
            index < workers ==> read == ranges@[index as int].0,
            index == workers ==> read == data@.len(),
            0 <= read <= data@.len(),
            ranges_fault(data@, ranges@, index as nat) is None,
            forall|i: int| 0 <= i < all@.len() ==> (#[trigger] listing(all@)[i]).1.valid(),
            listing_total(listing(all@)) == line_count(data@.take(read)),
            merged(listing(all@)) == chunk_tally(data@.take(read)),
        decreases workers - index,
    {
        let (start, end) = ranges[index];
        assert(ranges@[index as int].0 <= ranges@[index as int].1 <= data@.len());
        let mut entries = match process_chunk(data, start, end) {
            Ok(entries) => entries,
            Err(error) => {
                proof {
                    assert(ranges_fault(data@, ranges@, (index + 1) as nat) == Some(error));
                    lemma_ranges_fault_persists(
                        data@,
                        ranges@,
                        (index + 1) as nat,
                        workers as nat,
                    );
                }
                return Err(error);
            },
        };
        proof {
            lemma_plan_line_aligned(data@, workers as int, ranges@, index as int);
            lemma_range_taken_in(
                data@,
                start as int,
                end as int,
                listing(all@),
                listing(entries@),
            );
            assert(listing(all@ + entries@) =~= listing(all@) + listing(entries@));
            if index + 1 < workers {
                assert(ranges@[index + 1].0 == ranges@[index as int].1);
            }
            read = end as int;
        }
        all.append(&mut entries);
        index = index + 1;
    }
    proof {
        assert(data@.take(read) =~= data@);
        lemma_positions_exact(data@, NEWLINE);
    }
    let done = merge(all.as_slice());
    proof {
        lemma_canonical(listing(done@), chunk_tally(data@));
        assert forall|i: int| 0 <= i < done@.len() implies (#[trigger] done@[i]).value.valid() by {
            assert(merged(listing(all@)).contains_key(listing(done@)[i].0));
        }
    }
    Ok(format_report(done.as_slice()))
}

/// In the aggregate of an input every station has at least one reading,
/// and its rounded mean lies between its minimum and its maximum.
pub proof fn lemma_every_station_sound(data: Seq<u8>, station: Seq<u8>)
    requires
        data.len() <= MAX_COUNT,
        chunk_tally(data).contains_key(station),
    ensures
        chunk_tally(data)[station].count >= 1,
        chunk_tally(data)[station].min <= mean_tenths(chunk_tally(data)[station]) <= chunk_tally(
            data,
        )[station].max,
{
    lemma_positions_exact(data, NEWLINE);
    lemma_tally_valid(data, line_count(data));
    lemma_mean_between(chunk_tally(data)[station]);
}

/// In every listing of the aggregate of an input whose lines are all well
/// formed, the counts add up to the number of newlines of the input.
pub proof fn lemma_counts_add_up(data: Seq<u8>, list: Seq<(Seq<u8>, Stat)>)
    requires
        data.len() <= MAX_COUNT,
        forall|line: int|
            0 <= line < line_count(data) ==> read_line(#[trigger] line_bytes(data, line)) is Some,
        lists(list, chunk_tally(data)),
    ensures
        listing_total(list) == positions_of(data, NEWLINE).len(),
{
    lemma_positions_exact(data, NEWLINE);
    lemma_tally_counts(data, line_count(data));
    lemma_listed_total(list, chunk_tally(data));
}

} // verus!
