//! Cutting the input into ranges that begin and end between lines.

use crate::chunk::NEWLINE;
use crate::error::Error;
use crate::find::{lemma_positions_exact, positions_of, SimdFind};
use vstd::prelude::*;

verus! {

/// How far behind a nominal boundary the end of a line is looked for.
pub const PROBE_WINDOW: usize = 1048576;

/// Whether `data` is not empty and ends with a newline.
pub open spec fn is_terminated(data: Seq<u8>) -> bool {
    data.len() > 0 && data.last() == NEWLINE
}

/// No newline stands in `data[from..to]`.
pub open spec fn newline_free(data: Seq<u8>, from: int, to: int) -> bool {
    forall|at: int| from <= at < to && 0 <= at < data.len() ==> data[at] != NEWLINE
}

/// The nominal start of range number `index`: that many times the length
/// of the input divided by the number of workers.
pub open spec fn nominal(data: Seq<u8>, workers: int, index: int) -> int {
    index * (data.len() as int / workers)
}

/// Where the search from `from` gives up.
pub open spec fn window_end(data: Seq<u8>, from: int) -> int {
    if from + PROBE_WINDOW < data.len() {
        from + PROBE_WINDOW
    } else {
        data.len() as int
    }
}

/// No line ends within the window behind the nominal start of range
/// number `index`.
pub open spec fn no_line_end(data: Seq<u8>, workers: int, index: int) -> bool {
    newline_free(
        data,
        nominal(data, workers, index),
        window_end(data, nominal(data, workers, index)),
    )
}

/// `start` is where range number `index` starts: just behind the first
/// newline at or behind its nominal start.
pub open spec fn starts_range(data: Seq<u8>, workers: int, index: int, start: int) -> bool {
    let from = nominal(data, workers, index);
    &&& from < start <= window_end(data, from)
    &&& data[start - 1] == NEWLINE
    &&& newline_free(data, from, start - 1)
}

/// The error for the first of the ranges 1 to `upto - 1` behind whose
/// nominal start no line ends.
pub open spec fn first_gap(data: Seq<u8>, workers: int, upto: int) -> Option<Error>
    decreases upto,
{
    if upto <= 1 {
        None
    } else {
        match first_gap(data, workers, upto - 1) {
            Some(error) => Some(error),
            None => if no_line_end(data, workers, upto - 1) {
                Some(Error::MalformedInput { offset: nominal(data, workers, upto - 1) as usize })
            } else {
                None
            },
        }
    }
}

/// Why an input cannot be cut for `workers` workers: it is empty or its
/// last line has no newline, or a line does not end within the window.
pub open spec fn plan_fault(data: Seq<u8>, workers: int) -> Option<Error> {
    if !is_terminated(data) {
        Some(Error::MalformedInput { offset: data.len() as usize })
    } else {
        first_gap(data, workers, workers)
    }
}

/// `ranges` cuts `data` for `workers` workers: one range each, the first
/// from 0, the last to the end, each beginning where the one before it
/// ends, and each but the first beginning just behind the first newline
/// at or behind its nominal start.
pub open spec fn is_plan(data: Seq<u8>, workers: int, ranges: Seq<(usize, usize)>) -> bool {
    &&& ranges.len() == workers
    &&& ranges[0].0 == 0
    &&& ranges[workers - 1].1 == data.len()
    &&& forall|index: int|
        0 <= index < workers ==> (#[trigger] ranges[index]).0 <= ranges[index].1 <= data.len()
    &&& forall|index: int|
        0 < index < workers ==> (#[trigger] ranges[index]).0 == ranges[index - 1].1
    &&& forall|index: int|
        0 < index < workers ==> starts_range(
            data,
            workers,
            index,
            (#[trigger] ranges[index]).0 as int,
        )
}

/// A range of a plan begins at 0 or behind a newline, and ends at the end
/// of the input or behind a newline.
pub proof fn lemma_plan_line_aligned(
    data: Seq<u8>,
    workers: int,
    ranges: Seq<(usize, usize)>,
    index: int,
)
    requires
        is_plan(data, workers, ranges),
        0 <= index < workers,
    ensures
        ranges[index].0 == 0 || data[ranges[index].0 - 1] == NEWLINE,
        ranges[index].1 == data.len() || data[ranges[index].1 - 1] == NEWLINE,
{
    if index > 0 {
        assert(starts_range(data, workers, index, ranges[index].0 as int));
    }
    if index < workers - 1 {
        assert(ranges[index + 1].0 == ranges[index].1);
        assert(starts_range(data, workers, index + 1, ranges[index + 1].0 as int));
    }
}

/// An input has no more than one plan for a number of workers.
pub proof fn lemma_plan_unique(
    data: Seq<u8>,
    workers: int,
    a: Seq<(usize, usize)>,
    b: Seq<(usize, usize)>,
)
    requires
        workers >= 1,
        is_plan(data, workers, a),
        is_plan(data, workers, b),
    ensures
        a == b,
{
    assert forall|index: int| 0 <= index < workers implies (#[trigger] a[index]).0
        == b[index].0 by {
        if index > 0 {
            assert(starts_range(data, workers, index, a[index].0 as int));
            assert(starts_range(data, workers, index, b[index].0 as int));
        }
    }
    assert forall|index: int| 0 <= index < workers implies a[index] == b[index] by {
        if index < workers - 1 {
            assert(a[index + 1].0 == a[index].1);
            assert(b[index + 1].0 == b[index].1);
        }
    }
    assert(a =~= b);
}

/// The plan of an input for a number of workers, where it has one.
pub open spec fn plan_of(data: Seq<u8>, workers: int) -> Seq<(usize, usize)> {
    choose|ranges: Seq<(usize, usize)>| is_plan(data, workers, ranges)
}

/// A gap found below `found` is the gap found below any later bound.
proof fn lemma_gap_persists(data: Seq<u8>, workers: int, found: int, upto: int)
    requires
        found <= upto,
        first_gap(data, workers, found) is Some,
    ensures
        first_gap(data, workers, upto) == first_gap(data, workers, found),
    decreases upto,
{
    if found < upto {
        lemma_gap_persists(data, workers, found, upto - 1);
    }
}

proof fn lemma_nominal_bounds(length: int, workers: int, index: int)
    by (nonlinear_arith)
    requires
        0 <= length,
        0 <= index < workers,
    ensures
        0 <= index * (length / workers) <= (index + 1) * (length / workers) <= length,
        index > 0 ==> (index - 1) * (length / workers) <= index * (length / workers),
{
    let stride = length / workers;
    assert(stride * workers <= length);
    assert((index + 1) * stride <= workers * stride);
}

/// Cuts `data` into `workers` ranges on line boundaries.
pub fn plan_chunks(data: &[u8], workers: usize) -> (done: Result<Vec<(usize, usize)>, Error>)
    requires
        workers >= 1,
    ensures
        match done {
            Ok(ranges) => plan_fault(data@, workers as int) is None && is_plan(
                data@,
                workers as int,
                ranges@,
            ),
            Err(error) => plan_fault(data@, workers as int) == Some(error),
        },
{
    let length = data.len();
    if length == 0 || data[length - 1] != NEWLINE {
        return Err(Error::MalformedInput { offset: length });
    }
    let stride = length / workers;
    let mut ranges: Vec<(usize, usize)> = Vec::new();
    let mut start: usize = 0;
    let mut index: usize = 1;
    while index < workers
        invariant
            workers >= 1,
            length == data@.len(),
            is_terminated(data@),
            stride == length / workers,
            1 <= index <= workers,
            ranges@.len() == index - 1,
            start <= length,
            first_gap(data@, workers as int, index as int) is None,
            index == 1 ==> start == 0,
            index > 1 ==> start == ranges@[index - 2].1 && starts_range(
                data@,
                workers as int,
                index - 1,
                start as int,
            ),
            ranges@.len() > 0 ==> ranges@[0].0 == 0,
            forall|at: int|
                0 <= at < ranges@.len() ==> (#[trigger] ranges@[at]).0 <= ranges@[at].1 <= length,
            forall|at: int|
                0 < at < ranges@.len() ==> (#[trigger] ranges@[at]).0 == ranges@[at - 1].1,
            forall|at: int|
                0 < at < ranges@.len() ==> starts_range(
                    data@,
                    workers as int,
                    at,
                    (#[trigger] ranges@[at]).0 as int,
                ),
        decreases workers - index,
    {
        proof {
            lemma_nominal_bounds(length as int, workers as int, index as int);
        }
        let from: usize = index * stride;
        let until: usize = if length - from > PROBE_WINDOW {
            from + PROBE_WINDOW
        } else {
            length
        };
        let window = &data[from..until];
        let mut scanner = SimdFind::new(NEWLINE, window);
        proof {
            lemma_positions_exact(window@, NEWLINE);
        }
        let next = match scanner.next() {
            Some(at) => from + at + 1,
            None => {
                proof {
                    assert forall|at: int|
                        from <= at < until && 0 <= at < data@.len() implies data@[at]
                        != NEWLINE by {
                        if data@[at] == NEWLINE {
                            assert(window@[at - from] == NEWLINE);
                            assert(positions_of(window@, NEWLINE).contains(at - from));
                        }
                    }
                    assert(no_line_end(data@, workers as int, index as int));
                    lemma_gap_persists(data@, workers as int, index + 1, workers as int);
                }
                return Err(Error::MalformedInput { offset: from });
            },
        };
        proof {
            let first = positions_of(window@, NEWLINE)[0];
            assert(window@[first] == NEWLINE);
            assert forall|at: int|
                from <= at < next - 1 && 0 <= at < data@.len() implies data@[at] != NEWLINE by {
                if data@[at] == NEWLINE {
                    assert(window@[at - from] == NEWLINE);
                    let k = choose|k: int|
                        0 <= k < positions_of(window@, NEWLINE).len() && positions_of(
                            window@,
                            NEWLINE,
                        )[k] == at - from;
                    if k > 0 {
                        assert(positions_of(window@, NEWLINE)[0] < positions_of(
                            window@,
                            NEWLINE,
                        )[k]);
                    }
                }
            }
            assert(starts_range(data@, workers as int, index as int, next as int));
            assert(!no_line_end(data@, workers as int, index as int));
            if index > 1 {
                if next < start {
                    assert(data@[next - 1] == NEWLINE);
                }
            }
        }
        ranges.push((start, next));
        start = next;
        index = index + 1;
    }
    ranges.push((start, length));
    Ok(ranges)
}

} // verus!
