//! One range of the input, line by line, into a partial aggregate.

use crate::aggregate::{
    all_valid, lemma_listed_total, lemma_record_total, lemma_record_valid, listing,
    listing_total, lists, map_total, record, ResultEntry,
};
use crate::error::Error;
use crate::find::{
    lemma_positions_exact, lemma_positions_first, lemma_positions_none, positions_of, SimdFind,
};
use crate::hash::{fnv1a, fnv1a_update, lemma_fnv1a_extend, FNV_OFFSET};
use crate::hashtable::{HashTable, INITIAL_CAPACITY};
use crate::stat::{Stat, MAX_COUNT};
use crate::temperature::{lemma_value_in_range, parse_temperature, temperature_value};
use vstd::prelude::*;

verus! {

/// The byte that ends a line.
pub const NEWLINE: u8 = 10;

/// The byte between station and temperature.
pub const SEMICOLON: u8 = 59;

/// Station and temperature text of a line that holds exactly one `;`, with
/// at least one byte before it.
pub open spec fn split_line(line: Seq<u8>) -> Option<(Seq<u8>, Seq<u8>)> {
    let marks = positions_of(line, SEMICOLON);
    if marks.len() == 1 && marks[0] > 0 {
        Some((line.take(marks[0]), line.skip(marks[0] + 1)))
    } else {
        None
    }
}

/// Station and temperature, in tenths, of a line that is well formed.
pub open spec fn read_line(line: Seq<u8>) -> Option<(Seq<u8>, int)> {
    match split_line(line) {
        Some((station, text)) => match temperature_value(text) {
            Some(tenths) => Some((station, tenths)),
            None => None,
        },
        None => None,
    }
}

/// The error for a line that is not well formed and starts at `offset`.
pub open spec fn line_error(line: Seq<u8>, offset: usize) -> Error {
    if split_line(line) is None {
        Error::MalformedLine { offset }
    } else {
        Error::MalformedTemperature { offset }
    }
}

/// The positions of the newlines of a chunk.
pub open spec fn line_ends(chunk: Seq<u8>) -> Seq<int> {
    positions_of(chunk, NEWLINE)
}

/// The number of lines of a chunk: the number of its newlines.
pub open spec fn line_count(chunk: Seq<u8>) -> nat {
    line_ends(chunk).len()
}

/// Where line number `line` starts, the first line being number 0.
pub open spec fn line_start(chunk: Seq<u8>, line: int) -> int {
    if line <= 0 {
        0
    } else {
        line_ends(chunk)[line - 1] + 1
    }
}

/// The bytes of line number `line`, without its newline.
pub open spec fn line_bytes(chunk: Seq<u8>, line: int) -> Seq<u8> {
    chunk.subrange(line_start(chunk, line), line_ends(chunk)[line])
}

/// The aggregate of the first `lines` lines of a chunk. A line that is not
/// well formed adds nothing.
pub open spec fn tally(chunk: Seq<u8>, lines: nat) -> Map<Seq<u8>, Stat>
    decreases lines,
{
    if lines == 0 {
        Map::empty()
    } else {
        let before = tally(chunk, (lines - 1) as nat);
        match read_line(line_bytes(chunk, lines - 1)) {
            Some((station, tenths)) => record(before, station, tenths),
            None => before,
        }
    }
}

/// The aggregate of all lines of a chunk.
pub open spec fn chunk_tally(chunk: Seq<u8>) -> Map<Seq<u8>, Stat> {
    tally(chunk, line_count(chunk))
}

/// What is wrong with line number `line` of a chunk that starts at `base`
/// in the input, for a table of `capacity` slots: the line is not well
/// formed, or it brings a new station when the lines before it have filled
/// the table.
pub open spec fn line_fault(chunk: Seq<u8>, base: int, capacity: nat, line: int) -> Option<
    Error,
> {
    let bytes = line_bytes(chunk, line);
    match read_line(bytes) {
        None => Some(line_error(bytes, (base + line_start(chunk, line)) as usize)),
        Some((station, _)) => {
            let seen = tally(chunk, line as nat);
            if !seen.contains_key(station) && seen.dom().len() >= capacity {
                Some(Error::TableFull)
            } else {
                None
            }
        },
    }
}

/// The fault of the first faulty line among the first `lines` lines.
pub open spec fn first_fault(chunk: Seq<u8>, base: int, capacity: nat, lines: nat) -> Option<
    Error,
>
    decreases lines,
{
    if lines == 0 {
        None
    } else {
        match first_fault(chunk, base, capacity, (lines - 1) as nat) {
            Some(error) => Some(error),
            None => line_fault(chunk, base, capacity, lines - 1),
        }
    }
}

/// Why a chunk is refused: its last line has no newline, or else the first
/// fault among its lines.
pub open spec fn chunk_fault(chunk: Seq<u8>, base: int, capacity: nat) -> Option<Error> {
    if chunk.len() > 0 && chunk.last() != NEWLINE {
        Some(Error::MalformedInput { offset: (base + chunk.len()) as usize })
    } else {
        first_fault(chunk, base, capacity, line_count(chunk))
    }
}

/// A fault found among the first lines is the fault of any longer run of
/// lines.
pub proof fn lemma_fault_persists(
    chunk: Seq<u8>,
    base: int,
    capacity: nat,
    found: nat,
    lines: nat,
)
    requires
        found <= lines,
        first_fault(chunk, base, capacity, found) is Some,
    ensures
        first_fault(chunk, base, capacity, lines) == first_fault(chunk, base, capacity, found),
    decreases lines,
{
    if found < lines {
        lemma_fault_persists(chunk, base, capacity, found, (lines - 1) as nat);
    }
}

/// A station, its hash and its temperature, as one line gives them.
#[derive(Clone, Copy, Debug)]
pub struct Reading<'a> {
    pub station: &'a [u8],
    pub hash: u64,
    pub tenths: i32,
}

/// Whether `needle` stands in `haystack`.
fn holds_byte(haystack: &[u8], needle: u8) -> (found: bool)
    ensures
        found <==> positions_of(haystack@, needle).len() > 0,
{
    let mut at: usize = 0;
    while at < haystack.len()
        invariant
            at <= haystack.len(),
            forall|i: int| 0 <= i < at ==> haystack@[i] != needle,
        decreases haystack.len() - at,
    {
        if haystack[at] == needle {
            proof {
                lemma_positions_first(haystack@, needle, at as int);
            }
            return true;
        }
        at = at + 1;
    }
    proof {
        lemma_positions_none(haystack@, needle);
    }
    false
}

/// Splits a line at its `;`, hashing the station on the way, and reads the
/// temperature. `offset` is where the line starts in the input; the error
/// carries it.
pub fn parse_line<'a>(line: &'a [u8], offset: usize) -> (parsed: Result<Reading<'a>, Error>)
    ensures
        match parsed {
            Ok(reading) => {
                &&& read_line(line@) == Some((reading.station@, reading.tenths as int))
                &&& reading.hash == fnv1a(reading.station@)
            },
            Err(error) => read_line(line@) is None && error == line_error(line@, offset),
        },
{
    let mut hash: u64 = FNV_OFFSET;
    let mut at: usize = 0;
    assert(line@.take(0) =~= Seq::<u8>::empty());
    while at < line.len() && line[at] != SEMICOLON
        invariant
            at <= line.len(),
            forall|i: int| 0 <= i < at ==> line@[i] != SEMICOLON,
            hash == fnv1a(line@.take(at as int)),
        decreases line.len() - at,
    {
        proof {
            lemma_fnv1a_extend(line@, at as int);
        }
        hash = fnv1a_update(hash, line[at]);
        at = at + 1;
    }
    if at == line.len() {
        proof {
            lemma_positions_none(line@, SEMICOLON);
        }
        return Err(Error::MalformedLine { offset });
    }
    proof {
        lemma_positions_first(line@, SEMICOLON, at as int);
    }
    if at == 0 {
        return Err(Error::MalformedLine { offset });
    }
    let text = &line[at + 1..line.len()];
    assert(text@ =~= line@.skip(at + 1));
    if holds_byte(text, SEMICOLON) {
        return Err(Error::MalformedLine { offset });
    }
    let station = &line[0..at];
    assert(station@ =~= line@.take(at as int));
    match parse_temperature(text) {
        Some(tenths) => Ok(Reading { station, hash, tenths }),
        None => Err(Error::MalformedTemperature { offset }),
    }
}

/// The aggregate of the first lines is finite, valid, and counts each line
/// once, as long as those lines are well formed and no more than
/// `MAX_COUNT`.
pub proof fn lemma_tally_counts(chunk: Seq<u8>, lines: nat)
    requires
        lines <= MAX_COUNT,
        forall|line: int| 0 <= line < lines ==> read_line(#[trigger] line_bytes(chunk, line))
            is Some,
    ensures
        tally(chunk, lines).dom().finite(),
        all_valid(tally(chunk, lines)),
        map_total(tally(chunk, lines)) == lines,
        forall|station: Seq<u8>| #[trigger]
            tally(chunk, lines).contains_key(station) ==> tally(chunk, lines)[station].count
                <= lines,
    decreases lines,
{
    if lines > 0 {
        let before = tally(chunk, (lines - 1) as nat);
        lemma_tally_counts(chunk, (lines - 1) as nat);
        let bytes = line_bytes(chunk, lines - 1);
        assert(read_line(bytes) is Some);
        let (station, tenths) = read_line(bytes).unwrap();
        lemma_value_in_range(split_line(bytes).unwrap().1);
        lemma_record_valid(before, station, tenths);
        lemma_record_total(before, station, tenths);
    }
}

/// Aggregates the lines of `data[start..end]`. The range must end behind a
/// newline unless it is empty. Fails on the first line that is not well
/// formed, or that brings a station for which the table has no room.
pub fn process_chunk(data: &[u8], start: usize, end: usize) -> (done: Result<
    Vec<ResultEntry>,
    Error,
>)
    requires
        start <= end <= data@.len(),
        end - start <= MAX_COUNT,
    ensures
        match done {
            Ok(entries) => {
                let chunk = data@.subrange(start as int, end as int);
                &&& chunk_fault(chunk, start as int, INITIAL_CAPACITY as nat) is None
                &&& lists(listing(entries@), chunk_tally(chunk))
                &&& all_valid(chunk_tally(chunk))
                &&& listing_total(listing(entries@)) == line_count(chunk)
            },
            Err(error) => chunk_fault(
                data@.subrange(start as int, end as int),
                start as int,
                INITIAL_CAPACITY as nat,
            ) == Some(error),
        },
{
    let chunk = &data[start..end];
    let ghost bytes = chunk@;
    let ghost ends = line_ends(bytes);
    proof {
        lemma_positions_exact(bytes, NEWLINE);
    }
    if chunk.len() > 0 && chunk[chunk.len() - 1] != NEWLINE {
        return Err(Error::MalformedInput { offset: end });
    }
    let mut table: HashTable<'_, Stat> = HashTable::new();
    let mut scanner = SimdFind::new(NEWLINE, chunk);
    let mut offset: usize = 0;
    let ghost mut done: nat = 0;
    loop
        invariant
            start <= end <= data@.len(),
            end - start <= MAX_COUNT,
            bytes == data@.subrange(start as int, end as int),
            bytes == chunk@,
            ends == line_ends(bytes),
            bytes.len() == 0 || bytes.last() == NEWLINE,
            forall|k: int| 0 <= k < ends.len() ==> 0 <= #[trigger] ends[k] < bytes.len(),
            forall|j: int, k: int| 0 <= j < k < ends.len() ==> ends[j] < ends[k],
            ends.len() <= bytes.len(),
            scanner.wf(),
            scanner.remaining() == ends.skip(done as int),
            done <= ends.len(),
            offset == line_start(bytes, done as int),
            offset <= bytes.len(),
            table.wf(),
            table.slot_count() == INITIAL_CAPACITY,
            table@ == tally(bytes, done),
            first_fault(bytes, start as int, INITIAL_CAPACITY as nat, done) is None,
            forall|line: int| 0 <= line < done ==> read_line(#[trigger] line_bytes(bytes, line))
                is Some,
        ensures
            done == ends.len(),
            table.wf(),
            table@ == tally(bytes, done),
            first_fault(bytes, start as int, INITIAL_CAPACITY as nat, done) is None,
            forall|line: int| 0 <= line < done ==> read_line(#[trigger] line_bytes(bytes, line))
                is Some,
        decreases ends.len() - done,
    {
        let end_of_line = match scanner.next() {
            Some(position) => position,
            None => {
                break ;
            },
        };
        assert(end_of_line == ends[done as int]);
        assert(offset <= end_of_line) by {
            if done > 0 {
                assert(ends[done as int - 1] < ends[done as int]);
            }
        }
        let line = &chunk[offset..end_of_line];
        assert(line@ == line_bytes(bytes, done as int));
        proof {
            lemma_tally_counts(bytes, done);
            table.lemma_key_count();
        }
        let reading = match parse_line(line, start + offset) {
            Ok(reading) => reading,
            Err(error) => {
                proof {
                    assert(line_fault(bytes, start as int, INITIAL_CAPACITY as nat, done as int)
                        == Some(error));
                    assert(first_fault(bytes, start as int, INITIAL_CAPACITY as nat, done + 1)
                        == Some(error));
                    lemma_fault_persists(
                        bytes,
                        start as int,
                        INITIAL_CAPACITY as nat,
                        done + 1,
                        ends.len(),
                    );
                }
                return Err(error);
            },
        };
        match table.upsert_hashed(reading.station, reading.hash, reading.tenths) {
            Ok(()) => {},
            Err(error) => {
                proof {
                    assert(line_fault(bytes, start as int, INITIAL_CAPACITY as nat, done as int)
                        == Some(error));
                    assert(first_fault(bytes, start as int, INITIAL_CAPACITY as nat, done + 1)
                        == Some(error));
                    lemma_fault_persists(
                        bytes,
                        start as int,
                        INITIAL_CAPACITY as nat,
                        done + 1,
                        ends.len(),
                    );
                }
                return Err(error);
            },
        }
        proof {
            assert(ends.skip(done as int).skip(1) =~= ends.skip(done as int + 1));
            done = done + 1;
        }
        offset = end_of_line + 1;
    }
    proof {
        lemma_tally_counts(bytes, done);
    }
    let entries = table.drain();
    proof {
        lemma_listed_total(listing(entries@), table@);
    }
    Ok(entries)
}

} // verus!
