//! The report: `{name=min/mean/max, name=min/mean/max, ...}`.
//!
//! Every number has one digit behind the point. The mean is rounded to the
//! nearest tenth, and a mean that lies halfway between two tenths goes to
//! the greater one. A mean that rounds to zero from below is written
//! `-0.0`: the sign is that of the sum of the readings.

use crate::aggregate::{listing, ResultEntry};
use crate::stat::{mean_tenths, Stat};
use crate::temperature::{push_tenths, temperature_text, tenths_text};
use vstd::prelude::*;

verus! {

/// The byte `{`.
pub const OPEN: u8 = 123;

/// The byte `}`.
pub const CLOSE: u8 = 125;

/// The byte `=`.
pub const EQUALS: u8 = 61;

/// The byte `/`.
pub const SLASH: u8 = 47;

/// The byte `,`.
pub const COMMA: u8 = 44;

/// The space.
pub const SPACE: u8 = 32;

/// The text of the rounded mean of `stat`.
pub open spec fn mean_text(stat: Stat) -> Seq<u8> {
    let mean = mean_tenths(stat);
    tenths_text(
        stat.sum < 0,
        if mean < 0 {
            -mean
        } else {
            mean
        },
    )
}

/// The text of one station: its name as it is, `=`, and minimum, mean and
/// maximum with `/` between them.
pub open spec fn entry_text(entry: (Seq<u8>, Stat)) -> Seq<u8> {
    entry.0 + seq![EQUALS] + temperature_text(entry.1.min as int) + seq![SLASH] + mean_text(
        entry.1,
    ) + seq![SLASH] + temperature_text(entry.1.max as int)
}

/// The texts of the stations in the order of the listing, with `, `
/// between them.
pub open spec fn entries_text(list: Seq<(Seq<u8>, Stat)>) -> Seq<u8>
    decreases list.len(),
{
    if list.len() == 0 {
        Seq::empty()
    } else if list.len() == 1 {
        entry_text(list[0])
    } else {
        entries_text(list.drop_last()) + seq![COMMA, SPACE] + entry_text(list.last())
    }
}

/// The report for a listing: its stations between `{` and `}`, with no
/// newline behind.
pub open spec fn report_text(list: Seq<(Seq<u8>, Stat)>) -> Seq<u8> {
    seq![OPEN] + entries_text(list) + seq![CLOSE]
}

/// Appends `bytes` to `out`.
fn push_bytes(out: &mut Vec<u8>, bytes: &[u8])
    ensures
        final(out)@ == old(out)@ + bytes@,
{
    let mut at: usize = 0;
    while at < bytes.len()
        invariant
            at <= bytes@.len(),
            out@ == old(out)@ + bytes@.take(at as int),
        decreases bytes@.len() - at,
    {
        out.push(bytes[at]);
        assert(bytes@.take(at + 1) =~= bytes@.take(at as int).push(bytes@[at as int]));
        at = at + 1;
    }
    assert(bytes@.take(at as int) =~= bytes@);
}

/// Appends the text of one station.
fn push_entry(out: &mut Vec<u8>, entry: &ResultEntry)
    requires
        entry.value.valid(),
    ensures
        final(out)@ == old(out)@ + entry_text((entry.key@, entry.value)),
{
    let stat = entry.value;
    let mean = stat.mean();
    push_bytes(out, entry.key.as_slice());
    out.push(EQUALS);
    if stat.min < 0 {
        push_tenths(out, true, (-stat.min) as u32);
    } else {
        push_tenths(out, false, stat.min as u32);
    }
    out.push(SLASH);
    if mean < 0 {
        push_tenths(out, stat.sum < 0, (-mean) as u32);
    } else {
        push_tenths(out, stat.sum < 0, mean as u32);
    }
    out.push(SLASH);
    if stat.max < 0 {
        push_tenths(out, true, (-stat.max) as u32);
    } else {
        push_tenths(out, false, stat.max as u32);
    }
    assert(out@ =~= old(out)@ + entry_text((entry.key@, entry.value)));
}

/// The report for the entries, in the order in which they stand.
pub fn format_report(entries: &[ResultEntry]) -> (report: Vec<u8>)
    requires
        forall|i: int| 0 <= i < entries@.len() ==> (#[trigger] entries@[i]).value.valid(),
    ensures
        report@ == report_text(listing(entries@)),
{
    let ghost list = listing(entries@);
    let mut report: Vec<u8> = Vec::new();
    report.push(OPEN);
    let mut at: usize = 0;
    assert(list.take(0) =~= Seq::<(Seq<u8>, Stat)>::empty());
    while at < entries.len()
        invariant
            at <= entries@.len(),
            list == listing(entries@),
            forall|i: int| 0 <= i < entries@.len() ==> (#[trigger] entries@[i]).value.valid(),
            report@ == seq![OPEN] + entries_text(list.take(at as int)),
        decreases entries@.len() - at,
    {
        let ghost longer = list.take(at + 1);
        assert(longer.drop_last() =~= list.take(at as int));
        assert(longer.last() == (entries@[at as int].key@, entries@[at as int].value));
        if at > 0 {
            report.push(COMMA);
            report.push(SPACE);
        }
        push_entry(&mut report, &entries[at]);
        assert(report@ =~= seq![OPEN] + entries_text(longer));
        at = at + 1;
    }
    assert(list.take(at as int) =~= list);
    report.push(CLOSE);
    assert(report@ =~= report_text(list));
    report
}

} // verus!
