//! Temperatures as text: `-?d?d.d`, read and written in tenths of a degree
//! without floating point.

use crate::stat::{is_temperature, MAX_TEMPERATURE};
use vstd::prelude::*;

verus! {

/// The byte `0`.
pub const ZERO: u8 = 48;

/// The byte `-`.
pub const MINUS: u8 = 45;

/// The byte `.`.
pub const POINT: u8 = 46;

/// Whether `byte` is one of `0` to `9`.
pub open spec fn is_digit(byte: u8) -> bool {
    ZERO <= byte <= ZERO + 9
}

/// The value of a digit byte.
pub open spec fn digit_value(byte: u8) -> int {
    byte - ZERO
}

/// The temperature that `text` stands for, in tenths, where `text` has one
/// of the four shapes `d.d`, `dd.d`, `-d.d` and `-dd.d`.
pub open spec fn temperature_value(text: Seq<u8>) -> Option<int> {
    if text.len() == 3 && is_digit(text[0]) && text[1] == POINT && is_digit(text[2]) {
        Some(10 * digit_value(text[0]) + digit_value(text[2]))
    } else if text.len() == 4 && text[0] == MINUS && is_digit(text[1]) && text[2] == POINT
        && is_digit(text[3]) {
        Some(-(10 * digit_value(text[1]) + digit_value(text[3])))
    } else if text.len() == 4 && is_digit(text[0]) && is_digit(text[1]) && text[2] == POINT
        && is_digit(text[3]) {
        Some(100 * digit_value(text[0]) + 10 * digit_value(text[1]) + digit_value(text[3]))
    } else if text.len() == 5 && text[0] == MINUS && is_digit(text[1]) && is_digit(text[2])
        && text[3] == POINT && is_digit(text[4]) {
        Some(-(100 * digit_value(text[1]) + 10 * digit_value(text[2]) + digit_value(text[4])))
    } else {
        None
    }
}

/// The text of a number of `size` tenths, with a minus sign where
/// `negative`: the whole part without a leading zero, a point, one digit.
pub open spec fn tenths_text(negative: bool, size: int) -> Seq<u8> {
    let sign = if negative {
        seq![MINUS]
    } else {
        Seq::<u8>::empty()
    };
    let whole = size / 10;
    let lead = if whole >= 10 {
        seq![(ZERO + whole / 10) as u8, (ZERO + whole % 10) as u8]
    } else {
        seq![(ZERO + whole) as u8]
    };
    sign + lead + seq![POINT, (ZERO + size % 10) as u8]
}

/// The text of a temperature of `tenths` tenths.
pub open spec fn temperature_text(tenths: int) -> Seq<u8> {
    tenths_text(
        tenths < 0,
        if tenths < 0 {
            -tenths
        } else {
            tenths
        },
    )
}

/// Reading back what was written gives the temperature that was written,
/// for every temperature of the accepted range.
pub proof fn lemma_parse_format(tenths: int)
    requires
        is_temperature(tenths),
    ensures
        temperature_value(temperature_text(tenths)) == Some(tenths),
{
    let size = if tenths < 0 {
        -tenths
    } else {
        tenths
    };
    let text = temperature_text(tenths);
    let whole = size / 10;
    if tenths < 0 {
        if whole >= 10 {
            assert(text =~= seq![
                MINUS,
                (ZERO + whole / 10) as u8,
                (ZERO + whole % 10) as u8,
                POINT,
                (ZERO + size % 10) as u8,
            ]);
        } else {
            assert(text =~= seq![MINUS, (ZERO + whole) as u8, POINT, (ZERO + size % 10) as u8]);
        }
    } else {
        if whole >= 10 {
            assert(text =~= seq![
                (ZERO + whole / 10) as u8,
                (ZERO + whole % 10) as u8,
                POINT,
                (ZERO + size % 10) as u8,
            ]);
        } else {
            assert(text =~= seq![(ZERO + whole) as u8, POINT, (ZERO + size % 10) as u8]);
        }
    }
}

/// Every text that is read as a temperature is read as one of the accepted
/// range.
pub proof fn lemma_value_in_range(text: Seq<u8>)
    ensures
        temperature_value(text) matches Some(tenths) ==> is_temperature(tenths),
{
}

/// The distance of a byte from the byte `0`.
pub fn byte_to_digit(byte: u8) -> (digit: i32)
    ensures
        digit == byte - ZERO,
        0 <= digit <= 9 <==> is_digit(byte),
{
    byte as i32 - ZERO as i32
}

/// Reads a temperature. `None` where `text` has none of the four shapes.
pub fn parse_temperature(text: &[u8]) -> (value: Option<i32>)
    ensures
        match value {
            Some(tenths) => temperature_value(text@) == Some(tenths as int) && is_temperature(
                tenths as int,
            ),
            None => temperature_value(text@) is None,
        },
{
    let length = text.len();
    if length < 3 || length > 5 {
        return None;
    }
    let negative = text[0] == MINUS;
    let first: usize = if negative {
        1
    } else {
        0
    };
    let digits = length - first;
    if digits < 3 || digits > 4 {
        return None;
    }
    if text[length - 2] != POINT {
        return None;
    }
    let tenth = byte_to_digit(text[length - 1]);
    let unit = byte_to_digit(text[length - 3]);
    if tenth < 0 || tenth > 9 || unit < 0 || unit > 9 {
        return None;
    }
    let mut size: i32 = 10 * unit + tenth;
    if digits == 4 {
        let ten = byte_to_digit(text[first]);
        if ten < 0 || ten > 9 {
            return None;
        }
        size = size + 100 * ten;
    }
    if negative {
        Some(-size)
    } else {
        Some(size)
    }
}

/// Appends the text of `size` tenths, with a minus sign where `negative`.
pub fn push_tenths(out: &mut Vec<u8>, negative: bool, size: u32)
    requires
        size <= MAX_TEMPERATURE,
    ensures
        final(out)@ == old(out)@ + tenths_text(negative, size as int),
{
    if negative {
        out.push(MINUS);
    }
    let whole: u32 = size / 10;
    if whole >= 10 {
        out.push(ZERO + (whole / 10) as u8);
        out.push(ZERO + (whole % 10) as u8);
    } else {
        out.push(ZERO + whole as u8);
    }
    out.push(POINT);
    out.push(ZERO + (size % 10) as u8);
    assert(out@ =~= old(out)@ + tenths_text(negative, size as int));
}

/// The text of a temperature.
pub fn format_temperature(tenths: i32) -> (text: Vec<u8>)
    requires
        is_temperature(tenths as int),
    ensures
        text@ == temperature_text(tenths as int),
{
    let mut text: Vec<u8> = Vec::new();
    if tenths < 0 {
        push_tenths(&mut text, true, (-tenths) as u32);
    } else {
        push_tenths(&mut text, false, tenths as u32);
    }
    assert(text@ =~= temperature_text(tenths as int));
    text
}

} // verus!
