//! The ways in which an input can be refused.

use vstd::prelude::*;

verus! {

/// Why a run over an input failed. Offsets count bytes from the start of
/// the input.
#[derive(Clone, Copy, Debug, PartialEq, Eq, Structural)]
pub enum Error {
    /// The input is empty or does not end with a newline, or no line ends
    /// within the window searched from `offset`.
    MalformedInput { offset: usize },
    /// The line that starts at `offset` does not hold exactly one `;`
    /// behind a station name of at least one byte.
    MalformedLine { offset: usize },
    /// The temperature of the line that starts at `offset` does not have
    /// one of the four accepted shapes.
    MalformedTemperature { offset: usize },
    /// A station had to be added to a table that has no empty slot left.
    TableFull,
}

} // verus!
