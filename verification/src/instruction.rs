//! The instruction set that source text is translated into.
use vstd::prelude::*;

verus! {

/// One instruction of a translated program.
///
/// `Move` and `Add` carry the net effect of a whole run of source commands.
/// The width of `d` is chosen so that the longest run a source text can hold
/// still sums without overflow. The two jumps carry the absolute address at
/// which execution goes on when the jump is taken.
#[derive(Clone, Copy, Debug, PartialEq, Eq, Structural)]
pub enum Op {
    /// Shift the data pointer by `d` cells.
    Move { d: i128 },
    /// Add `d` to the current cell, modulo 256.
    Add { d: i128 },
    /// Write the current cell to the output stream.
    Out,
    /// Read one byte from the input stream into the current cell.
    In,
    /// Go to `addr` if the current cell is zero.
    JmpZ { addr: usize },
    /// Go to `addr` if the current cell is not zero.
    JmpNz { addr: usize },
}

} // verus!
