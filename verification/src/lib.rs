//! A library of small, fully verified puzzle solvers.
//!
//! The centrepiece is [`valves`], a bounded state-space search engine that
//! expands a frontier of reachable states one simulated time step at a time,
//! deduplicating states and keeping only the best score seen for each.  The
//! remaining modules are independent, self-contained algorithms: grid scans,
//! interval arithmetic, base-five numerals, and a handful of small parsers
//! and simulations, each carrying a contract that pins down its result.

use vstd::prelude::*;

pub mod arith;
pub mod assignments;
pub mod cpu;
pub mod crane;
pub mod filesystem;
pub mod forest;
pub mod lava;
pub mod mixing;
pub mod monkey_math;
pub mod monkeys;
pub mod packets;
pub mod path;
pub mod pieces;
pub mod rucksack;
pub mod sand;
pub mod sensors;
pub mod snafu;
pub mod strategy;
pub mod tuning;
pub mod valves;

verus! {

/// A position on a grid: row (or y) first, column (or x) second.
#[derive(Debug, PartialEq, Eq, Structural, Clone, Copy)]
pub struct Pos(pub isize, pub isize);

impl Pos {
    /// Componentwise sum of two positions.
    pub fn add(self, rhs: Pos) -> (r: Pos)
        requires
            isize::MIN <= self.0 + rhs.0 <= isize::MAX,
            isize::MIN <= self.1 + rhs.1 <= isize::MAX,
        ensures
            r.0 == self.0 + rhs.0,
            r.1 == self.1 + rhs.1,
    {
        Pos(self.0 + rhs.0, self.1 + rhs.1)
    }
}

} // verus!
