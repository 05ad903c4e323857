//! The plain data that the parts of the search hand to each other.

use vstd::prelude::*;

verus! {

/// The size of one run: `n` items, `d` groups, `q` comparisons allowed.
#[derive(Debug)]
pub struct Input {
    pub n: usize,
    pub d: usize,
    pub q: usize,
}

/// How the weight of a left list stands to the weight of a right list.
#[derive(PartialEq, Eq, Structural, Debug, Clone, Copy)]
pub enum BalanceResult {
    /// The left list is lighter.
    Left,
    /// The left list is heavier.
    Right,
    /// Both weigh the same.
    Equal,
    /// Nothing is known, and nothing could be asked.
    Unknown,
}

} // verus!
