//! What a chosen split records: where missing values go, its score, and the
//! feature and threshold it tests.
use vstd::prelude::*;

use crate::ratio::Ratio;

verus! {

/// The side to which rows with a missing value are sent.
#[derive(Debug, Clone, Copy, PartialEq, Eq, Structural)]
pub enum NullDirection {
    Left,
    Right,
}

impl Default for NullDirection {
    fn default() -> (r: NullDirection)
        ensures
            r == NullDirection::Left,
    {
        NullDirection::Left
    }
}

/// Whether a row whose mask entry is `m` goes to the left side: present
/// values follow the mask, missing ones follow `dir`.
pub open spec fn goes_left(m: Option<bool>, dir: NullDirection) -> bool {
    match m {
        Some(b) => b,
        None => dir == NullDirection::Left,
    }
}

/// Executable form of [`goes_left`].
pub fn route_to_left(m: Option<bool>, dir: NullDirection) -> (r: bool)
    ensures
        r == goes_left(m, dir),
{
    match m {
        Some(b) => b,
        None => match dir {
            NullDirection::Left => true,
            NullDirection::Right => false,
        },
    }
}

/// The quality of a candidate split (lower is better) and the side its
/// missing values go to.
#[derive(Debug, Clone, Copy, PartialEq)]
pub struct SplitScore {
    pub score: Ratio,
    pub null_direction: NullDirection,
}

/// A chosen split: rows whose value of feature `name` is below `value` go
/// left, the others right, missing ones as `score.null_direction` says.
#[derive(Debug, Clone, PartialEq)]
pub struct SplitInfo {
    pub name: String,
    pub value: i64,
    pub score: SplitScore,
}

impl SplitInfo {
    pub fn new(name: String, value: i64, score: SplitScore) -> (r: SplitInfo)
        ensures
            r == (SplitInfo { name, value, score }),
    {
        SplitInfo { name, value, score }
    }
}

} // verus!
