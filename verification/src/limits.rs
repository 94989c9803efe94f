//! The limits of a tree and the rule by which it branches.

use vstd::prelude::*;

verus! {

/// Fewest items a directory receives.
pub const MIN_ITEMS: u8 = 3;

/// Most items a directory receives.
pub const MAX_ITEMS: u8 = 50;

/// Depth from which on every new item is a file.
pub const DEPTH_HARD_LIMIT: u8 = 7;

/// Most subdirectories placed directly in one directory.
pub const DIR_HARD_LIMIT: u8 = 4;

/// How an item of a directory decides between directory and file.
#[derive(Clone, Copy, Debug, PartialEq, Eq, Structural)]
pub enum Branching {
    /// The item asks to be a directory.
    Always,
    /// The item is a file.
    Never,
    /// The item asks to be a directory with probability one in the given number.
    OneIn(u32),
}

/// The branching rule for the items of a directory at `depth`: the top level
/// always branches, nothing branches at or below the depth limit, and in
/// between the odds are one in three times the depth.
pub open spec fn spec_branching(depth: int) -> Branching {
    if depth == 0 {
        Branching::Always
    } else if depth >= DEPTH_HARD_LIMIT {
        Branching::Never
    } else {
        Branching::OneIn((3 * depth) as u32)
    }
}

/// Computes the branching rule for the items of a directory at `depth`.
pub fn branching(depth: u8) -> (rule: Branching)
    ensures
        rule == spec_branching(depth as int),
{
    if depth == 0 {
        Branching::Always
    } else if depth >= DEPTH_HARD_LIMIT {
        Branching::Never
    } else {
        let odds: u32 = 3 * (depth as u32);
        Branching::OneIn(odds)
    }
}

/// Whether an item of a directory at `depth` asks to be a directory, `coin`
/// being the outcome of the draw that the rule may call for.
pub open spec fn wants_directory(depth: int, coin: bool) -> bool {
    match spec_branching(depth) {
        Branching::Always => true,
        Branching::Never => false,
        Branching::OneIn(_) => coin,
    }
}

/// Whether an item becomes a directory: it must ask to be one, and its
/// parent must hold fewer than [`DIR_HARD_LIMIT`] directories so far.
pub open spec fn becomes_directory(depth: int, dirs: int, coin: bool) -> bool {
    wants_directory(depth, coin) && dirs < DIR_HARD_LIMIT
}

/// Decides whether an item becomes a directory, for a parent at `depth`
/// that holds `dirs` directories so far.
pub fn places_directory(depth: u8, dirs: u8, coin: bool) -> (as_dir: bool)
    ensures
        as_dir == becomes_directory(depth as int, dirs as int, coin),
{
    let wants = match branching(depth) {
        Branching::Always => true,
        Branching::Never => false,
        Branching::OneIn(_) => coin,
    };
    wants && dirs < DIR_HARD_LIMIT
}

} // verus!
