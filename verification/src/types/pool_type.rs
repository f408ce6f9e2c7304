//! The kinds of mining pool.
use vstd::prelude::*;

verus! {

/// A stable-coin pool; the first pool of a computation is the maze pool.
pub const USP: u64 = 0;

/// An index pool.
pub const ISP: u64 = 1;

/// A debt pool.
pub const DP: u64 = 2;

} // verus!
