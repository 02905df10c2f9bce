//! The three classic board sizes.

use vstd::prelude::*;
use crate::board::Board;

verus! {

/// 9 x 9 with 10 mines.
pub type Beginner = Board<9, 9, 10>;

/// 16 x 16 with 40 mines.
pub type Medium = Board<16, 16, 40>;

/// 16 rows of 30 with 99 mines.
pub type Expert = Board<16, 30, 99>;

} // verus!
