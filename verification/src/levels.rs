//! The built-in level presets.

use vstd::prelude::*;

verus! {

/// A ten-by-ten square board; the two players start in opposite
/// corners.
pub const SQUARE: &'static str = "\n| | | | | | | | | 2\n| | | | | | | | | |\n| | | | | | | | | |\n| | | | | | | | | |\n| | | | | | | | | |\n| | | | | | | | | |\n| | | | | | | | | |\n| | | | | | | | | |\n| | | | | | | | | |\n1 | | | | | | | | |\n";

/// A hexagonal board; the two players start on the left and right
/// corners of the middle row.
pub const HEXAGON: &'static str = "\n- - - | | | | | | | - - -\n- - - | | | | | | | | - -\n- - | | | | | | | | | - -\n- - | | | | | | | | | | -\n- | | | | | | | | | | | -\n- | | | | | | | | | | | |\n1 | | | | | | | | | | | 2\n- | | | | | | | | | | | |\n- | | | | | | | | | | | -\n- - | | | | | | | | | | -\n- - | | | | | | | | | - -\n- - - | | | | | | | | - -\n- - - | | | | | | | - - -\n";

} // verus!
