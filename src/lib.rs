//! Solvers for a set of small puzzles, with the bingo simulator at the core.
use vstd::prelude::*;

pub mod bingo;
pub mod crabs;
pub mod diagnostic;
pub mod dive;
pub mod lanternfish;
pub mod origami;
pub mod segments;
pub mod smoke;
pub mod sonar;
pub mod syntax;
pub mod text;
pub mod vents;
