//! Solutions to a set of grid, graph and number puzzles, each stated by
//! contracts over a mathematical model and proved.
use vstd::prelude::*;

pub mod almanac;
pub mod arith;
pub mod beams;
pub mod bricks;
pub mod calibration;
pub mod camel;
pub mod circuit;
pub mod crucible;
pub mod cubes;
pub mod galaxies;
pub mod garden;
pub mod hike;
pub mod lagoon;
pub mod lenses;
pub mod mirrors;
pub mod network;
pub mod oasis;
pub mod pipes;
pub mod platform;
pub mod pulse;
pub mod races;
pub mod schematic;
pub mod scratchcards;
pub mod springs;
pub mod text;
pub mod workflows;

verus! {

/// A point or a step on an integer grid; `y` grows downwards.
#[derive(Debug, Clone, Copy, PartialEq, Eq, Structural, Hash)]
pub struct Vec2D {
    pub x: i32,
    pub y: i32,
}

impl Vec2D {
    pub fn new(x: i32, y: i32) -> (r: Vec2D)
        ensures
            r.x == x,
            r.y == y,
    {
        Vec2D { x, y }
    }
}

} // verus!
