use vstd::prelude::*;
use crate::rng;

verus! {

/// How many glyphs the fixed display alphabet holds. A cell stores its glyph
/// as an index into that alphabet; the display table itself is the driver's
/// concern.
pub const GLYPH_COUNT: usize = 294;

/// One occupied grid position: a glyph drawn from the fixed alphabet,
/// identified by its index, and a bounded age.
#[derive(Clone, Copy, Debug, PartialEq, Eq, Structural)]
pub struct Cell {
    pub content: usize,
    pub age: u16,
}

/// A cell is sound when its glyph index is inside the alphabet and its age
/// never exceeds the grid's `max_age`.
pub open spec fn cell_ok(c: Cell, max_age: u16) -> bool {
    c.age <= max_age && c.content < GLYPH_COUNT
}

/// A position holding a newborn cell: age 0, any glyph of the alphabet.
pub open spec fn is_fresh(oc: Option<Cell>) -> bool {
    match oc {
        Some(c) => c.age == 0 && c.content < GLYPH_COUNT,
        None => false,
    }
}

impl Cell {
    /// A newborn cell: age 0 and a uniformly random glyph.
    pub fn new(rng: &mut rand::rngs::ThreadRng) -> (c: Cell)
        ensures
            c.age == 0,
            c.content < GLYPH_COUNT,
    {
        Cell { content: rng::random_glyph(rng), age: 0 }
    }
}

} // verus!
