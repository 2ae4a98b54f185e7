pub mod insert;
pub mod mode_utils;
pub mod normal;

use vstd::prelude::*;

verus! {

/// What a mode starts with.
#[derive(Debug)]
pub struct ModeInit {
    pub cursor_pos: V2,
}

/// A position in a file buffer: column `x`, row `y`.
#[derive(Eq, PartialEq, Structural, Debug)]
pub struct V2 {
    x: usize,
    y: usize,
}

impl View for V2 {
    type V = (usize, usize);

    /// The column and the row.
    closed spec fn view(&self) -> (usize, usize) {
        (self.x, self.y)
    }
}

/// The smaller of `a` and `b`.
pub open spec fn min_of(a: int, b: int) -> int {
    if a <= b {
        a
    } else {
        b
    }
}

impl V2 {
    /// The position at column `x`, row `y`.
    pub fn new(x: usize, y: usize) -> (r: V2)
        ensures
            r@ == (x, y),
    {
        V2 { x, y }
    }

    /// The sum of two positions, coordinate by coordinate.
    pub fn add(&self, v: &V2) -> (r: V2)
        requires
            self@.0 + v@.0 <= usize::MAX,
            self@.1 + v@.1 <= usize::MAX,
        ensures
            r@.0 == self@.0 + v@.0,
            r@.1 == self@.1 + v@.1,
    {
        V2 { x: self.x + v.x, y: self.y + v.y }
    }

    /// The difference of two positions, coordinate by coordinate, stopping at 0.
    pub fn sat_sub(&self, v: &V2) -> (r: V2)
        ensures
            r@.0 == if self@.0 >= v@.0 { self@.0 - v@.0 } else { 0 },
            r@.1 == if self@.1 >= v@.1 { self@.1 - v@.1 } else { 0 },
    {
        V2 { x: self.x.saturating_sub(v.x), y: self.y.saturating_sub(v.y) }
    }

    /// The position with each coordinate at most that of `v_mx`.
    pub fn clamp(&self, v_mx: &V2) -> (r: V2)
        ensures
            r@.0 == min_of(self@.0 as int, v_mx@.0 as int),
            r@.1 == min_of(self@.1 as int, v_mx@.1 as int),
    {
        let x = if self.x <= v_mx.x {
            self.x
        } else {
            v_mx.x
        };
        let y = if self.y <= v_mx.y {
            self.y
        } else {
            v_mx.y
        };
        V2 { x, y }
    }

    /// The position with its column at most `x_mx`.
    pub fn clamp_x(&self, x_mx: usize) -> (r: V2)
        ensures
            r@ == (min_of(self@.0 as int, x_mx as int) as usize, self@.1),
    {
        self.clamp(&V2::new(x_mx, self.y))
    }

    /// The position with its row at most `y_mx`.
    pub fn clamp_y(&self, y_mx: usize) -> (r: V2)
        ensures
            r@ == (self@.0, min_of(self@.1 as int, y_mx as int) as usize),
    {
        self.clamp(&V2::new(self.x, y_mx))
    }
}

/// A direction in which the cursor moves.
#[derive(Eq, PartialEq, Structural, Copy, Clone, Debug)]
pub enum Dir2 {
    Up,
    Down,
    Left,
    Right,
}

} // verus!
