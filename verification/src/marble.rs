//! A marble: a piece that belongs to one player and glides towards the slot
//! it has been assigned.

use crate::geometry::{fits_i32, trunc_div, Point};
use vstd::prelude::*;

verus! {

/// Players are numbered from zero.
pub type Owner = usize;

/// Number of the first animation step after marbles have changed cells; the
/// steps count down from here to zero.
pub const TOTAL_STEPS: i32 = 15;

/// One coordinate of a marble after one animation step towards `target`,
/// with `steps` steps still to follow: the remaining distance shrinks to
/// `steps / (steps + 1)` of what it was, rounded towards the target.
pub open spec fn approach(pos: int, target: int, steps: int) -> int {
    target + trunc_div((pos - target) * steps, steps + 1)
}

/// A position after one animation step towards `target`.
pub open spec fn approached(pos: Point, target: Point, steps: int) -> Point {
    Point {
        x: approach(pos.x as int, target.x as int, steps) as i32,
        y: approach(pos.y as int, target.y as int, steps) as i32,
    }
}

/// A step never overshoots: the new coordinate lies between the target and
/// the old coordinate. The last step lands on the target.
pub proof fn lemma_approach_between(pos: int, target: int, steps: int)
    requires
        steps >= 0,
    ensures
        pos >= target ==> target <= approach(pos, target, steps) <= pos,
        pos <= target ==> pos <= approach(pos, target, steps) <= target,
        steps == 0 ==> approach(pos, target, steps) == target,
{
    let a = pos - target;
    let n = steps;
    if a >= 0 {
        assert(0 <= a * n <= a * (n + 1)) by (nonlinear_arith)
            requires
                a >= 0,
                n >= 0,
        ;
        vstd::arithmetic::div_mod::lemma_div_is_ordered(0, a * n, n + 1);
        vstd::arithmetic::div_mod::lemma_div_is_ordered(a * n, a * (n + 1), n + 1);
        vstd::arithmetic::div_mod::lemma_div_multiples_vanish(a, n + 1);
        assert(a * (n + 1) == (n + 1) * a) by (nonlinear_arith);
    } else {
        let b = -a;
        assert(0 <= b * n <= b * (n + 1) && b * n == -(a * n)) by (nonlinear_arith)
            requires
                b == -a,
                b >= 0,
                n >= 0,
        ;
        vstd::arithmetic::div_mod::lemma_div_is_ordered(0, b * n, n + 1);
        vstd::arithmetic::div_mod::lemma_div_is_ordered(b * n, b * (n + 1), n + 1);
        vstd::arithmetic::div_mod::lemma_div_multiples_vanish(b, n + 1);
        assert(b * (n + 1) == (n + 1) * b) by (nonlinear_arith);
    }
    if n == 0 {
        assert(a * n == 0) by (nonlinear_arith)
            requires
                n == 0,
        ;
    }
}

/// A piece on the board: where it is drawn, in pixels, and whose it is.
#[derive(Clone, Copy, Debug, PartialEq, Eq, Structural)]
pub struct Marble {
    pub pos: Point,
    pub owner: Owner,
}

impl Marble {
    /// Moves the marble one animation step towards `target`, with `steps`
    /// steps still to follow. The owner stays.
    pub fn step(&mut self, target: Point, steps: i32)
        requires
            0 <= steps < i32::MAX,
            fits_i32(old(self).pos.x - target.x),
            fits_i32(old(self).pos.y - target.y),
            fits_i32((old(self).pos.x - target.x) * steps),
            fits_i32((old(self).pos.y - target.y) * steps),
        ensures
            final(self).owner == old(self).owner,
            final(self).pos == approached(old(self).pos, target, steps as int),
            final(self).pos.x == approach(old(self).pos.x as int, target.x as int, steps as int),
            final(self).pos.y == approach(old(self).pos.y as int, target.y as int, steps as int),
    {
        proof {
            lemma_approach_between(self.pos.x as int, target.x as int, steps as int);
            lemma_approach_between(self.pos.y as int, target.y as int, steps as int);
        }
        self.pos = target.plus(self.pos.minus(target).scaled(steps).divided(steps + 1));
    }

    /// The player the marble belongs to.
    pub fn get_owner(&self) -> (o: Owner)
        ensures
            o == self.owner,
    {
        self.owner
    }

    /// Where the marble is drawn, in pixels.
    pub fn get_pos(&self) -> (p: Point)
        ensures
            p == self.pos,
    {
        self.pos
    }
}

} // verus!
