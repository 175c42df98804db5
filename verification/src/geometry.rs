//! Integer grid geometry: points, the four directions, and the order in which
//! a grid's coordinates are visited.

use num_complex::Complex;
use vstd::prelude::*;

verus! {

/// An integer pair `(column, row)`. It names a cell of the grid and, scaled
/// by the pixel size of a cell, a position on the board.
#[derive(Clone, Copy, Debug, PartialEq, Eq, Structural)]
pub struct Point {
    pub x: i32,
    pub y: i32,
}

/// The direction towards the next column. The four directions are numbered
/// from 0 to 3 in the order east, south, west, north.
pub const EAST: usize = 0;

/// The direction towards the next row.
pub const SOUTH: usize = 1;

/// The direction towards the previous column.
pub const WEST: usize = 2;

/// The direction towards the previous row.
pub const NORTH: usize = 3;

/// Column offset of direction `d`.
pub open spec fn dir_x(d: int) -> int {
    if d == 0 {
        1
    } else if d == 2 {
        -1
    } else {
        0
    }
}

/// Row offset of direction `d`.
pub open spec fn dir_y(d: int) -> int {
    if d == 1 {
        1
    } else if d == 3 {
        -1
    } else {
        0
    }
}

/// The direction that points back: two quarter turns on.
pub open spec fn opposite_of(d: int) -> int {
    (d + 2) % 4
}

/// Whether `v` is the value of some `i32`.
pub open spec fn fits_i32(v: int) -> bool {
    i32::MIN <= v <= i32::MAX
}

/// Quotient rounded towards zero, for a positive divisor.
pub open spec fn trunc_div(a: int, b: int) -> int {
    if a >= 0 {
        a / b
    } else {
        -((-a) / b)
    }
}

/// Whether `p` names a cell of a grid with `dim.x` columns and `dim.y` rows.
pub open spec fn in_grid(p: Point, dim: Point) -> bool {
    0 <= p.x < dim.x && 0 <= p.y < dim.y
}

/// Number of cells of a grid of dimensions `dim`; zero unless both
/// dimensions are positive.
pub open spec fn cell_count(dim: Point) -> nat {
    if dim.x > 0 && dim.y > 0 {
        (dim.x * dim.y) as nat
    } else {
        0
    }
}

/// Position of cell `p` in the flat, column-by-column store of a grid.
pub open spec fn flat_index(p: Point, dim: Point) -> int {
    p.x * dim.y + p.y
}

/// The cell stored at position `i`: the inverse of [`flat_index`].
pub open spec fn point_at(i: int, dim: Point) -> Point {
    Point { x: (i / (dim.y as int)) as i32, y: (i % (dim.y as int)) as i32 }
}

/// All cells of the grid, the highest flat index first.
pub open spec fn reverse_order(dim: Point) -> Seq<Point> {
    Seq::new(cell_count(dim), |k: int| point_at(cell_count(dim) - 1 - k, dim))
}

/// `flat_index` and `point_at` are inverse to each other on the grid, and
/// every flat index lies below `cell_count`.
pub proof fn lemma_flat_index(p: Point, dim: Point)
    requires
        in_grid(p, dim),
    ensures
        0 <= flat_index(p, dim) < cell_count(dim),
        point_at(flat_index(p, dim), dim) == p,
{
    let h = dim.y as int;
    assert(p.x * h + p.y < dim.x * h) by (nonlinear_arith)
        requires
            0 <= p.x < dim.x,
            0 <= p.y < h,
    ;
    assert(0 <= p.x * h + p.y) by (nonlinear_arith)
        requires
            0 <= p.x,
            0 <= p.y,
            0 < h,
    ;
    vstd::arithmetic::div_mod::lemma_fundamental_div_mod_converse(
        flat_index(p, dim),
        h,
        p.x as int,
        p.y as int,
    );
}

/// Every position below `cell_count` holds a cell of the grid, whose flat
/// index is that position.
pub proof fn lemma_point_at(i: int, dim: Point)
    requires
        0 <= i < cell_count(dim),
    ensures
        in_grid(point_at(i, dim), dim),
        flat_index(point_at(i, dim), dim) == i,
        point_at(i, dim).x == i / (dim.y as int),
        point_at(i, dim).y == i % (dim.y as int),
{
    let h = dim.y as int;
    let w = dim.x as int;
    vstd::arithmetic::div_mod::lemma_fundamental_div_mod(i, h);
    let q = i / h;
    let r = i % h;
    assert(0 <= r < h);
    assert(0 <= q < w) by (nonlinear_arith)
        requires
            0 <= i < w * h,
            i == h * q + r,
            0 <= r < h,
            0 < h,
    ;
    assert(h * q == q * h) by (nonlinear_arith);
}

impl Point {
    /// The point at column `x` and row `y`.
    pub fn new(x: i32, y: i32) -> (p: Point)
        ensures
            p == (Point { x, y }),
    {
        Point { x, y }
    }

    /// Component-wise sum, computed by `num_complex`'s `Complex + Complex`,
    /// which adds the real parts and the imaginary parts separately. The
    /// sums must fit an `i32`.
    #[verifier::external_body]
    pub(crate) fn plus(self, other: Point) -> (r: Point)
        requires
            fits_i32(self.x + other.x),
            fits_i32(self.y + other.y),
        ensures
            r.x == self.x + other.x,
            r.y == self.y + other.y,
    {
        let c = Complex::new(self.x, self.y) + Complex::new(other.x, other.y);
        Point { x: c.re, y: c.im }
    }

    /// Component-wise difference, computed by `num_complex`'s
    /// `Complex - Complex`, which subtracts the real parts and the imaginary
    /// parts separately. The differences must fit an `i32`.
    #[verifier::external_body]
    pub(crate) fn minus(self, other: Point) -> (r: Point)
        requires
            fits_i32(self.x - other.x),
            fits_i32(self.y - other.y),
        ensures
            r.x == self.x - other.x,
            r.y == self.y - other.y,
    {
        let c = Complex::new(self.x, self.y) - Complex::new(other.x, other.y);
        Point { x: c.re, y: c.im }
    }

    /// Both components multiplied by `k`, computed by `num_complex`'s
    /// `Complex * scalar`, which multiplies each part by the scalar. The
    /// products must fit an `i32`.
    #[verifier::external_body]
    pub(crate) fn scaled(self, k: i32) -> (r: Point)
        requires
            fits_i32(self.x * k),
            fits_i32(self.y * k),
        ensures
            r.x == self.x * k,
            r.y == self.y * k,
    {
        let c = Complex::new(self.x, self.y) * k;
        Point { x: c.re, y: c.im }
    }

    /// Both components divided by a positive `k`, computed by
    /// `num_complex`'s `Complex / scalar`, which divides each part by the
    /// scalar with the integer division of `i32`: the quotient is rounded
    /// towards zero.
    #[verifier::external_body]
    pub(crate) fn divided(self, k: i32) -> (r: Point)
        requires
            k > 0,
        ensures
            r.x == trunc_div(self.x as int, k as int),
            r.y == trunc_div(self.y as int, k as int),
    {
        let c = Complex::new(self.x, self.y) / k;
        Point { x: c.re, y: c.im }
    }
}

/// Whether `p` names a cell of a grid of dimensions `dim`.
pub fn in_bounds(p: Point, dim: Point) -> (b: bool)
    ensures
        b == in_grid(p, dim),
{
    0 <= p.x && p.x < dim.x && 0 <= p.y && p.y < dim.y
}

/// The unit offset of direction `d`.
pub fn direction(d: usize) -> (p: Point)
    requires
        d < 4,
    ensures
        p.x == dir_x(d as int),
        p.y == dir_y(d as int),
{
    if d == 0 {
        Point { x: 1, y: 0 }
    } else if d == 1 {
        Point { x: 0, y: 1 }
    } else if d == 2 {
        Point { x: -1, y: 0 }
    } else {
        Point { x: 0, y: -1 }
    }
}

/// The direction opposite to `d`.
pub fn opposite(d: usize) -> (r: usize)
    requires
        d < 4,
    ensures
        r == opposite_of(d as int),
        r < 4,
{
    (d + 2) % 4
}

/// Walks over all cells of a grid, the highest flat index first.
pub struct PointIter {
    dim: Point,
    p: Point,
}

impl PointIter {
    /// Number of cells still to come.
    pub closed spec fn remaining(&self) -> nat {
        if self.dim.x > 0 && self.dim.y > 0 {
            (self.p.x * self.dim.y + self.p.y) as nat
        } else {
            0
        }
    }

    /// The grid dimensions this iterator was made for.
    pub closed spec fn dim(&self) -> Point {
        self.dim
    }

    /// The cursor lies on the grid or one step past its last row.
    pub closed spec fn wf(&self) -> bool {
        self.dim.x > 0 && self.dim.y > 0 ==> 0 <= self.p.x < self.dim.x && 0 <= self.p.y
            <= self.dim.y
    }

    /// An iterator wholly behind its grid's last cell.
    pub fn new(dim: Point) -> (it: PointIter)
        ensures
            it.wf(),
            it.dim() == dim,
            it@ == reverse_order(dim),
    {
        let it = if dim.x > 0 && dim.y > 0 {
            PointIter { dim, p: Point { x: dim.x - 1, y: dim.y } }
        } else {
            PointIter { dim, p: Point { x: 0, y: 0 } }
        };
        proof {
            if dim.x > 0 && dim.y > 0 {
                assert((dim.x - 1) * dim.y + dim.y == dim.x * dim.y) by (nonlinear_arith);
            }
            assert(it@ =~= reverse_order(dim));
        }
        it
    }

    /// The next cell, or `None` when every cell has been handed out.
    pub fn next(&mut self) -> (r: Option<Point>)
        requires
            old(self).wf(),
        ensures
            final(self).wf(),
            final(self).dim() == old(self).dim(),
            old(self)@.len() == 0 ==> r is None && final(self)@ == old(self)@,
            old(self)@.len() > 0 ==> r == Some(old(self)@[0]) && final(self)@ == old(self)@.skip(
                1,
            ),
    {
        if self.dim.x <= 0 || self.dim.y <= 0 {
            return None;
        }
        let ghost before = self@;
        let ghost n = self.remaining() as int;
        let ghost h = self.dim.y as int;
        if self.p.y != 0 {
            self.p.y = self.p.y - 1;
        } else if self.p.x > 0 {
            self.p.x = self.p.x - 1;
            self.p.y = self.dim.y - 1;
        } else {
            assert(self.p.x * self.dim.y == 0) by (nonlinear_arith)
                requires
                    self.p.x == 0,
            ;
            return None;
        }
        proof {
            let (x0, y0) = (old(self).p.x as int, old(self).p.y as int);
            let (x1, y1) = (self.p.x as int, self.p.y as int);
            assert(x1 * h + y1 == n - 1) by (nonlinear_arith)
                requires
                    (x1 == x0 && y1 == y0 - 1) || (x1 == x0 - 1 && y1 == h - 1 && y0 == 0),
                    n == x0 * h + y0,
            ;
            assert(0 <= x1 * h) by (nonlinear_arith)
                requires
                    0 <= x1,
                    0 < h,
            ;
            lemma_flat_index(self.p, self.dim);
            assert(before[0] == self.p);
            assert(self@ =~= before.skip(1));
        }
        Some(self.p)
    }
}

impl View for PointIter {
    type V = Seq<Point>;

    /// The cells still to come, in the order in which they will be handed
    /// out.
    closed spec fn view(&self) -> Seq<Point> {
        Seq::new(self.remaining(), |k: int| point_at(self.remaining() - 1 - k, self.dim))
    }
}

} // verus!
