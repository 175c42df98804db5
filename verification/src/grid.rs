//! The board: all cells in one flat store, the spread that carries marbles
//! from full cells to their neighbours, and the animation step.

use crate::cell::{
    empty_slots, lemma_committed, lemma_stepped, lemma_with_marble, valid_layout, Cell, CellView,
    PlaceError,
};
use crate::game::{Player, State};
use crate::geometry::{
    cell_count, dir_x, dir_y, direction, flat_index, in_grid, lemma_flat_index, lemma_point_at,
    opposite, opposite_of, point_at, reverse_order, Point, PointIter,
};
use crate::marble::{Marble, Owner, TOTAL_STEPS};
use crate::spread::{
    in_hand, lemma_spread_keeps, lemma_spread_settled, lemma_stage_ends, lemma_stage_other,
    lemma_stage_receive, lemma_stage_send, lemma_stage_shape,
};
use vstd::prelude::*;

verus! {

/// Number of marbles in a row of cells.
pub open spec fn marble_count(cells: Seq<CellView>) -> nat
    decreases cells.len(),
{
    if cells.len() == 0 {
        0
    } else {
        marble_count(cells.drop_last()) + cells.last().occupied()
    }
}

/// The marbles of a row of cells, cell by cell.
pub open spec fn all_marbles(cells: Seq<CellView>) -> Seq<Marble>
    decreases cells.len(),
{
    if cells.len() == 0 {
        Seq::empty()
    } else {
        all_marbles(cells.drop_last()) + cells.last().marbles()
    }
}

/// The cell next to `p` in direction `d`.
pub open spec fn neighbor_of(p: Point, d: int) -> Point {
    Point { x: (p.x + dir_x(d)) as i32, y: (p.y + dir_y(d)) as i32 }
}

/// What a board is, apart from how it is stored.
#[verifier::ext_equal]
pub struct GridView {
    /// Columns and rows.
    pub dim: Point,
    /// Width and height of a cell in pixels.
    pub cellsize: i32,
    /// The cells, column by column.
    pub cells: Seq<CellView>,
}

impl GridView {
    /// A board without marbles.
    pub open spec fn fresh(dim: Point, cellsize: i32) -> GridView {
        GridView {
            dim,
            cellsize,
            cells: Seq::new(
                cell_count(dim),
                |i: int| CellView::fresh(point_at(i, dim), dim, cellsize),
            ),
        }
    }

    /// The cell at column `p.x` and row `p.y`.
    pub open spec fn cell(self, p: Point) -> CellView {
        self.cells[flat_index(p, self.dim)]
    }

    /// What holds of a board between two calls: its layout is valid, every
    /// cell knows its place and is as a cell is between two spreads.
    pub open spec fn wf(self) -> bool {
        &&& valid_layout(self.dim, self.cellsize)
        &&& self.cells.len() == cell_count(self.dim)
        &&& forall|i: int| 0 <= i < self.cells.len() ==> self.cell_ok(i)
    }

    /// Cell `i` is consistent, at rest, and knows its place on this board.
    pub open spec fn cell_ok(self, i: int) -> bool {
        let c = #[trigger] self.cells[i];
        &&& c.wf()
        &&& c.rested()
        &&& c.coord == point_at(i, self.dim)
        &&& c.dim == self.dim
        &&& c.cellsize == self.cellsize
    }

    /// Place in the store of the neighbour in direction `d` of the cell at
    /// place `i`: a column on for east, a row on for south, a column back for
    /// west, a row back for north.
    pub open spec fn next_to(self, i: int, d: int) -> int {
        if d == 0 {
            i + self.dim.y
        } else if d == 1 {
            i + 1
        } else if d == 2 {
            i - self.dim.y
        } else {
            i - 1
        }
    }

    /// What a spread brings to the cell at place `i` from direction `d`:
    /// the marble that the neighbour there had waiting to leave towards this
    /// cell, handed to the neighbour's owner.
    pub open spec fn arriving(self, i: int, d: int) -> Option<Marble> {
        if self.cells[i].has_neighbor(d) {
            self.cells[self.next_to(i, d)].committed().outgoing[opposite_of(d)]
        } else {
            None
        }
    }

    /// The cell at place `i` after all cells have sent and received. Cells
    /// send in the order of their places, the highest first, and a cell
    /// belongs to the owner of the marble it received last. So the cell
    /// takes what comes from the east and from the south, then sends, then
    /// takes what comes from the north and from the west.
    pub open spec fn exchanged(self, i: int) -> CellView {
        self.cells[i].committed().taking(0, self.arriving(i, 0)).taking(
            1,
            self.arriving(i, 1),
        ).after_send().taking(3, self.arriving(i, 3)).taking(2, self.arriving(i, 2))
    }

    /// The cell at place `i` after a spread: when all cells have sent and
    /// received, each gives the marbles that arrived their slots.
    pub open spec fn spread_cell(self, i: int) -> CellView {
        self.exchanged(i).sorted()
    }

    /// The board after a spread.
    pub open spec fn spread(self) -> GridView {
        GridView { cells: Seq::new(self.cells.len(), |i: int| self.spread_cell(i)), ..self }
    }

    /// Whether some cell has a marble waiting to leave, so that a spread
    /// moves something.
    pub open spec fn unsettled(self) -> bool {
        exists|i: int| 0 <= i < self.cells.len() && (#[trigger] self.cells[i]).loaded()
    }

    /// What the simulation does after a spread of this board: it animates
    /// the marbles that moved, or waits for input if none did.
    pub open spec fn spread_state(self) -> State {
        if self.unsettled() {
            State::Animating(TOTAL_STEPS)
        } else {
            State::AcceptingInput
        }
    }

    /// The board with a marble of `owner` placed in the cell `p`, before any
    /// spread.
    pub open spec fn with_marble(self, p: Point, owner: Owner) -> GridView {
        GridView {
            cells: self.cells.update(flat_index(p, self.dim), self.cell(p).with_marble(owner)),
            ..self
        }
    }

    /// The board after `owner` has placed a marble in the cell `p`: if that
    /// fills the cell, a spread follows at once.
    pub open spec fn after_placing(self, p: Point, owner: Owner) -> GridView {
        let placed = self.with_marble(p, owner);
        if placed.cell(p).full() {
            placed.spread()
        } else {
            placed
        }
    }

    /// What the simulation does after `owner` has placed a marble in the
    /// cell `p`: it animates the spread if the cell is full now, else it
    /// waits for input.
    pub open spec fn state_after_placing(self, p: Point, owner: Owner) -> State {
        if self.cell(p).occupied() + 1 >= self.cell(p).capacity() {
            State::Animating(TOTAL_STEPS)
        } else {
            State::AcceptingInput
        }
    }

    /// The board with every marble one animation step nearer to its target.
    pub open spec fn stepped(self, steps: int) -> GridView {
        GridView {
            cells: Seq::new(self.cells.len(), |i: int| self.cells[i].stepped(steps)),
            ..self
        }
    }

    /// The board after one animation step in `state`. Nothing happens while
    /// input is awaited. Else the marbles move a step, and after the last
    /// step a spread follows.
    pub open spec fn after_step(self, state: State) -> GridView {
        match state {
            State::AcceptingInput => self,
            State::Animating(steps) => if steps == 0 {
                self.stepped(0).spread()
            } else {
                self.stepped(steps as int)
            },
        }
    }

    /// What the simulation does after one animation step in `state`: the
    /// steps count down, and after the last one the spread decides.
    pub open spec fn state_after_step(self, state: State) -> State {
        match state {
            State::AcceptingInput => state,
            State::Animating(steps) => if steps == 0 {
                self.stepped(0).spread_state()
            } else {
                State::Animating((steps - 1) as i32)
            },
        }
    }

    /// How the players stand once the board has been looked over: who owns
    /// a cell has started and is alive; who owns none is alive only if not
    /// started yet.
    pub open spec fn judged(self, owner: Owner, player: Player) -> Player {
        if self.owns_cell(owner) {
            Player { started: true, alive: true, ..player }
        } else if player.started {
            Player { alive: false, ..player }
        } else {
            player
        }
    }

    /// Number of marbles on the board.
    pub open spec fn marble_count(self) -> nat {
        marble_count(self.cells)
    }

    /// The marbles on the board, cell by cell.
    pub open spec fn marbles(self) -> Seq<Marble> {
        all_marbles(self.cells)
    }

    /// Whether `owner` owns a cell.
    pub open spec fn owns_cell(self, owner: Owner) -> bool {
        exists|i: int| 0 <= i < self.cells.len() && (#[trigger] self.cells[i]).owner == Some(owner)
    }

    /// Whether every owner of a cell is one of `n` players.
    pub open spec fn owners_below(self, n: nat) -> bool {
        forall|i: int|
            0 <= i < self.cells.len() ==> ((#[trigger] self.cells[i]).owner matches Some(o) ==> o
                < n)
    }

    /// Whether every marble belongs to the owner of its cell.
    pub open spec fn handed_over(self) -> bool {
        forall|i: int|
            0 <= i < self.cells.len() ==> (#[trigger] self.cells[i]).committed() == self.cells[i]
    }

    /// Whether some cell is full.
    pub open spec fn some_full(self) -> bool {
        exists|i: int| 0 <= i < self.cells.len() && (#[trigger] self.cells[i]).full()
    }
}

/// On a consistent board the neighbour of a cell lies on the board, one
/// column or one row away, and has the cell as its neighbour in the opposite
/// direction.
pub proof fn lemma_next_to(g: GridView, i: int, d: int)
    requires
        g.wf(),
        0 <= i < g.cells.len(),
        0 <= d < 4,
        g.cells[i].has_neighbor(d),
    ensures
        0 <= g.next_to(i, d) < g.cells.len(),
        g.next_to(i, d) != i,
        g.cells[g.next_to(i, d)].coord == neighbor_of(g.cells[i].coord, d),
        g.cells[g.next_to(i, d)].coord.x == g.cells[i].coord.x + dir_x(d),
        g.cells[g.next_to(i, d)].coord.y == g.cells[i].coord.y + dir_y(d),
        g.next_to(i, d) == flat_index(neighbor_of(g.cells[i].coord, d), g.dim),
        g.cells[g.next_to(i, d)].has_neighbor(opposite_of(d)),
        g.next_to(g.next_to(i, d), opposite_of(d)) == i,
        d == 1 || d == 3 ==> g.dim.y >= 2,
        d == 0 || d == 2 ==> g.dim.x >= 2,
{
    assert(g.cell_ok(i));
    lemma_point_at(i, g.dim);
    let p = g.cells[i].coord;
    let q = neighbor_of(p, d);
    assert(in_grid(q, g.dim));
    lemma_flat_index(q, g.dim);
    let h = g.dim.y as int;
    assert((p.x + 1) * h == p.x * h + h && (p.x - 1) * h == p.x * h - h) by (nonlinear_arith);
    assert(flat_index(q, g.dim) == g.next_to(i, d));
    assert(g.cell_ok(g.next_to(i, d)));
}

/// Putting another cell in one place of a row changes the number of
/// marbles by the difference between the two cells.
pub proof fn lemma_count_update(cells: Seq<CellView>, i: int, c: CellView)
    requires
        0 <= i < cells.len(),
    ensures
        marble_count(cells.update(i, c)) + cells[i].occupied() == marble_count(cells)
            + c.occupied(),
    decreases cells.len(),
{
    let after = cells.update(i, c);
    if i == cells.len() - 1 {
        assert(after.drop_last() =~= cells.drop_last());
    } else {
        lemma_count_update(cells.drop_last(), i, c);
        assert(after.drop_last() =~= cells.drop_last().update(i, c));
    }
}

/// Two rows of cells that agree cell by cell in their numbers of marbles
/// hold the same number of marbles.
pub proof fn lemma_count_same(a: Seq<CellView>, b: Seq<CellView>)
    requires
        a.len() == b.len(),
        forall|i: int| 0 <= i < a.len() ==> (#[trigger] a[i]).occupied() == b[i].occupied(),
    ensures
        marble_count(a) == marble_count(b),
    decreases a.len(),
{
    if a.len() > 0 {
        assert(a.last().occupied() == b[a.len() - 1].occupied());
        lemma_count_same(a.drop_last(), b.drop_last());
    }
}

/// An animation step moves marbles within their cells: the board stays
/// consistent, and no cell gains or loses a marble or changes hands.
pub proof fn lemma_grid_stepped(g: GridView, steps: int)
    requires
        g.wf(),
        0 <= steps,
    ensures
        g.stepped(steps).wf(),
        g.stepped(steps).marble_count() == g.marble_count(),
        forall|n: nat| g.owners_below(n) ==> g.stepped(steps).owners_below(n),
        forall|o: Owner| g.stepped(steps).owns_cell(o) == g.owns_cell(o),
        g.stepped(steps).unsettled() == g.unsettled(),
{
    let w = g.stepped(steps);
    assert forall|i: int| 0 <= i < g.cells.len() implies w.cell_ok(i)
        && (#[trigger] w.cells[i]).occupied() == g.cells[i].occupied() && w.cells[i].owner
        == g.cells[i].owner && w.cells[i].loaded() == g.cells[i].loaded() by {
        assert(g.cell_ok(i));
        lemma_stepped(g.cells[i], steps);
    }
    lemma_count_same(w.cells, g.cells);
    if g.unsettled() {
        let i = choose|i: int| 0 <= i < g.cells.len() && (#[trigger] g.cells[i]).loaded();
        assert(w.cells[i].loaded());
    }
    if w.unsettled() {
        let i = choose|i: int| 0 <= i < w.cells.len() && (#[trigger] w.cells[i]).loaded();
        assert(g.cells[i].loaded());
    }
    assert forall|n: nat| g.owners_below(n) implies w.owners_below(n) by {
        assert forall|i: int| 0 <= i < w.cells.len() implies (
        (#[trigger] w.cells[i]).owner matches Some(o) ==> o < n) by {
            assert(w.cells[i].owner == g.cells[i].owner);
        }
    }
    assert forall|o: Owner| w.owns_cell(o) == g.owns_cell(o) by {
        if g.owns_cell(o) {
            let i = choose|i: int|
                0 <= i < g.cells.len() && (#[trigger] g.cells[i]).owner == Some(o);
            assert(w.cells[i].owner == Some(o));
        }
        if w.owns_cell(o) {
            let i = choose|i: int|
                0 <= i < w.cells.len() && (#[trigger] w.cells[i]).owner == Some(o);
            assert(g.cells[i].owner == Some(o));
        }
    }
}

/// Placing a marble in a cell that takes it leaves the board consistent,
/// with one marble more, and fills the cell exactly if a marble is then
/// waiting to leave it. On a board on which no marble was waiting to leave,
/// none is waiting afterwards unless the cell is full.
pub proof fn lemma_grid_with_marble(g: GridView, p: Point, owner: Owner)
    requires
        g.wf(),
        in_grid(p, g.dim),
        g.cell(p).admits(owner),
        g.cell(p).verdict(owner) is Ok,
    ensures
        !g.unsettled() && !g.with_marble(p, owner).cell(p).full() ==> !g.with_marble(
            p,
            owner,
        ).unsettled(),
        g.with_marble(p, owner).wf(),
        g.with_marble(p, owner).marble_count() == g.marble_count() + 1,
        g.with_marble(p, owner).cell(p).full() == (g.cell(p).occupied() + 1 >= g.cell(
            p,
        ).capacity()),
        g.with_marble(p, owner).cell(p).full() ==> g.with_marble(p, owner).unsettled(),
        forall|n: nat| g.owners_below(n) && owner < n ==> g.with_marble(p, owner).owners_below(n),
{
    let w = g.with_marble(p, owner);
    let i = flat_index(p, g.dim);
    lemma_flat_index(p, g.dim);
    assert(g.cell_ok(i));
    lemma_with_marble(g.cells[i], owner);
    assert forall|k: int| 0 <= k < w.cells.len() implies w.cell_ok(k) by {
        assert(g.cell_ok(k));
    }
    lemma_count_update(g.cells, i, g.cells[i].with_marble(owner));
    if w.cell(p).full() {
        assert(w.cells[i].loaded());
    }
    if !g.unsettled() && !w.cell(p).full() && w.unsettled() {
        let k = choose|k: int| 0 <= k < w.cells.len() && (#[trigger] w.cells[k]).loaded();
        if k != i {
            assert(g.cells[k].loaded());
        }
    }
    assert forall|n: nat| g.owners_below(n) && owner < n implies w.owners_below(n) by {
        assert forall|k: int| 0 <= k < w.cells.len() implies (
        (#[trigger] w.cells[k]).owner matches Some(o) ==> o < n) by {
            if k != i {
                assert(w.cells[k] == g.cells[k]);
            }
        }
    }
}

/// The board.
pub struct Grid {
    dim: Point,
    cellsize: i32,
    cells: Vec<Cell>,
}

impl View for Grid {
    type V = GridView;

    closed spec fn view(&self) -> GridView {
        GridView {
            dim: self.dim,
            cellsize: self.cellsize,
            cells: Seq::new(self.cells@.len(), |i: int| self.cells@[i]@),
        }
    }
}

impl Grid {
    /// Every cell keeps its own counts right.
    pub closed spec fn inv(&self) -> bool {
        forall|i: int| 0 <= i < self.cells@.len() ==> (#[trigger] self.cells@[i]).inv()
    }

    /// The board is consistent and at rest.
    pub open spec fn wf(&self) -> bool {
        self.inv() && self@.wf()
    }

    /// Whether a board of this layout can be built: the layout is valid and
    /// the number of cells fits a `usize`.
    pub open spec fn buildable(dim: Point, cellsize: i32) -> bool {
        valid_layout(dim, cellsize) && cell_count(dim) <= usize::MAX
    }

    /// Whether a board of this layout can be built.
    pub fn can_build(dim: Point, cellsize: i32) -> (b: bool)
        ensures
            b == Self::buildable(dim, cellsize),
    {
        if dim.x < 0 || dim.y < 0 || cellsize < 0 {
            return false;
        }
        let limit: i64 = 0x7fff_ffff;
        let steps: i64 = 15;
        let c: i64 = cellsize as i64;
        let w: i64 = dim.x as i64;
        let h: i64 = dim.y as i64;
        assert(0 <= w * c <= 0x7fff_ffff * 0x7fff_ffff && 0 <= h * c <= 0x7fff_ffff * 0x7fff_ffff)
            by (nonlinear_arith)
            requires
                0 <= w <= 0x7fff_ffff,
                0 <= h <= 0x7fff_ffff,
                0 <= c <= 0x7fff_ffff,
        ;
        assert(TOTAL_STEPS * (dim.x * cellsize) == 15 * (w * c));
        assert(TOTAL_STEPS * (dim.y * cellsize) == 15 * (h * c));
        if w * c > limit / steps || h * c > limit / steps {
            return false;
        }
        assert(0 <= w * h <= 0x7fff_ffff * 0x7fff_ffff && (w == 0 || h == 0 ==> w * h == 0))
            by (nonlinear_arith)
            requires
                0 <= w <= 0x7fff_ffff,
                0 <= h <= 0x7fff_ffff,
        ;
        let cells: u64 = (w * h) as u64;
        cells <= usize::MAX as u64
    }

    /// A board of `dim.x` columns and `dim.y` rows without marbles, whose
    /// cells are `cellsize` pixels wide.
    pub fn new(dim: Point, cellsize: i32) -> (g: Grid)
        requires
            Self::buildable(dim, cellsize),
        ensures
            g.wf(),
            g@ == GridView::fresh(dim, cellsize),
    {
        let mut cells: Vec<Cell> = Vec::new();
        assert(0 * dim.y == 0 && (dim.x == 0 || dim.y == 0 ==> dim.x * dim.y == 0))
            by (nonlinear_arith);
        for x in 0..dim.x
            invariant
                Self::buildable(dim, cellsize),
                cells@.len() == x * dim.y,
                forall|i: int|
                    0 <= i < cells@.len() ==> {
                        let c = #[trigger] cells@[i];
                        c.wf() && c@.rested() && c@ == CellView::fresh(
                            point_at(i, dim),
                            dim,
                            cellsize,
                        )
                    },
        {
            for y in 0..dim.y
                invariant
                    Self::buildable(dim, cellsize),
                    0 <= x < dim.x,
                    cells@.len() == x * dim.y + y,
                    forall|i: int|
                        0 <= i < cells@.len() ==> {
                            let c = #[trigger] cells@[i];
                            c.wf() && c@.rested() && c@ == CellView::fresh(
                                point_at(i, dim),
                                dim,
                                cellsize,
                            )
                        },
            {
                let p = Point::new(x, y);
                proof {
                    lemma_flat_index(p, dim);
                }
                cells.push(Cell::new(p, dim, cellsize));
            }
            assert(x * dim.y + dim.y == (x + 1) * dim.y) by (nonlinear_arith);
        }
        let g = Grid { dim, cellsize, cells };
        assert(g@ =~= GridView::fresh(dim, cellsize));
        g
    }

    /// Columns and rows of the board.
    pub fn dim(&self) -> (d: Point)
        ensures
            d == self@.dim,
    {
        self.dim
    }

    /// Width and height of a cell in pixels.
    pub fn cellsize(&self) -> (c: i32)
        ensures
            c == self@.cellsize,
    {
        self.cellsize
    }

    /// Place of the cell `p` in the store.
    fn idx(&self, p: Point) -> (i: usize)
        requires
            self@.cells.len() == cell_count(self@.dim),
            in_grid(p, self@.dim),
        ensures
            i == flat_index(p, self@.dim),
            i < self@.cells.len(),
    {
        proof {
            lemma_flat_index(p, self.dim);
            assert(self.cells@.len() == self.cells.len());
            assert(0 <= p.x * self.dim.y) by (nonlinear_arith)
                requires
                    0 <= p.x,
                    0 <= self.dim.y,
            ;
        }
        (p.x as usize) * (self.dim.y as usize) + (p.y as usize)
    }

    /// The cell at column `p.x` and row `p.y`.
    pub fn cell(&self, p: Point) -> (c: &Cell)
        requires
            self.wf(),
            in_grid(p, self@.dim),
        ensures
            c.wf(),
            c@ == self@.cell(p),
    {
        let i = self.idx(p);
        assert(self@.cell_ok(i as int));
        &self.cells[i]
    }

    /// The cell at column `p.x` and row `p.y`, to be changed. The board is
    /// consistent again if the cell is, and if it is left on its place and at
    /// rest.
    pub fn cell_mut(&mut self, p: Point) -> (c: &mut Cell)
        requires
            old(self).wf(),
            in_grid(p, old(self)@.dim),
        ensures
            c.wf(),
            c@ == old(self)@.cell(p),
            final(self)@ == (GridView {
                cells: old(self)@.cells.update(flat_index(p, old(self)@.dim), final(c)@),
                ..old(self)@
            }),
            final(c).inv() ==> final(self).inv(),
            final(c).wf() && final(c)@.rested() && final(c)@.coord == c@.coord && final(c)@.dim
                == c@.dim && final(c)@.cellsize == c@.cellsize ==> final(self).wf(),
    {
        let i = self.idx(p);
        assert(self@.cell_ok(i as int));
        let ghost g = self@;
        let ghost before = self.cells@;
        let c = &mut self.cells[i];
        proof {
            let after = before.update(i as int, *final(c));
            let views = Seq::new(after.len(), |k: int| after[k]@);
            assert(views =~= g.cells.update(i as int, final(c)@));
            let w = GridView { cells: views, ..g };
            assert forall|k: int|
                0 <= k < w.cells.len() && final(c).wf() && final(c)@.rested() && final(c)@.coord
                    == c@.coord && final(c)@.dim == c@.dim && final(c)@.cellsize
                    == c@.cellsize implies w.cell_ok(k) by {
                assert(g.cell_ok(k));
            }
        }
        c
    }

    /// The marbles on the board, cell by cell.
    pub fn marbles(&self) -> (r: Vec<Marble>)
        ensures
            r@ == self@.marbles(),
    {
        let mut r: Vec<Marble> = Vec::new();
        let n = self.cells.len();
        for i in 0..n
            invariant
                n == self.cells@.len(),
                r@ == all_marbles(self@.cells.take(i as int)),
        {
            let mut m = self.cells[i].marbles();
            r.append(&mut m);
            assert(self@.cells.take(i + 1).drop_last() =~= self@.cells.take(i as int));
        }
        assert(self@.cells.take(n as int) =~= self@.cells);
        r
    }

    /// The cells as they are, apart from how they are stored.
    spec fn views(&self) -> Seq<CellView> {
        Seq::new(self.cells@.len(), |i: int| self.cells@[i]@)
    }

    /// Every cell is consistent in itself.
    spec fn cells_wf(&self) -> bool {
        forall|k: int| 0 <= k < self.cells@.len() ==> (#[trigger] self.cells@[k]).wf()
    }

    /// The board has the layout and the number of cells of `g`.
    spec fn shaped_like(&self, g: GridView) -> bool {
        &&& self.cells@.len() == g.cells.len()
        &&& self.dim == g.dim
        &&& self.cellsize == g.cellsize
    }

    /// The cells are, in their order, the cells at the places of `g` when
    /// the cells from place `t` on have sent.
    spec fn at_stage(&self, g: GridView, t: int) -> bool {
        forall|k: int| 0 <= k < self.cells@.len() ==> (#[trigger] self.views()[k]) == g.stage(k, t)
    }

    proof fn lemma_cells_wf(&self)
        requires
            self.wf(),
        ensures
            self.cells_wf(),
            self.views() == self@.cells,
            self.shaped_like(self@),
    {
        assert forall|k: int| 0 <= k < self.cells@.len() implies (
        #[trigger] self.cells@[k]).wf() by {
            assert(self@.cell_ok(k));
        }
    }

    /// Hands every marble to the owner of its cell.
    fn commit_all(&mut self)
        requires
            old(self).wf(),
        ensures
            final(self).shaped_like(old(self)@),
            final(self).cells_wf(),
            final(self).at_stage(old(self)@, old(self)@.cells.len() as int),
    {
        let ghost g = self@;
        let n = self.cells.len();
        proof {
            self.lemma_cells_wf();
        }
        for i in 0..n
            invariant
                self.shaped_like(g),
                n == g.cells.len(),
                g.wf(),
                self.cells_wf(),
                forall|k: int|
                    0 <= k < n ==> (#[trigger] self.views()[k]) == if k < i {
                        g.cells[k].committed()
                    } else {
                        g.cells[k]
                    },
        {
            let ghost before = self.views();
            assert(before[i as int] == g.cells[i as int]);
            self.cells[i].commit();
            assert(self.views() =~= before.update(i as int, g.cells[i as int].committed()));
        }
        proof {
            assert forall|k: int| 0 <= k < n implies (#[trigger] self.views()[k]) == g.stage(
                k,
                n as int,
            ) by {
                lemma_stage_ends(g, k);
            }
        }
    }

    /// Takes the marble that the cell at `coord` has sent in direction `d`
    /// to the neighbour there.
    fn hand_over(
        &mut self,
        coord: Point,
        d: usize,
        marble: Marble,
        Ghost(g): Ghost<GridView>,
        Ghost(t): Ghost<int>,
    )
        requires
            g.wf(),
            old(self).shaped_like(g),
            old(self).cells_wf(),
            0 <= t < g.cells.len(),
            coord == point_at(t, g.dim),
            d < 4,
            g.cells[t].committed().outgoing[d as int] == Some(marble),
            old(self).views()[g.next_to(t, d as int)] == g.stage(g.next_to(t, d as int), t + 1),
        ensures
            final(self).shaped_like(g),
            final(self).cells_wf(),
            final(self).views() == old(self).views().update(
                g.next_to(t, d as int),
                g.stage(g.next_to(t, d as int), t),
            ),
    {
        let ghost before = self.views();
        let ghost j0 = g.next_to(t, d as int);
        proof {
            assert(g.cell_ok(t));
            lemma_point_at(t, g.dim);
            lemma_committed(g.cells[t]);
            lemma_next_to(g, t, d as int);
            lemma_stage_receive(g, t, d as int);
            lemma_stage_shape(g, j0, t + 1);
            assert(g.cell_ok(j0));
        }
        let q = coord.plus(direction(d));
        let j = self.idx(q);
        assert(j == j0);
        assert(self.views()[j as int] == self.cells@[j as int]@);
        self.cells[j].receive(opposite(d), marble);
        assert(self.views() =~= before.update(j0, g.stage(j0, t)));
    }

    /// Lets the cell at `coord` send, if it is full, and takes what it sent
    /// to its neighbours. Says whether a marble moved.
    fn deliver(&mut self, coord: Point, Ghost(g): Ghost<GridView>, Ghost(t): Ghost<int>) -> (moved:
        bool)
        requires
            g.wf(),
            old(self).shaped_like(g),
            old(self).cells_wf(),
            0 <= t < g.cells.len(),
            coord == point_at(t, g.dim),
            old(self).at_stage(g, t + 1),
        ensures
            final(self).shaped_like(g),
            final(self).cells_wf(),
            final(self).at_stage(g, t),
            moved == g.cells[t].loaded(),
    {
        let n = self.cells.len();
        let ghost before = self.views();
        proof {
            lemma_point_at(t, g.dim);
            assert(g.cell_ok(t));
            lemma_stage_send(g, t);
            lemma_committed(g.cells[t]);
        }
        let i = self.idx(coord);
        assert(before[t] == self.cells@[t]@);
        if !self.cells[i].full() {
            proof {
                assert(g.cells[t].committed().outgoing =~= empty_slots());
                assert forall|k: int| 0 <= k < n implies (#[trigger] self.views()[k]) == g.stage(
                    k,
                    t,
                ) by {
                    if k != t && !g.reached(k, t, 4) {
                        lemma_stage_other(g, k, t);
                    } else if k != t {
                        if g.cells[t].has_neighbor(0) && k == g.next_to(t, 0) {
                            lemma_stage_receive(g, t, 0);
                        } else if g.cells[t].has_neighbor(1) && k == g.next_to(t, 1) {
                            lemma_stage_receive(g, t, 1);
                        } else if g.cells[t].has_neighbor(2) && k == g.next_to(t, 2) {
                            lemma_stage_receive(g, t, 2);
                        } else {
                            lemma_stage_receive(g, t, 3);
                        }
                    }
                }
            }
            return false;
        }
        let sent = self.cells[i].send();
        let mut moved = false;
        assert(self.views() =~= before.update(t, g.stage(t, t)));
        for d in 0..4usize
            invariant
                g.wf(),
                self.shaped_like(g),
                self.cells_wf(),
                n == g.cells.len(),
                0 <= t < n,
                coord == point_at(t, g.dim),
                sent@ == g.cells[t].committed().outgoing,
                g.cells[t].committed().wf(),
                forall|k: int| 0 <= k < n ==> (#[trigger] self.views()[k]) == g.mid(k, t, d as int),
                moved == (in_hand(sent@, 0) > in_hand(sent@, d as int)),
        {
            let ghost held = self.views();
            proof {
                assert(g.cell_ok(t));
                if g.cells[t].has_neighbor(d as int) {
                    lemma_next_to(g, t, d as int);
                    lemma_stage_receive(g, t, d as int);
                    let j = g.next_to(t, d as int);
                    assert(held[j] == g.mid(j, t, d as int));
                    if g.cells[t].has_neighbor(0) {
                        lemma_next_to(g, t, 0);
                    }
                    if g.cells[t].has_neighbor(1) {
                        lemma_next_to(g, t, 1);
                    }
                    if g.cells[t].has_neighbor(2) {
                        lemma_next_to(g, t, 2);
                    }
                    if g.cells[t].has_neighbor(3) {
                        lemma_next_to(g, t, 3);
                    }
                }
            }
            match sent[d] {
                None => {},
                Some(marble) => {
                    self.hand_over(coord, d, marble, Ghost(g), Ghost(t));
                    moved = true;
                },
            }
            proof {
                assert forall|k: int| 0 <= k < n implies (#[trigger] self.views()[k]) == g.mid(
                    k,
                    t,
                    d + 1,
                ) by {
                    assert(held[k] == g.mid(k, t, d as int));
                }
            }
        }
        proof {
            assert forall|k: int| 0 <= k < n implies (#[trigger] self.views()[k]) == g.stage(
                k,
                t,
            ) by {
                assert(self.views()[k] == g.mid(k, t, 4));
                if k != t && !g.reached(k, t, 4) {
                    lemma_stage_other(g, k, t);
                }
            }
        }
        moved
    }

    /// Lets every full cell send, the cells with the highest places first.
    /// Says whether a marble moved.
    fn exchange(&mut self, Ghost(g): Ghost<GridView>) -> (any_moved: bool)
        requires
            g.wf(),
            old(self).shaped_like(g),
            old(self).cells_wf(),
            old(self).at_stage(g, g.cells.len() as int),
        ensures
            final(self).shaped_like(g),
            final(self).cells_wf(),
            final(self).at_stage(g, 0),
            any_moved == g.unsettled(),
    {
        let n = self.cells.len();
        let mut any_moved = false;
        let mut it = PointIter::new(self.dim);
        let ghost mut t: int = n as int;
        assert(it@ =~= reverse_order(g.dim).skip(n - t));
        loop
            invariant
                g.wf(),
                self.shaped_like(g),
                self.cells_wf(),
                n == g.cells.len(),
                0 <= t <= n,
                it.wf(),
                it.dim() == g.dim,
                it@ == reverse_order(g.dim).skip(n - t),
                self.at_stage(g, t),
                any_moved == g.unsettled_from(t),
            ensures
                t == 0,
            decreases t,
        {
            let next = it.next();
            let coord = match next {
                None => {
                    break ;
                },
                Some(coord) => coord,
            };
            proof {
                t = t - 1;
                assert(it@ =~= reverse_order(g.dim).skip(n - t));
            }
            let moved = self.deliver(coord, Ghost(g), Ghost(t));
            any_moved = any_moved || moved;
            proof {
                if g.unsettled_from(t) {
                    let k = choose|k: int|
                        t <= k < g.cells.len() && (#[trigger] g.cells[k]).loaded();
                    if k != t {
                        assert(g.unsettled_from(t + 1));
                    }
                }
                if g.unsettled_from(t + 1) {
                    let k = choose|k: int|
                        t + 1 <= k < g.cells.len() && (#[trigger] g.cells[k]).loaded();
                    assert(t <= k && g.cells[k].loaded());
                }
            }
        }
        any_moved
    }

    /// Gives the marbles that arrived in any cell their slots.
    fn sort_all(&mut self, Ghost(g): Ghost<GridView>)
        requires
            g.wf(),
            old(self).shaped_like(g),
            old(self).cells_wf(),
            old(self).at_stage(g, 0),
        ensures
            final(self).wf(),
            final(self)@ == g.spread(),
    {
        let n = self.cells.len();
        let ghost mixed = self.views();
        for i in 0..n
            invariant
                g.wf(),
                self.shaped_like(g),
                self.cells_wf(),
                n == g.cells.len(),
                mixed.len() == n,
                forall|k: int| 0 <= k < n ==> #[trigger] mixed[k] == g.stage(k, 0),
                forall|k: int|
                    0 <= k < n ==> (#[trigger] self.views()[k]) == if k < i {
                        mixed[k].sorted()
                    } else {
                        mixed[k]
                    },
                forall|k: int| 0 <= k < i ==> (#[trigger] self.views()[k]).rested(),
        {
            let ghost before = self.views();
            proof {
                assert(g.cell_ok(i as int));
                lemma_stage_shape(g, i as int, 0);
                assert(before[i as int] == mixed[i as int]);
            }
            self.cells[i].sort_received();
            proof {
                assert(self.views() =~= before.update(i as int, mixed[i as int].sorted()));
            }
        }
        proof {
            assert forall|k: int| 0 <= k < n implies self@.cell_ok(k) && self@.cells[k]
                == g.spread_cell(k) by {
                assert(self.views()[k] == mixed[k].sorted());
                assert(self.views()[k].rested());
                assert(self.cells@[k].wf());
                assert(g.cell_ok(k));
                lemma_stage_ends(g, k);
                lemma_stage_shape(g, k, 0);
            }
            assert(self@ =~= g.spread());
        }
    }

    /// Carries the marbles that are waiting to leave from each full cell to
    /// its neighbours: see [`GridView::spread`]. Before that, every marble is
    /// handed to the owner of its cell. If a marble moved, the marbles that
    /// arrived are given their slots and an animation begins; else the board
    /// has settled.
    pub fn spread(&mut self) -> (state: State)
        requires
            old(self).wf(),
        ensures
            final(self).wf(),
            final(self)@ == old(self)@.spread(),
            state == old(self)@.spread_state(),
            final(self)@.marble_count() == old(self)@.marble_count(),
            !old(self)@.some_full() ==> state == State::AcceptingInput && final(
                self
            )@.handed_over() && (old(self)@.handed_over() ==> final(self)@ == old(self)@),
    {
        let ghost g = self@;
        proof {
            lemma_spread_keeps(g);
            if !g.some_full() {
                lemma_spread_settled(g);
            }
        }
        self.commit_all();
        let any_moved = self.exchange(Ghost(g));
        if any_moved {
            self.sort_all(Ghost(g));
            State::Animating(TOTAL_STEPS)
        } else {
            proof {
                let n = g.cells.len() as int;
                assert forall|k: int| 0 <= k < n implies self@.cell_ok(k) && self@.cells[k]
                    == g.spread_cell(k) by {
                    assert(self.views()[k] == g.stage(k, 0));
                    assert(self.cells@[k].wf());
                    assert(g.cell_ok(k));
                    lemma_stage_ends(g, k);
                    lemma_stage_shape(g, k, 0);
                    assert forall|d: int| 0 <= d < 4 implies g.arrived(k, d, 0) is None by {
                        if g.cells[k].has_neighbor(d) {
                            lemma_next_to(g, k, d);
                            let j = g.next_to(k, d);
                            assert(!g.cells[j].loaded());
                            assert(g.cell_ok(j));
                            lemma_committed(g.cells[j]);
                        }
                    }
                    assert(g.stage(k, 0).incoming =~= empty_slots());
                }
                assert(self@ =~= g.spread());
            }
            State::AcceptingInput
        }
    }

    /// Places a marble of `owner` in the cell `coord`. The cell refuses it
    /// if it belongs to another player or holds as many marbles as it has
    /// neighbours; then nothing changes. If the marble fills the cell, a
    /// spread follows at once.
    pub fn add_marble(&mut self, coord: Point, owner: Owner) -> (r: Result<State, PlaceError>)
        requires
            old(self).wf(),
            in_grid(coord, old(self)@.dim),
            old(self)@.cell(coord).admits(owner),
        ensures
            final(self).wf(),
            match r {
                Ok(state) => {
                    &&& old(self)@.cell(coord).verdict(owner) is Ok
                    &&& final(self)@ == old(self)@.after_placing(coord, owner)
                    &&& state == old(self)@.state_after_placing(coord, owner)
                    &&& final(self)@.marble_count() == old(self)@.marble_count() + 1
                },
                Err(e) => {
                    &&& old(self)@.cell(coord).verdict(owner) == Err::<(), PlaceError>(e)
                    &&& final(self)@ == old(self)@
                },
            },
    {
        let ghost g = self@;
        proof {
            self.lemma_cells_wf();
            lemma_flat_index(coord, g.dim);
        }
        let i = self.idx(coord);
        assert(g.cell_ok(i as int));
        let placed = self.cells[i].add_marble(owner);
        match placed {
            Err(e) => {
                assert(self@ =~= g);
                assert(self.wf()) by {
                    assert forall|k: int| 0 <= k < g.cells.len() implies self@.cell_ok(k) by {
                        assert(g.cell_ok(k));
                    }
                }
                Err(e)
            },
            Ok(()) => {
                proof {
                    assert(self@ =~= g.with_marble(coord, owner));
                    lemma_grid_with_marble(g, coord, owner);
                }
                if self.cells[i].full() {
                    Ok(self.spread())
                } else {
                    Ok(State::AcceptingInput)
                }
            },
        }
    }

    /// Performs one animation step in `state` and says what follows: see
    /// [`GridView::after_step`].
    pub fn step(&mut self, state: State) -> (next: State)
        requires
            old(self).wf(),
            state matches State::Animating(steps) ==> 0 <= steps <= TOTAL_STEPS,
        ensures
            final(self).wf(),
            final(self)@ == old(self)@.after_step(state),
            next == old(self)@.state_after_step(state),
            final(self)@.marble_count() == old(self)@.marble_count(),
    {
        match state {
            State::AcceptingInput => state,
            State::Animating(steps) => {
                let ghost g = self@;
                let n = self.cells.len();
                proof {
                    self.lemma_cells_wf();
                    lemma_grid_stepped(g, steps as int);
                }
                for i in 0..n
                    invariant
                        self.shaped_like(g),
                        n == g.cells.len(),
                        g.wf(),
                        0 <= steps <= TOTAL_STEPS,
                        self.cells_wf(),
                        forall|k: int|
                            0 <= k < n ==> (#[trigger] self.views()[k]) == if k < i {
                                g.cells[k].stepped(steps as int)
                            } else {
                                g.cells[k]
                            },
                {
                    let ghost before = self.views();
                    assert(before[i as int] == g.cells[i as int]);
                    self.cells[i].step(steps);
                    assert(self.views() =~= before.update(
                        i as int,
                        g.cells[i as int].stepped(steps as int),
                    ));
                }
                proof {
                    assert forall|k: int| 0 <= k < n implies #[trigger] self@.cells[k]
                        == g.stepped(steps as int).cells[k] by {
                        assert(self.views()[k] == g.cells[k].stepped(steps as int));
                    }
                    assert(self@ =~= g.stepped(steps as int));
                }
                if steps == 0 {
                    self.spread()
                } else {
                    State::Animating(steps - 1)
                }
            },
        }
    }

    /// Looks over the board and marks the players: who owns a cell has
    /// started and is alive; who has started and owns none is out.
    pub fn check_players(&self, players: &mut Vec<Player>)
        requires
            self.wf(),
            self@.owners_below(old(players)@.len()),
        ensures
            final(players)@.len() == old(players)@.len(),
            forall|o: Owner|
                o < old(players)@.len() ==> #[trigger] final(players)@[o as int] == self@.judged(
                    o,
                    old(players)@[o as int],
                ),
    {
        let ghost before = players@;
        let count = players.len();
        for k in 0..count
            invariant
                count == before.len(),
                players@.len() == count,
                forall|j: int|
                    0 <= j < count ==> #[trigger] players@[j] == if j < k && before[j].started {
                        Player { alive: false, ..before[j] }
                    } else {
                        before[j]
                    },
        {
            if players[k].started {
                players[k].alive = false;
            }
        }
        let n = self.cells.len();
        for i in 0..n
            invariant
                self.wf(),
                n == self@.cells.len(),
                self@.owners_below(before.len()),
                players@.len() == before.len(),
                forall|o: Owner|
                    o < before.len() ==> #[trigger] players@[o as int] == self.marked(
                        o,
                        i as int,
                        before[o as int],
                    ),
        {
            let ghost marked = players@;
            proof {
                self.lemma_cells_wf();
            }
            if let Some(owner) = self.cells[i].owner() {
                assert(self@.cells[i as int].owner == Some(owner));
                players[owner].started = true;
                players[owner].alive = true;
            }
            proof {
                assert forall|o: Owner| o < before.len() implies #[trigger] players@[o as int]
                    == self.marked(o, i + 1, before[o as int]) by {
                    assert(marked[o as int] == self.marked(o, i as int, before[o as int]));
                    if self.owned_among(o, i + 1) {
                        let c = choose|c: int|
                            0 <= c < i + 1 && (#[trigger] self@.cells[c]).owner == Some(o);
                        if c < i {
                            assert(self.owned_among(o, i as int));
                        }
                    }
                    if self.owned_among(o, i as int) {
                        let c = choose|c: int|
                            0 <= c < i && (#[trigger] self@.cells[c]).owner == Some(o);
                        assert(0 <= c < i + 1);
                    }
                    if self@.cells[i as int].owner == Some(o) {
                        assert(self.owned_among(o, i + 1));
                    }
                }
            }
        }
        proof {
            assert forall|o: Owner| o < before.len() implies #[trigger] players@[o as int]
                == self@.judged(o, before[o as int]) by {
                assert(self.owned_among(o, n as int) == self@.owns_cell(o));
            }
        }
    }

    /// How `player`, whose number is `owner`, stands when the first `upto`
    /// cells have been looked over.
    spec fn marked(&self, owner: Owner, upto: int, player: Player) -> Player {
        if self.owned_among(owner, upto) {
            Player { started: true, alive: true, ..player }
        } else if player.started {
            Player { alive: false, ..player }
        } else {
            player
        }
    }

    /// Whether `owner` owns one of the first `upto` cells.
    spec fn owned_among(&self, owner: Owner, upto: int) -> bool {
        exists|c: int| 0 <= c < upto && (#[trigger] self@.cells[c]).owner == Some(owner)
    }
}

} // verus!
