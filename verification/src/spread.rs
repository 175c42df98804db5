//! Why the spread does what [`GridView::spread`] says: the cells send one
//! after the other, and after each of them every cell is what the order of
//! sending makes of it.

use crate::cell::{empty_slots, filled, lemma_committed, lemma_sorted, one_if, CellView};
use crate::game::State;
use crate::geometry::opposite_of;
use crate::grid::{lemma_count_same, lemma_count_update, lemma_next_to, marble_count, GridView};
use crate::marble::Marble;
use vstd::prelude::*;

verus! {

/// How a spread proceeds, cell by cell: what the proofs about it speak of.
impl GridView {
    /// What has arrived at place `i` from direction `d` when the cells at
    /// the places from `t` on have sent.
    pub(crate) open spec fn arrived(self, i: int, d: int, t: int) -> Option<Marble> {
        if self.next_to(i, d) >= t {
            self.arriving(i, d)
        } else {
            None
        }
    }

    /// The cell at place `i` when the cells at the places from `t` on have
    /// sent.
    #[verifier::opaque]
    pub(crate) open spec fn stage(self, i: int, t: int) -> CellView {
        let c = self.cells[i].committed().taking(0, self.arrived(i, 0, t)).taking(
            1,
            self.arrived(i, 1, t),
        );
        let c = if i >= t {
            c.after_send()
        } else {
            c
        };
        c.taking(3, self.arrived(i, 3, t)).taking(2, self.arrived(i, 2, t))
    }

    /// Whether, while the cell at place `t` hands out what it sent, the
    /// cell at place `k` is one of its neighbours in a direction below `d`.
    pub(crate) open spec fn reached(self, k: int, t: int, d: int) -> bool {
        ||| 0 < d && self.cells[t].has_neighbor(0) && k == self.next_to(t, 0)
        ||| 1 < d && self.cells[t].has_neighbor(1) && k == self.next_to(t, 1)
        ||| 2 < d && self.cells[t].has_neighbor(2) && k == self.next_to(t, 2)
        ||| 3 < d && self.cells[t].has_neighbor(3) && k == self.next_to(t, 3)
    }

    /// The cell at place `k` while the cell at place `t` hands out what it
    /// sent, when the directions below `d` are done.
    pub(crate) open spec fn mid(self, k: int, t: int, d: int) -> CellView {
        if k == t || self.reached(k, t, d) {
            self.stage(k, t)
        } else {
            self.stage(k, t + 1)
        }
    }

    /// Whether one of the cells at the places from `t` on has a marble
    /// waiting to leave.
    pub(crate) open spec fn unsettled_from(self, t: int) -> bool {
        exists|k: int| t <= k < self.cells.len() && (#[trigger] self.cells[k]).loaded()
    }
}

/// While cells send, a cell keeps its place and its marbles at rest; it has
/// waiting what it had until it has sent; and it has taken in what the
/// neighbours that have sent had for it.
pub(crate) proof fn lemma_stage_shape(g: GridView, i: int, t: int)
    requires
        g.wf(),
        0 <= i < g.cells.len(),
    ensures
        g.stage(i, t).coord == g.cells[i].coord,
        g.stage(i, t).dim == g.cells[i].dim,
        g.stage(i, t).cellsize == g.cells[i].cellsize,
        g.stage(i, t).residing == g.cells[i].committed().residing,
        g.stage(i, t).outgoing == if i >= t {
            empty_slots()
        } else {
            g.cells[i].committed().outgoing
        },
        g.stage(i, t).incoming == Seq::new(4, |d: int| g.arrived(i, d, t)),
        filled(g.stage(i, t).residing) == filled(g.cells[i].residing),
        g.stage(i, t).capacity() == g.cells[i].capacity(),
{
    reveal(GridView::stage);
    assert(g.cell_ok(i));
    lemma_committed(g.cells[i]);
    let c = g.stage(i, t);
    assert(c.incoming =~= Seq::new(4, |d: int| g.arrived(i, d, t)));
}

/// When the cell at place `t` sends, after those at the places above it,
/// nothing else changes for that cell.
pub(crate) proof fn lemma_stage_send(g: GridView, t: int)
    requires
        g.wf(),
        0 <= t < g.cells.len(),
    ensures
        g.stage(t, t) == g.stage(t, t + 1).after_send(),
        g.stage(t, t + 1).outgoing == g.cells[t].committed().outgoing,
        !g.cells[t].loaded() ==> g.stage(t, t) == g.stage(t, t + 1),
        !g.stage(t, t + 1).full() ==> !g.cells[t].loaded(),
{
    reveal(GridView::stage);
    assert(g.cell_ok(t));
    lemma_committed(g.cells[t]);
    lemma_stage_shape(g, t, t);
    lemma_stage_shape(g, t, t + 1);
    if g.cells[t].has_neighbor(3) {
        lemma_next_to(g, t, 3);
    }
    if g.cells[t].has_neighbor(2) {
        lemma_next_to(g, t, 2);
    }
    if g.cells[t].has_neighbor(1) {
        lemma_next_to(g, t, 1);
    }
    if g.cells[t].has_neighbor(0) {
        lemma_next_to(g, t, 0);
    }
    if !g.cells[t].loaded() {
        assert(g.cells[t].committed().outgoing =~= empty_slots());
        if g.stage(t, t + 1).occupied() == 0 {
            assert(g.stage(t, t + 1).owner is None);
        }
        assert(g.stage(t, t) =~= g.stage(t, t + 1));
    }
}

/// When the cell at place `t` sends, its neighbour in direction `d` takes
/// in what the cell had waiting in that direction, and nothing else changes
/// for the neighbour.
pub(crate) proof fn lemma_stage_receive(g: GridView, t: int, d: int)
    requires
        g.wf(),
        0 <= t < g.cells.len(),
        0 <= d < 4,
        g.cells[t].has_neighbor(d),
    ensures
        g.stage(g.next_to(t, d), t) == g.stage(g.next_to(t, d), t + 1).taking(
            opposite_of(d),
            g.cells[t].committed().outgoing[d],
        ),
        g.stage(g.next_to(t, d), t + 1).incoming[opposite_of(d)] is None,
{
    reveal(GridView::stage);
    let j = g.next_to(t, d);
    let o = opposite_of(d);
    lemma_next_to(g, t, d);
    assert(g.cell_ok(t));
    assert(g.cell_ok(j));
    lemma_committed(g.cells[j]);
    lemma_stage_shape(g, j, t);
    lemma_stage_shape(g, j, t + 1);
    if g.cells[j].has_neighbor(0) {
        lemma_next_to(g, j, 0);
    }
    if g.cells[j].has_neighbor(1) {
        lemma_next_to(g, j, 1);
    }
    if g.cells[j].has_neighbor(2) {
        lemma_next_to(g, j, 2);
    }
    if g.cells[j].has_neighbor(3) {
        lemma_next_to(g, j, 3);
    }
    assert(g.arriving(j, o) == g.cells[t].committed().outgoing[d]);
    assert(g.arrived(j, o, t) == g.arriving(j, o));
    assert(g.arrived(j, o, t + 1) is None);
    assert forall|e: int| 0 <= e < 4 && e != o implies g.arrived(j, e, t) == g.arrived(
        j,
        e,
        t + 1,
    ) by {
        if g.cells[j].has_neighbor(e) {
            assert(g.next_to(j, e) != t);
        }
    }
    assert(g.stage(j, t) =~= g.stage(j, t + 1).taking(o, g.cells[t].committed().outgoing[d]));
}

/// When the cell at place `t` sends, a cell that is neither that cell nor
/// one of its neighbours stays as it is.
pub(crate) proof fn lemma_stage_other(g: GridView, i: int, t: int)
    requires
        g.wf(),
        0 <= t < g.cells.len(),
        0 <= i < g.cells.len(),
        i != t,
        forall|d: int| 0 <= d < 4 && g.cells[t].has_neighbor(d) ==> i != g.next_to(t, d),
    ensures
        g.stage(i, t) == g.stage(i, t + 1),
{
    reveal(GridView::stage);
    assert(g.cell_ok(i));
    assert(g.cell_ok(t));
    assert forall|e: int| 0 <= e < 4 implies g.arrived(i, e, t) == g.arrived(i, e, t + 1) by {
        if g.cells[i].has_neighbor(e) {
            lemma_next_to(g, i, e);
            if g.next_to(i, e) == t {
                assert(g.cells[t].has_neighbor(opposite_of(e)));
                assert(g.next_to(t, opposite_of(e)) == i);
            }
        }
    }
}

/// Before any cell has sent, each cell is as it was, its marbles handed to
/// its owner; when all have sent, each is as the spread leaves it before the
/// marbles that arrived are given their slots.
pub(crate) proof fn lemma_stage_ends(g: GridView, i: int)
    requires
        g.wf(),
        0 <= i < g.cells.len(),
    ensures
        g.stage(i, g.cells.len() as int) == g.cells[i].committed(),
        g.stage(i, 0) == g.exchanged(i),
{
    reveal(GridView::stage);
    assert(g.cell_ok(i));
    if g.cells[i].has_neighbor(0) {
        lemma_next_to(g, i, 0);
    }
    if g.cells[i].has_neighbor(1) {
        lemma_next_to(g, i, 1);
    }
    if g.cells[i].has_neighbor(2) {
        lemma_next_to(g, i, 2);
    }
    if g.cells[i].has_neighbor(3) {
        lemma_next_to(g, i, 3);
    }
}

/// Number of marbles in the slots of `sent` from direction `d` on.
pub(crate) open spec fn in_hand(sent: Seq<Option<Marble>>, d: int) -> nat {
    one_if(d <= 0 && sent[0] is Some) + one_if(d <= 1 && sent[1] is Some) + one_if(
        d <= 2 && sent[2] is Some,
    ) + one_if(d <= 3 && sent[3] is Some)
}

/// The cells of the board when the cells at the places from `t` on have
/// sent.
pub(crate) open spec fn stages(g: GridView, t: int) -> Seq<CellView> {
    Seq::new(g.cells.len(), |i: int| g.stage(i, t))
}

/// While cells send, every cell stays consistent.
proof fn lemma_stage_wf(g: GridView, i: int, t: int)
    requires
        g.wf(),
        0 <= i < g.cells.len(),
    ensures
        g.stage(i, t).wf(),
{
    reveal(GridView::stage);
    assert(g.cell_ok(i));
    lemma_committed(g.cells[i]);
    lemma_stage_shape(g, i, t);
    assert forall|d: int| 0 <= d < 4 implies g.cells[i].slot_ok(#[trigger] g.arriving(i, d), d) by {
        if g.cells[i].has_neighbor(d) {
            lemma_next_to(g, i, d);
            let j = g.next_to(i, d);
            assert(g.cell_ok(j));
            lemma_committed(g.cells[j]);
        }
    }
    assert(g.cells[i].slot_ok(g.arriving(i, 0), 0));
    assert(g.cells[i].slot_ok(g.arriving(i, 1), 1));
    assert(g.cells[i].slot_ok(g.arriving(i, 2), 2));
    assert(g.cells[i].slot_ok(g.arriving(i, 3), 3));
}

/// While the cell at place `t` hands out what it sent, the neighbour in
/// direction `d` takes in what is meant for it: the cells `s`, in which the
/// directions below `d` are done, become the cells in which the direction
/// `d` is done too, and the marble changes from the hand to the board.
proof fn lemma_hand_one(g: GridView, t: int, s: Seq<CellView>, d: int) -> (r: Seq<CellView>)
    requires
        g.wf(),
        0 <= t < g.cells.len(),
        0 <= d < 4,
        s.len() == g.cells.len(),
        forall|k: int| 0 <= k < s.len() ==> #[trigger] s[k] == g.mid(k, t, d),
    ensures
        r.len() == g.cells.len(),
        forall|k: int| 0 <= k < r.len() ==> #[trigger] r[k] == g.mid(k, t, d + 1),
        marble_count(r) + in_hand(g.cells[t].committed().outgoing, d + 1) == marble_count(s)
            + in_hand(g.cells[t].committed().outgoing, d),
{
    let n = g.cells.len() as int;
    assert(g.cell_ok(t));
    lemma_committed(g.cells[t]);
    if g.cells[t].has_neighbor(d) {
        let j = g.next_to(t, d);
        lemma_next_to(g, t, d);
        lemma_stage_receive(g, t, d);
        lemma_stage_shape(g, j, t + 1);
        if g.cells[t].has_neighbor(0) {
            lemma_next_to(g, t, 0);
        }
        if g.cells[t].has_neighbor(1) {
            lemma_next_to(g, t, 1);
        }
        if g.cells[t].has_neighbor(2) {
            lemma_next_to(g, t, 2);
        }
        if g.cells[t].has_neighbor(3) {
            lemma_next_to(g, t, 3);
        }
        assert(s[j] == g.mid(j, t, d));
        let r = s.update(j, g.stage(j, t));
        lemma_count_update(s, j, g.stage(j, t));
        assert forall|k: int| 0 <= k < n implies #[trigger] r[k] == g.mid(k, t, d + 1) by {
            assert(s[k] == g.mid(k, t, d));
        }
        r
    } else {
        assert forall|k: int| 0 <= k < n implies #[trigger] s[k] == g.mid(k, t, d + 1) by {
            assert(s[k] == g.mid(k, t, d));
        }
        s
    }
}

/// When one more cell sends, the board holds as many marbles as before.
proof fn lemma_stage_count(g: GridView, t: int)
    requires
        g.wf(),
        0 <= t < g.cells.len(),
    ensures
        marble_count(stages(g, t)) == marble_count(stages(g, t + 1)),
{
    let n = g.cells.len() as int;
    let out = g.cells[t].committed().outgoing;
    assert(g.cell_ok(t));
    lemma_committed(g.cells[t]);
    lemma_stage_send(g, t);
    lemma_stage_shape(g, t, t);
    lemma_stage_shape(g, t, t + 1);
    let s0 = stages(g, t + 1);
    let s1 = s0.update(t, g.stage(t, t));
    lemma_count_update(s0, t, g.stage(t, t));
    assert(marble_count(s1) + in_hand(out, 0) == marble_count(s0));
    assert forall|k: int| 0 <= k < n implies #[trigger] s1[k] == g.mid(k, t, 0) by {}
    let s2 = lemma_hand_one(g, t, s1, 0);
    let s3 = lemma_hand_one(g, t, s2, 1);
    let s4 = lemma_hand_one(g, t, s3, 2);
    let s = lemma_hand_one(g, t, s4, 3);
    assert forall|k: int| 0 <= k < n implies #[trigger] s[k] == g.stage(k, t) by {
        assert(s[k] == g.mid(k, t, 4));
        if k != t && !g.reached(k, t, 4) {
            lemma_stage_other(g, k, t);
        }
    }
    assert(s =~= stages(g, t));
}

/// When the cells from place `t` on have sent, the board holds as many
/// marbles as before the first of them sent.
proof fn lemma_stages_count(g: GridView, t: int)
    requires
        g.wf(),
        0 <= t <= g.cells.len(),
    ensures
        marble_count(stages(g, t)) == g.marble_count(),
    decreases g.cells.len() - t,
{
    if t == g.cells.len() {
        assert forall|i: int| 0 <= i < g.cells.len() implies (#[trigger] stages(g, t)[i]).occupied()
            == g.cells[i].occupied() by {
            assert(g.cell_ok(i));
            lemma_stage_ends(g, i);
            lemma_committed(g.cells[i]);
        }
        lemma_count_same(stages(g, t), g.cells);
    } else {
        lemma_stages_count(g, t + 1);
        lemma_stage_count(g, t);
    }
}

/// A spread leaves the board consistent and neither makes nor loses a
/// marble.
pub proof fn lemma_spread_keeps(g: GridView)
    requires
        g.wf(),
    ensures
        g.spread().wf(),
        g.spread().marble_count() == g.marble_count(),
{
    let w = g.spread();
    assert forall|i: int| 0 <= i < g.cells.len() implies w.cell_ok(i)
        && (#[trigger] w.cells[i]).occupied() == stages(g, 0)[i].occupied() by {
        assert(g.cell_ok(i));
        lemma_stage_ends(g, i);
        lemma_stage_shape(g, i, 0);
        lemma_stage_wf(g, i, 0);
        lemma_sorted(g.stage(i, 0));
    }
    lemma_count_same(w.cells, stages(g, 0));
    lemma_stages_count(g, 0);
}

/// A spread of a board on which no marble is waiting to leave moves
/// nothing: each cell keeps its marbles where they are and its owner, each
/// marble is handed to the owner of its cell, and the board stays
/// consistent.
pub proof fn lemma_spread_quiet(g: GridView)
    requires
        g.wf(),
        !g.unsettled(),
    ensures
        g.spread_state() == State::AcceptingInput,
        g.spread().wf(),
        g.spread().cells.len() == g.cells.len(),
        forall|i: int|
            0 <= i < g.cells.len() ==> #[trigger] g.spread().cells[i] == g.cells[i].committed(),
        !g.spread().unsettled(),
        g.spread().marble_count() == g.marble_count(),
{
    let w = g.spread();
    assert forall|i: int| 0 <= i < g.cells.len() implies #[trigger] w.cells[i]
        == g.cells[i].committed() && w.cell_ok(i) && !w.cells[i].loaded() && w.cells[i].occupied()
        == g.cells[i].occupied() by {
        assert(g.cell_ok(i));
        lemma_committed(g.cells[i]);
        assert forall|d: int| 0 <= d < 4 implies #[trigger] g.arriving(i, d) is None by {
            if g.cells[i].has_neighbor(d) {
                lemma_next_to(g, i, d);
                let j = g.next_to(i, d);
                assert(!g.cells[j].loaded());
                assert(g.cell_ok(j));
                lemma_committed(g.cells[j]);
            }
        }
        assert(g.arriving(i, 0) is None);
        assert(g.arriving(i, 1) is None);
        assert(g.arriving(i, 2) is None);
        assert(g.arriving(i, 3) is None);
        assert(!g.cells[i].loaded());
        assert(g.cells[i].committed().outgoing =~= empty_slots());
        assert(g.exchanged(i) =~= g.cells[i].committed());
    }
    lemma_count_same(w.cells, g.cells);
}

/// A spread of a board on which no cell is full changes nothing but the
/// owners of marbles: the simulation awaits input, no marble leaves its
/// slot or its position, no cell changes hands, and each marble belongs to
/// the owner of its cell afterwards. A second spread changes nothing at
/// all.
pub proof fn lemma_spread_settled(g: GridView)
    requires
        g.wf(),
        !g.some_full(),
    ensures
        g.spread_state() == State::AcceptingInput,
        g.spread().wf(),
        forall|i: int|
            0 <= i < g.cells.len() ==> #[trigger] g.spread().cells[i] == g.cells[i].committed(),
        forall|i: int|
            0 <= i < g.cells.len() ==> (#[trigger] g.spread().cells[i]).owner == g.cells[i].owner
                && g.spread().cells[i].same_places(g.cells[i]),
        g.spread().handed_over(),
        g.handed_over() ==> g.spread() == g,
        g.spread().spread_state() == State::AcceptingInput,
        g.spread().spread() == g.spread(),
{
    assert(!g.unsettled()) by {
        if g.unsettled() {
            let i = choose|i: int| 0 <= i < g.cells.len() && (#[trigger] g.cells[i]).loaded();
            assert(g.cell_ok(i));
            assert(g.cells[i].full());
        }
    }
    lemma_spread_quiet(g);
    let w = g.spread();
    lemma_spread_quiet(w);
    assert forall|i: int| 0 <= i < w.cells.len() implies #[trigger] w.spread().cells[i]
        == w.cells[i] && w.cells[i].committed() == w.cells[i] && w.cells[i].owner
        == g.cells[i].owner && w.cells[i].same_places(g.cells[i]) by {
        assert(g.cell_ok(i));
        lemma_committed(g.cells[i]);
    }
    assert(w.spread() =~= w);
    if g.handed_over() {
        assert(w =~= g);
    }
}

/// A spread gives no cell to anyone who did not own a cell before.
pub proof fn lemma_spread_owners(g: GridView, n: nat)
    requires
        g.wf(),
        g.owners_below(n),
    ensures
        g.spread().owners_below(n),
{
    let w = g.spread();
    assert forall|i: int| 0 <= i < w.cells.len() implies (
    (#[trigger] w.cells[i]).owner matches Some(o) ==> o < n) by {
        assert(g.cell_ok(i));
        lemma_committed(g.cells[i]);
        assert(g.cells[i].owner matches Some(o) ==> o < n);
        assert forall|d: int| 0 <= d < 4 implies (#[trigger] g.arriving(i, d) matches Some(m)
            ==> m.owner < n) by {
            if g.cells[i].has_neighbor(d) {
                lemma_next_to(g, i, d);
                let j = g.next_to(i, d);
                assert(g.cell_ok(j));
                assert(g.cells[j].owner matches Some(o) ==> o < n);
                lemma_committed(g.cells[j]);
            }
        }
        assert(g.arriving(i, 0) matches Some(m) ==> m.owner < n);
        assert(g.arriving(i, 1) matches Some(m) ==> m.owner < n);
        assert(g.arriving(i, 2) matches Some(m) ==> m.owner < n);
        assert(g.arriving(i, 3) matches Some(m) ==> m.owner < n);
        assert(g.exchanged(i).owner matches Some(o) ==> o < n);
    }
}

} // verus!
