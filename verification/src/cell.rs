//! One square of the board: up to one marble per direction in each of three
//! groups of slots, an owner, and the rules by which marbles enter, leave and
//! settle.

use crate::geometry::{dir_x, dir_y, direction, fits_i32, in_grid, Point};
use crate::marble::{approached, lemma_approach_between, Marble, Owner, TOTAL_STEPS};
use vstd::prelude::*;

verus! {

/// Why a marble could not be placed.
#[derive(Clone, Copy, Debug, PartialEq, Eq, Structural)]
pub enum PlaceError {
    /// The cell belongs to another player.
    OwnershipConflict,
    /// The cell holds as many marbles as it has neighbours.
    CellFull,
}

/// The dimensions and the pixel size of a cell that a board can be built
/// with: none of them negative, and small enough that every animation step
/// of a marble anywhere on the board can be computed in an `i32`.
pub open spec fn valid_layout(dim: Point, cellsize: i32) -> bool {
    &&& 0 <= dim.x
    &&& 0 <= dim.y
    &&& 0 <= cellsize
    &&& TOTAL_STEPS * (dim.x * cellsize) <= i32::MAX
    &&& TOTAL_STEPS * (dim.y * cellsize) <= i32::MAX
}

/// Whether the pixel position `p` lies on a board of this layout.
pub open spec fn on_board(p: Point, dim: Point, cellsize: i32) -> bool {
    0 <= p.x <= dim.x * cellsize && 0 <= p.y <= dim.y * cellsize
}

/// Four slots, none of them taken.
pub open spec fn empty_slots() -> Seq<Option<Marble>> {
    Seq::new(4, |d: int| None)
}

/// One if `b` holds, else zero.
pub open spec fn one_if(b: bool) -> nat {
    if b {
        1
    } else {
        0
    }
}

/// Number of marbles in a group of four slots.
pub open spec fn filled(s: Seq<Option<Marble>>) -> nat {
    one_if(s[0] is Some) + one_if(s[1] is Some) + one_if(s[2] is Some) + one_if(s[3] is Some)
}

/// The marble of a slot as a sequence of its own, empty for an empty slot.
pub open spec fn held(slot: Option<Marble>) -> Seq<Marble> {
    match slot {
        Some(m) => seq![m],
        None => Seq::empty(),
    }
}

/// The marbles of a group of four slots, in the order of their directions.
pub open spec fn present(s: Seq<Option<Marble>>) -> Seq<Marble> {
    held(s[0]) + held(s[1]) + held(s[2]) + held(s[3])
}

/// `onto`, with every marble of `from` put into the slot of its own
/// direction.
pub open spec fn promoted(from: Seq<Option<Marble>>, onto: Seq<Option<Marble>>) -> Seq<
    Option<Marble>,
> {
    Seq::new(
        4,
        |d: int|
            if from[d] is Some {
                from[d]
            } else {
                onto[d]
            },
    )
}

/// The slots `s` with every marble handed to `owner`.
pub open spec fn claimed(s: Seq<Option<Marble>>, owner: Owner) -> Seq<Option<Marble>> {
    Seq::new(
        4,
        |d: int|
            match s[d] {
                Some(m) => Some(Marble { pos: m.pos, owner }),
                None => None,
            },
    )
}

/// Whether the slots `a` and `b` hold marbles in the same directions and at
/// the same positions.
pub open spec fn same_places(a: Seq<Option<Marble>>, b: Seq<Option<Marble>>) -> bool {
    forall|d: int|
        0 <= d < 4 ==> (#[trigger] a[d] is Some <==> b[d] is Some) && (a[d] is Some ==> a[d]->0.pos
            == b[d]->0.pos)
}

/// The offset, in quarter turns, that is tried in round `r` of settling:
/// the same direction first, then the two directions beside it, then the
/// opposite one.
pub open spec fn rotation_of(r: int) -> int {
    if r == 0 {
        0
    } else if r == 1 {
        1
    } else if r == 2 {
        3
    } else {
        2
    }
}

/// Settling moves marbles from the slots `src` into the free slots of
/// `dest`, in sixteen attempts: four rounds, each over the four directions
/// in their order. In the attempt for direction `d` in round `r`, the slot
/// `d` of `dest`, if the cell has a neighbour there and the slot is free,
/// takes what the slot `(d + rotation_of(r)) % 4` of `src` holds. This is
/// the pair `(dest, src)` after the first `k` attempts.
pub open spec fn settle(
    dest: Seq<Option<Marble>>,
    src: Seq<Option<Marble>>,
    mask: Seq<bool>,
    k: nat,
) -> (Seq<Option<Marble>>, Seq<Option<Marble>>)
    decreases k,
{
    if k == 0 {
        (dest, src)
    } else {
        let (de, sr) = settle(dest, src, mask, (k - 1) as nat);
        let d = (k - 1) % 4;
        let s = (d + rotation_of((k - 1) / 4)) % 4;
        if mask[d] && de[d] is None {
            (de.update(d, sr[s]), sr.update(s, None))
        } else {
            (de, sr)
        }
    }
}

/// What a cell is, apart from how it is stored.
#[verifier::ext_equal]
pub struct CellView {
    /// Column and row of the cell.
    pub coord: Point,
    /// Dimensions of the grid the cell belongs to.
    pub dim: Point,
    /// Width and height of a cell in pixels.
    pub cellsize: i32,
    /// The player the cell belongs to, if any.
    pub owner: Option<Owner>,
    /// Marbles at rest, by direction.
    pub residing: Seq<Option<Marble>>,
    /// Marbles that have just arrived, by the direction they came from.
    pub incoming: Seq<Option<Marble>>,
    /// Marbles that leave with the next spread, by direction.
    pub outgoing: Seq<Option<Marble>>,
}

impl CellView {
    /// A cell without marbles and without an owner.
    pub open spec fn fresh(coord: Point, dim: Point, cellsize: i32) -> CellView {
        CellView {
            coord,
            dim,
            cellsize,
            owner: None,
            residing: empty_slots(),
            incoming: empty_slots(),
            outgoing: empty_slots(),
        }
    }

    /// Whether the grid has a cell next to this one in direction `d`.
    pub open spec fn has_neighbor(self, d: int) -> bool {
        &&& 0 <= self.coord.x + dir_x(d) < self.dim.x
        &&& 0 <= self.coord.y + dir_y(d) < self.dim.y
    }

    /// The four answers of `has_neighbor`, by direction.
    pub open spec fn mask(self) -> Seq<bool> {
        Seq::new(4, |d: int| self.has_neighbor(d))
    }

    /// Number of neighbours: the number of marbles at which the cell is full.
    pub open spec fn capacity(self) -> nat {
        one_if(self.has_neighbor(0)) + one_if(self.has_neighbor(1)) + one_if(self.has_neighbor(2))
            + one_if(self.has_neighbor(3))
    }

    /// Number of marbles in the cell, over all three groups of slots.
    pub open spec fn occupied(self) -> nat {
        filled(self.residing) + filled(self.incoming) + filled(self.outgoing)
    }

    /// Whether the cell holds at least as many marbles as it has
    /// neighbours.
    pub open spec fn full(self) -> bool {
        self.occupied() >= self.capacity()
    }

    /// All marbles of the cell: those at rest, then those that arrived, then
    /// those about to leave, each group in the order of the directions.
    pub open spec fn marbles(self) -> Seq<Marble> {
        present(self.residing) + present(self.incoming) + present(self.outgoing)
    }

    /// Pixel column of the middle of the cell.
    pub open spec fn center_x(self) -> int {
        self.coord.x * self.cellsize + self.cellsize / 2
    }

    /// Pixel row of the middle of the cell.
    pub open spec fn center_y(self) -> int {
        self.coord.y * self.cellsize + self.cellsize / 2
    }

    /// Where a marble in a slot of direction `d` comes to rest: a quarter of
    /// a cell from the middle, towards that neighbour.
    pub open spec fn target(self, d: int) -> Point {
        Point {
            x: (self.center_x() + (self.cellsize / 4) * dir_x(d)) as i32,
            y: (self.center_y() + (self.cellsize / 4) * dir_y(d)) as i32,
        }
    }

    /// A slot is in order if it is empty, or lies towards a neighbour and
    /// holds a marble that is on the board.
    pub open spec fn slot_ok(self, slot: Option<Marble>, d: int) -> bool {
        slot matches Some(m) ==> self.has_neighbor(d) && on_board(m.pos, self.dim, self.cellsize)
    }

    /// A group of four slots is in order if each of them is.
    pub open spec fn slots_ok(self, s: Seq<Option<Marble>>) -> bool {
        &&& s.len() == 4
        &&& self.slot_ok(s[0], 0)
        &&& self.slot_ok(s[1], 1)
        &&& self.slot_ok(s[2], 2)
        &&& self.slot_ok(s[3], 3)
    }

    /// What holds of a cell at all times: it lies on a grid of a valid
    /// layout, marbles sit only in slots towards a neighbour and only on the
    /// board, fewer marbles are at rest than the cell has neighbours, marbles
    /// wait to leave only in a full cell, and the cell has an owner exactly
    /// when it holds a marble.
    pub open spec fn wf(self) -> bool {
        &&& valid_layout(self.dim, self.cellsize)
        &&& in_grid(self.coord, self.dim)
        &&& self.slots_ok(self.residing)
        &&& self.slots_ok(self.incoming)
        &&& self.slots_ok(self.outgoing)
        &&& filled(self.residing) < self.capacity() || self.capacity() == 0
        &&& self.loaded() ==> self.full()
        &&& self.owner is None <==> self.occupied() == 0
    }

    /// Whether a marble is waiting to leave.
    pub open spec fn loaded(self) -> bool {
        filled(self.outgoing) > 0
    }

    /// What holds of a cell between two spreads: every marble that arrived
    /// has been given its slot.
    pub open spec fn rested(self) -> bool {
        self.incoming == empty_slots()
    }

    /// Whether a marble at rest can be put in direction `d`.
    pub open spec fn free(self, d: int) -> bool {
        self.has_neighbor(d) && self.residing[d] is None
    }

    /// The first direction in which a marble at rest can be put; 4 if there
    /// is none.
    pub open spec fn first_free(self) -> int {
        if self.free(0) {
            0
        } else if self.free(1) {
            1
        } else if self.free(2) {
            2
        } else if self.free(3) {
            3
        } else {
            4
        }
    }

    /// Whether the cell belongs to a player other than `owner`.
    pub open spec fn owned_by_other(self, owner: Owner) -> bool {
        self.owner matches Some(o) && o != owner
    }

    /// Whether `owner` may try to place a marble in the cell: the cell is
    /// another player's, or it holds no more marbles than it has neighbours.
    /// A cell of the player's own that holds more is in the middle of a chain
    /// of spreads; a marble in it would push out one that waits to leave.
    pub open spec fn admits(self, owner: Owner) -> bool {
        self.owned_by_other(owner) || self.occupied() <= self.capacity()
    }

    /// How an attempt of `owner` to place a marble ends: refused if the
    /// cell is another player's, else refused if the cell holds as many
    /// marbles as it has neighbours, else accepted.
    pub open spec fn verdict(self, owner: Owner) -> Result<(), PlaceError> {
        if self.owned_by_other(owner) {
            Err(PlaceError::OwnershipConflict)
        } else if self.occupied() == self.capacity() {
            Err(PlaceError::CellFull)
        } else {
            Ok(())
        }
    }

    /// The cell after `owner` has placed a marble in it: the marble rests at
    /// its target in the first free direction; if that fills the cell, all
    /// marbles at rest are made ready to leave, each in its own direction.
    pub open spec fn with_marble(self, owner: Owner) -> CellView {
        let d = self.first_free();
        let placed = self.residing.update(d, Some(Marble { pos: self.target(d), owner }));
        if self.occupied() + 1 >= self.capacity() {
            CellView {
                owner: Some(owner),
                residing: empty_slots(),
                outgoing: promoted(placed, self.outgoing),
                ..self
            }
        } else {
            CellView { owner: Some(owner), residing: placed, ..self }
        }
    }

    /// The cell after the marbles that were waiting to leave have left. If
    /// none is left behind, the cell has no owner any more.
    pub open spec fn after_send(self) -> CellView {
        CellView {
            owner: if filled(self.residing) + filled(self.incoming) == 0 {
                None
            } else {
                self.owner
            },
            outgoing: empty_slots(),
            ..self
        }
    }

    /// The cell after `marble` has arrived from direction `d`: the cell now
    /// belongs to the marble's owner.
    pub open spec fn after_receive(self, d: int, marble: Marble) -> CellView {
        CellView {
            owner: Some(marble.owner),
            incoming: self.incoming.update(d, Some(marble)),
            ..self
        }
    }

    /// The cell after what a neighbour in direction `d` has sent, a marble
    /// or nothing, has arrived.
    pub open spec fn taking(self, d: int, arriving: Option<Marble>) -> CellView {
        match arriving {
            Some(marble) => self.after_receive(d, marble),
            None => self,
        }
    }

    /// The cell after the marbles that arrived have been given their slots.
    /// Nothing changes if none arrived. In a full cell each of them is made
    /// ready to leave in the direction it came from, and marbles at rest are
    /// settled into the directions still open. Else the marbles that arrived
    /// are settled among those at rest.
    pub open spec fn sorted(self) -> CellView {
        if filled(self.incoming) == 0 {
            self
        } else if self.full() {
            let (out, res) = settle(self.incoming, self.residing, self.mask(), 16);
            CellView { residing: res, incoming: empty_slots(), outgoing: out, ..self }
        } else {
            let (res, inc) = settle(self.residing, self.incoming, self.mask(), 16);
            CellView { residing: res, incoming: inc, ..self }
        }
    }

    /// The slots `s` of this cell after one animation step: each marble has
    /// moved towards the target of its direction.
    pub open spec fn moved(self, s: Seq<Option<Marble>>, steps: int) -> Seq<Option<Marble>> {
        Seq::new(
            4,
            |d: int|
                match s[d] {
                    Some(m) => Some(
                        Marble { pos: approached(m.pos, self.target(d), steps), owner: m.owner },
                    ),
                    None => None,
                },
        )
    }

    /// A slot of direction `d` is empty or holds a marble at its target.
    pub open spec fn at_target(self, slot: Option<Marble>, d: int) -> bool {
        slot matches Some(m) ==> m.pos == self.target(d)
    }

    /// Whether every marble of the cell is at the target of its slot.
    pub open spec fn landed(self) -> bool {
        forall|d: int|
            0 <= d < 4 ==> self.at_target(#[trigger] self.residing[d], d) && self.at_target(
                #[trigger] self.incoming[d],
                d,
            ) && self.at_target(#[trigger] self.outgoing[d], d)
    }

    /// The cell after one animation step, with `steps` steps still to follow.
    pub open spec fn stepped(self, steps: int) -> CellView {
        CellView {
            residing: self.moved(self.residing, steps),
            incoming: self.moved(self.incoming, steps),
            outgoing: self.moved(self.outgoing, steps),
            ..self
        }
    }

    /// Whether the marbles of the cell are at the same places as those of
    /// `other`: the same slots are taken, by marbles at the same positions.
    pub open spec fn same_places(self, other: CellView) -> bool {
        &&& same_places(self.residing, other.residing)
        &&& same_places(self.incoming, other.incoming)
        &&& same_places(self.outgoing, other.outgoing)
    }

    /// The cell with each of its marbles handed to the cell's owner.
    pub open spec fn committed(self) -> CellView {
        match self.owner {
            Some(o) => CellView {
                residing: claimed(self.residing, o),
                incoming: claimed(self.incoming, o),
                outgoing: claimed(self.outgoing, o),
                ..self
            },
            None => self,
        }
    }
}

/// The targets of a cell on a valid layout lie on the board.
pub proof fn lemma_target_on_board(v: CellView, d: int)
    requires
        valid_layout(v.dim, v.cellsize),
        in_grid(v.coord, v.dim),
        0 <= d < 4,
    ensures
        on_board(v.target(d), v.dim, v.cellsize),
        v.target(d).x == v.center_x() + (v.cellsize / 4) * dir_x(d),
        v.target(d).y == v.center_y() + (v.cellsize / 4) * dir_y(d),
        0 <= v.coord.x * v.cellsize <= v.center_x() <= v.dim.x * v.cellsize <= i32::MAX,
        0 <= v.coord.y * v.cellsize <= v.center_y() <= v.dim.y * v.cellsize <= i32::MAX,
{
    let c = v.cellsize as int;
    let (x, y, w, h) = (v.coord.x as int, v.coord.y as int, v.dim.x as int, v.dim.y as int);
    assert(0 <= x * c && x * c + c <= w * c && 0 <= y * c && y * c + c <= h * c)
        by (nonlinear_arith)
        requires
            0 <= x < w,
            0 <= y < h,
            0 <= c,
    ;
    assert(w * c <= i32::MAX && h * c <= i32::MAX) by (nonlinear_arith)
        requires
            0 <= w * c,
            0 <= h * c,
            15 * (w * c) <= i32::MAX,
            15 * (h * c) <= i32::MAX,
    ;
    assert((c / 4) * dir_x(d) == dir_x(d) * (c / 4)) by (nonlinear_arith);
    assert((c / 4) * dir_y(d) == dir_y(d) * (c / 4)) by (nonlinear_arith);
}

/// Handing the marbles of four slots to an owner leaves each marble in its
/// slot and at its position; doing it twice is the same as doing it once.
proof fn lemma_claimed(s: Seq<Option<Marble>>, o: Owner)
    requires
        s.len() == 4,
    ensures
        claimed(s, o).len() == 4,
        filled(claimed(s, o)) == filled(s),
        same_places(claimed(s, o), s),
        claimed(claimed(s, o), o) == claimed(s, o),
        s == empty_slots() ==> claimed(s, o) == empty_slots(),
{
    assert(claimed(claimed(s, o), o) =~= claimed(s, o));
    if s == empty_slots() {
        assert(claimed(s, o) =~= empty_slots());
    }
}

/// Handing the marbles of a cell to its owner moves no marble and changes
/// no count, and a cell whose marbles are its owner's already stays as it is.
pub proof fn lemma_committed(v: CellView)
    requires
        v.wf(),
    ensures
        v.committed().wf(),
        v.committed().owner == v.owner,
        filled(v.committed().residing) == filled(v.residing),
        filled(v.committed().incoming) == filled(v.incoming),
        filled(v.committed().outgoing) == filled(v.outgoing),
        v.committed().occupied() == v.occupied(),
        v.rested() ==> v.committed().rested(),
        v.committed().committed() == v.committed(),
        v.committed().same_places(v),
{
    if let Some(o) = v.owner {
        lemma_claimed(v.residing, o);
        lemma_claimed(v.incoming, o);
        lemma_claimed(v.outgoing, o);
    }
}

/// Whether `x` is what one of the four slots of `s` holds.
pub open spec fn among(x: Option<Marble>, s: Seq<Option<Marble>>) -> bool {
    x == s[0] || x == s[1] || x == s[2] || x == s[3]
}

/// The round in which the offset `o` is tried: the inverse of
/// [`rotation_of`].
pub open spec fn round_of(o: int) -> int {
    if o == 0 {
        0
    } else if o == 1 {
        1
    } else if o == 3 {
        2
    } else {
        3
    }
}

/// Whether the attempt that moves slot `s` of the source into slot `d` of
/// the destination is among the first `k` attempts of settling.
pub open spec fn attempted(k: nat, d: int, s: int) -> bool {
    4 * round_of((s - d + 4) % 4) + d < k
}

/// Once an attempt has been made for the pair `(d, s)`, a destination slot
/// `d` towards a neighbour is taken or the source slot `s` is empty.
pub open spec fn pair_done(
    de: Seq<Option<Marble>>,
    sr: Seq<Option<Marble>>,
    mask: Seq<bool>,
    k: nat,
    d: int,
    s: int,
) -> bool {
    attempted(k, d, s) && mask[d] ==> de[d] is Some || sr[s] is None
}

/// What holds after the first `k` attempts of settling: no marble is lost
/// or made, a marble in a destination slot stays there, a source slot is
/// never refilled, a destination slot is only filled towards a neighbour and
/// only from the source, and every pair tried so far is done.
pub proof fn lemma_settle_prefix(
    dest: Seq<Option<Marble>>,
    src: Seq<Option<Marble>>,
    mask: Seq<bool>,
    k: nat,
)
    requires
        dest.len() == 4,
        src.len() == 4,
        mask.len() == 4,
        k <= 16,
    ensures
        ({
            let (de, sr) = settle(dest, src, mask, k);
            &&& de.len() == 4
            &&& sr.len() == 4
            &&& filled(de) + filled(sr) == filled(dest) + filled(src)
            &&& forall|d: int| 0 <= d < 4 && dest[d] is Some ==> #[trigger] de[d] == dest[d]
            &&& forall|s: int| 0 <= s < 4 && #[trigger] sr[s] is Some ==> sr[s] == src[s]
            &&& forall|d: int|
                0 <= d < 4 && #[trigger] de[d] is Some ==> de[d] == dest[d] || (mask[d] && among(
                    de[d],
                    src,
                ))
            &&& forall|d: int, s: int|
                0 <= d < 4 && 0 <= s < 4 ==> #[trigger] pair_done(de, sr, mask, k, d, s)
        }),
    decreases k,
{
    if k > 0 {
        let j = (k - 1) as nat;
        lemma_settle_prefix(dest, src, mask, j);
        let (de0, sr0) = settle(dest, src, mask, j);
        let (de, sr) = settle(dest, src, mask, k);
        let d0 = j as int % 4;
        let r0 = j as int / 4;
        let s0 = (d0 + rotation_of(r0)) % 4;
        assert(0 <= r0 < 4 && 0 <= d0 < 4 && 0 <= s0 < 4);
        assert(round_of((s0 - d0 + 4) % 4) == r0);
        assert forall|d: int, s: int| 0 <= d < 4 && 0 <= s < 4 implies #[trigger] pair_done(
            de,
            sr,
            mask,
            k,
            d,
            s,
        ) by {
            assert(pair_done(de0, sr0, mask, j, d, s));
            if attempted(k, d, s) && !attempted(j, d, s) {
                assert(4 * round_of((s - d + 4) % 4) + d == j);
                assert(d == d0 && s == s0);
            }
        }
    }
}

/// What holds when settling is over: besides what holds after every
/// attempt, the source is empty or every destination slot towards a
/// neighbour is taken.
pub proof fn lemma_settled(dest: Seq<Option<Marble>>, src: Seq<Option<Marble>>, mask: Seq<bool>)
    requires
        dest.len() == 4,
        src.len() == 4,
        mask.len() == 4,
    ensures
        ({
            let (de, sr) = settle(dest, src, mask, 16);
            &&& de.len() == 4
            &&& sr.len() == 4
            &&& filled(de) + filled(sr) == filled(dest) + filled(src)
            &&& forall|d: int| 0 <= d < 4 && dest[d] is Some ==> #[trigger] de[d] == dest[d]
            &&& forall|s: int| 0 <= s < 4 && #[trigger] sr[s] is Some ==> sr[s] == src[s]
            &&& forall|d: int|
                0 <= d < 4 && #[trigger] de[d] is Some ==> de[d] == dest[d] || (mask[d] && among(
                    de[d],
                    src,
                ))
            &&& sr == empty_slots() || forall|d: int|
                0 <= d < 4 && mask[d] ==> #[trigger] de[d] is Some
        }),
{
    lemma_settle_prefix(dest, src, mask, 16);
    let (de, sr) = settle(dest, src, mask, 16);
    if sr != empty_slots() {
        assert(!(sr =~= empty_slots()));
        let s = choose|s: int| 0 <= s < 4 && sr[s] is Some;
        assert forall|d: int| 0 <= d < 4 && mask[d] implies #[trigger] de[d] is Some by {
            assert(pair_done(de, sr, mask, 16, d, s));
            assert(0 <= round_of((s - d + 4) % 4) < 4);
        }
    }
}

/// In the first round of settling each free destination slot towards a
/// neighbour takes what the source holds in its own direction.
pub proof fn lemma_settle_first_round(
    dest: Seq<Option<Marble>>,
    src: Seq<Option<Marble>>,
    mask: Seq<bool>,
)
    requires
        dest.len() == 4,
        src.len() == 4,
        mask.len() == 4,
    ensures
        ({
            let (de, sr) = settle(dest, src, mask, 4);
            forall|d: int|
                0 <= d < 4 ==> #[trigger] de[d] == (if mask[d] && dest[d] is None {
                    src[d]
                } else {
                    dest[d]
                })
        }),
{
    reveal_with_fuel(settle, 5);
}

/// A destination slot that is taken after `j` attempts of settling holds
/// the same marble after `k` attempts, for `k` from `j` on.
pub proof fn lemma_settle_keeps(
    dest: Seq<Option<Marble>>,
    src: Seq<Option<Marble>>,
    mask: Seq<bool>,
    j: nat,
    k: nat,
)
    requires
        dest.len() == 4,
        src.len() == 4,
        mask.len() == 4,
        j <= k <= 16,
    ensures
        forall|d: int|
            0 <= d < 4 && (#[trigger] settle(dest, src, mask, j).0[d]) is Some ==> settle(
                dest,
                src,
                mask,
                k,
            ).0[d] == settle(dest, src, mask, j).0[d],
    decreases k,
{
    if j < k {
        lemma_settle_keeps(dest, src, mask, j, (k - 1) as nat);
        lemma_settle_prefix(dest, src, mask, (k - 1) as nat);
    }
}

/// Where the marbles go when those that arrived are given their slots. In a
/// full cell each marble that arrived is made ready to leave in the
/// direction it came from. In a cell that is not full the marbles at rest
/// stay, and a marble that arrived comes to rest in the direction it came
/// from if no marble rests there.
pub proof fn lemma_sorted_directions(v: CellView)
    requires
        v.wf(),
        v.outgoing == empty_slots(),
    ensures
        v.full() ==> forall|d: int|
            0 <= d < 4 && (#[trigger] v.incoming[d]) is Some ==> v.sorted().outgoing[d]
                == v.incoming[d],
        !v.full() ==> forall|d: int|
            0 <= d < 4 && (#[trigger] v.residing[d]) is Some ==> v.sorted().residing[d]
                == v.residing[d],
        !v.full() ==> forall|d: int|
            0 <= d < 4 && (#[trigger] v.incoming[d]) is Some && v.residing[d] is None
                ==> v.sorted().residing[d] == v.incoming[d],
{
    if filled(v.incoming) == 0 {
    } else if v.full() {
        lemma_settled(v.incoming, v.residing, v.mask());
    } else {
        lemma_settled(v.residing, v.incoming, v.mask());
        lemma_settle_first_round(v.residing, v.incoming, v.mask());
        lemma_settle_keeps(v.residing, v.incoming, v.mask(), 4, 16);
        let first = settle(v.residing, v.incoming, v.mask(), 4).0;
        assert forall|d: int|
            0 <= d < 4 && (#[trigger] v.incoming[d]) is Some && v.residing[d] is None implies
            v.sorted().residing[d] == v.incoming[d] by {
            assert(v.slot_ok(v.incoming[d], d));
            assert(first[d] == v.incoming[d]);
        }
    }
}

/// Giving the marbles that arrived their slots loses none of them, leaves
/// the cell consistent, and leaves it as a cell is between two spreads.
pub proof fn lemma_sorted(v: CellView)
    requires
        v.wf(),
        v.outgoing == empty_slots(),
    ensures
        v.sorted().wf(),
        v.sorted().rested(),
        v.sorted().occupied() == v.occupied(),
        v.sorted().owner == v.owner,
        forall|m: Marble| v.sorted().marbles().contains(m) ==> v.marbles().contains(m),
{
    let w = v.sorted();
    if filled(v.incoming) == 0 {
        assert(v.incoming =~= empty_slots());
    } else if v.full() {
        lemma_settled(v.incoming, v.residing, v.mask());
        let (out, res) = settle(v.incoming, v.residing, v.mask(), 16);
        assert(res[0] is Some ==> res[0] == v.residing[0]);
        assert(res[1] is Some ==> res[1] == v.residing[1]);
        assert(res[2] is Some ==> res[2] == v.residing[2]);
        assert(res[3] is Some ==> res[3] == v.residing[3]);
        assert(out[0] is Some ==> out[0] == v.incoming[0] || (v.mask()[0] && among(
            out[0],
            v.residing,
        )));
        assert(out[1] is Some ==> out[1] == v.incoming[1] || (v.mask()[1] && among(
            out[1],
            v.residing,
        )));
        assert(out[2] is Some ==> out[2] == v.incoming[2] || (v.mask()[2] && among(
            out[2],
            v.residing,
        )));
        assert(out[3] is Some ==> out[3] == v.incoming[3] || (v.mask()[3] && among(
            out[3],
            v.residing,
        )));
        if res == empty_slots() {
        } else {
            assert(v.mask()[0] ==> out[0] is Some);
            assert(v.mask()[1] ==> out[1] is Some);
            assert(v.mask()[2] ==> out[2] is Some);
            assert(v.mask()[3] ==> out[3] is Some);
        }
        lemma_marbles_contains(v);
        lemma_marbles_contains(w);
    } else {
        lemma_settled(v.residing, v.incoming, v.mask());
        let (res, inc) = settle(v.residing, v.incoming, v.mask(), 16);
        assert(inc[0] is Some ==> inc[0] == v.incoming[0]);
        assert(inc[1] is Some ==> inc[1] == v.incoming[1]);
        assert(inc[2] is Some ==> inc[2] == v.incoming[2]);
        assert(inc[3] is Some ==> inc[3] == v.incoming[3]);
        assert(res[0] is Some ==> res[0] == v.residing[0] || (v.mask()[0] && among(
            res[0],
            v.incoming,
        )));
        assert(res[1] is Some ==> res[1] == v.residing[1] || (v.mask()[1] && among(
            res[1],
            v.incoming,
        )));
        assert(res[2] is Some ==> res[2] == v.residing[2] || (v.mask()[2] && among(
            res[2],
            v.incoming,
        )));
        assert(res[3] is Some ==> res[3] == v.residing[3] || (v.mask()[3] && among(
            res[3],
            v.incoming,
        )));
        if inc == empty_slots() {
        } else {
            assert(v.mask()[0] ==> res[0] is Some);
            assert(v.mask()[1] ==> res[1] is Some);
            assert(v.mask()[2] ==> res[2] is Some);
            assert(v.mask()[3] ==> res[3] is Some);
        }
        assert(inc =~= empty_slots());
        lemma_marbles_contains(v);
        lemma_marbles_contains(w);
    }
}

/// A marble is among the marbles of a cell exactly if one of the twelve
/// slots holds it.
pub proof fn lemma_marbles_contains(v: CellView)
    ensures
        forall|m: Marble|
            v.marbles().contains(m) <==> among(Some(m), v.residing) || among(Some(m), v.incoming)
                || among(Some(m), v.outgoing),
{
    assert forall|m: Marble|
        v.marbles().contains(m) <==> among(Some(m), v.residing) || among(Some(m), v.incoming)
            || among(Some(m), v.outgoing) by {
        lemma_present_contains(v.residing, m);
        lemma_present_contains(v.incoming, m);
        lemma_present_contains(v.outgoing, m);
        let (a, b, c) = (present(v.residing), present(v.incoming), present(v.outgoing));
        lemma_concat_contains(a, b, m);
        lemma_concat_contains(a + b, c, m);
    }
}

proof fn lemma_concat_contains(a: Seq<Marble>, b: Seq<Marble>, m: Marble)
    ensures
        (a + b).contains(m) <==> a.contains(m) || b.contains(m),
{
    if a.contains(m) {
        let i = choose|i: int| 0 <= i < a.len() && a[i] == m;
        assert((a + b)[i] == m);
    }
    if b.contains(m) {
        let i = choose|i: int| 0 <= i < b.len() && b[i] == m;
        assert((a + b)[a.len() + i] == m);
    }
    if (a + b).contains(m) {
        let i = choose|i: int| 0 <= i < (a + b).len() && (a + b)[i] == m;
        if i < a.len() {
            assert(a[i] == m);
        } else {
            assert(b[i - a.len()] == m);
        }
    }
}

proof fn lemma_present_contains(s: Seq<Option<Marble>>, m: Marble)
    ensures
        present(s).contains(m) <==> among(Some(m), s),
{
    let (a, b, c, d) = (held(s[0]), held(s[1]), held(s[2]), held(s[3]));
    lemma_concat_contains(a, b, m);
    lemma_concat_contains(a + b, c, m);
    lemma_concat_contains(a + b + c, d, m);
    assert forall|i: int| 0 <= i < 4 implies (held(s[i]).contains(m) <==> s[i] == Some(m)) by {
        if s[i] == Some(m) {
            assert(held(s[i])[0] == m);
        }
    }
}

/// A cell that holds no more marbles than it has neighbours is full
/// exactly when it holds as many. (With more marbles than neighbours, as
/// after several arrivals at once, a cell is full as well.)
pub proof fn lemma_full_at_capacity(v: CellView)
    requires
        v.occupied() <= v.capacity(),
    ensures
        v.full() <==> v.occupied() == v.capacity(),
{
}

/// A cell at rest holds fewer than twice as many marbles as it has
/// neighbours, and as many as it has neighbours or more exactly when marbles
/// are waiting to leave it. So a cell at rest without a marble waiting to
/// leave may be asked to take a marble by anyone.
pub proof fn lemma_rested_counts(v: CellView)
    requires
        v.wf(),
        v.rested(),
    ensures
        v.capacity() > 0 ==> v.occupied() < 2 * v.capacity(),
        v.capacity() > 0 ==> (v.full() <==> v.loaded()),
        v.capacity() == 0 ==> v.occupied() == 0,
        v.loaded() ==> v.full(),
        !v.loaded() ==> v.occupied() <= v.capacity(),
        !v.loaded() ==> forall|owner: Owner| v.admits(owner),
{
}

/// A cell that takes a marble holds one marble more and belongs to the
/// player who placed it; it stays consistent, and at rest if it was, and it
/// is full afterwards exactly if a marble is waiting to leave. Every marble
/// it held is still there, at its position and with its owner, and the one
/// marble that was not there before is the player's.
pub proof fn lemma_with_marble(v: CellView, owner: Owner)
    requires
        v.wf(),
        v.admits(owner),
        v.verdict(owner) is Ok,
    ensures
        forall|m: Marble| v.marbles().contains(m) ==> v.with_marble(owner).marbles().contains(m),
        forall|m: Marble|
            v.with_marble(owner).marbles().contains(m) ==> v.marbles().contains(m) || m == (Marble {
                pos: v.target(v.first_free()),
                owner,
            }),
        v.with_marble(owner).wf(),
        v.rested() ==> v.with_marble(owner).rested(),
        v.with_marble(owner).occupied() == v.occupied() + 1,
        v.with_marble(owner).owner == Some(owner),
        v.with_marble(owner).coord == v.coord,
        v.with_marble(owner).dim == v.dim,
        v.with_marble(owner).cellsize == v.cellsize,
        v.with_marble(owner).full() == v.with_marble(owner).loaded(),
        0 <= v.first_free() < 4,
        v.with_marble(owner).marbles().contains(
            Marble { pos: v.target(v.first_free()), owner },
        ),
{
    let d = v.first_free();
    lemma_target_on_board(v, d);
    let w = v.with_marble(owner);
    let m = Marble { pos: v.target(d), owner };
    let placed = v.residing.update(d, Some(m));
    assert(among(Some(m), placed));
    lemma_marbles_contains(w);
    lemma_marbles_contains(v);
    if v.occupied() + 1 >= v.capacity() {
        assert(promoted(placed, v.outgoing)[d] == Some(m));
    } else {
        assert(w.residing[d] == Some(m));
    }
}

/// An animation step of four slots in order leaves each marble in its
/// slot and on the board, and the last step brings it to its target.
proof fn lemma_moved(v: CellView, s: Seq<Option<Marble>>, steps: int)
    requires
        valid_layout(v.dim, v.cellsize),
        in_grid(v.coord, v.dim),
        v.slots_ok(s),
        0 <= steps,
    ensures
        v.slots_ok(v.moved(s, steps)),
        filled(v.moved(s, steps)) == filled(s),
        s == empty_slots() ==> v.moved(s, steps) == empty_slots(),
        steps == 0 ==> forall|d: int|
            0 <= d < 4 ==> v.at_target(#[trigger] v.moved(s, steps)[d], d),
{
    assert forall|d: int| 0 <= d < 4 implies v.slot_ok(#[trigger] v.moved(s, steps)[d], d) && (
    steps == 0 ==> v.at_target(v.moved(s, steps)[d], d)) by {
        if let Some(m) = s[d] {
            lemma_target_on_board(v, d);
            let t = v.target(d);
            lemma_approach_between(m.pos.x as int, t.x as int, steps);
            lemma_approach_between(m.pos.y as int, t.y as int, steps);
        }
    }
    assert(v.slot_ok(v.moved(s, steps)[0], 0));
    assert(v.slot_ok(v.moved(s, steps)[1], 1));
    assert(v.slot_ok(v.moved(s, steps)[2], 2));
    assert(v.slot_ok(v.moved(s, steps)[3], 3));
    if s == empty_slots() {
        assert(v.moved(s, steps) =~= empty_slots());
    }
}

/// An animation step moves no marble off the board or out of its slot, and
/// the last step brings every marble to its target.
pub proof fn lemma_stepped(v: CellView, steps: int)
    requires
        v.wf(),
        0 <= steps,
    ensures
        v.stepped(steps).wf(),
        v.stepped(steps).owner == v.owner,
        filled(v.stepped(steps).residing) == filled(v.residing),
        filled(v.stepped(steps).incoming) == filled(v.incoming),
        filled(v.stepped(steps).outgoing) == filled(v.outgoing),
        v.stepped(steps).occupied() == v.occupied(),
        v.rested() ==> v.stepped(steps).rested(),
        steps == 0 ==> v.stepped(steps).landed(),
{
    let w = v.stepped(steps);
    lemma_moved(v, v.residing, steps);
    lemma_moved(v, v.incoming, steps);
    lemma_moved(v, v.outgoing, steps);
    assert(w.slots_ok(w.residing) == v.slots_ok(w.residing));
    assert(w.slots_ok(w.incoming) == v.slots_ok(w.incoming));
    assert(w.slots_ok(w.outgoing) == v.slots_ok(w.outgoing));
    if steps == 0 {
        assert forall|d: int| 0 <= d < 4 implies w.at_target(#[trigger] w.residing[d], d)
            && w.at_target(#[trigger] w.incoming[d], d) && w.at_target(
            #[trigger] w.outgoing[d],
            d,
        ) by {
            assert(v.at_target(v.moved(v.residing, steps)[d], d));
            assert(v.at_target(v.moved(v.incoming, steps)[d], d));
            assert(v.at_target(v.moved(v.outgoing, steps)[d], d));
        }
    }
}

/// One square of the board.
pub struct Cell {
    coord: Point,
    dim: Point,
    cellsize: i32,
    owner: Option<Owner>,
    neighbors: u8,
    count: u8,
    has_neighbor: [bool; 4],
    residing: [Option<Marble>; 4],
    incoming: [Option<Marble>; 4],
    outgoing: [Option<Marble>; 4],
}

impl View for Cell {
    type V = CellView;

    closed spec fn view(&self) -> CellView {
        CellView {
            coord: self.coord,
            dim: self.dim,
            cellsize: self.cellsize,
            owner: self.owner,
            residing: self.residing@,
            incoming: self.incoming@,
            outgoing: self.outgoing@,
        }
    }
}

impl Cell {
    /// The counts and the neighbour flags that the cell keeps agree with
    /// its slots and its place on the grid.
    pub closed spec fn inv(&self) -> bool {
        &&& self.count == self@.occupied()
        &&& self.neighbors == self@.capacity()
        &&& self.has_neighbor@ =~= self@.mask()
    }

    /// The cell is consistent in itself and with its grid.
    pub open spec fn wf(&self) -> bool {
        self.inv() && self@.wf()
    }

    /// A cell without marbles at `coord` on a grid of dimensions `dim`,
    /// whose cells are `cellsize` pixels wide.
    pub fn new(coord: Point, dim: Point, cellsize: i32) -> (c: Cell)
        requires
            valid_layout(dim, cellsize),
            in_grid(coord, dim),
        ensures
            c.wf(),
            c@.rested(),
            c@ == CellView::fresh(coord, dim, cellsize),
    {
        let has_neighbor = [coord.x < dim.x - 1, coord.y < dim.y - 1, coord.x > 0, coord.y > 0];
        let mut neighbors: u8 = 0;
        for d in 0..4usize
            invariant
                neighbors == one_if(d > 0 && has_neighbor[0]) + one_if(d > 1 && has_neighbor[1])
                    + one_if(d > 2 && has_neighbor[2]) + one_if(d > 3 && has_neighbor[3]),
        {
            if has_neighbor[d] {
                neighbors = neighbors + 1;
            }
        }
        let c = Cell {
            coord,
            dim,
            cellsize,
            owner: None,
            has_neighbor,
            residing: [None;4],
            incoming: [None;4],
            outgoing: [None;4],
            neighbors,
            count: 0,
        };
        assert(c@ =~= CellView::fresh(coord, dim, cellsize));
        c
    }

    /// Column and row of the cell.
    pub fn coord(&self) -> (p: Point)
        ensures
            p == self@.coord,
    {
        self.coord
    }

    /// The player the cell belongs to, if any.
    pub fn owner(&self) -> (o: Option<Owner>)
        ensures
            o == self@.owner,
    {
        self.owner
    }

    /// Number of marbles in the cell.
    pub fn occupied(&self) -> (n: u8)
        requires
            self.wf(),
        ensures
            n == self@.occupied(),
    {
        self.count
    }

    /// Number of neighbours of the cell.
    pub fn capacity(&self) -> (n: u8)
        requires
            self.wf(),
        ensures
            n == self@.capacity(),
    {
        self.neighbors
    }

    /// Whether the grid has a cell next to this one in `direction`.
    pub fn has_neighbor(&self, direction: usize) -> (b: bool)
        requires
            self.wf(),
            direction < 4,
        ensures
            b == self@.has_neighbor(direction as int),
    {
        self.has_neighbor[direction]
    }

    /// Whether the cell holds at least as many marbles as it has neighbours.
    pub fn full(&self) -> (b: bool)
        requires
            self.wf(),
        ensures
            b == self@.full(),
            b == (self@.occupied() >= self@.capacity()),
            self@.occupied() <= self@.capacity() ==> b == (self@.occupied() == self@.capacity()),
    {
        proof {
            if self@.occupied() <= self@.capacity() {
                lemma_full_at_capacity(self@);
            }
        }
        self.count >= self.neighbors
    }

    /// The marbles of the cell: those at rest, then those that arrived, then
    /// those about to leave.
    pub fn marbles(&self) -> (r: Vec<Marble>)
        ensures
            r@ == self@.marbles(),
    {
        let mut r: Vec<Marble> = Vec::new();
        Self::collect(&self.residing, &mut r);
        Self::collect(&self.incoming, &mut r);
        Self::collect(&self.outgoing, &mut r);
        r
    }

    fn collect(slots: &[Option<Marble>; 4], into: &mut Vec<Marble>)
        ensures
            final(into)@ == old(into)@ + present(slots@),
    {
        let ghost start = into@;
        for d in 0..4usize
            invariant
                into@ == start + (if d > 0 {
                    held(slots@[0])
                } else {
                    Seq::empty()
                }) + (if d > 1 {
                    held(slots@[1])
                } else {
                    Seq::empty()
                }) + (if d > 2 {
                    held(slots@[2])
                } else {
                    Seq::empty()
                }) + (if d > 3 {
                    held(slots@[3])
                } else {
                    Seq::empty()
                }),
        {
            if let Some(m) = slots[d] {
                into.push(m);
            }
        }
    }

    /// Where a marble in a slot of direction `d` comes to rest.
    fn slot_target(&self, d: usize) -> (t: Point)
        requires
            valid_layout(self@.dim, self@.cellsize),
            in_grid(self@.coord, self@.dim),
            d < 4,
        ensures
            t == self@.target(d as int),
            on_board(t, self@.dim, self@.cellsize),
    {
        proof {
            lemma_target_on_board(self@, d as int);
        }
        let half: i32 = self.cellsize / 2;
        let quarter: i32 = self.cellsize / 4;
        let center = self.coord.scaled(self.cellsize).plus(Point::new(half, half));
        assert(dir_x(d as int) * quarter == quarter * dir_x(d as int)) by (nonlinear_arith);
        assert(dir_y(d as int) * quarter == quarter * dir_y(d as int)) by (nonlinear_arith);
        center.plus(direction(d).scaled(quarter))
    }

    /// Places a marble of `owner` in the cell, unless the cell belongs to
    /// another player or holds as many marbles as it has neighbours; in that
    /// case nothing changes.
    pub fn add_marble(&mut self, owner: Owner) -> (r: Result<(), PlaceError>)
        requires
            old(self).wf(),
            old(self)@.admits(owner),
        ensures
            final(self).wf(),
            old(self)@.rested() ==> final(self)@.rested(),
            r == old(self)@.verdict(owner),
            r is Err ==> *final(self) == *old(self),
            r is Ok ==> final(self)@ == old(self)@.with_marble(owner),
            r is Ok ==> final(self)@.occupied() == old(self)@.occupied() + 1,
            r is Ok ==> final(self)@.owner == Some(owner),
            r is Ok ==> forall|m: Marble|
                old(self)@.marbles().contains(m) ==> final(self)@.marbles().contains(m),
            r is Ok ==> forall|m: Marble|
                final(self)@.marbles().contains(m) ==> old(self)@.marbles().contains(m) || m == (
                Marble { pos: old(self)@.target(old(self)@.first_free()), owner }),
    {
        proof {
            if self@.verdict(owner) is Ok {
                lemma_with_marble(self@, owner);
            }
        }
        match self.owner {
            Some(o) => {
                if o != owner {
                    return Err(PlaceError::OwnershipConflict);
                }
            },
            None => {},
        }
        if self.count == self.neighbors {
            return Err(PlaceError::CellFull);
        }
        let ghost v0 = self@;
        let ghost d0 = v0.first_free();
        self.owner = Some(owner);
        self.count = self.count + 1;
        let ghost mid = *self;
        let mut d: usize = 0;
        while d < 4
            invariant_except_break
                d <= 4,
                forall|i: int| 0 <= i < d ==> !v0.free(i),
                *self == mid,
            invariant
                v0 == old(self)@,
                d0 == v0.first_free(),
                old(self).wf(),
                !v0.full(),
                mid@ == (CellView { owner: Some(owner), ..v0 }),
                mid.has_neighbor@ =~= v0.mask(),
            ensures
                0 <= d0 < 4,
                *self == (Cell { residing: self.residing, ..mid }),
                self.residing@ == v0.residing.update(
                    d0,
                    Some(Marble { pos: v0.target(d0), owner }),
                ),
                on_board(v0.target(d0), v0.dim, v0.cellsize),
            decreases 4 - d,
        {
            if self.has_neighbor[d] && self.residing[d].is_none() {
                assert(v0.free(d as int));
                let t = self.slot_target(d);
                assert(self@.target(d as int) == v0.target(d as int));
                self.residing[d] = Some(Marble { pos: t, owner });
                break ;
            }
            d = d + 1;
        }
        let ghost placed = self.residing@;
        if self.count >= self.neighbors {
            for d in 0..4usize
                invariant
                    *self == (Cell { residing: self.residing, outgoing: self.outgoing, ..mid }),
                    self.residing@ == Seq::new(
                        4,
                        |i: int|
                            if i < d {
                                None
                            } else {
                                placed[i]
                            },
                    ),
                    self.outgoing@ == Seq::new(
                        4,
                        |i: int|
                            if i < d && placed[i] is Some {
                                placed[i]
                            } else {
                                v0.outgoing[i]
                            },
                    ),
            {
                if let Some(m) = self.residing[d].take() {
                    self.outgoing[d] = Some(m);
                }
            }
            assert(self.residing@ =~= empty_slots());
            assert(self.outgoing@ =~= promoted(placed, v0.outgoing));
        }
        assert(self@ == v0.with_marble(owner));
        Ok(())
    }

    /// Takes out the marbles that were waiting to leave, one slot per
    /// direction. A cell left without marbles has no owner any more.
    pub fn send(&mut self) -> (sent: [Option<Marble>; 4])
        requires
            old(self).wf(),
        ensures
            final(self).wf(),
            final(self)@ == old(self)@.after_send(),
            sent@ == old(self)@.outgoing,
    {
        let ghost v0 = self@;
        let mut result: [Option<Marble>; 4] = [None;4];
        for idx in 0..4usize
            invariant
                *self == (Cell { outgoing: self.outgoing, count: self.count, ..*old(self) }),
                v0 == old(self)@,
                old(self).wf(),
                self.outgoing@ == Seq::new(
                    4,
                    |i: int|
                        if i < idx {
                            None
                        } else {
                            v0.outgoing[i]
                        },
                ),
                result@ == Seq::new(
                    4,
                    |i: int|
                        if i < idx {
                            v0.outgoing[i]
                        } else {
                            None
                        },
                ),
                self.count == filled(v0.residing) + filled(v0.incoming) + filled(self.outgoing@),
        {
            result[idx] = self.outgoing[idx].take();
            if result[idx].is_some() {
                self.count = self.count - 1;
            }
        }
        if self.count == 0 {
            self.owner = None;
        }
        assert(self.outgoing@ =~= empty_slots());
        assert(result@ =~= v0.outgoing);
        result
    }

    /// Takes in a marble that arrives from `direction`. The cell then
    /// belongs to the marble's owner.
    pub fn receive(&mut self, direction: usize, marble: Marble)
        requires
            old(self).wf(),
            direction < 4,
            old(self)@.has_neighbor(direction as int),
            old(self)@.incoming[direction as int] is None,
            on_board(marble.pos, old(self)@.dim, old(self)@.cellsize),
        ensures
            final(self).wf(),
            final(self)@ == old(self)@.after_receive(direction as int, marble),
    {
        self.owner = Some(marble.owner);
        self.incoming[direction] = Some(marble);
        self.count = self.count + 1;
    }

    /// Hands every marble of the cell to the cell's owner.
    pub fn commit(&mut self)
        requires
            old(self).wf(),
        ensures
            final(self).wf(),
            final(self)@ == old(self)@.committed(),
            old(self)@.rested() ==> final(self)@.rested(),
    {
        proof {
            lemma_committed(self@);
        }
        match self.owner {
            None => {},
            Some(owner) => {
                Self::claim(&mut self.residing, owner);
                Self::claim(&mut self.incoming, owner);
                Self::claim(&mut self.outgoing, owner);
            },
        }
    }

    fn claim(slots: &mut [Option<Marble>; 4], owner: Owner)
        ensures
            final(slots)@ == claimed(old(slots)@, owner),
    {
        for d in 0..4usize
            invariant
                slots@ == Seq::new(
                    4,
                    |i: int|
                        if i < d {
                            claimed(old(slots)@, owner)[i]
                        } else {
                            old(slots)@[i]
                        },
                ),
        {
            if let Some(m) = slots[d] {
                slots[d] = Some(Marble { pos: m.pos, owner });
            }
        }
        assert(slots@ =~= claimed(old(slots)@, owner));
    }

    /// Gives the marbles that have arrived their slots, once all cells have
    /// sent and received: see [`CellView::sorted`].
    pub fn sort_received(&mut self)
        requires
            old(self).wf(),
            old(self)@.outgoing == empty_slots(),
        ensures
            final(self).wf(),
            final(self)@.rested(),
            final(self)@ == old(self)@.sorted(),
            final(self)@.occupied() == old(self)@.occupied(),
            final(self)@.owner == old(self)@.owner,
            old(self)@.full() ==> forall|d: int|
                0 <= d < 4 && (#[trigger] old(self)@.incoming[d]) is Some ==> final(
                    self
                )@.outgoing[d] == old(self)@.incoming[d],
            !old(self)@.full() ==> forall|d: int|
                0 <= d < 4 && (#[trigger] old(self)@.incoming[d]) is Some && old(
                    self
                )@.residing[d] is None ==> final(self)@.residing[d] == old(self)@.incoming[d],
    {
        proof {
            lemma_sorted(self@);
            lemma_sorted_directions(self@);
        }
        let mut received = false;
        for d in 0..4usize
            invariant
                received == (one_if(d > 0 && self.incoming@[0] is Some) + one_if(
                    d > 1 && self.incoming@[1] is Some,
                ) + one_if(d > 2 && self.incoming@[2] is Some) + one_if(
                    d > 3 && self.incoming@[3] is Some,
                ) > 0),
        {
            if self.incoming[d].is_some() {
                received = true;
            }
        }
        if !received {
            return ;
        }
        if self.count >= self.neighbors {
            let ghost arrived = self.incoming@;
            for d in 0..4usize
                invariant
                    *self == (Cell {
                        incoming: self.incoming,
                        outgoing: self.outgoing,
                        ..*old(self)
                    }),
                    arrived == old(self)@.incoming,
                    self.incoming@ == Seq::new(
                        4,
                        |i: int|
                            if i < d {
                                None
                            } else {
                                arrived[i]
                            },
                    ),
                    self.outgoing@ == Seq::new(
                        4,
                        |i: int|
                            if i < d {
                                arrived[i]
                            } else {
                                None
                            },
                    ),
            {
                self.outgoing[d] = self.incoming[d].take();
            }
            assert(self.incoming@ =~= empty_slots());
            assert(self.outgoing@ =~= arrived);
            Self::settle_slots(&mut self.outgoing, &mut self.residing, &self.has_neighbor);
        } else {
            Self::settle_slots(&mut self.residing, &mut self.incoming, &self.has_neighbor);
        }
    }

    /// The offset tried in round `r` of settling.
    fn rotation(r: usize) -> (o: usize)
        requires
            r < 4,
        ensures
            o == rotation_of(r as int),
    {
        if r == 0 {
            0
        } else if r == 1 {
            1
        } else if r == 2 {
            3
        } else {
            2
        }
    }

    /// Moves marbles from `src` into the free slots of `dest` that lie
    /// towards a neighbour: see [`settle`].
    fn settle_slots(
        dest: &mut [Option<Marble>; 4],
        src: &mut [Option<Marble>; 4],
        mask: &[bool; 4],
    )
        ensures
            (final(dest)@, final(src)@) == settle(old(dest)@, old(src)@, mask@, 16),
    {
        for r in 0..4usize
            invariant
                (dest@, src@) == settle(old(dest)@, old(src)@, mask@, (4 * r) as nat),
        {
            let rot = Self::rotation(r);
            for d in 0..4usize
                invariant
                    r < 4,
                    rot == rotation_of(r as int),
                    (dest@, src@) == settle(old(dest)@, old(src)@, mask@, (4 * r + d) as nat),
            {
                let ghost k = (4 * r + d + 1) as nat;
                assert((k - 1) % 4 == d && (k - 1) / 4 == r);
                if mask[d] && dest[d].is_none() {
                    dest[d] = src[(d + rot) % 4].take();
                }
                assert((dest@, src@) == settle(old(dest)@, old(src)@, mask@, k));
            }
        }
    }

    /// Moves every marble of the cell one animation step towards the
    /// target of its slot, with `steps` steps still to follow.
    pub fn step(&mut self, steps: i32)
        requires
            old(self).wf(),
            0 <= steps <= TOTAL_STEPS,
        ensures
            final(self).wf(),
            final(self)@ == old(self)@.stepped(steps as int),
            old(self)@.rested() ==> final(self)@.rested(),
    {
        let ghost v0 = self@;
        proof {
            lemma_stepped(v0, steps as int);
        }
        for direction in 0..4usize
            invariant
                *self == (Cell {
                    residing: self.residing,
                    incoming: self.incoming,
                    outgoing: self.outgoing,
                    ..*old(self)
                }),
                v0 == old(self)@,
                v0.wf(),
                0 <= steps <= TOTAL_STEPS,
                self.residing@ == Self::partly(v0, v0.residing, steps as int, direction as int),
                self.incoming@ == Self::partly(v0, v0.incoming, steps as int, direction as int),
                self.outgoing@ == Self::partly(v0, v0.outgoing, steps as int, direction as int),
        {
            let target = self.slot_target(direction);
            assert(target == v0.target(direction as int));
            Self::advance(&mut self.residing, direction, target, steps, Ghost(v0));
            Self::advance(&mut self.incoming, direction, target, steps, Ghost(v0));
            Self::advance(&mut self.outgoing, direction, target, steps, Ghost(v0));
        }
        assert(self.residing@ =~= v0.moved(v0.residing, steps as int));
        assert(self.incoming@ =~= v0.moved(v0.incoming, steps as int));
        assert(self.outgoing@ =~= v0.moved(v0.outgoing, steps as int));
    }

    /// The slots `s` of the cell `v` in the middle of an animation step:
    /// the marbles in the directions below `upto` have moved.
    spec fn partly(v: CellView, s: Seq<Option<Marble>>, steps: int, upto: int) -> Seq<
        Option<Marble>,
    > {
        Seq::new(
            4,
            |i: int|
                if i < upto {
                    v.moved(s, steps)[i]
                } else {
                    s[i]
                },
        )
    }

    /// Moves the marble in slot `d`, if there is one, a step towards
    /// `target`.
    fn advance(
        slots: &mut [Option<Marble>; 4],
        d: usize,
        target: Point,
        steps: i32,
        Ghost(v): Ghost<CellView>,
    )
        requires
            d < 4,
            0 <= steps <= TOTAL_STEPS,
            valid_layout(v.dim, v.cellsize),
            in_grid(v.coord, v.dim),
            target == v.target(d as int),
            old(slots)@[d as int] matches Some(m) ==> on_board(m.pos, v.dim, v.cellsize),
        ensures
            final(slots)@ == old(slots)@.update(
                d as int,
                v.moved(old(slots)@, steps as int)[d as int],
            ),
    {
        if let Some(m) = slots[d] {
            let mut marble = m;
            proof {
                lemma_target_on_board(v, d as int);
                let (ex, ey) = (v.dim.x * v.cellsize, v.dim.y * v.cellsize);
                let (ax, ay) = (m.pos.x - target.x, m.pos.y - target.y);
                assert(-ex <= ax <= ex && -ey <= ay <= ey);
                assert(fits_i32(ax * steps) && fits_i32(ay * steps)) by (nonlinear_arith)
                    requires
                        -ex <= ax <= ex,
                        -ey <= ay <= ey,
                        0 <= steps <= 15,
                        15 * ex <= i32::MAX,
                        15 * ey <= i32::MAX,
                ;
            }
            marble.step(target, steps);
            slots[d] = Some(marble);
        }
        assert(slots@ =~= old(slots)@.update(
            d as int,
            v.moved(old(slots)@, steps as int)[d as int],
        ));
    }
}

} // verus!
