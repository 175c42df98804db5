//! The players, the states of the simulation, and the game that holds them
//! together: whose turn it is, where the cursor stands, and what a click or
//! an animation step does.

use crate::cell::lemma_rested_counts;
use crate::geometry::{flat_index, in_grid, lemma_flat_index, Point};
use crate::grid::{lemma_grid_stepped, lemma_grid_with_marble, Grid, GridView};
use crate::marble::{Owner, TOTAL_STEPS};
use crate::menu::{Color, Config};
use crate::spread::{lemma_spread_keeps, lemma_spread_owners, lemma_spread_quiet};
use vstd::prelude::*;

verus! {

/// A player: once the first marble is placed the player has started; a
/// player who has started and owns no cell is no longer alive.
#[derive(Clone, Copy, Debug, PartialEq, Eq, Structural)]
pub struct Player {
    pub started: bool,
    pub alive: bool,
    pub color: Color,
}

impl Player {
    /// A player who has not started yet.
    pub fn new(color: Color) -> (p: Player)
        ensures
            p == (Player { started: false, alive: true, color }),
    {
        Player { started: false, alive: true, color }
    }

    /// The colour of the player's marbles.
    pub fn color(&self) -> (c: Color)
        ensures
            c == self.color,
    {
        self.color
    }
}

/// What the simulation is doing.
#[derive(Clone, Copy, Debug, PartialEq, Eq, Structural)]
pub enum State {
    /// Nothing moves; a marble can be placed.
    AcceptingInput,
    /// Marbles are moving to their slots, with this many animation steps
    /// still to follow the next one.
    Animating(i32),
}

/// What a pressed key means to the game.
#[derive(Clone, Copy, Debug, PartialEq, Eq, Structural)]
pub enum Key {
    /// Move the cursor a column on.
    Right,
    /// Move the cursor a column back.
    Left,
    /// Move the cursor a row on.
    Down,
    /// Move the cursor a row back.
    Up,
    /// Place a marble where the cursor stands.
    Return,
    /// Any other key: nothing happens.
    Other,
}

/// The seat that follows `seat` at a table of `n` seats.
pub open spec fn seat_after(seat: int, n: int) -> int {
    (seat + 1) % n
}

/// The first player alive among the `left` players that follow the seat
/// `seat` around the table; `fallback` if none of them is.
pub open spec fn first_alive(players: Seq<Player>, seat: int, left: nat, fallback: int) -> int
    decreases left,
{
    if left == 0 {
        fallback
    } else {
        let next = seat_after(seat, players.len() as int);
        if players[next].alive {
            next
        } else {
            first_alive(players, next, (left - 1) as nat, fallback)
        }
    }
}

/// Whose turn follows that of the player at seat `cur`: the first player
/// alive after that seat, going once around the table and ending at `cur`
/// itself. If nobody is alive, the turn stays where it is.
pub open spec fn next_alive(players: Seq<Player>, cur: int) -> int {
    first_alive(players, cur, players.len(), cur)
}

/// How far `first_alive` looks: it passes over players who are out and
/// stops at the first player alive. The distance `k` that comes back is that
/// of the player found; it is `left + 1` if none of the players looked at is
/// alive, and then the fallback is the result.
pub proof fn lemma_first_alive(players: Seq<Player>, seat: int, left: nat, fallback: int) -> (k:
    int)
    requires
        0 <= seat < players.len(),
        0 <= fallback < players.len(),
    ensures
        1 <= k <= left + 1,
        forall|j: int|
            1 <= j < k ==> !(#[trigger] players[(seat + j) % (players.len() as int)]).alive,
        k <= left ==> first_alive(players, seat, left, fallback) == (seat + k) % (
        players.len() as int) && players[first_alive(players, seat, left, fallback)].alive,
        k == left + 1 ==> first_alive(players, seat, left, fallback) == fallback,
        0 <= first_alive(players, seat, left, fallback) < players.len(),
    decreases left,
{
    let n = players.len() as int;
    if left == 0 {
        1
    } else {
        let next = seat_after(seat, n);
        if players[next].alive {
            1
        } else {
            let far = lemma_first_alive(players, next, (left - 1) as nat, fallback);
            assert forall|j: int| 1 <= j < far + 1 implies !(#[trigger] players[(seat + j)
                % n]).alive by {
                if j > 1 {
                    vstd::arithmetic::div_mod::lemma_add_mod_noop_right(j - 1, seat + 1, n);
                    assert(!players[(next + (j - 1)) % n].alive);
                }
            }
            vstd::arithmetic::div_mod::lemma_add_mod_noop_right(far, seat + 1, n);
            far + 1
        }
    }
}

/// The turn passes to a player of the game, and to one who is alive if
/// anyone is.
pub proof fn lemma_next_alive(players: Seq<Player>, cur: int)
    requires
        0 <= cur < players.len(),
    ensures
        0 <= next_alive(players, cur) < players.len(),
        (exists|a: int| 0 <= a < players.len() && players[a].alive) ==> players[next_alive(
            players,
            cur,
        )].alive,
{
    let n = players.len() as int;
    let k = lemma_first_alive(players, cur, players.len(), cur);
    if k == n + 1 && exists|a: int| 0 <= a < players.len() && players[a].alive {
        let a = choose|a: int| 0 <= a < players.len() && players[a].alive;
        let j = if a > cur {
            a - cur
        } else {
            a - cur + n
        };
        vstd::arithmetic::div_mod::lemma_small_mod(a as nat, n as nat);
        vstd::arithmetic::div_mod::lemma_mod_add_multiples_vanish(a, n);
        assert(!players[(cur + j) % n].alive);
    }
}

/// What a game is, apart from how it is stored.
#[verifier::ext_equal]
pub struct GameView {
    /// The players, in the order of their turns.
    pub players: Seq<Player>,
    /// What the simulation is doing.
    pub state: State,
    /// The player whose turn it is.
    pub cur_player: Owner,
    /// Where the cursor stands.
    pub selected: Point,
    /// The board.
    pub grid: GridView,
}

impl GameView {
    /// A game before the first move.
    pub open spec fn fresh(config: Config) -> GameView {
        GameView {
            players: config.players@,
            state: State::AcceptingInput,
            cur_player: 0,
            selected: Point { x: 0, y: 0 },
            grid: GridView::fresh(config.size, config.cellsize),
        }
    }

    /// What holds of a game between two calls: the board is consistent and
    /// every cell on it is owned by a player of the game, no marble is
    /// waiting to leave its cell while input is awaited, the players can be
    /// numbered by a `usize`, the turn is a player's, the cursor stands on
    /// the board, and an animation has no more steps left than it starts
    /// with.
    pub open spec fn wf(self) -> bool {
        &&& self.grid.wf()
        &&& self.grid.owners_below(self.players.len())
        &&& self.state == State::AcceptingInput ==> !self.grid.unsettled()
        &&& self.players.len() <= usize::MAX
        &&& self.players.len() > 0 ==> self.cur_player < self.players.len()
        &&& self.grid.dim.x > 0 ==> 0 <= self.selected.x < self.grid.dim.x
        &&& self.grid.dim.y > 0 ==> 0 <= self.selected.y < self.grid.dim.y
        &&& self.state matches State::Animating(steps) ==> 0 <= steps <= TOTAL_STEPS
    }

    /// Whether a player is alive.
    pub open spec fn someone_alive(self) -> bool {
        exists|k: int| 0 <= k < self.players.len() && self.players[k].alive
    }

    /// Whether it is the turn of a player who is alive.
    pub open spec fn turn_of_living(self) -> bool {
        self.cur_player < self.players.len() && self.players[self.cur_player as int].alive
    }

    /// While input is awaited, the turn passes to the next player alive;
    /// during an animation it stays.
    pub open spec fn turn_passed(self) -> GameView {
        match self.state {
            State::AcceptingInput => GameView {
                cur_player: next_alive(self.players, self.cur_player as int) as Owner,
                ..self
            },
            State::Animating(_) => self,
        }
    }

    /// The game when the player whose turn it is has placed a marble in the
    /// cell `p` and the turn has not passed on yet: the cursor stands on the
    /// cell, the player has started, and the board and the state follow the
    /// placement.
    pub open spec fn placed(self, p: Point) -> GameView {
        let cur = self.cur_player;
        GameView {
            players: self.players.update(
                cur as int,
                Player { started: true, ..self.players[cur as int] },
            ),
            grid: self.grid.after_placing(p, cur),
            state: self.grid.state_after_placing(p, cur),
            selected: p,
            ..self
        }
    }

    /// The game after a click on the cell `p`. The cursor moves there.
    /// During an animation nothing else happens. Else the player whose turn
    /// it is has started and places a marble in the cell; if the cell takes
    /// it, the board and the state follow, and the turn passes on. If the
    /// cell refuses it, the same player may try again.
    pub open spec fn clicked(self, p: Point) -> GameView {
        let moved = GameView { selected: p, ..self };
        match self.state {
            State::Animating(_) => moved,
            State::AcceptingInput => {
                let cur = self.cur_player;
                let players = self.players.update(
                    cur as int,
                    Player { started: true, ..self.players[cur as int] },
                );
                match self.grid.cell(p).verdict(cur) {
                    Err(_) => GameView { players, ..moved },
                    Ok(_) => self.placed(p).turn_passed(),
                }
            },
        }
    }

    /// How the players stand once `grid` has been looked over.
    pub open spec fn judged(self, grid: GridView) -> Seq<Player> {
        Seq::new(self.players.len(), |k: int| grid.judged(k as Owner, self.players[k]))
    }

    /// The game after one animation step. While input is awaited nothing
    /// happens. Else the board makes its step, the players are marked by
    /// the cells they own, and if the board has settled the turn passes on.
    pub open spec fn stepped(self) -> GameView {
        match self.state {
            State::AcceptingInput => self,
            State::Animating(_) => self.advanced().turn_passed(),
        }
    }

    /// The game when the board has made its animation step and the players
    /// have been marked, and the turn has not passed on yet.
    pub open spec fn advanced(self) -> GameView {
        let grid = self.grid.after_step(self.state);
        GameView {
            players: self.judged(grid),
            state: self.grid.state_after_step(self.state),
            grid,
            ..self
        }
    }

    /// The game after a key has been pressed: the cursor moves by one cell,
    /// around the edges of the board, or a marble is placed where it stands.
    pub open spec fn key_pressed(self, key: Key) -> GameView {
        let dim = self.grid.dim;
        let at = self.selected;
        match key {
            Key::Right => GameView {
                selected: Point { x: ((at.x + 1) % (dim.x as int)) as i32, y: at.y },
                ..self
            },
            Key::Left => GameView {
                selected: Point { x: ((at.x + dim.x - 1) % (dim.x as int)) as i32, y: at.y },
                ..self
            },
            Key::Down => GameView {
                selected: Point { x: at.x, y: ((at.y + 1) % (dim.y as int)) as i32 },
                ..self
            },
            Key::Up => GameView {
                selected: Point { x: at.x, y: ((at.y + dim.y - 1) % (dim.y as int)) as i32 },
                ..self
            },
            Key::Return => self.clicked(at),
            Key::Other => self,
        }
    }

    /// The cell under the pixel `(x, y)` of the board, if there is one.
    pub open spec fn cell_under(self, x: i32, y: i32) -> Option<Point> {
        let size = self.grid.cellsize;
        if size > 0 && x >= 0 && y >= 0 && x / size < self.grid.dim.x && y / size
            < self.grid.dim.y {
            Some(Point { x: (x / size) as i32, y: (y / size) as i32 })
        } else {
            None
        }
    }

    /// Whether the board is large enough for `key`: the cursor cannot move
    /// along a side without cells, and a marble cannot be placed on a board
    /// without cells.
    pub open spec fn accepts(self, key: Key) -> bool {
        match key {
            Key::Right | Key::Left => self.grid.dim.x > 0,
            Key::Down | Key::Up => self.grid.dim.y > 0,
            Key::Return => self.grid.dim.x > 0 && self.grid.dim.y > 0 && self.players.len() > 0,
            Key::Other => true,
        }
    }
}

/// As long as a player is alive, the turn never passes to a player who is
/// out.
pub proof fn lemma_turn_passes_to_the_living(v: GameView)
    requires
        v.wf(),
        v.state == State::AcceptingInput,
        v.someone_alive(),
    ensures
        v.turn_passed().turn_of_living(),
{
    lemma_next_alive(v.players, v.cur_player as int);
}

/// Passing the turn leaves a game consistent.
pub proof fn lemma_turn_passed_wf(v: GameView)
    requires
        v.wf(),
    ensures
        v.turn_passed().wf(),
{
    if v.players.len() > 0 {
        lemma_next_alive(v.players, v.cur_player as int);
    }
}

/// While input is awaited, every cell of the board may be asked to take a
/// marble by anyone.
pub proof fn lemma_cells_admit(v: GameView, p: Point, owner: Owner)
    requires
        v.wf(),
        v.state == State::AcceptingInput,
        in_grid(p, v.grid.dim),
    ensures
        v.grid.cell(p).admits(owner),
        v.grid.cell(p).occupied() <= v.grid.cell(p).capacity(),
{
    lemma_flat_index(p, v.grid.dim);
    let i = flat_index(p, v.grid.dim);
    assert(v.grid.cell_ok(i));
    assert(!v.grid.cells[i].loaded());
    lemma_rested_counts(v.grid.cells[i]);
}

/// A marble placed by the player whose turn it is, in a cell that takes
/// it, leaves a game consistent.
pub proof fn lemma_placed_wf(v: GameView, p: Point)
    requires
        v.wf(),
        v.state == State::AcceptingInput,
        in_grid(p, v.grid.dim),
        v.players.len() > 0,
        v.grid.cell(p).verdict(v.cur_player) is Ok,
    ensures
        v.placed(p).wf(),
{
    let cur = v.cur_player;
    let placed = v.grid.with_marble(p, cur);
    lemma_cells_admit(v, p, cur);
    lemma_grid_with_marble(v.grid, p, cur);
    lemma_spread_keeps(placed);
    lemma_spread_owners(placed, v.players.len());
}

/// An animation step of the board, with the players marked after it,
/// leaves a game consistent.
pub proof fn lemma_advanced_wf(v: GameView)
    requires
        v.wf(),
        v.state is Animating,
    ensures
        v.advanced().wf(),
{
    if let State::Animating(steps) = v.state {
        lemma_grid_stepped(v.grid, steps as int);
        if steps == 0 {
            lemma_spread_keeps(v.grid.stepped(0));
            lemma_spread_owners(v.grid.stepped(0), v.players.len());
            if !v.grid.stepped(0).unsettled() {
                lemma_spread_quiet(v.grid.stepped(0));
            }
        }
    }
}

/// The game: the players, the board, whose turn it is and where the cursor
/// stands.
pub struct Game {
    players: Vec<Player>,
    state: State,
    cur_player: Owner,
    selected: Point,
    grid: Grid,
}

impl View for Game {
    type V = GameView;

    closed spec fn view(&self) -> GameView {
        GameView {
            players: self.players@,
            state: self.state,
            cur_player: self.cur_player,
            selected: self.selected,
            grid: self.grid@,
        }
    }
}

impl Game {
    /// The board keeps its own counts right.
    pub closed spec fn inv(&self) -> bool {
        self.grid.inv()
    }

    /// The game is consistent.
    pub open spec fn wf(&self) -> bool {
        self.inv() && self@.wf()
    }

    /// The players, in the order of their turns.
    pub fn players(&self) -> (p: &Vec<Player>)
        ensures
            p@ == self@.players,
    {
        &self.players
    }

    /// Number of players, in or out.
    pub fn num_players(&self) -> (n: usize)
        ensures
            n == self@.players.len(),
    {
        self.players.len()
    }

    /// The player whose turn it is.
    pub fn cur_player(&self) -> (o: Owner)
        ensures
            o == self@.cur_player,
    {
        self.cur_player
    }

    /// The board.
    pub fn grid(&self) -> (g: &Grid)
        ensures
            g@ == self@.grid,
            self.wf() ==> g.wf(),
    {
        &self.grid
    }

    /// Where the cursor stands.
    pub fn selected(&self) -> (p: Point)
        ensures
            p == self@.selected,
    {
        self.selected
    }

    /// Columns and rows of the board.
    pub fn dim(&self) -> (d: Point)
        ensures
            d == self@.grid.dim,
    {
        self.grid.dim()
    }

    /// Width and height of a cell in pixels.
    pub fn cellsize(&self) -> (c: i32)
        ensures
            c == self@.grid.cellsize,
    {
        self.grid.cellsize()
    }

    /// What the simulation is doing.
    pub fn state(&self) -> (s: State)
        ensures
            s == self@.state,
    {
        self.state
    }

    /// The cell under the pixel `(x, y)` of the board, if there is one.
    pub fn cell_at(&self, x: i32, y: i32) -> (p: Option<Point>)
        requires
            self.wf(),
        ensures
            p == self@.cell_under(x, y),
            p matches Some(q) ==> in_grid(q, self@.grid.dim),
    {
        let size = self.grid.cellsize();
        let dim = self.grid.dim();
        if size <= 0 || x < 0 || y < 0 {
            return None;
        }
        let q = Point::new(x / size, y / size);
        if q.x < dim.x && q.y < dim.y {
            Some(q)
        } else {
            None
        }
    }

    /// A game before the first move, set up as `config` says.
    pub fn new(config: Config) -> (game: Game)
        requires
            Grid::buildable(config.size, config.cellsize),
        ensures
            game.wf(),
            game@ == GameView::fresh(config),
    {
        assert(config.players@.len() == config.players.len());
        Game {
            players: config.players,
            cur_player: 0,
            state: State::AcceptingInput,
            grid: Grid::new(config.size, config.cellsize),
            selected: Point::new(0, 0),
        }
    }

    /// What a pressed key does: see [`GameView::key_pressed`].
    pub fn keydown(&mut self, key: Key)
        requires
            old(self).wf(),
            old(self)@.accepts(key),
        ensures
            final(self).wf(),
            final(self)@ == old(self)@.key_pressed(key),
    {
        let dim = self.grid.dim();
        match key {
            Key::Right => {
                self.selected.x = (self.selected.x + 1) % dim.x;
            },
            Key::Left => {
                proof {
                    let (x, w) = (self.selected.x as int, dim.x as int);
                    if x == 0 {
                        vstd::arithmetic::div_mod::lemma_small_mod((w - 1) as nat, w as nat);
                    } else {
                        vstd::arithmetic::div_mod::lemma_mod_add_multiples_vanish(x - 1, w);
                        vstd::arithmetic::div_mod::lemma_small_mod((x - 1) as nat, w as nat);
                    }
                }
                self.selected.x = if self.selected.x == 0 {
                    dim.x - 1
                } else {
                    self.selected.x - 1
                };
            },
            Key::Down => {
                self.selected.y = (self.selected.y + 1) % dim.y;
            },
            Key::Up => {
                proof {
                    let (y, h) = (self.selected.y as int, dim.y as int);
                    if y == 0 {
                        vstd::arithmetic::div_mod::lemma_small_mod((h - 1) as nat, h as nat);
                    } else {
                        vstd::arithmetic::div_mod::lemma_mod_add_multiples_vanish(y - 1, h);
                        vstd::arithmetic::div_mod::lemma_small_mod((y - 1) as nat, h as nat);
                    }
                }
                self.selected.y = if self.selected.y == 0 {
                    dim.y - 1
                } else {
                    self.selected.y - 1
                };
            },
            Key::Return => {
                self.click(self.selected);
            },
            Key::Other => {},
        }
    }

    /// What a click on the cell `p` does: see [`GameView::clicked`].
    pub fn click(&mut self, p: Point)
        requires
            old(self).wf(),
            in_grid(p, old(self)@.grid.dim),
            old(self)@.players.len() > 0,
        ensures
            final(self).wf(),
            final(self)@ == old(self)@.clicked(p),
    {
        self.selected = p;
        match self.state {
            State::AcceptingInput => {},
            State::Animating(_) => {
                return ;
            },
        }
        let cur_player = self.cur_player;
        let ghost before = self@;
        self.players[cur_player].started = true;
        assert(self.players@ =~= before.players.update(
            cur_player as int,
            Player { started: true, ..before.players[cur_player as int] },
        ));
        proof {
            lemma_cells_admit(before, p, cur_player);
            if before.grid.cell(p).verdict(cur_player) is Ok {
                lemma_placed_wf(before, p);
            }
        }
        match self.grid.add_marble(p, cur_player) {
            Ok(state) => {
                self.state = state;
                self.next_player_if_accepting();
            },
            Err(_) => {},
        }
    }

    /// What an animation step does: see [`GameView::stepped`].
    pub fn step(&mut self)
        requires
            old(self).wf(),
        ensures
            final(self).wf(),
            final(self)@ == old(self)@.stepped(),
    {
        match self.state {
            State::AcceptingInput => {},
            State::Animating(steps) => {
                let ghost before = self@;
                proof {
                    lemma_grid_stepped(before.grid, steps as int);
                    lemma_advanced_wf(before);
                }
                let count = self.players.len();
                self.state = self.grid.step(self.state);
                self.grid.check_players(&mut self.players);
                proof {
                    assert forall|k: int| 0 <= k < count implies #[trigger] self.players@[k]
                        == before.judged(self.grid@)[k] by {
                        let o = k as Owner;
                        assert(self.players@[o as int] == self.grid@.judged(
                            o,
                            before.players[o as int],
                        ));
                    }
                    assert(self.players@ =~= before.judged(self.grid@));
                }
                self.next_player_if_accepting();
            },
        }
    }

    /// Passes the turn to the next player alive, if input is awaited: see
    /// [`GameView::turn_passed`]. As long as a player is alive, the turn
    /// goes to a player who is.
    pub fn next_player_if_accepting(&mut self)
        requires
            old(self).wf(),
        ensures
            final(self).wf(),
            final(self)@ == old(self)@.turn_passed(),
            old(self)@.state == State::AcceptingInput && old(self)@.someone_alive() ==> final(
                self
            )@.turn_of_living(),
    {
        proof {
            lemma_turn_passed_wf(self@);
            if self@.state == State::AcceptingInput && self@.someone_alive() {
                lemma_turn_passes_to_the_living(self@);
            }
        }
        match self.state {
            State::AcceptingInput => {
                let n = self.players.len();
                if n == 0 {
                    return ;
                }
                let ghost cur = self.cur_player as int;
                let mut seat = self.cur_player;
                let mut tried: usize = 0;
                proof {
                    lemma_next_alive(self.players@, cur);
                }
                while tried < n
                    invariant
                        n == self.players@.len(),
                        0 <= tried <= n,
                        0 <= seat < n,
                        0 <= cur < n,
                        cur == old(self).cur_player,
                        old(self).wf(),
                        old(self).state == State::AcceptingInput,
                        *self == *old(self),
                        first_alive(self.players@, seat as int, (n - tried) as nat, cur)
                            == next_alive(self.players@, cur),
                    decreases n - tried,
                {
                    let ghost from = seat as int;
                    seat = (seat + 1) % n;
                    assert(seat == seat_after(from, n as int));
                    assert(first_alive(self.players@, from, (n - tried) as nat, cur)
                        == if self.players@[seat as int].alive {
                        seat as int
                    } else {
                        first_alive(self.players@, seat as int, (n - tried - 1) as nat, cur)
                    });
                    if self.players[seat].alive {
                        self.cur_player = seat;
                        return ;
                    }
                    tried = tried + 1;
                }
            },
            State::Animating(_) => {},
        }
    }
}

} // verus!
