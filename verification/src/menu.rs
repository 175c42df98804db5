//! What a game is set up with: the players' colours, the size of the board
//! and the pixel size of a cell.

use crate::game::Player;
use crate::geometry::Point;
use crate::grid::Grid;
use vstd::prelude::*;

verus! {

/// A colour by its red, green, blue and alpha parts.
#[derive(Clone, Copy, Debug, PartialEq, Eq, Structural)]
pub struct Color {
    pub r: u8,
    pub g: u8,
    pub b: u8,
    pub a: u8,
}

impl Color {
    /// The opaque colour with the given red, green and blue parts.
    pub open spec fn opaque(r: int, g: int, b: int) -> Color {
        Color { r: r as u8, g: g as u8, b: b as u8, a: 255 }
    }

    /// The opaque colour with the given red, green and blue parts.
    pub fn rgb(r: u8, g: u8, b: u8) -> (c: Color)
        ensures
            c == Color::opaque(r as int, g as int, b as int),
    {
        Color { r, g, b, a: 255 }
    }
}

/// The colour at `(x, y)` of the square from which players pick: red, yellow
/// and green along the upper edge, magenta, blue and cyan along the lower
/// edge, black in the middle. The square falls into six parts, three left of
/// the middle and three right of it, in each of which two of the three parts
/// of the colour change with `x` and `y` and the third is zero.
pub open spec fn picked(x: int, y: int) -> Color {
    if x < 128 {
        if y <= x {
            Color::opaque(255 - 2 * y, 2 * (x - y), 0)
        } else if y >= 255 - x {
            Color::opaque(255 - 2 * x, 0, 2 * (y - 128))
        } else {
            Color::opaque(255 - 2 * x, 0, y - x)
        }
    } else {
        if y <= 255 - x {
            Color::opaque(2 * (255 - x - y), 255 - 2 * y, 0)
        } else if y >= x {
            Color::opaque(0, 2 * (x - 128), 2 * (y - 128))
        } else {
            Color::opaque(0, 2 * (x - 128), y - (255 - x))
        }
    }
}

/// The colour at `(x, y)` of the square from which players pick.
pub fn color(x: u8, y: u8) -> (c: Color)
    ensures
        c == picked(x as int, y as int),
        c.a == 255,
{
    if x < 128 {
        if y <= x {
            Color::rgb(255 - 2 * y, 2 * (x - y), 0)
        } else if y >= 255 - x {
            Color::rgb(255 - 2 * x, 0, 2 * (y - 128))
        } else {
            Color::rgb(255 - 2 * x, 0, y - x)
        }
    } else {
        if y <= 255 - x {
            Color::rgb(2 * (255 - x - y), 255 - 2 * y, 0)
        } else if y >= x {
            Color::rgb(0, 2 * (x - 128), 2 * (y - 128))
        } else {
            Color::rgb(0, 2 * (x - 128), y - (255 - x))
        }
    }
}

/// What a game is set up with.
pub struct Config {
    /// The players, in the order of their turns.
    pub players: Vec<Player>,
    /// Columns and rows of the board.
    pub size: Point,
    /// Width and height of a cell in pixels.
    pub cellsize: i32,
}

/// Pixel size of a cell in a game set up by the menu.
pub const CELL_SIZE: i32 = 100;

/// The largest number of columns or rows that the menu offers.
pub const MAX_SIZE: i32 = 9;

/// Left edge of the colour square on the menu screen, in pixels. The square
/// shows each colour of [`picked`] on two by two pixels.
pub const SQUARE_LEFT: u32 = 50;

/// Width and height of the colour square on the menu screen.
pub const SQUARE_SIDE: u32 = 512;

/// Left edge of the sketch of the board on the menu screen.
pub const SKETCH_LEFT: u32 = 600;

/// Upper edge of the sketch of the board on the menu screen.
pub const SKETCH_TOP: u32 = 320;

/// Width and height of a cell of the sketch of the board.
pub const SKETCH_CELL: u32 = 50;

/// Upper edge of the colour square on a screen `height` pixels high: the
/// square stands in the middle.
pub open spec fn square_top(height: int) -> int {
    (height - SQUARE_SIDE) / 2
}

/// The colour under the pointer at `(x, y)` on a screen `height` pixels
/// high, if the pointer is on the colour square.
pub open spec fn pointed_color(x: int, y: int, height: int) -> Option<Color> {
    let top = square_top(height);
    if SQUARE_LEFT <= x < SQUARE_LEFT + SQUARE_SIDE && top <= y < top + SQUARE_SIDE {
        Some(picked((x - SQUARE_LEFT) / 2, (y - top) / 2))
    } else {
        None
    }
}

/// The number of columns, or of rows, that a click `offset` pixels into the
/// sketch of the board asks for.
pub open spec fn asked_size(offset: int) -> int {
    if offset / (SKETCH_CELL as int) > MAX_SIZE {
        MAX_SIZE as int
    } else {
        offset / (SKETCH_CELL as int)
    }
}

/// What the menu is, apart from how it is stored.
#[verifier::ext_equal]
pub struct MenuView {
    /// The players chosen so far.
    pub players: Seq<Player>,
    /// Columns and rows chosen for the board.
    pub size: Point,
    /// Where the pointer is.
    pub pointer: (u32, u32),
    /// The colour a click would give the next player, if any.
    pub next_color: Option<Color>,
}

impl MenuView {
    /// The menu as it opens: no players, and a board of eight by six.
    pub open spec fn initial() -> MenuView {
        MenuView {
            players: Seq::empty(),
            size: Point { x: 8, y: 6 },
            pointer: (0, 0),
            next_color: None,
        }
    }

    /// The size of the board is one that the menu offers.
    pub open spec fn wf(self) -> bool {
        0 <= self.size.x <= MAX_SIZE && 0 <= self.size.y <= MAX_SIZE
    }

    /// The menu after the pointer has moved to `(x, y)` on a screen `height`
    /// pixels high.
    pub open spec fn pointed(self, x: u32, y: u32, height: u32) -> MenuView {
        MenuView {
            pointer: (x, y),
            next_color: pointed_color(x as int, y as int, height as int),
            ..self
        }
    }

    /// The menu after a click. On the colour square the click adds a player
    /// of the colour under the pointer. Right of and below the corner of
    /// the sketch of the board it sets the size of the board.
    pub open spec fn pressed(self) -> MenuView {
        let players = match self.next_color {
            Some(c) => self.players.push(Player { started: false, alive: true, color: c }),
            None => self.players,
        };
        let size = if self.pointer.0 > SKETCH_LEFT && self.pointer.1 > SKETCH_TOP {
            Point {
                x: asked_size(self.pointer.0 - SKETCH_LEFT) as i32,
                y: asked_size(self.pointer.1 - SKETCH_TOP) as i32,
            }
        } else {
            self.size
        };
        MenuView { players, size, ..self }
    }

    /// The menu after the player chosen last has been taken back.
    pub open spec fn unchosen(self) -> MenuView {
        if self.players.len() > 0 {
            MenuView { players: self.players.drop_last(), ..self }
        } else {
            self
        }
    }
}

/// The menu in which the players and the size of the board are chosen.
pub struct Menu {
    players: Vec<Player>,
    size: Point,
    pointer: (u32, u32),
    next_color: Option<Color>,
}

impl View for Menu {
    type V = MenuView;

    closed spec fn view(&self) -> MenuView {
        MenuView {
            players: self.players@,
            size: self.size,
            pointer: self.pointer,
            next_color: self.next_color,
        }
    }
}

impl Menu {
    /// The menu as it opens.
    pub fn new() -> (m: Menu)
        ensures
            m@ == MenuView::initial(),
            m@.wf(),
    {
        Menu { players: Vec::new(), size: Point::new(8, 6), pointer: (0, 0), next_color: None }
    }

    /// The players chosen so far.
    pub fn players(&self) -> (p: &Vec<Player>)
        ensures
            p@ == self@.players,
    {
        &self.players
    }

    /// Columns and rows chosen for the board.
    pub fn size(&self) -> (p: Point)
        ensures
            p == self@.size,
    {
        self.size
    }

    /// Where the pointer is.
    pub fn pointer(&self) -> (p: (u32, u32))
        ensures
            p == self@.pointer,
    {
        self.pointer
    }

    /// The colour a click would give the next player, if any.
    pub fn next_color(&self) -> (c: Option<Color>)
        ensures
            c == self@.next_color,
    {
        self.next_color
    }

    /// The pointer has moved to `(x, y)` on a screen `height` pixels high,
    /// which is at least as high as the colour square.
    pub fn pointer_moved(&mut self, x: u32, y: u32, height: u32)
        requires
            old(self)@.wf(),
            height >= SQUARE_SIDE,
        ensures
            final(self)@.wf(),
            final(self)@ == old(self)@.pointed(x, y, height),
    {
        self.pointer = (x, y);
        let top: u32 = (height - SQUARE_SIDE) / 2;
        if x >= SQUARE_LEFT && x < SQUARE_LEFT + SQUARE_SIDE && y >= top && y < top + SQUARE_SIDE {
            self.next_color = Some(color(((x - SQUARE_LEFT) / 2) as u8, ((y - top) / 2) as u8));
        } else {
            self.next_color = None;
        }
    }

    /// A click where the pointer is. Gives the colour of the player that
    /// the click has added, if it has added one.
    pub fn pressed(&mut self) -> (added: Option<Color>)
        requires
            old(self)@.wf(),
        ensures
            final(self)@.wf(),
            final(self)@ == old(self)@.pressed(),
            added == old(self)@.next_color,
    {
        let added = self.next_color;
        if let Some(c) = added {
            self.players.push(Player::new(c));
        }
        if self.pointer.0 > SKETCH_LEFT && self.pointer.1 > SKETCH_TOP {
            let across: u32 = (self.pointer.0 - SKETCH_LEFT) / SKETCH_CELL;
            let down: u32 = (self.pointer.1 - SKETCH_TOP) / SKETCH_CELL;
            self.size.x = if across > 9 {
                MAX_SIZE
            } else {
                across as i32
            };
            self.size.y = if down > 9 {
                MAX_SIZE
            } else {
                down as i32
            };
        }
        added
    }

    /// Takes back the player chosen last. Says whether there was one.
    pub fn backspace(&mut self) -> (removed: bool)
        requires
            old(self)@.wf(),
        ensures
            final(self)@.wf(),
            final(self)@ == old(self)@.unchosen(),
            removed == (old(self)@.players.len() > 0),
    {
        self.players.pop().is_some()
    }

    /// What the game is set up with when the menu is left. A board of this
    /// size can be built.
    pub fn into_config(self) -> (config: Config)
        requires
            self@.wf(),
        ensures
            config.players@ == self@.players,
            config.size == self@.size,
            config.cellsize == CELL_SIZE,
            Grid::buildable(config.size, config.cellsize),
    {
        assert(0 <= self.size.x * CELL_SIZE <= 900 && 0 <= self.size.y * CELL_SIZE <= 900
            && self.size.x * self.size.y <= 81) by (nonlinear_arith)
            requires
                0 <= self.size.x <= 9,
                0 <= self.size.y <= 9,
                CELL_SIZE == 100,
        ;
        Config { players: self.players, size: self.size, cellsize: CELL_SIZE }
    }
}

} // verus!
