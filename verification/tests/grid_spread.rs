use chain_reaction::cell::PlaceError;
use chain_reaction::game::{Player, State};
use chain_reaction::geometry::Point;
use chain_reaction::grid::Grid;
use chain_reaction::marble::Marble;
use chain_reaction::menu::Color;

fn at(x: i32, y: i32) -> Point {
    Point::new(x, y)
}

fn marble(x: i32, y: i32, owner: usize) -> Marble {
    Marble { pos: Point::new(x, y), owner }
}

fn counts(grid: &Grid) -> Vec<u8> {
    let dim = grid.dim();
    let mut out = Vec::new();
    for x in 0..dim.x {
        for y in 0..dim.y {
            out.push(grid.cell(at(x, y)).occupied());
        }
    }
    out
}

fn owners(grid: &Grid) -> Vec<Option<usize>> {
    let dim = grid.dim();
    let mut out = Vec::new();
    for x in 0..dim.x {
        for y in 0..dim.y {
            out.push(grid.cell(at(x, y)).owner());
        }
    }
    out
}

fn load(grid: &mut Grid, p: Point, owner: usize, marbles: usize) {
    for _ in 0..marbles {
        assert_eq!(grid.cell_mut(p).add_marble(owner), Ok(()));
    }
}

fn black() -> Color {
    Color::rgb(0, 0, 0)
}

#[test]
fn layouts_that_can_be_built() {
    assert!(Grid::can_build(at(8, 6), 100));
    assert!(Grid::can_build(at(0, 0), 100));
    assert!(Grid::can_build(at(3, 0), 0));
    assert!(!Grid::can_build(at(-1, 6), 100));
    assert!(!Grid::can_build(at(8, -1), 100));
    assert!(!Grid::can_build(at(8, 6), -1));
    assert!(Grid::can_build(at(9, 9), 15907286));
    assert!(!Grid::can_build(at(9, 9), 15907287));
    assert!(!Grid::can_build(at(1, 9), 15907287));
    assert!(Grid::can_build(at(1, 1), 143165576));
    assert!(!Grid::can_build(at(1, 1), 143165577));
}

#[test]
fn a_new_grid_is_empty() {
    let grid = Grid::new(at(8, 6), 100);
    assert_eq!(grid.dim(), at(8, 6));
    assert_eq!(grid.cellsize(), 100);
    assert!(grid.marbles().is_empty());
    assert_eq!(counts(&grid), vec![0; 48]);
    assert_eq!(owners(&grid), vec![None; 48]);
    assert_eq!(grid.cell(at(0, 0)).capacity(), 2);
    assert_eq!(grid.cell(at(7, 5)).capacity(), 2);
    assert_eq!(grid.cell(at(7, 2)).capacity(), 3);
    assert_eq!(grid.cell(at(4, 3)).capacity(), 4);
    assert_eq!(grid.cell(at(4, 3)).coord(), at(4, 3));
}

#[test]
fn the_fourth_marble_makes_the_middle_cell_spread() {
    let mut grid = Grid::new(at(3, 3), 100);
    for placed in 1..=3u8 {
        assert_eq!(grid.add_marble(at(1, 1), 0), Ok(State::AcceptingInput));
        assert_eq!(grid.cell(at(1, 1)).occupied(), placed);
        assert!(!grid.cell(at(1, 1)).full());
    }
    assert_eq!(grid.cell(at(1, 1)).capacity(), 4);
    assert_eq!(grid.add_marble(at(1, 1), 0), Ok(State::Animating(15)));
    assert_eq!(counts(&grid), vec![0, 1, 0, 1, 0, 1, 0, 1, 0]);
    assert_eq!(
        owners(&grid),
        vec![None, Some(0), None, Some(0), None, Some(0), None, Some(0), None]
    );
    assert_eq!(grid.cell(at(2, 1)).marbles(), vec![marble(175, 150, 0)]);
    assert_eq!(grid.cell(at(1, 2)).marbles(), vec![marble(150, 175, 0)]);
    assert_eq!(grid.cell(at(0, 1)).marbles(), vec![marble(125, 150, 0)]);
    assert_eq!(grid.cell(at(1, 0)).marbles(), vec![marble(150, 125, 0)]);
}

#[test]
fn an_opponents_cell_is_refused_and_nothing_changes() {
    let mut grid = Grid::new(at(3, 3), 100);
    assert_eq!(grid.add_marble(at(1, 1), 0), Ok(State::AcceptingInput));
    assert_eq!(grid.add_marble(at(0, 2), 1), Ok(State::AcceptingInput));
    let marbles = grid.marbles();
    let held = counts(&grid);
    let owned = owners(&grid);
    assert_eq!(grid.add_marble(at(1, 1), 1), Err(PlaceError::OwnershipConflict));
    assert_eq!(grid.marbles(), marbles);
    assert_eq!(counts(&grid), held);
    assert_eq!(owners(&grid), owned);
}

#[test]
fn a_cell_that_waits_to_spread_is_refused() {
    let mut grid = Grid::new(at(3, 1), 100);
    assert_eq!(grid.add_marble(at(1, 0), 0), Ok(State::AcceptingInput));
    assert_eq!(grid.add_marble(at(0, 0), 0), Ok(State::Animating(15)));
    assert_eq!(counts(&grid), vec![0, 2, 0]);
    assert!(grid.cell(at(1, 0)).full());
    let marbles = grid.marbles();
    assert_eq!(grid.add_marble(at(1, 0), 0), Err(PlaceError::CellFull));
    assert_eq!(grid.marbles(), marbles);
    assert_eq!(counts(&grid), vec![0, 2, 0]);
}

#[test]
fn a_placed_marble_adds_one_and_is_the_players() {
    let mut grid = Grid::new(at(3, 3), 100);
    assert_eq!(grid.add_marble(at(2, 1), 5), Ok(State::AcceptingInput));
    assert_eq!(grid.marbles(), vec![marble(250, 175, 5)]);
    assert_eq!(grid.add_marble(at(2, 1), 5), Ok(State::AcceptingInput));
    assert_eq!(grid.marbles(), vec![marble(250, 175, 5), marble(225, 150, 5)]);
    assert_eq!(grid.cell(at(2, 1)).occupied(), 2);
    assert_eq!(grid.cell(at(2, 1)).owner(), Some(5));
}

#[test]
fn marbles_are_listed_cell_by_cell() {
    let mut grid = Grid::new(at(2, 2), 100);
    assert_eq!(grid.add_marble(at(1, 0), 1), Ok(State::AcceptingInput));
    assert_eq!(grid.add_marble(at(0, 1), 0), Ok(State::AcceptingInput));
    assert_eq!(grid.add_marble(at(0, 0), 2), Ok(State::AcceptingInput));
    assert_eq!(
        grid.marbles(),
        vec![marble(75, 50, 2), marble(75, 150, 0), marble(150, 75, 1)]
    );
}

#[test]
fn a_spread_neither_makes_nor_loses_marbles() {
    let mut grid = Grid::new(at(3, 3), 100);
    load(&mut grid, at(0, 0), 0, 2);
    load(&mut grid, at(1, 1), 1, 4);
    load(&mut grid, at(2, 1), 2, 3);
    load(&mut grid, at(1, 0), 1, 2);
    assert_eq!(grid.marbles().len(), 11);
    assert_eq!(grid.spread(), State::Animating(15));
    assert_eq!(grid.marbles().len(), 11);
    assert_eq!(counts(&grid), vec![0, 2, 0, 4, 1, 1, 1, 1, 1]);
    assert_eq!(grid.spread(), State::Animating(15));
    assert_eq!(grid.marbles().len(), 11);
}

#[test]
fn a_settled_board_stays_as_it_is() {
    let mut grid = Grid::new(at(3, 3), 100);
    assert_eq!(grid.add_marble(at(1, 1), 0), Ok(State::AcceptingInput));
    assert_eq!(grid.add_marble(at(2, 2), 1), Ok(State::AcceptingInput));
    let marbles = grid.marbles();
    let owned = owners(&grid);
    assert_eq!(grid.spread(), State::AcceptingInput);
    assert_eq!(grid.marbles(), marbles);
    assert_eq!(owners(&grid), owned);
    assert_eq!(grid.spread(), State::AcceptingInput);
    assert_eq!(grid.marbles(), marbles);
    assert_eq!(owners(&grid), owned);
}

#[test]
fn a_spread_hands_captured_marbles_over_one_spread_later() {
    let mut grid = Grid::new(at(3, 1), 100);
    assert_eq!(grid.add_marble(at(1, 0), 1), Ok(State::AcceptingInput));
    assert_eq!(grid.add_marble(at(0, 0), 0), Ok(State::Animating(15)));
    assert_eq!(owners(&grid), vec![None, Some(0), None]);
    assert_eq!(grid.cell(at(1, 0)).marbles(), vec![marble(175, 50, 1), marble(75, 50, 0)]);
    assert_eq!(grid.spread(), State::Animating(15));
    assert_eq!(owners(&grid), vec![Some(0), None, Some(0)]);
    assert_eq!(grid.cell(at(2, 0)).marbles(), vec![marble(175, 50, 0)]);
    assert_eq!(grid.cell(at(0, 0)).marbles(), vec![marble(75, 50, 0)]);
}

#[test]
fn of_east_and_west_the_west_wins() {
    let mut grid = Grid::new(at(3, 3), 100);
    load(&mut grid, at(2, 1), 0, 3);
    load(&mut grid, at(0, 1), 1, 3);
    assert_eq!(grid.spread(), State::Animating(15));
    assert_eq!(grid.cell(at(1, 1)).occupied(), 2);
    assert_eq!(grid.cell(at(1, 1)).owner(), Some(1));
}

#[test]
fn of_south_and_north_the_north_wins() {
    let mut grid = Grid::new(at(3, 3), 100);
    load(&mut grid, at(1, 2), 0, 3);
    load(&mut grid, at(1, 0), 1, 3);
    assert_eq!(grid.spread(), State::Animating(15));
    assert_eq!(grid.cell(at(1, 1)).occupied(), 2);
    assert_eq!(grid.cell(at(1, 1)).owner(), Some(1));
}

#[test]
fn of_north_and_west_the_west_wins() {
    let mut grid = Grid::new(at(3, 3), 100);
    load(&mut grid, at(1, 0), 1, 3);
    load(&mut grid, at(0, 1), 0, 3);
    assert_eq!(grid.spread(), State::Animating(15));
    assert_eq!(grid.cell(at(1, 1)).owner(), Some(0));
}

#[test]
fn of_east_and_south_the_south_wins() {
    let mut grid = Grid::new(at(3, 3), 100);
    load(&mut grid, at(2, 1), 0, 3);
    load(&mut grid, at(1, 2), 1, 3);
    assert_eq!(grid.spread(), State::Animating(15));
    assert_eq!(grid.cell(at(1, 1)).owner(), Some(1));
}

#[test]
fn a_cell_that_sends_and_receives_belongs_to_the_sender() {
    let mut grid = Grid::new(at(2, 1), 100);
    load(&mut grid, at(0, 0), 0, 1);
    load(&mut grid, at(1, 0), 1, 1);
    assert_eq!(grid.spread(), State::Animating(15));
    assert_eq!(counts(&grid), vec![1, 1]);
    assert_eq!(owners(&grid), vec![Some(1), Some(0)]);
}

#[test]
fn a_step_while_input_is_awaited_does_nothing() {
    let mut grid = Grid::new(at(3, 3), 100);
    assert_eq!(grid.add_marble(at(1, 1), 0), Ok(State::AcceptingInput));
    let marbles = grid.marbles();
    assert_eq!(grid.step(State::AcceptingInput), State::AcceptingInput);
    assert_eq!(grid.marbles(), marbles);
}

#[test]
fn steps_count_down_and_move_the_marbles() {
    let mut grid = Grid::new(at(3, 1), 100);
    assert_eq!(grid.add_marble(at(0, 0), 0), Ok(State::Animating(15)));
    assert_eq!(grid.marbles(), vec![marble(75, 50, 0)]);
    assert_eq!(grid.step(State::Animating(15)), State::Animating(14));
    assert_eq!(grid.marbles(), vec![marble(79, 50, 0)]);
    assert_eq!(grid.step(State::Animating(14)), State::Animating(13));
    assert_eq!(grid.marbles(), vec![marble(83, 50, 0)]);
    assert_eq!(grid.step(State::Animating(1)), State::Animating(0));
    assert_eq!(grid.marbles(), vec![marble(104, 50, 0)]);
}

#[test]
fn the_last_step_lands_and_spreads() {
    let mut grid = Grid::new(at(3, 1), 100);
    assert_eq!(grid.add_marble(at(1, 0), 0), Ok(State::AcceptingInput));
    assert_eq!(grid.add_marble(at(0, 0), 0), Ok(State::Animating(15)));
    assert_eq!(grid.step(State::Animating(0)), State::Animating(15));
    assert_eq!(counts(&grid), vec![1, 0, 1]);
    assert_eq!(grid.marbles(), vec![marble(125, 50, 0), marble(175, 50, 0)]);
    assert_eq!(grid.step(State::Animating(0)), State::Animating(15));
    assert_eq!(counts(&grid), vec![0, 2, 0]);
    assert_eq!(grid.marbles(), vec![marble(225, 50, 0), marble(75, 50, 0)]);
}

#[test]
fn the_last_step_settles_when_no_cell_is_full() {
    let mut grid = Grid::new(at(3, 3), 100);
    assert_eq!(grid.add_marble(at(0, 0), 0), Ok(State::AcceptingInput));
    assert_eq!(grid.add_marble(at(0, 0), 0), Ok(State::Animating(15)));
    assert_eq!(grid.marbles(), vec![marble(50, 75, 0), marble(75, 50, 0)]);
    assert_eq!(grid.step(State::Animating(0)), State::AcceptingInput);
    assert_eq!(grid.marbles(), vec![marble(50, 125, 0), marble(125, 50, 0)]);
    assert_eq!(counts(&grid), vec![0, 1, 0, 1, 0, 0, 0, 0, 0]);
}

#[test]
fn players_are_marked_by_the_cells_they_own() {
    let mut grid = Grid::new(at(3, 3), 100);
    assert_eq!(grid.add_marble(at(1, 1), 0), Ok(State::AcceptingInput));
    assert_eq!(grid.add_marble(at(2, 2), 2), Ok(State::AcceptingInput));
    let fresh = Player::new(black());
    let started = Player { started: true, alive: true, color: black() };
    let mut players = vec![fresh, started, fresh, fresh, started];
    players[3].alive = false;
    grid.check_players(&mut players);
    assert_eq!(
        players,
        vec![
            Player { started: true, alive: true, color: black() },
            Player { started: true, alive: false, color: black() },
            Player { started: true, alive: true, color: black() },
            Player { started: false, alive: false, color: black() },
            Player { started: true, alive: false, color: black() },
        ]
    );
}

#[test]
fn a_cell_can_be_changed_in_place() {
    let mut grid = Grid::new(at(3, 3), 100);
    assert_eq!(grid.cell_mut(at(0, 2)).add_marble(3), Ok(()));
    assert_eq!(grid.cell(at(0, 2)).owner(), Some(3));
    assert_eq!(counts(&grid), vec![0, 0, 1, 0, 0, 0, 0, 0, 0]);
    assert_eq!(grid.marbles(), vec![marble(75, 250, 3)]);
}
