use chain_reaction::cell::{Cell, PlaceError};
use chain_reaction::geometry::{direction, opposite, Point, PointIter, EAST, NORTH, SOUTH, WEST};
use chain_reaction::marble::{Marble, TOTAL_STEPS};

fn mid_cell() -> Cell {
    Cell::new(Point::new(1, 1), Point::new(3, 3), 100)
}

fn marble(x: i32, y: i32, owner: usize) -> Marble {
    Marble { pos: Point::new(x, y), owner }
}

#[test]
fn corner_cell_has_two_neighbors() {
    let cell = Cell::new(Point::new(0, 0), Point::new(8, 6), 100);
    assert!(cell.has_neighbor(EAST));
    assert!(cell.has_neighbor(SOUTH));
    assert!(!cell.has_neighbor(WEST));
    assert!(!cell.has_neighbor(NORTH));
    assert_eq!(cell.capacity(), 2);
}

#[test]
fn edge_and_inner_cells_count_their_neighbors() {
    let dim = Point::new(8, 6);
    assert_eq!(Cell::new(Point::new(7, 5), dim, 100).capacity(), 2);
    assert_eq!(Cell::new(Point::new(3, 0), dim, 100).capacity(), 3);
    assert_eq!(Cell::new(Point::new(0, 2), dim, 100).capacity(), 3);
    assert_eq!(Cell::new(Point::new(3, 2), dim, 100).capacity(), 4);
    let lonely = Cell::new(Point::new(0, 0), Point::new(1, 1), 100);
    assert_eq!(lonely.capacity(), 0);
    assert!(lonely.full());
}

#[test]
fn directions_and_their_opposites() {
    assert_eq!(direction(EAST), Point::new(1, 0));
    assert_eq!(direction(SOUTH), Point::new(0, 1));
    assert_eq!(direction(WEST), Point::new(-1, 0));
    assert_eq!(direction(NORTH), Point::new(0, -1));
    assert_eq!(opposite(EAST), WEST);
    assert_eq!(opposite(SOUTH), NORTH);
    assert_eq!(opposite(WEST), EAST);
    assert_eq!(opposite(NORTH), SOUTH);
}

#[test]
fn points_come_highest_first() {
    let mut it = PointIter::new(Point::new(2, 3));
    let mut seen = Vec::new();
    while let Some(p) = it.next() {
        seen.push((p.x, p.y));
    }
    assert_eq!(seen, vec![(1, 2), (1, 1), (1, 0), (0, 2), (0, 1), (0, 0)]);
    assert_eq!(it.next(), None);
}

#[test]
fn empty_grids_have_no_points() {
    assert_eq!(PointIter::new(Point::new(0, 3)).next(), None);
    assert_eq!(PointIter::new(Point::new(3, 0)).next(), None);
    assert_eq!(PointIter::new(Point::new(-1, -1)).next(), None);
}

#[test]
fn first_marble_rests_towards_the_east() {
    let mut cell = mid_cell();
    assert_eq!(cell.owner(), None);
    assert_eq!(cell.add_marble(7), Ok(()));
    assert_eq!(cell.owner(), Some(7));
    assert_eq!(cell.occupied(), 1);
    assert!(!cell.full());
    assert_eq!(cell.marbles(), vec![marble(175, 150, 7)]);
}

#[test]
fn marbles_fill_the_directions_in_order() {
    let mut cell = mid_cell();
    for _ in 0..3 {
        assert_eq!(cell.add_marble(0), Ok(()));
    }
    assert_eq!(cell.occupied(), 3);
    assert!(!cell.full());
    assert_eq!(
        cell.marbles(),
        vec![marble(175, 150, 0), marble(150, 175, 0), marble(125, 150, 0)]
    );
}

#[test]
fn corner_marbles_skip_the_missing_directions() {
    let mut cell = Cell::new(Point::new(2, 2), Point::new(3, 3), 100);
    assert_eq!(cell.add_marble(1), Ok(()));
    assert_eq!(cell.marbles(), vec![marble(225, 250, 1)]);
    assert_eq!(cell.add_marble(1), Ok(()));
    assert!(cell.full());
    assert_eq!(cell.marbles(), vec![marble(225, 250, 1), marble(250, 225, 1)]);
}

#[test]
fn odd_cell_sizes_round_down() {
    let mut cell = Cell::new(Point::new(1, 0), Point::new(3, 3), 10);
    assert_eq!(cell.add_marble(0), Ok(()));
    assert_eq!(cell.add_marble(0), Ok(()));
    assert_eq!(cell.marbles(), vec![marble(17, 5, 0), marble(15, 7, 0)]);
}

#[test]
fn another_owner_is_refused() {
    let mut cell = mid_cell();
    assert_eq!(cell.add_marble(0), Ok(()));
    assert_eq!(cell.add_marble(1), Err(PlaceError::OwnershipConflict));
    assert_eq!(cell.owner(), Some(0));
    assert_eq!(cell.occupied(), 1);
    assert_eq!(cell.marbles(), vec![marble(175, 150, 0)]);
}

#[test]
fn a_full_cell_is_refused() {
    let mut cell = Cell::new(Point::new(0, 0), Point::new(3, 3), 100);
    assert_eq!(cell.add_marble(0), Ok(()));
    assert_eq!(cell.add_marble(0), Ok(()));
    assert!(cell.full());
    let before = cell.marbles();
    assert_eq!(cell.add_marble(0), Err(PlaceError::CellFull));
    assert_eq!(cell.occupied(), 2);
    assert_eq!(cell.marbles(), before);
}

#[test]
fn the_owner_is_checked_before_the_room() {
    let mut cell = Cell::new(Point::new(0, 0), Point::new(3, 3), 100);
    assert_eq!(cell.add_marble(0), Ok(()));
    assert_eq!(cell.add_marble(0), Ok(()));
    assert_eq!(cell.add_marble(1), Err(PlaceError::OwnershipConflict));
}

#[test]
fn a_cell_without_neighbors_takes_nothing() {
    let mut cell = Cell::new(Point::new(0, 0), Point::new(1, 1), 100);
    assert_eq!(cell.add_marble(0), Err(PlaceError::CellFull));
    assert_eq!(cell.owner(), None);
    assert_eq!(cell.occupied(), 0);
}

#[test]
fn full_is_reached_at_capacity() {
    let mut cell = mid_cell();
    for placed in 1..=4u8 {
        assert_eq!(cell.add_marble(0), Ok(()));
        assert_eq!(cell.occupied(), placed);
        assert_eq!(cell.full(), cell.occupied() == cell.capacity());
    }
}

#[test]
fn send_empties_a_full_cell() {
    let mut cell = mid_cell();
    for _ in 0..4 {
        assert_eq!(cell.add_marble(2), Ok(()));
    }
    let sent = cell.send();
    assert_eq!(
        sent,
        [
            Some(marble(175, 150, 2)),
            Some(marble(150, 175, 2)),
            Some(marble(125, 150, 2)),
            Some(marble(150, 125, 2))
        ]
    );
    assert_eq!(cell.occupied(), 0);
    assert_eq!(cell.owner(), None);
    assert!(cell.marbles().is_empty());
}

#[test]
fn send_takes_nothing_from_a_cell_that_is_not_full() {
    let mut cell = mid_cell();
    assert_eq!(cell.add_marble(2), Ok(()));
    assert_eq!(cell.send(), [None, None, None, None]);
    assert_eq!(cell.occupied(), 1);
    assert_eq!(cell.owner(), Some(2));
}

#[test]
fn receive_hands_the_cell_to_the_marbles_owner() {
    let mut cell = mid_cell();
    assert_eq!(cell.add_marble(0), Ok(()));
    cell.receive(WEST, marble(75, 150, 1));
    assert_eq!(cell.owner(), Some(1));
    assert_eq!(cell.occupied(), 2);
    cell.receive(NORTH, marble(150, 75, 3));
    assert_eq!(cell.owner(), Some(3));
    assert_eq!(cell.occupied(), 3);
    assert_eq!(
        cell.marbles(),
        vec![marble(175, 150, 0), marble(75, 150, 1), marble(150, 75, 3)]
    );
}

#[test]
fn arrived_marbles_keep_their_direction_where_it_is_free() {
    let mut cell = mid_cell();
    cell.receive(WEST, marble(75, 150, 1));
    cell.sort_received();
    assert_eq!(cell.occupied(), 1);
    assert!(!cell.full());
    cell.step(0);
    assert_eq!(cell.marbles(), vec![marble(125, 150, 1)]);
}

#[test]
fn arrived_marbles_turn_aside_where_their_direction_is_taken() {
    let mut cell = mid_cell();
    assert_eq!(cell.add_marble(1), Ok(()));
    cell.receive(EAST, marble(225, 150, 1));
    cell.sort_received();
    cell.step(0);
    assert_eq!(cell.marbles(), vec![marble(175, 150, 1), marble(150, 125, 1)]);
}

#[test]
fn arrived_marbles_prefer_the_next_direction_to_the_previous_one() {
    let mut cell = mid_cell();
    cell.receive(SOUTH, marble(150, 225, 1));
    cell.receive(NORTH, marble(150, 75, 1));
    cell.sort_received();
    assert_eq!(cell.marbles(), vec![marble(150, 225, 1), marble(150, 75, 1)]);
    cell.receive(SOUTH, marble(151, 225, 2));
    cell.sort_received();
    assert_eq!(
        cell.marbles(),
        vec![marble(151, 225, 2), marble(150, 225, 1), marble(150, 75, 1)]
    );
}

#[test]
fn sorting_without_arrivals_changes_nothing() {
    let mut cell = mid_cell();
    assert_eq!(cell.add_marble(0), Ok(()));
    cell.sort_received();
    assert_eq!(cell.marbles(), vec![marble(175, 150, 0)]);
    assert_eq!(cell.occupied(), 1);
    assert_eq!(cell.owner(), Some(0));
}

#[test]
fn a_cell_filled_by_arrivals_gets_ready_to_send_them_back() {
    let mut cell = Cell::new(Point::new(0, 0), Point::new(3, 3), 100);
    assert_eq!(cell.add_marble(0), Ok(()));
    cell.receive(SOUTH, marble(50, 125, 1));
    cell.sort_received();
    assert!(cell.full());
    assert_eq!(cell.owner(), Some(1));
    let sent = cell.send();
    assert_eq!(sent, [Some(marble(75, 50, 0)), Some(marble(50, 125, 1)), None, None]);
    assert_eq!(cell.occupied(), 0);
}

#[test]
fn more_arrivals_than_room_leave_marbles_at_rest() {
    let mut cell = mid_cell();
    for _ in 0..3 {
        assert_eq!(cell.add_marble(0), Ok(()));
    }
    cell.receive(EAST, marble(225, 150, 1));
    cell.receive(SOUTH, marble(150, 225, 1));
    cell.sort_received();
    assert_eq!(cell.occupied(), 5);
    assert_eq!(cell.capacity(), 4);
    assert!(cell.full());
    let sent = cell.send();
    assert_eq!(
        sent,
        [
            Some(marble(225, 150, 1)),
            Some(marble(150, 225, 1)),
            Some(marble(125, 150, 0)),
            Some(marble(175, 150, 0))
        ]
    );
    assert_eq!(cell.marbles(), vec![marble(150, 175, 0)]);
    assert_eq!(cell.owner(), Some(1));
    assert!(!cell.full());
}

#[test]
fn commit_hands_all_marbles_to_the_owner() {
    let mut cell = mid_cell();
    assert_eq!(cell.add_marble(0), Ok(()));
    cell.receive(WEST, marble(75, 150, 1));
    cell.sort_received();
    cell.commit();
    assert_eq!(cell.marbles(), vec![marble(175, 150, 1), marble(75, 150, 1)]);
}

#[test]
fn a_step_rounds_towards_the_target() {
    let mut cell = mid_cell();
    cell.receive(WEST, marble(75, 150, 1));
    cell.sort_received();
    cell.step(TOTAL_STEPS);
    assert_eq!(cell.marbles(), vec![marble(79, 150, 1)]);
    cell.step(14);
    assert_eq!(cell.marbles(), vec![marble(83, 150, 1)]);
    cell.step(1);
    assert_eq!(cell.marbles(), vec![marble(104, 150, 1)]);
}

#[test]
fn a_step_from_beyond_the_target_rounds_towards_it_too() {
    let mut cell = mid_cell();
    cell.receive(EAST, marble(225, 157, 1));
    cell.sort_received();
    cell.step(TOTAL_STEPS);
    assert_eq!(cell.marbles(), vec![marble(221, 156, 1)]);
}

#[test]
fn sixteen_steps_reach_the_target() {
    let mut cell = mid_cell();
    cell.receive(NORTH, marble(150, 75, 1));
    cell.sort_received();
    let mut steps = TOTAL_STEPS;
    loop {
        cell.step(steps);
        if steps == 0 {
            break;
        }
        steps -= 1;
    }
    assert_eq!(cell.marbles(), vec![marble(150, 125, 1)]);
}

#[test]
fn a_marble_steps_by_its_own() {
    let mut m = marble(0, 100, 4);
    m.step(Point::new(10, 0), 3);
    assert_eq!(m.get_pos(), Point::new(3, 75));
    assert_eq!(m.get_owner(), 4);
    m.step(Point::new(10, 0), 0);
    assert_eq!(m.get_pos(), Point::new(10, 0));
}

#[test]
fn a_cell_with_room_takes_a_marble_while_arrivals_wait() {
    let mut cell = mid_cell();
    cell.receive(WEST, marble(75, 150, 1));
    assert_eq!(cell.add_marble(1), Ok(()));
    assert_eq!(cell.occupied(), 2);
    assert_eq!(cell.owner(), Some(1));
    assert_eq!(cell.marbles(), vec![marble(175, 150, 1), marble(75, 150, 1)]);
    assert_eq!(cell.add_marble(0), Err(PlaceError::OwnershipConflict));
    assert_eq!(cell.marbles(), vec![marble(175, 150, 1), marble(75, 150, 1)]);
}

#[test]
fn a_marble_that_fills_the_cell_waits_beside_the_arrivals() {
    let mut cell = Cell::new(Point::new(0, 0), Point::new(3, 3), 100);
    cell.receive(SOUTH, marble(50, 125, 2));
    assert_eq!(cell.add_marble(2), Ok(()));
    assert!(cell.full());
    assert_eq!(cell.occupied(), cell.capacity());
    assert_eq!(cell.add_marble(2), Err(PlaceError::CellFull));
    assert_eq!(cell.send(), [Some(marble(75, 50, 2)), None, None, None]);
    assert_eq!(cell.marbles(), vec![marble(50, 125, 2)]);
    assert_eq!(cell.owner(), Some(2));
}

#[test]
fn another_players_overfull_cell_is_refused_for_its_owner() {
    let mut cell = mid_cell();
    for _ in 0..3 {
        assert_eq!(cell.add_marble(0), Ok(()));
    }
    cell.receive(EAST, marble(225, 150, 1));
    cell.receive(SOUTH, marble(150, 225, 1));
    cell.sort_received();
    assert!(cell.occupied() > cell.capacity());
    assert_eq!(cell.add_marble(0), Err(PlaceError::OwnershipConflict));
    assert_eq!(cell.occupied(), 5);
}
