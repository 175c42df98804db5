use chain_reaction::game::{Game, Player};
use chain_reaction::geometry::{in_bounds, Point};
use chain_reaction::grid::Grid;
use chain_reaction::menu::{color, Color, Menu};

#[test]
fn the_menu_opens_with_eight_by_six() {
    let menu = Menu::new();
    assert!(menu.players().is_empty());
    assert_eq!(menu.size(), Point::new(8, 6));
    assert_eq!(menu.pointer(), (0, 0));
    assert_eq!(menu.next_color(), None);
}

#[test]
fn the_pointer_picks_a_color_on_the_square() {
    let mut menu = Menu::new();
    menu.pointer_moved(50, 284, 1080);
    assert_eq!(menu.pointer(), (50, 284));
    assert_eq!(menu.next_color(), Some(color(0, 0)));
    menu.pointer_moved(250, 364, 1080);
    assert_eq!(menu.next_color(), Some(Color { r: 175, g: 120, b: 0, a: 255 }));
    menu.pointer_moved(561, 795, 1080);
    assert_eq!(menu.next_color(), Some(color(255, 255)));
}

#[test]
fn the_pointer_picks_nothing_beside_the_square() {
    let mut menu = Menu::new();
    menu.pointer_moved(49, 300, 1080);
    assert_eq!(menu.next_color(), None);
    menu.pointer_moved(562, 300, 1080);
    assert_eq!(menu.next_color(), None);
    menu.pointer_moved(100, 283, 1080);
    assert_eq!(menu.next_color(), None);
    menu.pointer_moved(100, 796, 1080);
    assert_eq!(menu.next_color(), None);
    menu.pointer_moved(100, 511, 512);
    assert_eq!(menu.next_color(), Some(color(25, 255)));
}

#[test]
fn a_click_on_the_square_adds_a_player() {
    let mut menu = Menu::new();
    menu.pointer_moved(250, 364, 1080);
    assert_eq!(menu.pressed(), Some(color(100, 40)));
    menu.pointer_moved(450, 324, 1080);
    assert_eq!(menu.pressed(), Some(color(200, 20)));
    assert_eq!(
        menu.players().clone(),
        vec![Player::new(color(100, 40)), Player::new(color(200, 20))]
    );
    assert_eq!(menu.size(), Point::new(8, 6));
}

#[test]
fn a_click_elsewhere_adds_nobody() {
    let mut menu = Menu::new();
    menu.pointer_moved(580, 100, 1080);
    assert_eq!(menu.pressed(), None);
    assert!(menu.players().is_empty());
    assert_eq!(menu.size(), Point::new(8, 6));
}

#[test]
fn a_click_on_the_sketch_sets_the_size() {
    let mut menu = Menu::new();
    menu.pointer_moved(760, 475, 1080);
    assert_eq!(menu.pressed(), None);
    assert_eq!(menu.size(), Point::new(3, 3));
    menu.pointer_moved(601, 321, 1080);
    menu.pressed();
    assert_eq!(menu.size(), Point::new(0, 0));
    menu.pointer_moved(1049, 769, 1080);
    menu.pressed();
    assert_eq!(menu.size(), Point::new(8, 8));
    menu.pointer_moved(1900, 1000, 1080);
    menu.pressed();
    assert_eq!(menu.size(), Point::new(9, 9));
    menu.pointer_moved(600, 700, 1080);
    menu.pressed();
    assert_eq!(menu.size(), Point::new(9, 9));
    menu.pointer_moved(700, 320, 1080);
    menu.pressed();
    assert_eq!(menu.size(), Point::new(9, 9));
}

#[test]
fn backspace_takes_the_last_player_back() {
    let mut menu = Menu::new();
    assert!(!menu.backspace());
    menu.pointer_moved(250, 364, 1080);
    menu.pressed();
    menu.pointer_moved(450, 324, 1080);
    menu.pressed();
    assert!(menu.backspace());
    assert_eq!(menu.players().clone(), vec![Player::new(color(100, 40))]);
    assert!(menu.backspace());
    assert!(!menu.backspace());
    assert!(menu.players().is_empty());
}

#[test]
fn the_menu_sets_up_a_game() {
    let mut menu = Menu::new();
    menu.pointer_moved(250, 364, 1080);
    menu.pressed();
    menu.pointer_moved(760, 475, 1080);
    menu.pressed();
    let config = menu.into_config();
    assert_eq!(config.players, vec![Player::new(color(100, 40))]);
    assert_eq!(config.size, Point::new(3, 3));
    assert_eq!(config.cellsize, 100);
    assert!(Grid::can_build(config.size, config.cellsize));
    let game = Game::new(config);
    assert_eq!(game.dim(), Point::new(3, 3));
    assert_eq!(game.num_players(), 1);
}

#[test]
fn pixels_find_their_cells() {
    let mut menu = Menu::new();
    menu.pointer_moved(250, 364, 1080);
    menu.pressed();
    let game = Game::new(menu.into_config());
    assert_eq!(game.cell_at(0, 0), Some(Point::new(0, 0)));
    assert_eq!(game.cell_at(99, 100), Some(Point::new(0, 1)));
    assert_eq!(game.cell_at(799, 599), Some(Point::new(7, 5)));
    assert_eq!(game.cell_at(800, 599), None);
    assert_eq!(game.cell_at(799, 600), None);
    assert_eq!(game.cell_at(-1, 50), None);
    assert_eq!(game.cell_at(50, -1), None);
}

#[test]
fn points_on_and_off_the_grid() {
    let dim = Point::new(8, 6);
    assert!(in_bounds(Point::new(0, 0), dim));
    assert!(in_bounds(Point::new(7, 5), dim));
    assert!(!in_bounds(Point::new(8, 5), dim));
    assert!(!in_bounds(Point::new(7, 6), dim));
    assert!(!in_bounds(Point::new(-1, 0), dim));
    assert!(!in_bounds(Point::new(0, -1), dim));
    assert!(!in_bounds(Point::new(0, 0), Point::new(0, 0)));
}
