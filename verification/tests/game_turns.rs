use chain_reaction::game::{Game, Key, Player, State};
use chain_reaction::geometry::Point;
use chain_reaction::menu::{color, Color, Config};

fn at(x: i32, y: i32) -> Point {
    Point::new(x, y)
}

fn game(players: usize, width: i32, height: i32) -> Game {
    let mut list = Vec::new();
    for k in 0..players {
        list.push(Player::new(Color::rgb(k as u8, 0, 0)));
    }
    Game::new(Config { players: list, size: at(width, height), cellsize: 100 })
}

fn flags(game: &Game) -> Vec<(bool, bool)> {
    game.players().iter().map(|p| (p.started, p.alive)).collect()
}

#[test]
fn a_new_game_awaits_the_first_player() {
    let g = game(3, 8, 6);
    assert_eq!(g.num_players(), 3);
    assert_eq!(g.cur_player(), 0);
    assert_eq!(g.selected(), at(0, 0));
    assert_eq!(g.dim(), at(8, 6));
    assert_eq!(g.cellsize(), 100);
    assert_eq!(g.state(), State::AcceptingInput);
    assert!(g.grid().marbles().is_empty());
    assert_eq!(flags(&g), vec![(false, true); 3]);
    assert_eq!(g.players()[2].color(), Color::rgb(2, 0, 0));
}

#[test]
fn a_new_player_has_not_started() {
    let p = Player::new(Color::rgb(1, 2, 3));
    assert!(!p.started);
    assert!(p.alive);
    assert_eq!(p.color(), Color { r: 1, g: 2, b: 3, a: 255 });
}

#[test]
fn a_click_places_a_marble_and_passes_the_turn() {
    let mut g = game(2, 3, 3);
    g.click(at(1, 1));
    assert_eq!(g.selected(), at(1, 1));
    assert_eq!(g.state(), State::AcceptingInput);
    assert_eq!(g.cur_player(), 1);
    assert_eq!(g.grid().cell(at(1, 1)).owner(), Some(0));
    assert_eq!(flags(&g), vec![(true, true), (false, true)]);
    g.click(at(0, 0));
    assert_eq!(g.cur_player(), 0);
    assert_eq!(g.grid().cell(at(0, 0)).owner(), Some(1));
    assert_eq!(flags(&g), vec![(true, true), (true, true)]);
}

#[test]
fn a_refused_click_keeps_the_turn() {
    let mut g = game(2, 3, 3);
    g.click(at(1, 1));
    let marbles = g.grid().marbles();
    g.click(at(1, 1));
    assert_eq!(g.cur_player(), 1);
    assert_eq!(g.selected(), at(1, 1));
    assert_eq!(g.state(), State::AcceptingInput);
    assert_eq!(g.grid().marbles(), marbles);
    assert_eq!(g.grid().cell(at(1, 1)).owner(), Some(0));
    assert_eq!(flags(&g), vec![(true, true), (true, true)]);
    g.click(at(2, 1));
    assert_eq!(g.cur_player(), 0);
}

#[test]
fn a_click_that_fills_a_cell_starts_the_animation() {
    let mut g = game(2, 3, 3);
    g.click(at(0, 0));
    g.click(at(2, 2));
    g.click(at(0, 0));
    assert_eq!(g.state(), State::Animating(15));
    assert_eq!(g.cur_player(), 0);
    assert_eq!(g.grid().cell(at(0, 0)).occupied(), 0);
    assert_eq!(g.grid().cell(at(1, 0)).occupied(), 1);
    assert_eq!(g.grid().cell(at(0, 1)).occupied(), 1);
}

#[test]
fn a_click_during_the_animation_only_moves_the_cursor() {
    let mut g = game(2, 3, 3);
    g.click(at(0, 0));
    g.click(at(2, 2));
    g.click(at(0, 0));
    let marbles = g.grid().marbles();
    g.click(at(1, 2));
    assert_eq!(g.selected(), at(1, 2));
    assert_eq!(g.state(), State::Animating(15));
    assert_eq!(g.cur_player(), 0);
    assert_eq!(g.grid().marbles(), marbles);
}

#[test]
fn a_step_while_input_is_awaited_changes_nothing() {
    let mut g = game(2, 3, 3);
    g.click(at(1, 1));
    g.step();
    assert_eq!(g.state(), State::AcceptingInput);
    assert_eq!(g.cur_player(), 1);
    assert_eq!(flags(&g), vec![(true, true), (false, true)]);
}

#[test]
fn the_animation_runs_sixteen_steps_then_the_turn_passes() {
    let mut g = game(2, 3, 3);
    g.click(at(0, 0));
    g.click(at(2, 2));
    g.click(at(0, 0));
    for left in (0..15).rev() {
        g.step();
        assert_eq!(g.state(), State::Animating(left));
        assert_eq!(g.cur_player(), 0);
    }
    g.step();
    assert_eq!(g.state(), State::AcceptingInput);
    assert_eq!(g.cur_player(), 1);
    assert_eq!(flags(&g), vec![(true, true), (true, true)]);
    let marbles = g.grid().marbles();
    assert_eq!(marbles.len(), 3);
    assert_eq!(marbles[0].pos, at(50, 125));
    assert_eq!(marbles[1].pos, at(125, 50));
}

#[test]
fn a_player_without_cells_is_out() {
    let mut g = game(2, 2, 2);
    g.click(at(0, 0));
    g.click(at(1, 1));
    g.click(at(0, 0));
    for _ in 0..16 {
        g.step();
    }
    assert_eq!(g.state(), State::AcceptingInput);
    assert_eq!(g.cur_player(), 1);
    g.click(at(1, 1));
    assert_eq!(g.state(), State::Animating(15));
    for _ in 0..16 {
        g.step();
    }
    assert_eq!(g.state(), State::Animating(15));
    assert_eq!(flags(&g), vec![(true, false), (true, true)]);
    assert_eq!(g.grid().marbles().len(), 4);
    assert!(g.grid().marbles().iter().all(|m| m.owner == 1));
}

#[test]
fn the_turn_skips_players_who_are_out() {
    let mut players = vec![Player::new(color(0, 0)); 4];
    players[1].alive = false;
    players[2].alive = false;
    let mut g = Game::new(Config { players, size: at(3, 3), cellsize: 100 });
    g.click(at(0, 0));
    assert_eq!(g.cur_player(), 3);
    g.click(at(1, 1));
    assert_eq!(g.cur_player(), 0);
}

#[test]
fn the_turn_comes_back_to_the_only_player_alive() {
    let mut players = vec![Player::new(color(0, 0)); 3];
    players[0].alive = false;
    players[2].alive = false;
    let mut g = Game::new(Config { players, size: at(3, 3), cellsize: 100 });
    g.click(at(0, 0));
    assert_eq!(g.cur_player(), 1);
    g.click(at(0, 0));
    assert_eq!(g.cur_player(), 1);
}

#[test]
fn the_turn_stays_when_nobody_is_alive() {
    let mut players = vec![Player::new(color(0, 0)); 3];
    for p in players.iter_mut() {
        p.alive = false;
    }
    let mut g = Game::new(Config { players, size: at(3, 3), cellsize: 100 });
    g.click(at(0, 0));
    assert_eq!(g.cur_player(), 0);
    assert_eq!(g.grid().cell(at(0, 0)).occupied(), 1);
}

#[test]
fn keys_move_the_cursor_around_the_board() {
    let mut g = game(2, 3, 2);
    g.keydown(Key::Right);
    assert_eq!(g.selected(), at(1, 0));
    g.keydown(Key::Right);
    g.keydown(Key::Right);
    assert_eq!(g.selected(), at(0, 0));
    g.keydown(Key::Left);
    assert_eq!(g.selected(), at(2, 0));
    g.keydown(Key::Left);
    assert_eq!(g.selected(), at(1, 0));
    g.keydown(Key::Down);
    assert_eq!(g.selected(), at(1, 1));
    g.keydown(Key::Down);
    assert_eq!(g.selected(), at(1, 0));
    g.keydown(Key::Up);
    assert_eq!(g.selected(), at(1, 1));
    g.keydown(Key::Up);
    assert_eq!(g.selected(), at(1, 0));
    g.keydown(Key::Other);
    assert_eq!(g.selected(), at(1, 0));
    assert_eq!(g.cur_player(), 0);
    assert!(g.grid().marbles().is_empty());
}

#[test]
fn the_return_key_clicks_at_the_cursor() {
    let mut g = game(2, 3, 3);
    g.keydown(Key::Down);
    g.keydown(Key::Return);
    assert_eq!(g.grid().cell(at(0, 1)).owner(), Some(0));
    assert_eq!(g.cur_player(), 1);
    assert_eq!(g.selected(), at(0, 1));
}

#[test]
fn colors_of_the_square() {
    assert_eq!(color(0, 0), Color { r: 255, g: 0, b: 0, a: 255 });
    assert_eq!(color(127, 0), Color { r: 255, g: 254, b: 0, a: 255 });
    assert_eq!(color(255, 0), Color { r: 0, g: 255, b: 0, a: 255 });
    assert_eq!(color(0, 255), Color { r: 255, g: 0, b: 254, a: 255 });
    assert_eq!(color(127, 255), Color { r: 1, g: 0, b: 254, a: 255 });
    assert_eq!(color(255, 255), Color { r: 0, g: 254, b: 254, a: 255 });
    assert_eq!(color(127, 127), Color { r: 1, g: 0, b: 0, a: 255 });
    assert_eq!(color(128, 127), Color { r: 0, g: 1, b: 0, a: 255 });
    assert_eq!(color(100, 40), Color { r: 175, g: 120, b: 0, a: 255 });
    assert_eq!(color(40, 100), Color { r: 175, g: 0, b: 60, a: 255 });
    assert_eq!(color(40, 230), Color { r: 175, g: 0, b: 204, a: 255 });
    assert_eq!(color(200, 20), Color { r: 70, g: 215, b: 0, a: 255 });
    assert_eq!(color(200, 100), Color { r: 0, g: 144, b: 45, a: 255 });
    assert_eq!(color(200, 220), Color { r: 0, g: 144, b: 184, a: 255 });
}

#[test]
fn the_turn_can_be_passed_on_while_input_is_awaited() {
    let mut players = vec![Player::new(color(0, 0)); 3];
    players[1].alive = false;
    let mut g = Game::new(Config { players, size: at(3, 3), cellsize: 100 });
    g.next_player_if_accepting();
    assert_eq!(g.cur_player(), 2);
    g.next_player_if_accepting();
    assert_eq!(g.cur_player(), 0);
    assert!(g.players()[g.cur_player()].alive);
}

#[test]
fn the_turn_is_not_passed_on_during_an_animation() {
    let mut g = game(2, 3, 3);
    g.click(at(0, 0));
    g.click(at(2, 2));
    g.click(at(0, 0));
    assert_eq!(g.state(), State::Animating(15));
    g.next_player_if_accepting();
    assert_eq!(g.cur_player(), 0);
}

#[test]
fn no_cell_is_full_while_input_is_awaited() {
    let mut g = game(2, 2, 2);
    g.click(at(0, 0));
    g.click(at(1, 1));
    g.click(at(0, 0));
    while g.state() != State::AcceptingInput {
        g.step();
    }
    for x in 0..2 {
        for y in 0..2 {
            let cell = g.grid().cell(at(x, y));
            assert!(cell.occupied() < cell.capacity());
        }
    }
}
