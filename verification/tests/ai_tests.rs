use vanishing_tris::ai::get_next_move;
use vanishing_tris::game::{Cell, Game, Player};

#[test]
fn advisor_takes_the_winning_cell() {
    let mut game = Game::new();
    // X holds (0,0) and (0,1); column 0 is open at (0,2); X to move.
    game.make_move(0, 0);
    game.make_move(1, 1);
    game.make_move(0, 1);
    game.make_move(2, 2);
    assert_eq!(game.get_current_player(), Player::X);
    assert_eq!(get_next_move(&game), Some((0, 2)));
}

#[test]
fn advisor_blocks_the_opponent() {
    let mut game = Game::new();
    // X holds (0,0) and (0,1) and would win at (0,2); O to move.
    game.make_move(0, 0);
    game.make_move(1, 1);
    game.make_move(0, 1);
    assert_eq!(game.get_current_player(), Player::O);
    assert_eq!(get_next_move(&game), Some((0, 2)));
}

#[test]
fn advisor_prefers_its_own_win_over_a_block() {
    let mut game = Game::new();
    // X threatens column 0 at (0,2); O threatens row 1 at (2,1); X to move.
    game.make_move(0, 0);
    game.make_move(0, 1);
    game.make_move(1, 0);
    game.make_move(1, 1);
    // X to move: winning at (2,0) completes row 0.
    assert_eq!(game.get_current_player(), Player::X);
    assert_eq!(get_next_move(&game), Some((2, 0)));
}

#[test]
fn advisor_falls_back_to_an_empty_cell() {
    let game = Game::new();
    let proposal = get_next_move(&game);
    let (x, y) = proposal.expect("an empty board offers a move");
    assert!(x < 3 && y < 3);
    assert_eq!(game.get_board_cell(x, y), Cell::Empty);
}

#[test]
fn advisor_fallback_is_not_degenerate() {
    // With no win and no block, repeated proposals on a fresh board must
    // reach more than one cell.
    let game = Game::new();
    let mut seen = Vec::new();
    for _ in 0..200 {
        let c = get_next_move(&game).expect("an empty board offers a move");
        assert_eq!(game.get_board_cell(c.0, c.1), Cell::Empty);
        if !seen.contains(&c) {
            seen.push(c);
        }
    }
    assert!(seen.len() > 1);
}

#[test]
fn advisor_proposal_applies_cleanly_mid_game() {
    let mut game = Game::new();
    game.make_move(1, 1);
    game.make_move(0, 0);
    let c = get_next_move(&game).expect("empty cells remain");
    assert_eq!(game.get_board_cell(c.0, c.1), Cell::Empty);
    let mover = game.get_current_player();
    game.make_move(c.0, c.1);
    assert_eq!(game.get_board_cell(c.0, c.1), Cell::Occupied(mover));
}

#[test]
fn advisor_never_mutates_the_state() {
    let mut game = Game::new();
    game.make_move(0, 0);
    game.make_move(1, 1);
    game.make_move(0, 1);
    let mut cells_before = Vec::new();
    for y in 0..3 {
        for x in 0..3 {
            cells_before.push(game.get_board_cell(x, y));
        }
    }
    let player_before = game.get_current_player();
    let over_before = game.is_over();
    for _ in 0..20 {
        let _ = get_next_move(&game);
    }
    let mut cells_after = Vec::new();
    for y in 0..3 {
        for x in 0..3 {
            cells_after.push(game.get_board_cell(x, y));
        }
    }
    assert_eq!(cells_after, cells_before);
    assert_eq!(game.get_current_player(), player_before);
    assert_eq!(game.is_over(), over_before);
}

#[test]
fn advisor_on_a_finished_game_names_the_first_empty_cell() {
    let mut game = Game::new();
    // X wins column 0; the board keeps empty cells.
    game.make_move(0, 0);
    game.make_move(1, 1);
    game.make_move(0, 1);
    game.make_move(2, 2);
    game.make_move(0, 2);
    assert!(game.is_over());
    // A simulated move on a finished game changes nothing and the simulation
    // stays "over", so the scan stops at the first empty cell in row-major
    // order.
    assert_eq!(get_next_move(&game), Some((1, 0)));
}
