use vanishing_tris::game::{Cell, Game, Player};

/// The number of occupied cells on the board.
fn occupied_count(game: &Game) -> usize {
    let mut count: usize = 0;
    for y in 0..3 {
        for x in 0..3 {
            if game.get_board_cell(x, y) != Cell::Empty {
                count += 1;
            }
        }
    }
    count
}

/// A snapshot of everything the accessors expose.
fn snapshot(game: &Game) -> (Vec<Cell>, Player, bool, Option<[(usize, usize); 3]>) {
    let mut cells = Vec::new();
    for y in 0..3 {
        for x in 0..3 {
            cells.push(game.get_board_cell(x, y));
        }
    }
    (cells, game.get_current_player(), game.is_over(), game.get_winning_line())
}

#[test]
fn new_game_initial_state() {
    let game = Game::new();
    for y in 0..3 {
        for x in 0..3 {
            assert_eq!(game.get_board_cell(x, y), Cell::Empty);
        }
    }
    assert_eq!(game.get_current_player(), Player::X);
    assert!(!game.is_over());
    assert_eq!(game.get_winning_line(), None);
}

#[test]
fn first_move_places_mark_and_switches_turn() {
    let mut game = Game::new();
    game.make_move(1, 1);
    assert_eq!(game.get_board_cell(1, 1), Cell::Occupied(Player::X));
    assert_eq!(game.get_current_player(), Player::O);
    assert!(!game.is_over());
}

#[test]
fn turn_alternates_between_successful_moves() {
    let mut game = Game::new();
    assert_eq!(game.get_current_player(), Player::X);
    game.make_move(0, 0);
    assert_eq!(game.get_current_player(), Player::O);
    game.make_move(1, 1);
    assert_eq!(game.get_current_player(), Player::X);
    game.make_move(2, 0);
    assert_eq!(game.get_current_player(), Player::O);
}

#[test]
fn move_on_occupied_cell_is_a_no_op() {
    let mut game = Game::new();
    game.make_move(0, 0);
    let before = snapshot(&game);
    game.make_move(0, 0);
    assert_eq!(snapshot(&game), before);
    assert_eq!(game.get_board_cell(0, 0), Cell::Occupied(Player::X));
    assert_eq!(game.get_current_player(), Player::O);
}

#[test]
fn move_out_of_range_is_a_no_op() {
    let mut game = Game::new();
    game.make_move(1, 1);
    let before = snapshot(&game);
    game.make_move(3, 0);
    game.make_move(0, 3);
    game.make_move(17, 17);
    assert_eq!(snapshot(&game), before);
}

#[test]
fn move_after_game_over_is_a_no_op() {
    let mut game = Game::new();
    // X wins column 0.
    game.make_move(0, 0);
    game.make_move(1, 1);
    game.make_move(0, 1);
    game.make_move(2, 2);
    game.make_move(0, 2);
    assert!(game.is_over());
    let before = snapshot(&game);
    game.make_move(1, 0);
    assert_eq!(snapshot(&game), before);
}

#[test]
fn reset_restores_initial_state() {
    let mut game = Game::new();
    game.make_move(0, 0);
    game.make_move(1, 1);
    game.make_move(0, 1);
    game.make_move(2, 2);
    game.make_move(0, 2);
    assert!(game.is_over());
    game.reset();
    for y in 0..3 {
        for x in 0..3 {
            assert_eq!(game.get_board_cell(x, y), Cell::Empty);
        }
    }
    assert_eq!(game.get_current_player(), Player::X);
    assert!(!game.is_over());
    assert_eq!(game.get_winning_line(), None);
}

#[test]
fn reset_mid_game_gives_the_turn_back_to_x() {
    let mut game = Game::new();
    game.make_move(2, 2);
    assert_eq!(game.get_current_player(), Player::O);
    game.reset();
    assert_eq!(game.get_current_player(), Player::X);
    assert_eq!(game.get_board_cell(2, 2), Cell::Empty);
}

#[test]
fn cloned_game_is_independent() {
    let mut game = Game::new();
    game.make_move(0, 0);
    let mut copy = game.clone();
    assert_eq!(copy.get_board_cell(0, 0), Cell::Occupied(Player::X));
    assert_eq!(copy.get_current_player(), Player::O);
    // A move on the copy leaves the authoritative state untouched.
    copy.make_move(1, 1);
    assert_eq!(copy.get_board_cell(1, 1), Cell::Occupied(Player::O));
    assert_eq!(game.get_board_cell(1, 1), Cell::Empty);
    assert_eq!(game.get_current_player(), Player::O);
}

#[test]
fn column_win_is_detected_with_its_line() {
    let mut game = Game::new();
    game.make_move(0, 0);
    game.make_move(1, 1);
    game.make_move(0, 1);
    game.make_move(2, 2);
    game.make_move(0, 2);
    assert_eq!(game.get_board_cell(0, 0), Cell::Occupied(Player::X));
    assert_eq!(game.get_board_cell(0, 1), Cell::Occupied(Player::X));
    assert_eq!(game.get_board_cell(0, 2), Cell::Occupied(Player::X));
    assert!(game.is_over());
    assert_eq!(game.get_winning_line(), Some([(0, 0), (0, 1), (0, 2)]));
}

#[test]
fn row_win_is_detected_with_its_line() {
    let mut game = Game::new();
    game.make_move(0, 0);
    game.make_move(0, 1);
    game.make_move(1, 0);
    game.make_move(1, 1);
    game.make_move(2, 0);
    assert!(game.is_over());
    assert_eq!(game.get_winning_line(), Some([(0, 0), (1, 0), (2, 0)]));
}

#[test]
fn diagonal_win_is_detected_with_its_line() {
    let mut game = Game::new();
    game.make_move(0, 0);
    game.make_move(1, 0);
    game.make_move(1, 1);
    game.make_move(2, 0);
    game.make_move(2, 2);
    assert!(game.is_over());
    assert_eq!(game.get_winning_line(), Some([(0, 0), (1, 1), (2, 2)]));
}

#[test]
fn winning_move_does_not_pass_the_turn() {
    let mut game = Game::new();
    game.make_move(0, 0);
    game.make_move(1, 1);
    game.make_move(0, 1);
    game.make_move(2, 2);
    assert_eq!(game.get_current_player(), Player::X);
    game.make_move(0, 2);
    assert!(game.is_over());
    assert_eq!(game.get_current_player(), Player::X);
}

#[test]
fn seventh_mark_evicts_the_oldest() {
    let mut game = Game::new();
    // Six moves, no line completed.
    game.make_move(0, 0); // X, the mark that will vanish
    game.make_move(1, 0); // O
    game.make_move(1, 1); // X
    game.make_move(2, 2); // O
    game.make_move(2, 1); // X
    game.make_move(0, 1); // O
    assert_eq!(occupied_count(&game), 6);
    assert_eq!(game.get_board_cell(0, 0), Cell::Occupied(Player::X));
    // The seventh mark: (0, 0) vanishes, the board stays at six marks.
    game.make_move(1, 2); // X
    assert_eq!(game.get_board_cell(0, 0), Cell::Empty);
    assert_eq!(game.get_board_cell(1, 2), Cell::Occupied(Player::X));
    assert_eq!(occupied_count(&game), 6);
    assert!(!game.is_over());
    assert_eq!(game.get_current_player(), Player::O);
}

#[test]
fn board_never_holds_more_than_six_marks() {
    let mut game = Game::new();
    let moves = [
        (0, 0),
        (1, 0),
        (1, 1),
        (2, 2),
        (2, 1),
        (0, 1),
        (1, 2),
        (0, 0),
        (1, 0),
    ];
    for &(x, y) in moves.iter() {
        game.make_move(x, y);
        assert!(occupied_count(&game) <= 6);
        assert!(!game.is_over());
    }
}

#[test]
fn switch_player_flips_the_turn() {
    let mut game = Game::new();
    assert_eq!(game.get_current_player(), Player::X);
    game.switch_player();
    assert_eq!(game.get_current_player(), Player::O);
    game.switch_player();
    assert_eq!(game.get_current_player(), Player::X);
}

#[test]
fn check_winner_records_nothing_on_a_fresh_board() {
    let mut game = Game::new();
    game.check_winner();
    assert!(!game.is_over());
    assert_eq!(game.get_winning_line(), None);
}
