use connect4::board::{Cell, GameResult, NUM_ROWS};
use connect4::game::{Game, Msg, Turn};

#[test]
fn new_game_waits_for_player() {
    let game = Game::default();
    assert_eq!(game.turn, Turn::Player);
    assert_eq!(game.who_starts, Turn::Player);
    assert_eq!(game.wins, 0);
    assert_eq!(game.losses, 0);
    assert_eq!(game.board.num_moves_made(), 0);
}

#[test]
fn player_click_hands_turn_to_computer() {
    let mut game = Game::default();
    assert!(game.update(Msg::ColumnClick(2)));
    assert_eq!(game.turn, Turn::Computer);
    assert_eq!(*game.board.get_cell(NUM_ROWS - 1, 2), Cell::Player);
    // Not the player's turn: ignored.
    assert!(!game.update(Msg::ColumnClick(3)));
    assert_eq!(game.board.num_moves_made(), 1);
    assert!(!game.update(Msg::ComputerMakeMove(3)));
    assert_eq!(game.turn, Turn::Player);
    assert_eq!(*game.board.get_cell(NUM_ROWS - 1, 3), Cell::Computer);
}

#[test]
fn bad_column_keeps_turn() {
    let mut game = Game::default();
    assert!(!game.update(Msg::ColumnClick(7)));
    assert_eq!(game.turn, Turn::Player);
    assert_eq!(game.board.num_moves_made(), 0);
}

#[test]
fn player_win_is_tallied_and_ends_game() {
    let mut game = Game::default();
    for _ in 0..3 {
        game.update(Msg::ColumnClick(0));
        game.update(Msg::ComputerMakeMove(1));
    }
    game.update(Msg::ColumnClick(0));
    assert_eq!(game.board.check_winner(), Some(GameResult::PlayerWins));
    assert_eq!(game.wins, 1);
    assert_eq!(game.losses, 0);
    assert!(!game.update(Msg::ComputerMakeMove(2)));
    assert_eq!(game.board.num_moves_made(), 7);
}

#[test]
fn computer_win_is_tallied() {
    let mut game = Game::default();
    for col in [0, 0, 6] {
        game.update(Msg::ColumnClick(col));
        game.update(Msg::ComputerMakeMove(3));
    }
    game.update(Msg::ColumnClick(6));
    game.update(Msg::ComputerMakeMove(3));
    assert_eq!(game.board.check_winner(), Some(GameResult::ComputerWins));
    assert_eq!(game.losses, 1);
    assert_eq!(game.wins, 0);
}

#[test]
fn reset_alternates_who_starts() {
    let mut game = Game::default();
    game.update(Msg::ColumnClick(0));
    assert!(game.update(Msg::ResetGame));
    assert_eq!(game.who_starts, Turn::Computer);
    assert_eq!(game.turn, Turn::Computer);
    assert_eq!(game.board.num_moves_made(), 0);
    assert!(!game.update(Msg::ResetGame));
    assert_eq!(game.who_starts, Turn::Player);
    assert_eq!(game.turn, Turn::Player);
}
