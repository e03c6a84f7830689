use connect4::ai::{best_computer_move, best_move, make_move, BASE_SCORE, SCORE_UNIT};
use connect4::board::{Board, Cell, GameResult, NUM_COLUMNS, NUM_ROWS};

/// Fills the grid but for the top cells (row 0) of columns 0, 1 and 2, with no line
/// of four for either side.
fn nearly_full_board() -> Board {
    let mut board = Board::new();
    for row in 0..NUM_ROWS {
        for col in 0..NUM_COLUMNS {
            if row == NUM_ROWS - 1 && col < 3 {
                continue;
            }
            if col % 2 == (row / 2) % 2 {
                board.player_move(col);
            } else {
                board.computer_move(col);
            }
        }
    }
    board
}

#[test]
fn nearly_full_board_is_in_progress() {
    let board = nearly_full_board();
    assert_eq!(board.num_moves_made(), NUM_ROWS * NUM_COLUMNS - 3);
    assert_eq!(board.check_winner(), None);
}

#[test]
fn search_is_deterministic() {
    let board = nearly_full_board();
    let first = best_move(&board);
    let second = best_move(&board.clone());
    assert_eq!(first, second);
    assert_eq!(best_computer_move(&board, 3), best_computer_move(&board, 3));
}

#[test]
fn search_out_of_depth_gives_sentinel() {
    let board = Board::new();
    assert_eq!(best_computer_move(&board, 0), (0, 0));
    assert_eq!(best_computer_move(&board, -3), (0, 0));
}

fn three_computer_pieces_in_bottom_row() -> Board {
    let mut board = Board::new();
    for col in 0..3 {
        board.computer_move(col);
    }
    board.player_move(0);
    board.player_move(1);
    board.player_move(5);
    board
}

#[test]
fn search_takes_immediate_win() {
    let board = three_computer_pieces_in_bottom_row();
    assert_eq!(board.check_winner(), None);
    for depth in 1..5 {
        assert_eq!(best_computer_move(&board, depth).0, 3);
    }
}

#[test]
fn immediate_win_scores_base_less_moves() {
    let board = three_computer_pieces_in_bottom_row();
    let moves = board.num_moves_made() as i64;
    let (col, score) = best_computer_move(&board, 2);
    assert_eq!(col, 3);
    assert_eq!(score, SCORE_UNIT * (BASE_SCORE - (moves + 1)));
    assert_eq!(score, 31116960000 * 93);
}

#[test]
fn search_blocks_player_threat() {
    let mut board = Board::new();
    for col in 0..3 {
        board.player_move(col);
    }
    board.computer_move(6);
    board.computer_move(6);
    assert_eq!(board.check_winner(), None);
    let (col, score) = best_computer_move(&board, 2);
    assert_eq!(col, 3);
    assert_eq!(score, 0);
}

#[test]
fn search_scores_forced_loss() {
    // The player has two ways to win at once: the computer can block one.
    let mut board = Board::new();
    for col in 1..4 {
        board.player_move(col);
    }
    board.computer_move(1);
    board.computer_move(2);
    let moves = board.num_moves_made() as i64;
    let (col, score) = best_computer_move(&board, 2);
    assert_eq!(col, 0);
    assert_eq!(score, SCORE_UNIT * ((moves + 2) - BASE_SCORE));
}

#[test]
fn make_move_plays_the_chosen_column() {
    let board = nearly_full_board();
    let col = best_move(&board);
    let mut played = board.clone();
    make_move(&mut played);
    assert_eq!(played.num_moves_made(), board.num_moves_made() + 1);
    assert_eq!(*played.get_cell(0, col), Cell::Computer);
}

#[test]
fn make_move_leaves_finished_game() {
    let mut board = Board::new();
    for _ in 0..4 {
        board.player_move(4);
    }
    assert_eq!(board.check_winner(), Some(GameResult::PlayerWins));
    make_move(&mut board);
    assert_eq!(board.num_moves_made(), 4);
    for col in 0..NUM_COLUMNS {
        assert_eq!(*board.get_cell(NUM_ROWS - 1, col), if col == 4 { Cell::Player } else { Cell::Empty });
    }
}

#[test]
fn make_move_wins_when_it_can() {
    let mut board = three_computer_pieces_in_bottom_row();
    make_move(&mut board);
    assert_eq!(board.check_winner(), Some(GameResult::ComputerWins));
    assert_eq!(*board.get_cell(NUM_ROWS - 1, 3), Cell::Computer);
}

#[test]
fn sooner_win_scores_higher() {
    let sooner = three_computer_pieces_in_bottom_row();
    let mut later = three_computer_pieces_in_bottom_row();
    later.player_move(6);
    later.player_move(6);
    let (_, sooner_score) = best_computer_move(&sooner, 2);
    let (col, later_score) = best_computer_move(&later, 2);
    assert_eq!(col, 3);
    assert!(sooner_score > later_score);
    assert!(later_score > 0);
}
