use connect4::board::{Board, Cell, GameResult, NUM_COLUMNS, NUM_ROWS};

#[test]
fn fill_column() {
    let mut board = Board::new();
    for _ in 0..NUM_ROWS {
        assert_eq!(board.player_move(0), true);
    }
    assert_eq!(board.player_move(0), false);
}

#[test]
fn check_win_vertical() {
    let mut board = Board::new();
    for _ in 0..4 {
        assert_eq!(board.check_winner(), None);
        board.player_move(5);
    }
    assert_eq!(board.check_winner(), Some(GameResult::PlayerWins));
}

#[test]
fn check_win_horizontal() {
    let mut board = Board::new();
    for col in 1..5 {
        assert_eq!(board.check_winner(), None);
        board.computer_move(col);
    }
    assert_eq!(board.check_winner(), Some(GameResult::ComputerWins));
}

#[test]
fn check_win_diagonal1() {
    let mut board = Board::new();
    for col in vec![2, 3, 3, 4, 4, 4] {
        board.player_move(col);
    }
    for col in 1..5 {
        assert_eq!(board.check_winner(), None);
        board.computer_move(col);
    }
    assert_eq!(board.check_winner(), Some(GameResult::ComputerWins));
}

#[test]
fn check_win_diagonal2() {
    let mut board = Board::new();
    for col in vec![0, 0, 0, 1, 1, 2] {
        board.computer_move(col);
    }
    for col in 0..4 {
        assert_eq!(board.check_winner(), None);
        board.player_move(col);
    }
    assert_eq!(board.check_winner(), Some(GameResult::PlayerWins));
}

#[test]
fn check_draw() {
    let mut board = Board::new();
    for row in 0..NUM_ROWS {
        for col in 0..NUM_COLUMNS {
            assert_eq!(board.check_winner(), None);
            if col % 2 == (row / 2) % 2 {
                board.player_move(col);
            } else {
                board.computer_move(col);
            }
        }
    }
    assert_eq!(board.check_winner(), Some(GameResult::Draw));
}

fn same_cells(a: &Board, b: &Board) -> bool {
    for row in 0..NUM_ROWS {
        for col in 0..NUM_COLUMNS {
            if a.get_cell(row, col) != b.get_cell(row, col) {
                return false;
            }
        }
    }
    a.num_moves_made() == b.num_moves_made()
}

#[test]
fn every_column_takes_six_pieces() {
    for col in 0..NUM_COLUMNS {
        let mut board = Board::new();
        for i in 0..NUM_ROWS {
            let ok = if i % 2 == 0 { board.player_move(col) } else { board.computer_move(col) };
            assert!(ok);
        }
        let before = board.clone();
        assert_eq!(board.computer_move(col), false);
        assert_eq!(board.player_move(col), false);
        assert!(same_cells(&before, &board));
    }
}

#[test]
fn pieces_fall_to_lowest_empty_row() {
    let mut board = Board::new();
    assert!(board.player_move(3));
    assert_eq!(*board.get_cell(NUM_ROWS - 1, 3), Cell::Player);
    assert_eq!(*board.get_cell(NUM_ROWS - 2, 3), Cell::Empty);
    assert!(board.computer_move(3));
    assert_eq!(*board.get_cell(NUM_ROWS - 2, 3), Cell::Computer);
    assert_eq!(*board.get_cell(NUM_ROWS - 1, 2), Cell::Empty);
}

#[test]
fn out_of_range_column_is_refused() {
    let mut board = Board::new();
    let before = board.clone();
    assert_eq!(board.player_move(NUM_COLUMNS), false);
    assert_eq!(board.computer_move(NUM_COLUMNS + 5), false);
    assert!(same_cells(&before, &board));
    assert_eq!(board.num_moves_made(), 0);
}

#[test]
fn move_count_matches_successful_drops() {
    let mut board = Board::new();
    let mut successes = 0;
    let cols = [0, 0, 0, 0, 0, 0, 0, 9, 1, 2, 1, 7, 6, 6, 3];
    for (i, &col) in cols.iter().enumerate() {
        let ok = if i % 2 == 0 { board.player_move(col) } else { board.computer_move(col) };
        if ok {
            successes += 1;
        }
        assert_eq!(board.num_moves_made(), successes);
    }
    assert_eq!(successes, 12);
}

#[test]
fn new_board_has_no_outcome() {
    let board = Board::new();
    assert_eq!(board.check_winner(), None);
    assert_eq!(board.num_moves_made(), 0);
    for row in 0..NUM_ROWS {
        for col in 0..NUM_COLUMNS {
            assert_eq!(*board.get_cell(row, col), Cell::Empty);
        }
    }
}

#[test]
fn three_in_a_row_is_no_win() {
    let mut board = Board::new();
    for col in 0..3 {
        board.player_move(col);
        board.player_move(col);
    }
    board.computer_move(6);
    assert_eq!(board.check_winner(), None);
}

#[test]
fn horizontal_win_for_player_on_the_right() {
    let mut board = Board::new();
    for col in 3..7 {
        assert_eq!(board.check_winner(), None);
        board.player_move(col);
    }
    assert_eq!(board.check_winner(), Some(GameResult::PlayerWins));
}

#[test]
fn vertical_win_for_computer_above_other_pieces() {
    let mut board = Board::new();
    board.player_move(2);
    board.player_move(2);
    for _ in 0..4 {
        assert_eq!(board.check_winner(), None);
        board.computer_move(2);
    }
    assert_eq!(board.check_winner(), Some(GameResult::ComputerWins));
}

#[test]
fn game_can_continue_after_a_win() {
    let mut board = Board::new();
    for _ in 0..4 {
        board.player_move(0);
    }
    assert_eq!(board.check_winner(), Some(GameResult::PlayerWins));
    assert!(board.computer_move(1));
    assert_eq!(board.num_moves_made(), 5);
    assert_eq!(board.check_winner(), Some(GameResult::PlayerWins));
}

#[test]
fn snapshot_round_trip() {
    let mut board = Board::new();
    for col in [3, 3, 2, 4, 3, 0] {
        board.player_move(col);
        board.computer_move(col);
    }
    let restored = Board::from_snapshot(board.cells(), board.num_moves_made()).unwrap();
    assert!(same_cells(&board, &restored));
}

#[test]
fn snapshot_with_wrong_count_is_refused() {
    let mut board = Board::new();
    board.player_move(1);
    board.computer_move(1);
    assert!(Board::from_snapshot(board.cells(), 3).is_none());
    assert!(Board::from_snapshot(board.cells(), 1).is_none());
    assert!(Board::from_snapshot(board.cells(), 2).is_some());
}

#[test]
fn snapshot_with_floating_piece_is_refused() {
    let mut cells = Board::new().cells();
    cells[NUM_ROWS - 2][4] = Cell::Player;
    assert!(Board::from_snapshot(cells, 1).is_none());
    cells[NUM_ROWS - 1][4] = Cell::Computer;
    let board = Board::from_snapshot(cells, 2).unwrap();
    assert_eq!(*board.get_cell(NUM_ROWS - 2, 4), Cell::Player);
    assert_eq!(board.num_moves_made(), 2);
}
