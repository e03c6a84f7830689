//! A simple Connect 4 AI: a depth-bounded search in which the computer picks
//! its best column, and the player is expected to take any move that ends the
//! game; otherwise the player's turn scores the mean over its replies.
use vstd::prelude::*;
use crate::board::{Board, Cell, GameResult, Position, NUM_COLUMNS, NUM_ROWS};

verus! {

/// How many moves into the future we will predict.
pub const NUM_ITERATION: i32 = 8;

/// Scores are fixed-point numbers with this unit: `420^4`, where 420 is the
/// least common multiple of the possible numbers of replies (1 to 7).
pub const SCORE_UNIT: i64 = 31116960000;

/// A win scores this many units less the number of moves made, so that a
/// sooner win scores higher.
pub const BASE_SCORE: i64 = 100;

/// The score recorded before any column has been tried: below every score
/// of a finished game.
pub const NO_MOVE_SCORE: i64 = -(BASE_SCORE + 1) * SCORE_UNIT;

/// The largest score that the search can give.
pub const MAX_SCORE: i64 = BASE_SCORE * SCORE_UNIT;

/// The score of a finished game with `moves` moves made, from the
/// computer's side.
pub open spec fn outcome_score(result: GameResult, moves: int) -> int {
    match result {
        GameResult::ComputerWins => SCORE_UNIT * (BASE_SCORE - moves),
        GameResult::Draw => 0,
        GameResult::PlayerWins => SCORE_UNIT * (moves - BASE_SCORE),
    }
}

/// The score of a position that has an outcome; none for a game in progress.
pub open spec fn terminal_score(p: Position) -> Option<int> {
    match p.outcome() {
        Some(result) => Some(outcome_score(result, p.moves_made as int)),
        None => None,
    }
}

/// The mean of `count` scores adding up to `sum`, rounded down; 0 (a draw)
/// when there are none.
pub open spec fn mean(sum: int, count: int) -> int {
    if count <= 0 {
        0
    } else {
        sum / count
    }
}

/// The column the computer picks in `p` looking `depth` moves ahead, and its
/// score: `(0, 0)` when the search is out of depth.
pub open spec fn computer_best(p: Position, depth: int) -> (int, int)
    decreases depth + 1, 2int, 0int,
{
    if depth <= 0 {
        (0, 0)
    } else {
        best_scan(p, depth, 0, (0, NO_MOVE_SCORE as int))
    }
}

/// The computer's pick among columns `col..`, given the best `(column,
/// score)` found among the earlier ones; a later column must score strictly
/// higher to be picked.
pub open spec fn best_scan(p: Position, depth: int, col: int, best: (int, int)) -> (int, int)
    decreases depth + 1, 1int, NUM_COLUMNS - col,
{
    if col >= NUM_COLUMNS || depth <= 0 {
        best
    } else {
        let next = match p.after_drop(col, Cell::Computer) {
            None => best,
            Some(q) => {
                let s = match terminal_score(q) {
                    Some(x) => x,
                    None => player_mean(q, depth - 1),
                };
                if s > best.1 {
                    (col, s)
                } else {
                    best
                }
            },
        };
        best_scan(p, depth, col + 1, next)
    }
}

/// The score of `p` with the player to move, looking `depth` moves ahead.
pub open spec fn player_mean(p: Position, depth: int) -> int
    decreases depth + 1, 2int, 0int,
{
    if depth < 0 {
        0
    } else {
        mean_scan(p, depth, 0, 0, 0)
    }
}

/// Goes on through the player's replies in columns `col..`, given the sum and
/// number of the scores of the earlier replies that do not end the game: the
/// score of the first reply that ends the game, else the mean of all.
pub open spec fn mean_scan(p: Position, depth: int, col: int, sum: int, count: int) -> int
    decreases depth + 1, 1int, NUM_COLUMNS - col,
{
    if col >= NUM_COLUMNS || depth < 0 {
        mean(sum, count)
    } else {
        match p.after_drop(col, Cell::Player) {
            None => mean_scan(p, depth, col + 1, sum, count),
            Some(q) => match terminal_score(q) {
                Some(s) => s,
                None => mean_scan(p, depth, col + 1, sum + computer_best(q, depth - 1).1, count + 1),
            },
        }
    }
}

/// The column the computer picks on `p`.
pub open spec fn chosen_column(p: Position) -> int {
    computer_best(p, NUM_ITERATION as int).0
}

/// A score that the search can give.
pub open spec fn score_in_range(s: int) -> bool {
    NO_MOVE_SCORE <= s <= MAX_SCORE
}

proof fn lemma_mean_bounds(sum: int, count: int, lo: int, hi: int)
    requires
        count > 0,
        count * lo <= sum <= count * hi,
    ensures
        lo <= sum / count <= hi,
{
    let q = sum / count;
    let r = sum % count;
    vstd::arithmetic::div_mod::lemma_fundamental_div_mod(sum, count);
    assert(0 <= r < count);
    if q > hi {
        assert(q * count >= (hi + 1) * count) by (nonlinear_arith)
            requires
                q >= hi + 1,
                count > 0,
        ;
        assert((hi + 1) * count == hi * count + count) by (nonlinear_arith);
        assert(count * hi == hi * count) by (nonlinear_arith);
    }
    if q < lo {
        assert(q * count <= (lo - 1) * count) by (nonlinear_arith)
            requires
                q <= lo - 1,
                count > 0,
        ;
        assert((lo - 1) * count == lo * count - count) by (nonlinear_arith);
        assert(count * lo == lo * count) by (nonlinear_arith);
    }
}

/// The mean of `count` scores adding up to `sum`, rounded down.
fn mean_score(sum: i64, count: i64) -> (r: i64)
    requires
        0 <= count <= NUM_COLUMNS,
        count * NO_MOVE_SCORE <= sum <= count * MAX_SCORE,
    ensures
        r == mean(sum as int, count as int),
        score_in_range(r as int),
{
    if count == 0 {
        return 0;
    }
    proof {
        lemma_mean_bounds(sum as int, count as int, NO_MOVE_SCORE as int, MAX_SCORE as int);
    }
    proof {
        assert(count * NO_MOVE_SCORE >= NUM_COLUMNS * NO_MOVE_SCORE) by (nonlinear_arith)
            requires
                0 <= count <= NUM_COLUMNS,
                NO_MOVE_SCORE < 0,
        ;
    }
    if sum >= 0 {
        sum / count
    } else {
        let q = (-sum + count - 1) / count;
        proof {
            let s = sum as int;
            let c = count as int;
            vstd::arithmetic::div_mod::lemma_fundamental_div_mod(-s + c - 1, c);
            vstd::arithmetic::div_mod::lemma_fundamental_div_mod(s, c);
            let q1 = (-s + c - 1) / c;
            let r1 = (-s + c - 1) % c;
            let q2 = s / c;
            let r2 = s % c;
            assert(q2 == -q1) by (nonlinear_arith)
                requires
                    -s + c - 1 == c * q1 + r1,
                    0 <= r1 < c,
                    s == c * q2 + r2,
                    0 <= r2 < c,
            ;
        }
        -q
    }
}

/// The computer completes a line of four by dropping into column `col`.
pub open spec fn wins_at_once(p: Position, col: int) -> bool {
    match p.after_drop(col, Cell::Computer) {
        Some(q) => q.outcome() == Some(GameResult::ComputerWins),
        None => false,
    }
}

/// The score of a win with `moves` moves made.
pub open spec fn win_score(moves: int) -> int {
    SCORE_UNIT * (BASE_SCORE - moves)
}

/// Sooner wins score higher than later ones, any win scores higher than any
/// draw, and any draw higher than any loss.
pub proof fn lemma_score_order(m1: int, m2: int)
    requires
        0 <= m1 <= NUM_ROWS * NUM_COLUMNS,
        0 <= m2 <= NUM_ROWS * NUM_COLUMNS,
    ensures
        m1 < m2 ==> outcome_score(GameResult::ComputerWins, m1) > outcome_score(
            GameResult::ComputerWins,
            m2,
        ),
        outcome_score(GameResult::ComputerWins, m1) > outcome_score(GameResult::Draw, m2),
        outcome_score(GameResult::Draw, m1) > outcome_score(GameResult::PlayerWins, m2),
{
}

/// The search is a function of the position alone: equal positions get the
/// same column.
pub proof fn lemma_search_deterministic(p1: Position, p2: Position)
    requires
        p1 == p2,
    ensures
        chosen_column(p1) == chosen_column(p2),
        computer_best(p1, NUM_ITERATION as int) == computer_best(p2, NUM_ITERATION as int),
{
}

proof fn lemma_mean_upper(sum: int, count: int, hi: int)
    requires
        count > 0,
        sum <= count * hi,
    ensures
        sum / count <= hi,
{
    vstd::arithmetic::div_mod::lemma_fundamental_div_mod(sum, count);
    let q = sum / count;
    if q > hi {
        assert(q * count >= (hi + 1) * count) by (nonlinear_arith)
            requires
                q >= hi + 1,
                count > 0,
        ;
        assert((hi + 1) * count == hi * count + count) by (nonlinear_arith);
        assert(count * hi == hi * count) by (nonlinear_arith);
    }
}

/// A finished position scores at most a win with its number of moves, and
/// only a win of the computer scores that much.
proof fn lemma_terminal_score_bound(q: Position)
    requires
        q.wf(),
        terminal_score(q) is Some,
    ensures
        terminal_score(q)->0 <= win_score(q.moves_made as int),
        terminal_score(q)->0 == win_score(q.moves_made as int) ==> q.outcome() == Some(
            GameResult::ComputerWins,
        ),
{
    q.lemma_moves_bound();
}

/// No score that the computer can reach from `p` beats winning with its
/// next move.
proof fn lemma_computer_best_bound(p: Position, depth: int)
    requires
        p.wf(),
    ensures
        computer_best(p, depth).1 <= win_score(p.moves_made + 1int),
    decreases depth + 1, 2int, 0int,
{
    p.lemma_moves_bound();
    if depth > 0 {
        lemma_best_scan_bound(p, depth, 0, (0, NO_MOVE_SCORE as int));
    }
}

proof fn lemma_best_scan_bound(p: Position, depth: int, col: int, best: (int, int))
    requires
        p.wf(),
        best.1 <= win_score(p.moves_made + 1int),
    ensures
        best_scan(p, depth, col, best).1 <= win_score(p.moves_made + 1int),
    decreases depth + 1, 1int, NUM_COLUMNS - col,
{
    if col < NUM_COLUMNS && depth > 0 {
        let next = match p.after_drop(col, Cell::Computer) {
            None => best,
            Some(q) => {
                let s = match terminal_score(q) {
                    Some(x) => x,
                    None => player_mean(q, depth - 1),
                };
                if s > best.1 {
                    (col, s)
                } else {
                    best
                }
            },
        };
        if let Some(q) = p.after_drop(col, Cell::Computer) {
            p.lemma_after_drop_wf(col, Cell::Computer);
            if terminal_score(q) is Some {
                lemma_terminal_score_bound(q);
            } else {
                lemma_player_mean_bound(q, depth - 1);
            }
        }
        lemma_best_scan_bound(p, depth, col + 1, next);
    }
}

/// No score reached from `p` with the player to move beats the computer
/// winning with its next move.
proof fn lemma_player_mean_bound(p: Position, depth: int)
    requires
        p.wf(),
    ensures
        player_mean(p, depth) <= win_score(p.moves_made + 1int),
    decreases depth + 1, 2int, 0int,
{
    p.lemma_moves_bound();
    if depth >= 0 {
        lemma_mean_scan_bound(p, depth, 0, 0, 0);
    }
}

proof fn lemma_mean_scan_bound(p: Position, depth: int, col: int, sum: int, count: int)
    requires
        p.wf(),
        count >= 0,
        sum <= count * win_score(p.moves_made + 2int),
    ensures
        mean_scan(p, depth, col, sum, count) <= win_score(p.moves_made + 1int),
    decreases depth + 1, 1int, NUM_COLUMNS - col,
{
    p.lemma_moves_bound();
    if col >= NUM_COLUMNS || depth < 0 {
        if count > 0 {
            lemma_mean_upper(sum, count, win_score(p.moves_made + 2int));
        }
    } else {
        match p.after_drop(col, Cell::Player) {
            None => lemma_mean_scan_bound(p, depth, col + 1, sum, count),
            Some(q) => {
                p.lemma_after_drop_wf(col, Cell::Player);
                if terminal_score(q) is Some {
                    lemma_terminal_score_bound(q);
                } else {
                    lemma_computer_best_bound(q, depth - 1);
                    assert((count + 1) * win_score(p.moves_made + 2int) == count * win_score(
                        p.moves_made + 2int,
                    ) + win_score(p.moves_made + 2int)) by (nonlinear_arith);
                    lemma_mean_scan_bound(
                        p,
                        depth,
                        col + 1,
                        sum + computer_best(q, depth - 1).1,
                        count + 1,
                    );
                }
            },
        }
    }
}

proof fn lemma_best_scan_finds_win(p: Position, depth: int, col: int, best: (int, int), wcol: int)
    requires
        p.wf(),
        depth >= 1,
        0 <= col,
        best.1 <= win_score(p.moves_made + 1int),
        best.1 == win_score(p.moves_made + 1int) ==> wins_at_once(p, best.0),
        best.1 == win_score(p.moves_made + 1int) || (col <= wcol < NUM_COLUMNS && wins_at_once(
            p,
            wcol,
        )),
    ensures
        wins_at_once(p, best_scan(p, depth, col, best).0),
    decreases NUM_COLUMNS - col,
{
    p.lemma_moves_bound();
    if col < NUM_COLUMNS {
        let next = match p.after_drop(col, Cell::Computer) {
            None => best,
            Some(q) => {
                let s = match terminal_score(q) {
                    Some(x) => x,
                    None => player_mean(q, depth - 1),
                };
                if s > best.1 {
                    (col, s)
                } else {
                    best
                }
            },
        };
        if let Some(q) = p.after_drop(col, Cell::Computer) {
            p.lemma_after_drop_wf(col, Cell::Computer);
            if terminal_score(q) is Some {
                lemma_terminal_score_bound(q);
            } else {
                lemma_player_mean_bound(q, depth - 1);
            }
        }
        lemma_best_scan_finds_win(p, depth, col + 1, next, wcol);
    }
}

/// When the computer can complete a line of four with its next drop, the
/// search picks a column that completes one.
pub proof fn lemma_takes_immediate_win(p: Position, col: int)
    requires
        p.wf(),
        wins_at_once(p, col),
    ensures
        wins_at_once(p, chosen_column(p)),
{
    p.lemma_moves_bound();
    assert(0 <= col < NUM_COLUMNS);
    lemma_best_scan_finds_win(p, NUM_ITERATION as int, 0, (0, NO_MOVE_SCORE as int), col);
}

/// The computer can drop into column `col` of `p`.
pub open spec fn is_open(p: Position, col: int) -> bool {
    p.after_drop(col, Cell::Computer) is Some
}

/// A finished position scores at least the quickest possible loss.
proof fn lemma_terminal_score_lower(q: Position)
    requires
        q.wf(),
        terminal_score(q) is Some,
    ensures
        terminal_score(q)->0 >= -MAX_SCORE,
{
    q.lemma_moves_bound();
}

/// On a game in progress, the search scores at least the quickest possible
/// loss and, with depth left, picks a column that takes a piece.
proof fn lemma_computer_best_lower(p: Position, depth: int)
    requires
        p.wf(),
        p.outcome() is None,
    ensures
        computer_best(p, depth).1 >= -MAX_SCORE,
        depth >= 1 ==> is_open(p, computer_best(p, depth).0),
    decreases depth + 1, 2int, 0int,
{
    if depth > 0 {
        p.lemma_outcome_none();
        p.lemma_open_column(Cell::Computer);
        let c = choose|c: int| 0 <= c < NUM_COLUMNS && #[trigger] p.after_drop(c, Cell::Computer) is Some;
        lemma_best_scan_lower(p, depth, 0, (0, NO_MOVE_SCORE as int), c);
    }
}

proof fn lemma_best_scan_lower(p: Position, depth: int, col: int, best: (int, int), open: int)
    requires
        p.wf(),
        p.outcome() is None,
        depth >= 1,
        best.1 >= -MAX_SCORE ==> is_open(p, best.0),
        best.1 >= -MAX_SCORE || (col <= open < NUM_COLUMNS && is_open(p, open)),
    ensures
        best_scan(p, depth, col, best).1 >= -MAX_SCORE,
        is_open(p, best_scan(p, depth, col, best).0),
    decreases depth + 1, 1int, NUM_COLUMNS - col,
{
    if col < NUM_COLUMNS {
        let next = match p.after_drop(col, Cell::Computer) {
            None => best,
            Some(q) => {
                let s = match terminal_score(q) {
                    Some(x) => x,
                    None => player_mean(q, depth - 1),
                };
                if s > best.1 {
                    (col, s)
                } else {
                    best
                }
            },
        };
        if let Some(q) = p.after_drop(col, Cell::Computer) {
            p.lemma_after_drop_wf(col, Cell::Computer);
            if terminal_score(q) is Some {
                lemma_terminal_score_lower(q);
            } else {
                lemma_player_mean_lower(q, depth - 1);
            }
        }
        lemma_best_scan_lower(p, depth, col + 1, next, open);
    }
}

proof fn lemma_player_mean_lower(p: Position, depth: int)
    requires
        p.wf(),
    ensures
        player_mean(p, depth) >= -MAX_SCORE,
    decreases depth + 1, 2int, 0int,
{
    if depth >= 0 {
        lemma_mean_scan_lower(p, depth, 0, 0, 0);
    }
}

proof fn lemma_mean_scan_lower(p: Position, depth: int, col: int, sum: int, count: int)
    requires
        p.wf(),
        count >= 0,
        sum >= count * -MAX_SCORE,
    ensures
        mean_scan(p, depth, col, sum, count) >= -MAX_SCORE,
    decreases depth + 1, 1int, NUM_COLUMNS - col,
{
    if col >= NUM_COLUMNS || depth < 0 {
        if count > 0 {
            vstd::arithmetic::div_mod::lemma_fundamental_div_mod(sum, count);
            let q = sum / count;
            if q < -MAX_SCORE {
                assert(q * count <= (-MAX_SCORE - 1) * count) by (nonlinear_arith)
                    requires
                        q <= -MAX_SCORE - 1,
                        count > 0,
                ;
                assert((-MAX_SCORE - 1) * count == count * -MAX_SCORE - count) by (nonlinear_arith);
            }
        }
    } else {
        match p.after_drop(col, Cell::Player) {
            None => lemma_mean_scan_lower(p, depth, col + 1, sum, count),
            Some(q) => {
                p.lemma_after_drop_wf(col, Cell::Player);
                if terminal_score(q) is Some {
                    lemma_terminal_score_lower(q);
                } else {
                    if depth - 1 >= 1 {
                        lemma_computer_best_lower(q, depth - 1);
                    }
                    assert((count + 1) * -MAX_SCORE == count * -MAX_SCORE + -MAX_SCORE) by (nonlinear_arith);
                    lemma_mean_scan_lower(
                        p,
                        depth,
                        col + 1,
                        sum + computer_best(q, depth - 1).1,
                        count + 1,
                    );
                }
            },
        }
    }
}

/// On a game in progress the search picks a column that takes a piece.
pub proof fn lemma_search_picks_open_column(p: Position)
    requires
        p.wf(),
        p.outcome() is None,
    ensures
        is_open(p, chosen_column(p)),
{
    lemma_computer_best_lower(p, NUM_ITERATION as int);
}

/// Generate a score if the board has an outcome, with winning in the least
/// number of moves being the best
fn score_board(board: &Board) -> (r: Option<i64>)
    ensures
        match r {
            Some(x) => terminal_score(board@) == Some(x as int) && -MAX_SCORE <= x <= MAX_SCORE,
            None => terminal_score(board@) is None,
        },
{
    proof {
        use_type_invariant(board);
        board@.lemma_moves_bound();
    }
    let moves = board.num_moves_made() as i64;
    match board.check_winner() {
        Some(GameResult::ComputerWins) => Some(SCORE_UNIT * (BASE_SCORE - moves)),
        Some(GameResult::Draw) => Some(0),
        Some(GameResult::PlayerWins) => Some(SCORE_UNIT * (moves - BASE_SCORE)),
        None => None,
    }
}

/// Finds the best scored move the computer can make for the given board,
/// returning the best column and score
pub fn best_computer_move(board: &Board, remaining_iterations: i32) -> (r: (usize, i64))
    ensures
        (r.0 as int, r.1 as int) == computer_best(board@, remaining_iterations as int),
        r.0 < NUM_COLUMNS,
        score_in_range(r.1 as int),
    decreases remaining_iterations + 1,
{
    if remaining_iterations <= 0 {
        return (0, 0);
    }
    let mut max_score: i64 = NO_MOVE_SCORE;
    let mut best_col: usize = 0;
    let mut col: usize = 0;
    while col < NUM_COLUMNS
        invariant
            col <= NUM_COLUMNS,
            remaining_iterations >= 1,
            best_col < NUM_COLUMNS,
            score_in_range(max_score as int),
            best_scan(board@, remaining_iterations as int, col as int, (best_col as int, max_score as int))
                == computer_best(board@, remaining_iterations as int),
        decreases NUM_COLUMNS - col,
    {
        let mut new_board = board.clone();
        if new_board.computer_move(col) {
            let score = match score_board(&new_board) {
                Some(x) => x,
                None => simulate_player_move(&new_board, remaining_iterations - 1),
            };
            if score > max_score {
                max_score = score;
                best_col = col;
            }
        }
        col += 1;
    }
    (best_col, max_score)
}

/// Simulates a player move averaging the scores for all valid player moves
/// that don't end the game. If a player wins, it assumes the player will make
/// that move.
fn simulate_player_move(board: &Board, remaining_iterations: i32) -> (r: i64)
    requires
        remaining_iterations >= 0,
    ensures
        r == player_mean(board@, remaining_iterations as int),
        score_in_range(r as int),
    decreases remaining_iterations + 1,
{
    let mut score_sum: i64 = 0;
    let mut count: i64 = 0;
    let mut col: usize = 0;
    while col < NUM_COLUMNS
        invariant
            col <= NUM_COLUMNS,
            remaining_iterations >= 0,
            0 <= count <= col,
            count * NO_MOVE_SCORE <= score_sum <= count * MAX_SCORE,
            mean_scan(board@, remaining_iterations as int, col as int, score_sum as int, count as int)
                == player_mean(board@, remaining_iterations as int),
        decreases NUM_COLUMNS - col,
    {
        let mut new_board = board.clone();
        if new_board.player_move(col) {
            if let Some(score) = score_board(&new_board) {
                // The game has an outcome, assume the player will make that move
                return score;
            } else {
                // Take the average across the possible player moves
                let (_, score) = best_computer_move(&new_board, remaining_iterations - 1);
                proof {
                    assert((count + 1) * NO_MOVE_SCORE == count * NO_MOVE_SCORE + NO_MOVE_SCORE)
                        by (nonlinear_arith);
                    assert((count + 1) * MAX_SCORE == count * MAX_SCORE + MAX_SCORE)
                        by (nonlinear_arith);
                    assert(count * MAX_SCORE <= NUM_COLUMNS * MAX_SCORE) by (nonlinear_arith)
                        requires
                            count <= NUM_COLUMNS,
                            MAX_SCORE > 0,
                    ;
                    assert(count * NO_MOVE_SCORE >= NUM_COLUMNS * NO_MOVE_SCORE) by (nonlinear_arith)
                        requires
                            0 <= count <= NUM_COLUMNS,
                            NO_MOVE_SCORE < 0,
                    ;
                }
                score_sum += score;
                count += 1;
            }
        }
        col += 1;
    }
    mean_score(score_sum, count)
}

/// The column that the computer plays on the given board.
pub fn best_move(board: &Board) -> (r: usize)
    ensures
        r == chosen_column(board@),
        r < NUM_COLUMNS,
{
    let (best_col, _) = best_computer_move(board, NUM_ITERATION);
    best_col
}

/// Makes the computer's move on the given board, unless the game is over
pub fn make_move(board: &mut Board)
    ensures
        old(board)@.outcome() is Some ==> final(board)@ == old(board)@,
        old(board)@.outcome() is None ==> old(board)@.after_drop(
            chosen_column(old(board)@),
            Cell::Computer,
        ) == Some(final(board)@),
{
    proof {
        use_type_invariant(&*board);
        if board@.outcome() is None {
            lemma_search_picks_open_column(board@);
        }
    }
    if board.check_winner().is_some() {
        return;
    }
    let (best_col, _) = best_computer_move(board, NUM_ITERATION);
    board.computer_move(best_col);
}

} // verus!
