//! The course of a game between the player and the computer: whose turn it
//! is, who starts the next game, and the tally of games won and lost.
use vstd::prelude::*;
use crate::board::{Board, Cell, GameResult, Position};

verus! {

/// The side whose move comes next.
#[derive(Clone, Copy, Debug, PartialEq, Eq, Structural)]
pub enum Turn {
    Player,
    Computer,
}

/// What can happen to a game.
#[derive(Clone, Copy, Debug, PartialEq, Eq, Structural)]
pub enum Msg {
    /// The player asks to drop a piece into the column.
    ColumnClick(usize),
    /// The computer has picked the column.
    ComputerMakeMove(usize),
    /// A new game is asked for.
    ResetGame,
}

/// A game in course, with the tally of the games before it.
pub struct Game {
    pub board: Board,
    pub turn: Turn,
    pub who_starts: Turn,
    pub wins: u32,
    pub losses: u32,
}

/// The other side.
pub open spec fn other(t: Turn) -> Turn {
    match t {
        Turn::Player => Turn::Computer,
        Turn::Computer => Turn::Player,
    }
}

/// One more, staying at the largest value.
pub open spec fn bump(n: u32) -> u32 {
    if n < u32::MAX {
        (n + 1) as u32
    } else {
        n
    }
}

/// The new tally `(wins, losses)` after a move that left `p`.
pub open spec fn tally_after(wins: u32, losses: u32, p: Position) -> (u32, u32) {
    match p.outcome() {
        Some(GameResult::PlayerWins) => (bump(wins), losses),
        Some(GameResult::ComputerWins) => (wins, bump(losses)),
        _ => (wins, losses),
    }
}

impl Default for Game {
    fn default() -> (r: Self)
        ensures
            r.board@ == Position::empty(),
            r.turn == Turn::Player,
            r.who_starts == Turn::Player,
            r.wins == 0,
            r.losses == 0,
    {
        Self {
            board: Board::new(),
            turn: Turn::Player,
            who_starts: Turn::Player,
            wins: 0,
            losses: 0,
        }
    }
}

impl Game {
    /// The move of `side` into `col` that `msg` asks for, if it may be made:
    /// it is that side's turn, the game is not over, and the column takes a
    /// piece.
    pub open spec fn accepted_move(self, side: Turn, col: int) -> Option<Position> {
        if self.turn == side && self.board@.outcome() is None {
            self.board@.after_drop(
                col,
                match side {
                    Turn::Player => Cell::Player,
                    Turn::Computer => Cell::Computer,
                },
            )
        } else {
            None
        }
    }

    /// Applies `msg` to the game. Returns true when the computer is to be
    /// asked for its move.
    pub fn update(&mut self, msg: Msg) -> (r: bool)
        ensures
            match msg {
                Msg::ColumnClick(col) => match old(self).accepted_move(Turn::Player, col as int) {
                    Some(p) => {
                        &&& final(self).board@ == p
                        &&& final(self).turn == Turn::Computer
                        &&& final(self).who_starts == old(self).who_starts
                        &&& (final(self).wins, final(self).losses) == tally_after(
                            old(self).wins,
                            old(self).losses,
                            p,
                        )
                        &&& r
                    },
                    None => {
                        &&& final(self).board@ == old(self).board@
                        &&& final(self).turn == old(self).turn
                        &&& final(self).who_starts == old(self).who_starts
                        &&& final(self).wins == old(self).wins
                        &&& final(self).losses == old(self).losses
                        &&& !r
                    },
                },
                Msg::ComputerMakeMove(col) => match old(self).accepted_move(
                    Turn::Computer,
                    col as int,
                ) {
                    Some(p) => {
                        &&& final(self).board@ == p
                        &&& final(self).turn == Turn::Player
                        &&& final(self).who_starts == old(self).who_starts
                        &&& (final(self).wins, final(self).losses) == tally_after(
                            old(self).wins,
                            old(self).losses,
                            p,
                        )
                        &&& !r
                    },
                    None => {
                        &&& final(self).board@ == old(self).board@
                        &&& final(self).turn == old(self).turn
                        &&& final(self).who_starts == old(self).who_starts
                        &&& final(self).wins == old(self).wins
                        &&& final(self).losses == old(self).losses
                        &&& !r
                    },
                },
                Msg::ResetGame => {
                    &&& final(self).board@ == Position::empty()
                    &&& final(self).who_starts == other(old(self).who_starts)
                    &&& final(self).turn == final(self).who_starts
                    &&& final(self).wins == old(self).wins
                    &&& final(self).losses == old(self).losses
                    &&& r == (final(self).turn == Turn::Computer)
                },
            },
    {
        let mut move_made = false;
        let mut ask_computer = false;
        match msg {
            Msg::ColumnClick(col) => {
                if self.turn == Turn::Player && self.board.check_winner().is_none() {
                    if self.board.player_move(col) {
                        move_made = true;
                        self.turn = Turn::Computer;
                        ask_computer = true;
                    }
                }
            },
            Msg::ComputerMakeMove(col) => {
                if self.turn == Turn::Computer && self.board.check_winner().is_none() {
                    if self.board.computer_move(col) {
                        move_made = true;
                        self.turn = Turn::Player;
                    }
                }
            },
            Msg::ResetGame => {
                self.board = Board::new();
                // Take turns starting
                self.who_starts = match self.who_starts {
                    Turn::Player => Turn::Computer,
                    Turn::Computer => Turn::Player,
                };
                self.turn = self.who_starts;
                ask_computer = self.turn == Turn::Computer;
            },
        }
        if move_made {
            match self.board.check_winner() {
                Some(GameResult::PlayerWins) => self.wins = self.wins.saturating_add(1),
                Some(GameResult::ComputerWins) => self.losses = self.losses.saturating_add(1),
                _ => (),
            }
        }
        ask_computer
    }
}

} // verus!
