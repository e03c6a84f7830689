//! The Connect 4 board: a fixed grid of cells that pieces fall into, and the
//! detection of a finished game.
use vstd::prelude::*;

verus! {

/// Number of columns of the grid.
pub const NUM_COLUMNS: usize = 7;

/// Number of rows of the grid. Row 0 is the top row; pieces fall towards the
/// last row.
pub const NUM_ROWS: usize = 6;

/// The content of one cell of the grid.
#[derive(Clone, Copy, Debug, PartialEq, Eq, Structural)]
pub enum Cell {
    Empty,
    Computer,
    Player,
}

/// The outcome of a finished game.
#[derive(Clone, Copy, Debug, PartialEq, Eq, Structural)]
pub enum GameResult {
    PlayerWins,
    ComputerWins,
    Draw,
}

/// Whether `(r, c)` names a cell of the grid.
pub open spec fn in_grid(r: int, c: int) -> bool {
    0 <= r < NUM_ROWS && 0 <= c < NUM_COLUMNS
}

/// The win that a line of pieces of `side` gives (none for empty cells).
pub open spec fn win_for(side: Cell) -> Option<GameResult> {
    match side {
        Cell::Player => Some(GameResult::PlayerWins),
        Cell::Computer => Some(GameResult::ComputerWins),
        Cell::Empty => None,
    }
}

/// The number of occupied cells in a row.
pub open spec fn count_row(row: Seq<Cell>) -> nat
    decreases row.len(),
{
    if row.len() == 0 {
        0
    } else {
        count_row(row.drop_last()) + if row.last() == Cell::Empty {
            0nat
        } else {
            1nat
        }
    }
}

/// The number of occupied cells in a sequence of rows.
pub open spec fn count_rows(rows: Seq<Seq<Cell>>) -> nat
    decreases rows.len(),
{
    if rows.len() == 0 {
        0
    } else {
        count_rows(rows.drop_last()) + count_row(rows.last())
    }
}

/// The abstract content of a board: `cells[r][c]` is the cell at row `r` and
/// column `c`, and `moves_made` counts the pieces dropped so far.
pub struct Position {
    pub cells: Seq<Seq<Cell>>,
    pub moves_made: nat,
}

impl Position {
    /// The cell at row `r` and column `c`.
    pub open spec fn cell(self, r: int, c: int) -> Cell {
        self.cells[r][c]
    }

    /// The position of a new game: every cell empty, no move made.
    pub open spec fn empty() -> Position {
        Position {
            cells: Seq::new(NUM_ROWS as nat, |r: int| Seq::new(NUM_COLUMNS as nat, |c: int| Cell::Empty)),
            moves_made: 0,
        }
    }

    /// A well-formed position: the grid has its fixed size, no empty cell lies
    /// below an occupied one, and `moves_made` counts the occupied cells.
    pub open spec fn wf(self) -> bool {
        &&& self.cells.len() == NUM_ROWS
        &&& forall|r: int| 0 <= r < NUM_ROWS ==> #[trigger] self.cells[r].len() == NUM_COLUMNS
        &&& forall|r1: int, r2: int, c: int|
            0 <= r1 <= r2 < NUM_ROWS && 0 <= c < NUM_COLUMNS && #[trigger] self.cell(r1, c)
                != Cell::Empty ==> #[trigger] self.cell(r2, c) != Cell::Empty
        &&& self.moves_made == count_rows(self.cells)
    }

    /// Every cell of the grid is occupied.
    pub open spec fn is_full(self) -> bool {
        self.moves_made >= NUM_ROWS * NUM_COLUMNS
    }

    /// The row that a piece dropped into column `c` comes to rest on, among
    /// the rows above row `r`: the lowest empty one, or -1 when all are taken.
    pub open spec fn landing_row_above(self, c: int, r: int) -> int
        decreases r,
    {
        if r <= 0 {
            -1
        } else if self.cell(r - 1, c) == Cell::Empty {
            r - 1
        } else {
            self.landing_row_above(c, r - 1)
        }
    }

    /// The row that a piece dropped into column `c` comes to rest on, or -1
    /// when the column is full.
    pub open spec fn landing_row(self, c: int) -> int {
        self.landing_row_above(c, NUM_ROWS as int)
    }

    /// The position with a piece of `side` put at `(r, c)`.
    pub open spec fn place(self, r: int, c: int, side: Cell) -> Position {
        Position {
            cells: self.cells.update(r, self.cells[r].update(c, side)),
            moves_made: self.moves_made + 1,
        }
    }

    /// The position after `side` drops a piece into column `c`; `None` when
    /// the column does not exist or is full.
    pub open spec fn after_drop(self, c: int, side: Cell) -> Option<Position> {
        if 0 <= c < NUM_COLUMNS && self.landing_row(c) >= 0 {
            Some(self.place(self.landing_row(c), c, side))
        } else {
            None
        }
    }

    /// Four equal occupied cells from `(r, c)` in direction `(dr, dc)`.
    pub open spec fn line_from(self, r: int, c: int, dr: int, dc: int) -> bool {
        &&& in_grid(r, c)
        &&& in_grid(r + 3 * dr, c + 3 * dc)
        &&& self.cell(r, c) != Cell::Empty
        &&& self.cell(r + dr, c + dc) == self.cell(r, c)
        &&& self.cell(r + 2 * dr, c + 2 * dc) == self.cell(r, c)
        &&& self.cell(r + 3 * dr, c + 3 * dc) == self.cell(r, c)
    }

    /// A line of four starts at `(r, c)`: to the right, downwards, or along
    /// either diagonal downwards.
    pub open spec fn starts_line(self, r: int, c: int) -> bool {
        ||| self.line_from(r, c, 0, 1)
        ||| self.line_from(r, c, 1, 0)
        ||| self.line_from(r, c, 1, 1)
        ||| self.line_from(r, c, 1, -1)
    }

    /// `side` has a line of four somewhere on the grid.
    pub open spec fn has_line(self, side: Cell) -> bool {
        exists|r: int, c: int| #[trigger] self.starts_line(r, c) && self.cell(r, c) == side
    }

    /// The side owning the first line of four met when reading the cells row
    /// by row, from `(r, c)` on.
    pub open spec fn first_line_from(self, r: int, c: int) -> Option<Cell>
        decreases NUM_ROWS - r, NUM_COLUMNS - c,
    {
        if r >= NUM_ROWS {
            None
        } else if c >= NUM_COLUMNS {
            self.first_line_from(r + 1, 0)
        } else if self.starts_line(r, c) {
            Some(self.cell(r, c))
        } else {
            self.first_line_from(r, c + 1)
        }
    }

    /// The outcome of the position: the win of the side owning the first line
    /// of four in reading order, else a draw on a full grid, else none.
    pub open spec fn outcome(self) -> Option<GameResult> {
        match self.first_line_from(0, 0) {
            Some(side) if side != Cell::Empty => win_for(side),
            _ => if self.is_full() {
                Some(GameResult::Draw)
            } else {
                None
            },
        }
    }
}

/// A Connect 4 board.
#[derive(Clone, Copy)]
pub struct Board {
    cells: [[Cell; NUM_COLUMNS]; NUM_ROWS],
    moves_made: usize,
}

impl View for Board {
    type V = Position;

    closed spec fn view(&self) -> Position {
        position_of(self.cells, self.moves_made as nat)
    }
}

/// The position that a grid of cells and a move count stand for.
pub open spec fn position_of(cells: [[Cell; NUM_COLUMNS]; NUM_ROWS], moves_made: nat) -> Position {
    Position { cells: Seq::new(NUM_ROWS as nat, |r: int| cells[r]@), moves_made }
}

proof fn lemma_count_row_update(row: Seq<Cell>, i: int, side: Cell)
    requires
        0 <= i < row.len(),
        row[i] == Cell::Empty,
        side != Cell::Empty,
    ensures
        count_row(row.update(i, side)) == count_row(row) + 1,
    decreases row.len(),
{
    let u = row.update(i, side);
    if i < row.len() - 1 {
        assert(u.drop_last() =~= row.drop_last().update(i, side));
        lemma_count_row_update(row.drop_last(), i, side);
    } else {
        assert(u.drop_last() =~= row.drop_last());
    }
}

proof fn lemma_count_rows_update(rows: Seq<Seq<Cell>>, i: int, row: Seq<Cell>)
    requires
        0 <= i < rows.len(),
    ensures
        count_rows(rows.update(i, row)) + count_row(rows[i]) == count_rows(rows) + count_row(row),
    decreases rows.len(),
{
    let u = rows.update(i, row);
    if i < rows.len() - 1 {
        assert(u.drop_last() =~= rows.drop_last().update(i, row));
        lemma_count_rows_update(rows.drop_last(), i, row);
    } else {
        assert(u.drop_last() =~= rows.drop_last());
    }
}

proof fn lemma_count_row_bound(row: Seq<Cell>)
    ensures
        count_row(row) <= row.len(),
    decreases row.len(),
{
    if row.len() > 0 {
        lemma_count_row_bound(row.drop_last());
    }
}

proof fn lemma_count_rows_bound(rows: Seq<Seq<Cell>>)
    requires
        forall|r: int| 0 <= r < rows.len() ==> #[trigger] rows[r].len() == NUM_COLUMNS,
    ensures
        count_rows(rows) <= rows.len() * NUM_COLUMNS,
    decreases rows.len(),
{
    if rows.len() > 0 {
        lemma_count_rows_bound(rows.drop_last());
        lemma_count_row_bound(rows.last());
    }
}

proof fn lemma_count_row_empty(n: nat)
    ensures
        count_row(Seq::new(n, |c: int| Cell::Empty)) == 0,
    decreases n,
{
    if n > 0 {
        assert(Seq::new(n, |c: int| Cell::Empty).drop_last() =~= Seq::new(
            (n - 1) as nat,
            |c: int| Cell::Empty,
        ));
        lemma_count_row_empty((n - 1) as nat);
    }
}

proof fn lemma_count_rows_empty(n: nat)
    ensures
        count_rows(Seq::new(n, |r: int| Seq::new(NUM_COLUMNS as nat, |c: int| Cell::Empty))) == 0,
    decreases n,
{
    if n > 0 {
        let rows = Seq::new(n, |r: int| Seq::new(NUM_COLUMNS as nat, |c: int| Cell::Empty));
        assert(rows.drop_last() =~= Seq::new(
            (n - 1) as nat,
            |r: int| Seq::new(NUM_COLUMNS as nat, |c: int| Cell::Empty),
        ));
        lemma_count_rows_empty((n - 1) as nat);
        lemma_count_row_empty(NUM_COLUMNS as nat);
    }
}

proof fn lemma_count_row_full(row: Seq<Cell>)
    requires
        forall|c: int| 0 <= c < row.len() ==> #[trigger] row[c] != Cell::Empty,
    ensures
        count_row(row) == row.len(),
    decreases row.len(),
{
    if row.len() > 0 {
        let rest = row.drop_last();
        assert forall|c: int| 0 <= c < rest.len() implies #[trigger] rest[c] != Cell::Empty by {
            assert(row[c] != Cell::Empty);
        }
        lemma_count_row_full(rest);
    }
}

proof fn lemma_count_rows_full(rows: Seq<Seq<Cell>>, n: nat)
    requires
        n <= rows.len(),
        forall|r: int| 0 <= r < rows.len() ==> #[trigger] rows[r].len() == NUM_COLUMNS,
        forall|r: int, c: int|
            0 <= r < rows.len() && 0 <= c < NUM_COLUMNS ==> #[trigger] rows[r][c] != Cell::Empty,
    ensures
        count_rows(rows.subrange(0, n as int)) == n * NUM_COLUMNS,
    decreases n,
{
    if n > 0 {
        let sub = rows.subrange(0, n as int);
        assert(sub.drop_last() =~= rows.subrange(0, n - 1));
        lemma_count_rows_full(rows, (n - 1) as nat);
        let last = rows[n - 1];
        assert forall|c: int| 0 <= c < last.len() implies #[trigger] last[c] != Cell::Empty by {
            assert(rows[n - 1][c] != Cell::Empty);
        }
        lemma_count_row_full(last);
        assert(sub.last() == last);
        assert((n - 1) * NUM_COLUMNS + NUM_COLUMNS == n * NUM_COLUMNS) by (nonlinear_arith);
    }
}

impl Position {
    /// A well-formed position holds at most one piece per cell.
    pub proof fn lemma_moves_bound(self)
        requires
            self.wf(),
        ensures
            self.moves_made <= NUM_ROWS * NUM_COLUMNS,
    {
        lemma_count_rows_bound(self.cells);
    }

    /// The empty position is well-formed.
    pub proof fn lemma_empty_wf()
        ensures
            Position::empty().wf(),
    {
        lemma_count_rows_empty(NUM_ROWS as nat);
    }

    /// The landing row is empty, and every row between it and row `r` is taken.
    pub proof fn lemma_landing_row_above(self, c: int, r: int)
        requires
            0 <= r <= NUM_ROWS,
        ensures
            -1 <= self.landing_row_above(c, r) < r,
            self.landing_row_above(c, r) >= 0 ==> self.cell(self.landing_row_above(c, r), c)
                == Cell::Empty,
            forall|k: int|
                self.landing_row_above(c, r) < k < r && k >= 0 ==> #[trigger] self.cell(k, c)
                    != Cell::Empty,
        decreases r,
    {
        if r > 0 && self.cell(r - 1, c) != Cell::Empty {
            self.lemma_landing_row_above(c, r - 1);
        }
    }

    /// Putting a piece at `(r, c)` changes that cell alone.
    pub proof fn lemma_place_cells(self, r: int, c: int, side: Cell)
        requires
            self.wf(),
            in_grid(r, c),
        ensures
            forall|r1: int, c1: int|
                in_grid(r1, c1) ==> #[trigger] self.place(r, c, side).cell(r1, c1) == if r1 == r
                    && c1 == c {
                    side
                } else {
                    self.cell(r1, c1)
                },
            self.place(r, c, side).cells.len() == NUM_ROWS,
            forall|r1: int|
                0 <= r1 < NUM_ROWS ==> #[trigger] self.place(r, c, side).cells[r1].len()
                    == NUM_COLUMNS,
    {
        assert forall|r1: int| 0 <= r1 < NUM_ROWS implies #[trigger] self.place(
            r,
            c,
            side,
        ).cells[r1].len() == NUM_COLUMNS by {
            assert(self.cells[r1].len() == NUM_COLUMNS);
        }
    }

    /// A piece put on an empty cell resting on an occupied one (or on the
    /// last row) keeps every column free of gaps.
    proof fn lemma_place_gravity(self, r: int, c: int, side: Cell)
        requires
            self.wf(),
            in_grid(r, c),
            self.cell(r, c) == Cell::Empty,
            side != Cell::Empty,
            r + 1 < NUM_ROWS ==> self.cell(r + 1, c) != Cell::Empty,
        ensures
            forall|r1: int, r2: int, c1: int|
                0 <= r1 <= r2 < NUM_ROWS && 0 <= c1 < NUM_COLUMNS && #[trigger] self.place(
                    r,
                    c,
                    side,
                ).cell(r1, c1) != Cell::Empty ==> #[trigger] self.place(r, c, side).cell(r2, c1)
                    != Cell::Empty,
    {
        let q = self.place(r, c, side);
        self.lemma_place_cells(r, c, side);
        assert forall|r1: int, r2: int, c1: int|
            0 <= r1 <= r2 < NUM_ROWS && 0 <= c1 < NUM_COLUMNS && #[trigger] q.cell(r1, c1)
                != Cell::Empty implies #[trigger] q.cell(r2, c1) != Cell::Empty by {
            assert(in_grid(r1, c1) && in_grid(r2, c1));
            if c1 == c && r2 == r {
                if r1 < r {
                    assert(self.cell(r1, c1) != Cell::Empty);
                    assert(self.cell(r, c1) != Cell::Empty);
                }
            } else if c1 == c && r1 == r {
                if r2 > r {
                    assert(self.cell(r + 1, c1) != Cell::Empty);
                    assert(self.cell(r2, c1) != Cell::Empty);
                }
            } else {
                assert(self.cell(r1, c1) != Cell::Empty);
            }
        }
    }

    /// Dropping a piece into a well-formed position gives a well-formed position
    /// with one more move.
    pub proof fn lemma_after_drop_wf(self, c: int, side: Cell)
        requires
            self.wf(),
            side != Cell::Empty,
            self.after_drop(c, side) is Some,
        ensures
            self.after_drop(c, side)->0.wf(),
            self.after_drop(c, side)->0.moves_made == self.moves_made + 1,
    {
        let r = self.landing_row(c);
        self.lemma_landing_row_above(c, NUM_ROWS as int);
        assert(r + 1 < NUM_ROWS ==> self.cell(r + 1, c) != Cell::Empty);
        self.lemma_place_cells(r, c, side);
        self.lemma_place_gravity(r, c, side);
        lemma_count_row_update(self.cells[r], c, side);
        lemma_count_rows_update(self.cells, r, self.cells[r].update(c, side));
    }
}

/// The position after `side[0]`, `side[1]`, ... each drop a piece into
/// column `col`, in order; `None` as soon as one drop fails.
pub open spec fn drop_all(p: Position, col: int, sides: Seq<Cell>) -> Option<Position>
    decreases sides.len(),
{
    if sides.len() == 0 {
        Some(p)
    } else {
        match p.after_drop(col, sides[0]) {
            Some(q) => drop_all(q, col, sides.drop_first()),
            None => None,
        }
    }
}

/// The position after the drops `moves[0]`, `moves[1]`, ... in order, each a
/// column and a side; a drop that fails leaves the position as it was.
pub open spec fn play(p: Position, moves: Seq<(int, Cell)>) -> Position
    decreases moves.len(),
{
    if moves.len() == 0 {
        p
    } else {
        let next = match p.after_drop(moves[0].0, moves[0].1) {
            Some(q) => q,
            None => p,
        };
        play(next, moves.drop_first())
    }
}

/// How many of the drops `moves`, played in order from `p`, succeed.
pub open spec fn successful_drops(p: Position, moves: Seq<(int, Cell)>) -> nat
    decreases moves.len(),
{
    if moves.len() == 0 {
        0
    } else {
        match p.after_drop(moves[0].0, moves[0].1) {
            Some(q) => 1 + successful_drops(q, moves.drop_first()),
            None => successful_drops(p, moves.drop_first()),
        }
    }
}

/// The other side.
pub open spec fn opponent(side: Cell) -> Cell {
    match side {
        Cell::Player => Cell::Computer,
        Cell::Computer => Cell::Player,
        Cell::Empty => Cell::Empty,
    }
}

impl Position {
    /// Column `col` holds exactly `k` pieces, in its lowest `k` rows.
    pub open spec fn column_holds(self, col: int, k: int) -> bool {
        forall|r: int|
            0 <= r < NUM_ROWS ==> (#[trigger] self.cell(r, col) == Cell::Empty <==> r < NUM_ROWS
                - k)
    }

    /// Column `col` is empty down to some row and occupied from there on.
    pub open spec fn settled(self, col: int) -> bool {
        exists|k: int| 0 <= k <= NUM_ROWS && #[trigger] self.column_holds(col, k)
    }

    proof fn lemma_landing_row_of_column(self, col: int, k: int)
        requires
            0 <= k <= NUM_ROWS,
            self.column_holds(col, k),
        ensures
            self.landing_row(col) == NUM_ROWS - 1 - k,
    {
        self.lemma_landing_row_above(col, NUM_ROWS as int);
        let l = self.landing_row(col);
        if l >= 0 {
            assert(self.cell(l, col) == Cell::Empty);
        }
        if k < NUM_ROWS {
            assert(self.cell(NUM_ROWS - 1 - k, col) == Cell::Empty);
        }
    }

    proof fn lemma_fill_column(self, col: int, k: int, sides: Seq<Cell>)
        requires
            self.wf(),
            0 <= col < NUM_COLUMNS,
            0 <= k <= NUM_ROWS,
            self.column_holds(col, k),
            sides.len() == NUM_ROWS - k,
            forall|i: int| 0 <= i < sides.len() ==> #[trigger] sides[i] != Cell::Empty,
        ensures
            drop_all(self, col, sides) is Some,
            drop_all(self, col, sides)->0.wf(),
            drop_all(self, col, sides)->0.column_holds(col, NUM_ROWS as int),
        decreases sides.len(),
    {
        self.lemma_landing_row_of_column(col, k);
        if sides.len() > 0 {
            let r = NUM_ROWS - 1 - k;
            let q = self.place(r, col, sides[0]);
            assert(sides[0] != Cell::Empty);
            self.lemma_after_drop_wf(col, sides[0]);
            self.lemma_place_cells(r, col, sides[0]);
            assert forall|r1: int| 0 <= r1 < NUM_ROWS implies (#[trigger] q.cell(r1, col)
                == Cell::Empty <==> r1 < NUM_ROWS - (k + 1)) by {
                assert(in_grid(r1, col));
            }
            let rest = sides.drop_first();
            assert forall|i: int| 0 <= i < rest.len() implies #[trigger] rest[i] != Cell::Empty by {
                assert(sides[i + 1] != Cell::Empty);
            }
            q.lemma_fill_column(col, k + 1, rest);
        }
    }

    /// An empty column takes one piece per row, whatever the sides, and then
    /// refuses every further piece.
    pub proof fn lemma_fill_empty_column(self, col: int, sides: Seq<Cell>, last: Cell)
        requires
            self.wf(),
            0 <= col < NUM_COLUMNS,
            forall|r: int| 0 <= r < NUM_ROWS ==> #[trigger] self.cell(r, col) == Cell::Empty,
            sides.len() == NUM_ROWS,
            forall|i: int| 0 <= i < sides.len() ==> #[trigger] sides[i] != Cell::Empty,
        ensures
            drop_all(self, col, sides) is Some,
            drop_all(self, col, sides)->0.after_drop(col, last) is None,
    {
        self.lemma_fill_column(col, 0, sides);
        drop_all(self, col, sides)->0.lemma_landing_row_of_column(col, NUM_ROWS as int);
    }

    /// After any drops from a well-formed position, the move count has grown
    /// by the number of drops that succeeded.
    pub proof fn lemma_moves_count_drops(self, moves: Seq<(int, Cell)>)
        requires
            self.wf(),
            forall|i: int| 0 <= i < moves.len() ==> (#[trigger] moves[i]).1 != Cell::Empty,
        ensures
            play(self, moves).wf(),
            play(self, moves).moves_made == self.moves_made + successful_drops(self, moves),
        decreases moves.len(),
    {
        if moves.len() > 0 {
            assert(moves[0].1 != Cell::Empty);
            let rest = moves.drop_first();
            assert forall|i: int| 0 <= i < rest.len() implies (#[trigger] rest[i]).1
                != Cell::Empty by {
                assert(moves[i + 1].1 != Cell::Empty);
            }
            match self.after_drop(moves[0].0, moves[0].1) {
                Some(q) => {
                    self.lemma_after_drop_wf(moves[0].0, moves[0].1);
                    q.lemma_moves_count_drops(rest);
                },
                None => {
                    self.lemma_moves_count_drops(rest);
                },
            }
        }
    }

    proof fn lemma_first_line_from(self, r: int, c: int)
        requires
            0 <= r,
            0 <= c <= NUM_COLUMNS,
        ensures
            self.first_line_from(r, c) is None <==> forall|r1: int, c1: int|
                in_grid(r1, c1) && (r1 > r || (r1 == r && c1 >= c)) ==> !#[trigger] self.starts_line(
                    r1,
                    c1,
                ),
            self.first_line_from(r, c) is Some ==> self.first_line_from(r, c)->0 != Cell::Empty
                && self.has_line(self.first_line_from(r, c)->0),
        decreases NUM_ROWS - r, NUM_COLUMNS - c,
    {
        if r >= NUM_ROWS {
        } else if c >= NUM_COLUMNS {
            self.lemma_first_line_from(r + 1, 0);
        } else if self.starts_line(r, c) {
        } else {
            self.lemma_first_line_from(r, c + 1);
        }
    }

    /// A well-formed position whose grid is not full has a column that takes
    /// a piece.
    pub proof fn lemma_open_column(self, side: Cell)
        requires
            self.wf(),
            !self.is_full(),
        ensures
            exists|c: int| 0 <= c < NUM_COLUMNS && #[trigger] self.after_drop(c, side) is Some,
    {
        if forall|r: int, c: int| in_grid(r, c) ==> #[trigger] self.cell(r, c) != Cell::Empty {
            assert forall|r: int, c: int|
                0 <= r < self.cells.len() && 0 <= c < NUM_COLUMNS implies #[trigger] self.cells[r][c]
                != Cell::Empty by {
                assert(self.cell(r, c) != Cell::Empty);
            }
            lemma_count_rows_full(self.cells, NUM_ROWS as nat);
            assert(self.cells.subrange(0, NUM_ROWS as int) =~= self.cells);
        }
        let (r, c) = choose|r: int, c: int| in_grid(r, c) && #[trigger] self.cell(r, c) == Cell::Empty;
        assert(self.cell(0, c) == Cell::Empty);
        self.lemma_landing_row_above(c, NUM_ROWS as int);
        if self.landing_row(c) < 0 {
            assert(self.cell(0, c) != Cell::Empty);
        }
        assert(self.after_drop(c, side) is Some);
    }

    /// A well-formed position has no outcome exactly when neither side has a
    /// line of four and the grid is not full.
    pub proof fn lemma_outcome_none(self)
        requires
            self.wf(),
        ensures
            self.outcome() is None <==> !self.has_line(Cell::Player) && !self.has_line(
                Cell::Computer,
            ) && !self.is_full(),
    {
        self.lemma_first_line_from(0, 0);
        if self.has_line(Cell::Player) || self.has_line(Cell::Computer) {
            let side = if self.has_line(Cell::Player) {
                Cell::Player
            } else {
                Cell::Computer
            };
            let (r, c) = choose|r: int, c: int| #[trigger] self.starts_line(r, c) && self.cell(r, c) == side;
            assert(self.starts_line(r, c));
        }
    }

    /// A new game has no outcome.
    pub proof fn lemma_empty_in_progress()
        ensures
            Position::empty().outcome() is None,
    {
        let p = Position::empty();
        Position::lemma_empty_wf();
        p.lemma_outcome_none();
        assert forall|r: int, c: int| !#[trigger] p.starts_line(r, c) by {
            if in_grid(r, c) {
                assert(p.cell(r, c) == Cell::Empty);
            }
        }
    }

    /// A line of four of one side gives that side the win, when the other side
    /// has no line.
    pub proof fn lemma_line_wins(self, r: int, c: int, dr: int, dc: int, side: Cell)
        requires
            self.wf(),
            self.line_from(r, c, dr, dc),
            self.cell(r, c) == side,
            (dr, dc) == (0int, 1int) || (dr, dc) == (1int, 0int) || (dr, dc) == (1int, 1int) || (
            dr, dc) == (1int, -1int),
            !self.has_line(opponent(side)),
        ensures
            self.outcome() == win_for(side),
    {
        assert(self.starts_line(r, c));
        self.lemma_first_line_from(0, 0);
        let s = self.first_line_from(0, 0)->0;
        assert(s == Cell::Player || s == Cell::Computer);
    }

    /// Four pieces of one side side by side in a row give that side the win,
    /// when the other side has no line.
    pub proof fn lemma_horizontal_win(self, r: int, c: int, side: Cell)
        requires
            self.wf(),
            in_grid(r, c),
            in_grid(r, c + 3),
            side != Cell::Empty,
            forall|i: int| 0 <= i < 4 ==> #[trigger] self.cell(r, c + i) == side,
            !self.has_line(opponent(side)),
        ensures
            self.outcome() == win_for(side),
    {
        assert(self.cell(r, c + 0) == side);
        assert(self.cell(r, c + 1) == side);
        assert(self.cell(r, c + 2) == side);
        assert(self.cell(r, c + 3) == side);
        self.lemma_line_wins(r, c, 0, 1, side);
    }

    /// Four pieces of one side stacked in a column give that side the win,
    /// when the other side has no line.
    pub proof fn lemma_vertical_win(self, r: int, c: int, side: Cell)
        requires
            self.wf(),
            in_grid(r, c),
            in_grid(r + 3, c),
            side != Cell::Empty,
            forall|i: int| 0 <= i < 4 ==> #[trigger] self.cell(r + i, c) == side,
            !self.has_line(opponent(side)),
        ensures
            self.outcome() == win_for(side),
    {
        assert(self.cell(r + 0, c) == side);
        assert(self.cell(r + 1, c) == side);
        assert(self.cell(r + 2, c) == side);
        assert(self.cell(r + 3, c) == side);
        self.lemma_line_wins(r, c, 1, 0, side);
    }

    /// Without a line of four, a well-formed position is a draw exactly when
    /// the last cell is filled, and has no outcome before.
    pub proof fn lemma_draw_when_full(self)
        requires
            self.wf(),
            !self.has_line(Cell::Player),
            !self.has_line(Cell::Computer),
        ensures
            self.outcome() == Some(GameResult::Draw) <==> self.moves_made == NUM_ROWS * NUM_COLUMNS,
            self.outcome() is None <==> self.moves_made < NUM_ROWS * NUM_COLUMNS,
    {
        self.lemma_moves_bound();
        self.lemma_first_line_from(0, 0);
        if self.first_line_from(0, 0) is Some {
            let s = self.first_line_from(0, 0)->0;
            assert(s == Cell::Player || s == Cell::Computer);
        }
    }
}

/// The win that four cells give when they are equal and occupied.
fn check_group(c1: Cell, c2: Cell, c3: Cell, c4: Cell) -> (r: Option<GameResult>)
    ensures
        r == if c1 == c2 && c2 == c3 && c3 == c4 {
            win_for(c1)
        } else {
            None
        },
{
    if (c1 == c2) && (c2 == c3) && (c3 == c4) {
        match c1 {
            Cell::Player => Some(GameResult::PlayerWins),
            Cell::Computer => Some(GameResult::ComputerWins),
            Cell::Empty => None,
        }
    } else {
        None
    }
}

impl Board {
    #[verifier::type_invariant]
    pub(crate) open spec fn inv(self) -> bool {
        self@.wf()
    }

    /// Create a new blank board
    pub fn new() -> (r: Self)
        ensures
            r@ == Position::empty(),
    {
        let cells = [[Cell::Empty;NUM_COLUMNS];NUM_ROWS];
        proof {
            Position::lemma_empty_wf();
            assert(position_of(cells, 0).cells =~~= Position::empty().cells);
        }
        Self { cells, moves_made: 0 }
    }

    /// Gets the state of the cell at the given location
    pub fn get_cell(&self, row: usize, col: usize) -> (r: &Cell)
        requires
            row < NUM_ROWS,
            col < NUM_COLUMNS,
        ensures
            *r == self@.cell(row as int, col as int),
    {
        &self.cells[row][col]
    }

    /// Player makes a move in the given column
    pub fn player_move(&mut self, col: usize) -> (r: bool)
        ensures
            r == old(self)@.after_drop(col as int, Cell::Player) is Some,
            final(self)@ == match old(self)@.after_drop(col as int, Cell::Player) {
                Some(p) => p,
                None => old(self)@,
            },
    {
        self.make_move(col, Cell::Player)
    }

    /// Computer makes a move in the given column
    pub fn computer_move(&mut self, col: usize) -> (r: bool)
        ensures
            r == old(self)@.after_drop(col as int, Cell::Computer) is Some,
            final(self)@ == match old(self)@.after_drop(col as int, Cell::Computer) {
                Some(p) => p,
                None => old(self)@,
            },
    {
        self.make_move(col, Cell::Computer)
    }

    /// Drops a piece of `cell` into column `col`: it lands on the lowest empty
    /// row. Returns false, leaving the board as it was, when the column does
    /// not exist or is full.
    fn make_move(&mut self, col: usize, cell: Cell) -> (r: bool)
        requires
            cell != Cell::Empty,
        ensures
            r == old(self)@.after_drop(col as int, cell) is Some,
            final(self)@ == match old(self)@.after_drop(col as int, cell) {
                Some(p) => p,
                None => old(self)@,
            },
    {
        proof {
            use_type_invariant(&*self);
            self@.lemma_moves_bound();
        }
        if col >= NUM_COLUMNS {
            return false;
        }
        let mut row: usize = NUM_ROWS;
        while row > 0
            invariant
                row <= NUM_ROWS,
                col < NUM_COLUMNS,
                *self == *old(self),
                cell != Cell::Empty,
                self@.wf(),
                self@.moves_made <= NUM_ROWS * NUM_COLUMNS,
                self@.landing_row(col as int) == self@.landing_row_above(col as int, row as int),
            decreases row,
        {
            row -= 1;
            if self.cells[row][col] == Cell::Empty {
                proof {
                    self@.lemma_after_drop_wf(col as int, cell);
                }
                let mut cells = self.cells;
                cells[row][col] = cell;
                let moves_made = self.moves_made + 1;
                proof {
                    let q = old(self)@.place(row as int, col as int, cell);
                    assert(position_of(cells, moves_made as nat).cells =~~= q.cells);
                }
                *self = Board { cells, moves_made };
                return true;
            }
        }
        false
    }

    /// The win given by a line of four starting at `(row, col)`, if any.
    fn line_at(&self, row: usize, col: usize) -> (r: Option<GameResult>)
        requires
            row < NUM_ROWS,
            col < NUM_COLUMNS,
        ensures
            r == if self@.starts_line(row as int, col as int) {
                win_for(self@.cell(row as int, col as int))
            } else {
                None
            },
    {
        let c1 = self.cells[row][col];
        if c1 == Cell::Empty {
            return None;
        }
        // Check for horizontal sequences
        if col < (NUM_COLUMNS - 3) {
            if let Some(result) = check_group(
                c1,
                self.cells[row][col + 1],
                self.cells[row][col + 2],
                self.cells[row][col + 3],
            ) {
                return Some(result);
            }
        }
        if row < (NUM_ROWS - 3) {
            // Check for vertical sequences
            if let Some(result) = check_group(
                c1,
                self.cells[row + 1][col],
                self.cells[row + 2][col],
                self.cells[row + 3][col],
            ) {
                return Some(result);
            }
            // Check for diagonal sequences
            if col < (NUM_COLUMNS - 3) {
                if let Some(result) = check_group(
                    c1,
                    self.cells[row + 1][col + 1],
                    self.cells[row + 2][col + 2],
                    self.cells[row + 3][col + 3],
                ) {
                    return Some(result);
                }
            }
            if col >= 3 {
                if let Some(result) = check_group(
                    c1,
                    self.cells[row + 1][col - 1],
                    self.cells[row + 2][col - 2],
                    self.cells[row + 3][col - 3],
                ) {
                    return Some(result);
                }
            }
        }
        None
    }

    /// Check to see if the game has a winner or a draw
    pub fn check_winner(&self) -> (r: Option<GameResult>)
        ensures
            r == self@.outcome(),
    {
        let mut row: usize = 0;
        while row < NUM_ROWS
            invariant
                row <= NUM_ROWS,
                self@.first_line_from(row as int, 0) == self@.first_line_from(0, 0),
            decreases NUM_ROWS - row,
        {
            let mut col: usize = 0;
            while col < NUM_COLUMNS
                invariant
                    row < NUM_ROWS,
                    col <= NUM_COLUMNS,
                    self@.first_line_from(row as int, col as int) == self@.first_line_from(0, 0),
                decreases NUM_COLUMNS - col,
            {
                if let Some(result) = self.line_at(row, col) {
                    return Some(result);
                }
                col += 1;
            }
            row += 1;
        }
        // Check for a draw
        if self.moves_made >= (NUM_COLUMNS * NUM_ROWS) {
            return Some(GameResult::Draw);
        }
        None
    }

    /// The cells of the board, row by row, for saving it.
    pub fn cells(&self) -> (r: [[Cell; NUM_COLUMNS]; NUM_ROWS])
        ensures
            position_of(r, self@.moves_made) == self@,
    {
        self.cells
    }

    /// The number of occupied cells in one row.
    fn count_in_row(row: &[Cell; NUM_COLUMNS]) -> (r: usize)
        ensures
            r == count_row(row@),
    {
        let mut n: usize = 0;
        let mut c: usize = 0;
        while c < NUM_COLUMNS
            invariant
                c <= NUM_COLUMNS,
                n == count_row(row@.subrange(0, c as int)),
                n <= c,
            decreases NUM_COLUMNS - c,
        {
            assert(row@.subrange(0, c + 1).drop_last() =~= row@.subrange(0, c as int));
            if row[c] != Cell::Empty {
                n += 1;
            }
            c += 1;
        }
        assert(row@.subrange(0, NUM_COLUMNS as int) =~= row@);
        n
    }

    /// Whether column `col` of `cells` is empty down to some row and occupied
    /// from there on.
    fn column_settled(cells: &[[Cell; NUM_COLUMNS]; NUM_ROWS], col: usize) -> (r: bool)
        requires
            col < NUM_COLUMNS,
        ensures
            r == position_of(*cells, 0).settled(col as int),
    {
        let ghost p = position_of(*cells, 0);
        let mut top: usize = 0;
        while top < NUM_ROWS && cells[top][col] == Cell::Empty
            invariant
                col < NUM_COLUMNS,
                p == position_of(*cells, 0),
                top <= NUM_ROWS,
                forall|r: int| 0 <= r < top ==> #[trigger] p.cell(r, col as int) == Cell::Empty,
            decreases NUM_ROWS - top,
        {
            top += 1;
        }
        let mut row: usize = top;
        while row < NUM_ROWS
            invariant
                col < NUM_COLUMNS,
                p == position_of(*cells, 0),
                top < NUM_ROWS ==> p.cell(top as int, col as int) != Cell::Empty,
                top <= row <= NUM_ROWS,
                forall|r: int| 0 <= r < top ==> #[trigger] p.cell(r, col as int) == Cell::Empty,
                forall|r: int| top <= r < row ==> #[trigger] p.cell(r, col as int) != Cell::Empty,
            decreases NUM_ROWS - row,
        {
            if cells[row][col] == Cell::Empty {
                proof {
                    assert(p.cell(top as int, col as int) != Cell::Empty);
                    assert forall|k: int| 0 <= k <= NUM_ROWS implies !p.column_holds(col as int, k) by {
                        if p.column_holds(col as int, k) {
                            assert(p.cell(top as int, col as int) != Cell::Empty);
                            assert(p.cell(row as int, col as int) == Cell::Empty);
                        }
                    }
                }
                return false;
            }
            row += 1;
        }
        assert(p.column_holds(col as int, NUM_ROWS - top));
        true
    }

    /// The board that saved cells and a saved move count stand for; `None`
    /// when some empty cell lies below an occupied one, or when the count is
    /// not the number of occupied cells.
    pub fn from_snapshot(cells: [[Cell; NUM_COLUMNS]; NUM_ROWS], moves_made: usize) -> (r: Option<
        Board,
    >)
        ensures
            r is Some <==> position_of(cells, moves_made as nat).wf(),
            r is Some ==> r->0@ == position_of(cells, moves_made as nat),
    {
        let ghost p = position_of(cells, moves_made as nat);
        let ghost p0 = position_of(cells, 0);
        let mut col: usize = 0;
        while col < NUM_COLUMNS
            invariant
                col <= NUM_COLUMNS,
                p == position_of(cells, moves_made as nat),
                p0 == position_of(cells, 0),
                forall|c: int| 0 <= c < col ==> #[trigger] p0.settled(c),
            decreases NUM_COLUMNS - col,
        {
            if !Self::column_settled(&cells, col) {
                proof {
                    let c = col as int;
                    if p.wf() {
                        let k = NUM_ROWS - 1 - p.landing_row(c);
                        p.lemma_landing_row_above(c, NUM_ROWS as int);
                        assert(p0.column_holds(c, k)) by {
                            assert forall|r: int| 0 <= r < NUM_ROWS implies (#[trigger] p0.cell(r, c)
                                == Cell::Empty <==> r < NUM_ROWS - k) by {
                                assert(p0.cell(r, c) == p.cell(r, c));
                                if r <= p.landing_row(c) {
                                    assert(p.cell(p.landing_row(c), c) == Cell::Empty);
                                }
                            }
                        }
                    }
                }
                return None;
            }
            col += 1;
        }
        let mut total: usize = 0;
        let mut row: usize = 0;
        while row < NUM_ROWS
            invariant
                row <= NUM_ROWS,
                p == position_of(cells, moves_made as nat),
                total == count_rows(p.cells.subrange(0, row as int)),
                total <= row * NUM_COLUMNS,
            decreases NUM_ROWS - row,
        {
            assert(p.cells.subrange(0, row + 1).drop_last() =~= p.cells.subrange(0, row as int));
            let n = Self::count_in_row(&cells[row]);
            proof {
                lemma_count_row_bound(cells[row as int]@);
            }
            total += n;
            row += 1;
        }
        assert(p.cells.subrange(0, NUM_ROWS as int) =~= p.cells);
        if total != moves_made {
            return None;
        }
        proof {
            assert forall|r1: int, r2: int, c: int|
                0 <= r1 <= r2 < NUM_ROWS && 0 <= c < NUM_COLUMNS && #[trigger] p.cell(r1, c)
                    != Cell::Empty implies #[trigger] p.cell(r2, c) != Cell::Empty by {
                assert(p0.settled(c));
                let k = choose|k: int| 0 <= k <= NUM_ROWS && #[trigger] p0.column_holds(c, k);
                assert(p0.cell(r1, c) == p.cell(r1, c));
                assert(p0.cell(r2, c) == p.cell(r2, c));
            }
        }
        Some(Board { cells, moves_made })
    }

    /// Returns the number of moves made on this board
    pub fn num_moves_made(&self) -> (r: usize)
        ensures
            r == self@.moves_made,
    {
        self.moves_made
    }
}

} // verus!
