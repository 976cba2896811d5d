//! The minesweeper board: mine placement, adjacency counts, cell states and
//! the transitions between them.

use vstd::prelude::*;
use crate::count::{count_true, lemma_count_push, lemma_count_update, lemma_count_bound};

verus! {

/// What a revealed cell shows.
#[derive(Clone, Copy, Debug, PartialEq, Eq, Structural)]
pub enum Revealed {
    Mine,
    AdjacentMines(u8),
}

/// The visible state of a cell.
#[derive(Clone, Copy, Debug, PartialEq, Eq, Structural)]
pub enum CellState {
    Hidden,
    Flagged,
    Revealed(Revealed),
}

/// One cell of the grid. Only `state` changes during play.
#[derive(Clone, Copy, Debug, PartialEq, Eq, Structural)]
pub struct Cell {
    pub is_mine: bool,
    pub adjacent_mines: u8,
    pub state: CellState,
    pub row: usize,
    pub column: usize,
}

#[derive(Clone, Copy, Debug, PartialEq, Eq, Structural)]
pub enum BoardError {
    /// Zero rows or columns, too many cells, or too many mines.
    InvalidConfiguration,
    /// A (row, column) outside the grid.
    OutOfBounds,
}

#[derive(Clone, Copy, Debug, PartialEq, Eq, Structural)]
pub enum GameStatus {
    InProgress,
    Won,
    Lost,
}

/// The result of a reveal request.
#[derive(Debug, PartialEq, Eq)]
pub enum RevealOutcome {
    /// The cell was already revealed; nothing changed.
    AlreadyRevealed,
    /// The cell carries a flag; nothing changed.
    Flagged,
    /// The row-major indices of every cell that went from hidden to revealed,
    /// and the game's status afterwards.
    Changed { cells: Vec<usize>, status: GameStatus },
}

/// A rectangular grid of cells stored in row-major order.
pub struct Board {
    rows: usize,
    columns: usize,
    mine_count: usize,
    cells: Vec<Cell>,
}

/// The mathematical content of a board.
pub struct BoardModel {
    pub rows: nat,
    pub columns: nat,
    pub mine_count: nat,
    pub cells: Seq<Cell>,
}

impl View for Board {
    type V = BoardModel;

    closed spec fn view(&self) -> BoardModel {
        BoardModel {
            rows: self.rows as nat,
            columns: self.columns as nat,
            mine_count: self.mine_count as nat,
            cells: self.cells@,
        }
    }
}

pub open spec fn ind(b: bool) -> int {
    if b { 1 } else { 0 }
}

/// Whether (r, c) lies in a `rows` x `columns` grid and holds a mine.
pub open spec fn grid_mine(rows: int, columns: int, mines: Seq<bool>, r: int, c: int) -> bool {
    0 <= r < rows && 0 <= c < columns && mines[r * columns + c]
}

/// Number of mines among the up to eight neighbours of (r, c).
pub open spec fn mine_neighbors(rows: int, columns: int, mines: Seq<bool>, r: int, c: int) -> int {
    ind(grid_mine(rows, columns, mines, r - 1, c - 1))
        + ind(grid_mine(rows, columns, mines, r - 1, c))
        + ind(grid_mine(rows, columns, mines, r - 1, c + 1))
        + ind(grid_mine(rows, columns, mines, r, c - 1))
        + ind(grid_mine(rows, columns, mines, r, c + 1))
        + ind(grid_mine(rows, columns, mines, r + 1, c - 1))
        + ind(grid_mine(rows, columns, mines, r + 1, c))
        + ind(grid_mine(rows, columns, mines, r + 1, c + 1))
}

/// What a cell shows once revealed.
pub open spec fn face_of(c: Cell) -> Revealed {
    if c.is_mine {
        Revealed::Mine
    } else {
        Revealed::AdjacentMines(c.adjacent_mines)
    }
}

/// The cell with its state set to revealed.
pub open spec fn revealed_cell(c: Cell) -> Cell {
    Cell { state: CellState::Revealed(face_of(c)), ..c }
}

/// The state a flag toggle leaves: hidden and flagged swap, revealed stays.
pub open spec fn toggled(s: CellState) -> CellState {
    match s {
        CellState::Hidden => CellState::Flagged,
        CellState::Flagged => CellState::Hidden,
        CellState::Revealed(f) => CellState::Revealed(f),
    }
}

/// Toggling a flag twice gives back the state it started from, and a toggle
/// leaves a revealed cell as it is.
pub proof fn lemma_toggle_twice(s: CellState)
    ensures
        toggled(toggled(s)) == s,
        s is Revealed ==> toggled(s) == s,
        s == CellState::Hidden ==> toggled(s) == CellState::Flagged,
{
}

impl BoardModel {
    pub open spec fn mines(self) -> Seq<bool> {
        self.cells.map_values(|c: Cell| c.is_mine)
    }

    pub open spec fn index(self, r: int, c: int) -> int {
        r * self.columns + c
    }

    pub open spec fn in_bounds(self, r: int, c: int) -> bool {
        0 <= r < self.rows && 0 <= c < self.columns
    }

    /// Mines among the neighbours of cell `i`.
    pub open spec fn neighbor_mines(self, i: int) -> int {
        mine_neighbors(self.rows as int, self.columns as int, self.mines(), i / self.columns as int, i % self.columns as int)
    }

    pub open spec fn wf(self) -> bool {
        &&& self.rows > 0
        &&& self.columns > 0
        &&& self.rows * self.columns <= usize::MAX
        &&& self.cells.len() == self.rows * self.columns
        &&& self.mine_count < self.cells.len()
        &&& count_true(self.mines()) == self.mine_count
        &&& forall|i: int| #![trigger self.cells[i]] 0 <= i < self.cells.len() ==> {
            &&& self.cells[i].row == i / self.columns as int
            &&& self.cells[i].column == i % self.columns as int
            &&& self.cells[i].adjacent_mines == self.neighbor_mines(i)
            &&& (self.cells[i].state is Revealed ==> self.cells[i].state == CellState::Revealed(face_of(self.cells[i])))
        }
    }

    /// Every cell without a mine is revealed.
    pub open spec fn won(self) -> bool {
        forall|i: int| 0 <= i < self.cells.len() && !self.cells[i].is_mine ==> #[trigger] self.cells[i].state is Revealed
    }

    /// Some cell with a mine is revealed.
    pub open spec fn lost(self) -> bool {
        exists|i: int| 0 <= i < self.cells.len() && self.cells[i].is_mine && #[trigger] self.cells[i].state is Revealed
    }

    pub open spec fn status(self) -> GameStatus {
        if self.lost() {
            GameStatus::Lost
        } else if self.won() {
            GameStatus::Won
        } else {
            GameStatus::InProgress
        }
    }
}


impl BoardModel {
    /// Cells `i` and `j` are distinct grid neighbours (the eight around a cell).
    pub open spec fn adjacent(self, i: int, j: int) -> bool {
        &&& 0 <= i < self.cells.len()
        &&& 0 <= j < self.cells.len()
        &&& i != j
        &&& -1 <= i / self.columns as int - j / self.columns as int <= 1
        &&& -1 <= i % self.columns as int - j % self.columns as int <= 1
    }

    /// A cell the flood may enter: hidden (not flagged) and without a mine.
    pub open spec fn enterable(self, i: int) -> bool {
        self.cells[i].state == CellState::Hidden && !self.cells[i].is_mine
    }

    /// A safe cell with no mine around it: revealing it spreads to its neighbours.
    pub open spec fn spreads(self, i: int) -> bool {
        !self.cells[i].is_mine && self.cells[i].adjacent_mines == 0
    }
}

/// Revealing `start` on board `m` reaches cell `t` within `steps` spreading steps.
pub open spec fn flood_reaches(m: BoardModel, start: int, t: int, steps: nat) -> bool
    decreases steps,
{
    t == start || (steps > 0 && exists|x: int|
        flood_reaches(m, start, x, (steps - 1) as nat) && m.spreads(x) && #[trigger] m.adjacent(x, t) && m.enterable(t))
}

/// Revealing `start` on board `m` reaches cell `t`: `t` is `start`, or a hidden
/// safe neighbour of a reached cell with no mine around it.
pub open spec fn flooded(m: BoardModel, start: int, t: int) -> bool {
    exists|n: nat| #[trigger] flood_reaches(m, start, t, n)
}

pub open spec fn hidden_flags(cells: Seq<Cell>) -> Seq<bool> {
    cells.map_values(|c: Cell| c.state == CellState::Hidden)
}

/// State of a flood in progress from `start` on the board that was `m0`, now `m`.
/// Cells on `stack` still have to spread; every other changed cell but `skip` has.
spec fn flood_inv(m0: BoardModel, m: BoardModel, start: int, stack: Seq<usize>, changed: Seq<usize>, skip: int) -> bool {
    &&& m0.wf()
    &&& m.rows == m0.rows && m.columns == m0.columns && m.mine_count == m0.mine_count
    &&& m.cells.len() == m0.cells.len()
    &&& 0 <= start < m0.cells.len()
    &&& m.cells[start] != m0.cells[start]
    &&& forall|i: int| #![trigger m.cells[i]] 0 <= i < m.cells.len() && m.cells[i] != m0.cells[i] ==> {
        &&& m.cells[i] == revealed_cell(m0.cells[i])
        &&& m0.enterable(i)
        &&& flooded(m0, start, i)
    }
    &&& forall|k: int| #![trigger stack[k]] 0 <= k < stack.len() ==>
        stack[k] < m.cells.len() && m.cells[stack[k] as int] != m0.cells[stack[k] as int]
    &&& forall|i: usize| #[trigger] changed.contains(i) <==> (i < m.cells.len() && m.cells[i as int] != m0.cells[i as int])
    &&& forall|x: int, y: int| #[trigger] m0.adjacent(x, y) && m.cells[x] != m0.cells[x] && x != skip
        && !stack.contains(x as usize) && m0.spreads(x) && m0.enterable(y) ==> m.cells[y] != m0.cells[y]
}

/// Position of neighbour `y` of `x` in the scan of the 3 x 3 block around `x`.
spec fn scan_rank(m: BoardModel, x: int, y: int) -> int {
    (y / m.columns as int - x / m.columns as int + 1) * 3 + (y % m.columns as int - x % m.columns as int + 1)
}

/// The cells a reveal floods to: the start cell, every hidden safe neighbour of
/// a flooded cell with no mine around it, and no mine but possibly the start.
pub proof fn lemma_flood_shape(m: BoardModel, start: int, x: int, y: int)
    ensures
        flooded(m, start, start),
        flooded(m, start, x) && m.spreads(x) && m.adjacent(x, y) && m.enterable(y) ==> flooded(m, start, y),
        flooded(m, start, y) && y != start ==> !m.cells[y].is_mine && m.cells[y].state == CellState::Hidden,
{
    assert(flood_reaches(m, start, start, 0));
    if flooded(m, start, x) && m.spreads(x) && m.adjacent(x, y) && m.enterable(y) {
        let n = choose|n: nat| #[trigger] flood_reaches(m, start, x, n);
        assert(flood_reaches(m, start, y, n + 1));
    }
    if flooded(m, start, y) && y != start {
        let n = choose|n: nat| #[trigger] flood_reaches(m, start, y, n);
        assert(n > 0);
    }
}

/// Revealing the hidden safe neighbour `y` of a spreading cell `x` and queueing
/// it keeps the flood's state consistent and uses up one hidden cell.
proof fn lemma_flood_step(
    m0: BoardModel,
    m1: BoardModel,
    m2: BoardModel,
    start: int,
    st1: Seq<usize>,
    st2: Seq<usize>,
    ch1: Seq<usize>,
    ch2: Seq<usize>,
    x: int,
    y: usize,
)
    requires
        flood_inv(m0, m1, start, st1, ch1, x),
        0 <= x < m1.cells.len(),
        m1.cells[x] != m0.cells[x],
        m0.spreads(x),
        m0.adjacent(x, y as int),
        m1.cells[y as int] == m0.cells[y as int],
        m0.enterable(y as int),
        m2.rows == m1.rows && m2.columns == m1.columns && m2.mine_count == m1.mine_count,
        m2.cells == m1.cells.update(y as int, revealed_cell(m0.cells[y as int])),
        st2 == st1.push(y),
        ch2 == ch1.push(y),
    ensures
        flood_inv(m0, m2, start, st2, ch2, x),
        count_true(hidden_flags(m2.cells)) + st2.len() == count_true(hidden_flags(m1.cells)) + st1.len(),
{
    let n = choose|n: nat| #[trigger] flood_reaches(m0, start, x, n);
    assert(flood_reaches(m0, start, y as int, n + 1));
    assert(hidden_flags(m2.cells) =~= hidden_flags(m1.cells).update(y as int, false));
    lemma_count_update(hidden_flags(m1.cells), y as int, false);
    assert forall|i: usize| #[trigger] ch2.contains(i) <==> (i < m2.cells.len() && m2.cells[i as int] != m0.cells[i as int]) by {
        if i == y {
            assert(ch2[ch2.len() - 1] == y);
        }
        if ch1.contains(i) {
            let k = choose|k: int| 0 <= k < ch1.len() && ch1[k] == i;
            assert(ch2[k] == i);
        }
        if ch2.contains(i) && i != y {
            let k = choose|k: int| 0 <= k < ch2.len() && ch2[k] == i;
            assert(ch1[k] == i);
        }
    }
    assert forall|x2: int| 0 <= x2 < m0.cells.len() && !st2.contains(x2 as usize) implies !(#[trigger] st1.contains(x2 as usize)) by {
        if st1.contains(x2 as usize) {
            let k = choose|k: int| 0 <= k < st1.len() && st1[k] == x2 as usize;
            assert(st2[k] == x2 as usize);
        }
    }
    assert forall|k: int| #![trigger st2[k]] 0 <= k < st2.len() implies
        st2[k] < m2.cells.len() && m2.cells[st2[k] as int] != m0.cells[st2[k] as int] by {
        if k < st1.len() {
            assert(st2[k] == st1[k]);
        }
    }
    assert forall|x2: int, y2: int| #[trigger] m0.adjacent(x2, y2) && m2.cells[x2] != m0.cells[x2] && x2 != x
        && !st2.contains(x2 as usize) && m0.spreads(x2) && m0.enterable(y2) implies m2.cells[y2] != m0.cells[y2] by {
        if x2 != y as int {
            assert(m1.cells[x2] != m0.cells[x2]);
            assert(!st1.contains(x2 as usize));
        } else {
            assert(st2[st2.len() - 1] == y);
        }
    }
}

proof fn lemma_flood_complete(m0: BoardModel, m: BoardModel, start: int, t: int, n: nat)
    requires
        m.cells.len() == m0.cells.len(),
        0 <= start < m0.cells.len(),
        m.cells[start] != m0.cells[start],
        forall|x: int, y: int| #[trigger] m0.adjacent(x, y) && m.cells[x] != m0.cells[x]
            && m0.spreads(x) && m0.enterable(y) ==> m.cells[y] != m0.cells[y],
        flood_reaches(m0, start, t, n),
    ensures
        0 <= t < m.cells.len(),
        m.cells[t] != m0.cells[t],
    decreases n,
{
    if t != start {
        assert(n > 0);
        let x = choose|x: int| flood_reaches(m0, start, x, (n - 1) as nat) && m0.spreads(x)
            && #[trigger] m0.adjacent(x, t) && m0.enterable(t);
        lemma_flood_complete(m0, m, start, x, (n - 1) as nat);
    }
}

proof fn lemma_index_bound(rows: int, columns: int, r: int, c: int)
    requires
        0 <= r < rows,
        0 <= c < columns,
    ensures
        0 <= r * columns + c < rows * columns,
        r * columns <= (rows - 1) * columns,
{
    assert(0 <= r * columns + c < rows * columns) by (nonlinear_arith)
        requires 0 <= r < rows, 0 <= c < columns;
    assert(r * columns <= (rows - 1) * columns) by (nonlinear_arith)
        requires 0 <= r < rows, 0 <= c < columns;
}

proof fn lemma_split(x: int, p: int, q: int, r: int)
    requires
        p > 0,
        0 <= r < p,
        x == q * p + r,
    ensures
        x / p == q,
        x % p == r,
{
    vstd::arithmetic::div_mod::lemma_fundamental_div_mod_converse(x, p, q, r);
}

/// 1 when the neighbour at offset (dr - 1, dc - 1) of (row, column) holds a mine.
fn mine_indicator(mines: &Vec<bool>, rows: usize, columns: usize, row: usize, column: usize, dr: usize, dc: usize) -> (r: u8)
    requires
        row < rows,
        column < columns,
        rows * columns <= usize::MAX,
        mines@.len() == rows * columns,
        dr <= 2,
        dc <= 2,
    ensures
        r as int == ind(grid_mine(rows as int, columns as int, mines@, row + dr - 1, column + dc - 1)),
{
    if (dr == 0 && row == 0) || (dc == 0 && column == 0) {
        return 0;
    }
    if (dr == 2 && row + 1 >= rows) || (dc == 2 && column + 1 >= columns) {
        return 0;
    }
    let nr: usize = row + dr - 1;
    let nc: usize = column + dc - 1;
    proof {
        lemma_index_bound(rows as int, columns as int, nr as int, nc as int);
    }
    if mines[nr * columns + nc] {
        1
    } else {
        0
    }
}

/// Number of mines around (row, column).
fn count_neighbors(mines: &Vec<bool>, rows: usize, columns: usize, row: usize, column: usize) -> (r: u8)
    requires
        row < rows,
        column < columns,
        rows * columns <= usize::MAX,
        mines@.len() == rows * columns,
    ensures
        r as int == mine_neighbors(rows as int, columns as int, mines@, row as int, column as int),
{
    mine_indicator(mines, rows, columns, row, column, 0, 0)
        + mine_indicator(mines, rows, columns, row, column, 0, 1)
        + mine_indicator(mines, rows, columns, row, column, 0, 2)
        + mine_indicator(mines, rows, columns, row, column, 1, 0)
        + mine_indicator(mines, rows, columns, row, column, 1, 2)
        + mine_indicator(mines, rows, columns, row, column, 2, 0)
        + mine_indicator(mines, rows, columns, row, column, 2, 1)
        + mine_indicator(mines, rows, columns, row, column, 2, 2)
}

impl Board {
    /// Builds a board whose mines are exactly the `true` entries of `mines`,
    /// given in row-major order. All cells start hidden.
    pub fn from_mines(rows: usize, columns: usize, mines: Vec<bool>) -> (r: Result<Board, BoardError>)
        ensures
            match r {
                Ok(b) => {
                    &&& rows > 0 && columns > 0 && rows * columns <= usize::MAX
                    &&& mines@.len() == rows * columns
                    &&& count_true(mines@) < rows * columns
                    &&& b@.wf()
                    &&& b@.rows == rows && b@.columns == columns
                    &&& b@.mines() == mines@
                    &&& forall|i: int| 0 <= i < b@.cells.len() ==> #[trigger] b@.cells[i].state == CellState::Hidden
                },
                Err(e) => {
                    &&& e == BoardError::InvalidConfiguration
                    &&& !(rows > 0 && columns > 0 && rows * columns <= usize::MAX
                        && mines@.len() == rows * columns && count_true(mines@) < rows * columns)
                },
            },
    {
        if rows == 0 || columns == 0 {
            return Err(BoardError::InvalidConfiguration);
        }
        let total: usize = match rows.checked_mul(columns) {
            Some(t) => t,
            None => {
                return Err(BoardError::InvalidConfiguration);
            },
        };
        if mines.len() != total {
            return Err(BoardError::InvalidConfiguration);
        }
        let mut mine_count: usize = 0;
        let mut i: usize = 0;
        while i < total
            invariant
                i <= total,
                total == mines@.len(),
                mine_count == count_true(mines@.subrange(0, i as int)),
            decreases total - i,
        {
            proof {
                assert(mines@.subrange(0, i + 1) =~= mines@.subrange(0, i as int).push(mines@[i as int]));
                lemma_count_push(mines@.subrange(0, i as int), mines@[i as int]);
                lemma_count_bound(mines@.subrange(0, i as int));
            }
            if mines[i] {
                mine_count = mine_count + 1;
            }
            i = i + 1;
        }
        assert(mines@.subrange(0, total as int) =~= mines@);
        if mine_count >= total {
            return Err(BoardError::InvalidConfiguration);
        }
        let mut cells: Vec<Cell> = Vec::new();
        let mut i: usize = 0;
        while i < total
            invariant
                i <= total,
                total == mines@.len(),
                total == rows * columns,
                rows > 0,
                columns > 0,
                cells@.len() == i,
                forall|j: int| #![trigger cells@[j]] 0 <= j < i ==> {
                    &&& cells@[j].row == j / columns as int
                    &&& cells@[j].column == j % columns as int
                    &&& cells@[j].is_mine == mines@[j]
                    &&& cells@[j].state == CellState::Hidden
                    &&& cells@[j].adjacent_mines == mine_neighbors(rows as int, columns as int, mines@, j / columns as int, j % columns as int)
                },
            decreases total - i,
        {
            let row: usize = i / columns;
            let column: usize = i % columns;
            proof {
                assert(row < rows) by (nonlinear_arith)
                    requires row == i / columns, i < rows * columns, columns > 0;
            }
            let adjacent_mines = count_neighbors(&mines, rows, columns, row, column);
            let c = Cell { is_mine: mines[i], adjacent_mines, state: CellState::Hidden, row, column };
            assert(c.adjacent_mines == mine_neighbors(rows as int, columns as int, mines@, i as int / columns as int, i as int % columns as int));
            assert(c.row == i as int / columns as int);
            cells.push(c);
            assert(cells@[i as int] == c);
            i = i + 1;
        }
        let b = Board { rows, columns, mine_count, cells };
        assert(b@.cells == cells@);
        assert(b@.mines() =~= mines@);
        Ok(b)
    }

    /// Builds a board of `rows` x `columns` hidden cells holding exactly
    /// `mine_count` mines at random positions (a Fisher-Yates shuffle of the
    /// mine layout).
    pub fn new(rows: usize, columns: usize, mine_count: usize) -> (r: Result<Board, BoardError>)
        ensures
            match r {
                Ok(b) => {
                    &&& rows > 0 && columns > 0 && rows * columns <= usize::MAX
                    &&& mine_count < rows * columns
                    &&& b@.wf()
                    &&& b@.rows == rows && b@.columns == columns && b@.mine_count == mine_count
                    &&& forall|i: int| 0 <= i < b@.cells.len() ==> #[trigger] b@.cells[i].state == CellState::Hidden
                },
                Err(e) => {
                    &&& e == BoardError::InvalidConfiguration
                    &&& !(rows > 0 && columns > 0 && rows * columns <= usize::MAX && mine_count < rows * columns)
                },
            },
    {
        if rows == 0 || columns == 0 {
            return Err(BoardError::InvalidConfiguration);
        }
        let total: usize = match rows.checked_mul(columns) {
            Some(t) => t,
            None => {
                return Err(BoardError::InvalidConfiguration);
            },
        };
        if mine_count >= total {
            return Err(BoardError::InvalidConfiguration);
        }
        let mut mines: Vec<bool> = Vec::new();
        let mut i: usize = 0;
        while i < total
            invariant
                i <= total,
                mine_count < total,
                mines@.len() == i,
                count_true(mines@) == if i < mine_count { i } else { mine_count },
            decreases total - i,
        {
            proof {
                lemma_count_push(mines@, i < mine_count);
            }
            mines.push(i < mine_count);
            i = i + 1;
        }
        let mut i: usize = 0;
        while i < total
            invariant
                i <= total,
                mines@.len() == total,
                count_true(mines@) == mine_count,
            decreases total - i,
        {
            let draw: usize = rand::random::<usize>();
            let j: usize = i + draw % (total - i);
            let a = mines[i];
            let b = mines[j];
            proof {
                let s0 = mines@;
                let s1 = s0.update(i as int, b);
                lemma_count_update(s0, i as int, b);
                lemma_count_update(s1, j as int, a);
                if i == j {
                    assert(s1.update(j as int, a) =~= s0);
                }
            }
            mines.set(i, b);
            mines.set(j, a);
            i = i + 1;
        }
        match Board::from_mines(rows, columns, mines) {
            Ok(b) => Ok(b),
            Err(e) => Err(e),
        }
    }

    pub fn rows(&self) -> (r: usize)
        ensures
            r == self@.rows,
    {
        self.rows
    }

    pub fn columns(&self) -> (r: usize)
        ensures
            r == self@.columns,
    {
        self.columns
    }

    pub fn mine_count(&self) -> (r: usize)
        ensures
            r == self@.mine_count,
    {
        self.mine_count
    }

    /// Row-major offset of (row, column), if it lies on the board.
    pub fn index_of(&self, row: usize, column: usize) -> (r: Result<usize, BoardError>)
        requires
            self@.wf(),
        ensures
            match r {
                Ok(i) => self@.in_bounds(row as int, column as int) && i == self@.index(row as int, column as int)
                    && i < self@.cells.len(),
                Err(e) => e == BoardError::OutOfBounds && !self@.in_bounds(row as int, column as int),
            },
    {
        if row >= self.rows || column >= self.columns {
            return Err(BoardError::OutOfBounds);
        }
        proof {
            lemma_index_bound(self.rows as int, self.columns as int, row as int, column as int);
        }
        Ok(row * self.columns + column)
    }

    /// The cell at (row, column).
    pub fn cell(&self, row: usize, column: usize) -> (r: Result<Cell, BoardError>)
        requires
            self@.wf(),
        ensures
            match r {
                Ok(c) => self@.in_bounds(row as int, column as int) && c == self@.cells[self@.index(row as int, column as int)],
                Err(e) => e == BoardError::OutOfBounds && !self@.in_bounds(row as int, column as int),
            },
    {
        let i = self.index_of(row, column)?;
        Ok(self.cells[i])
    }

    /// The state of the cell at (row, column).
    pub fn cell_state(&self, row: usize, column: usize) -> (r: Result<CellState, BoardError>)
        requires
            self@.wf(),
        ensures
            match r {
                Ok(s) => self@.in_bounds(row as int, column as int) && s == self@.cells[self@.index(row as int, column as int)].state,
                Err(e) => e == BoardError::OutOfBounds && !self@.in_bounds(row as int, column as int),
            },
    {
        let i = self.index_of(row, column)?;
        Ok(self.cells[i].state)
    }

    /// The number of mines around the cell at (row, column).
    pub fn adjacent_mine_count(&self, row: usize, column: usize) -> (r: Result<u8, BoardError>)
        requires
            self@.wf(),
        ensures
            match r {
                Ok(n) => self@.in_bounds(row as int, column as int)
                    && n == self@.cells[self@.index(row as int, column as int)].adjacent_mines,
                Err(e) => e == BoardError::OutOfBounds && !self@.in_bounds(row as int, column as int),
            },
    {
        let i = self.index_of(row, column)?;
        Ok(self.cells[i].adjacent_mines)
    }

    /// Whether every cell without a mine is revealed; flags play no part.
    pub fn is_won(&self) -> (r: bool)
        requires
            self@.wf(),
        ensures
            r == self@.won(),
    {
        let mut i: usize = 0;
        while i < self.cells.len()
            invariant
                i <= self.cells@.len(),
                forall|j: int| 0 <= j < i && !self@.cells[j].is_mine ==> #[trigger] self@.cells[j].state is Revealed,
            decreases self.cells@.len() - i,
        {
            if !self.cells[i].is_mine && !matches!(self.cells[i].state, CellState::Revealed(_)) {
                return false;
            }
            i = i + 1;
        }
        true
    }

    /// Whether some mine has been revealed.
    pub fn is_lost(&self) -> (r: bool)
        requires
            self@.wf(),
        ensures
            r == self@.lost(),
    {
        let mut i: usize = 0;
        while i < self.cells.len()
            invariant
                i <= self.cells@.len(),
                forall|j: int| 0 <= j < i && self@.cells[j].is_mine ==> !(#[trigger] self@.cells[j].state is Revealed),
            decreases self.cells@.len() - i,
        {
            if self.cells[i].is_mine && matches!(self.cells[i].state, CellState::Revealed(_)) {
                assert(self@.cells[i as int].state is Revealed);
                return true;
            }
            i = i + 1;
        }
        false
    }

    /// Lost once a mine is revealed; otherwise won once every safe cell is revealed.
    pub fn status(&self) -> (r: GameStatus)
        requires
            self@.wf(),
        ensures
            r == self@.status(),
    {
        if self.is_lost() {
            GameStatus::Lost
        } else if self.is_won() {
            GameStatus::Won
        } else {
            GameStatus::InProgress
        }
    }

    /// Puts a flag on a hidden cell or takes it off a flagged one; a revealed
    /// cell is left as it is. Returns the cell's new state.
    pub fn toggle_flag(&mut self, row: usize, column: usize) -> (r: Result<CellState, BoardError>)
        requires
            old(self)@.wf(),
        ensures
            final(self)@.wf(),
            final(self)@.rows == old(self)@.rows,
            final(self)@.columns == old(self)@.columns,
            final(self)@.mine_count == old(self)@.mine_count,
            match r {
                Ok(s) => {
                    let i = old(self)@.index(row as int, column as int);
                    &&& old(self)@.in_bounds(row as int, column as int)
                    &&& s == toggled(old(self)@.cells[i].state)
                    &&& final(self)@.cells == old(self)@.cells.update(i, Cell { state: s, ..old(self)@.cells[i] })
                },
                Err(e) => {
                    &&& e == BoardError::OutOfBounds
                    &&& !old(self)@.in_bounds(row as int, column as int)
                    &&& final(self)@.cells == old(self)@.cells
                },
            },
    {
        let i = self.index_of(row, column)?;
        let c = self.cells[i];
        let state = match c.state {
            CellState::Hidden => CellState::Flagged,
            CellState::Flagged => CellState::Hidden,
            CellState::Revealed(f) => CellState::Revealed(f),
        };
        let ghost m0 = self@;
        self.cells.set(i, Cell { state, ..c });
        proof {
            assert(self@.mines() =~= m0.mines());
            assert forall|j: int| 0 <= j < self@.cells.len() implies #[trigger] self@.cells[j].adjacent_mines == self@.neighbor_mines(j) by {
                assert(m0.cells[j].adjacent_mines == m0.neighbor_mines(j));
            }
        }
        Ok(state)
    }

    /// One spreading step from the revealed cell `x` = (row, column): the
    /// neighbour at offset (dr - 1, dc - 1), if it is on the board, hidden and
    /// safe, is revealed and queued on `stack` and recorded in `changed`.
    fn flood_neighbor(
        &mut self,
        Ghost(m0): Ghost<BoardModel>,
        Ghost(start): Ghost<int>,
        x: usize,
        row: usize,
        column: usize,
        dr: usize,
        dc: usize,
        stack: &mut Vec<usize>,
        changed: &mut Vec<usize>,
    )
        requires
            flood_inv(m0, old(self)@, start, old(stack)@, old(changed)@, x as int),
            x < old(self)@.cells.len(),
            old(self)@.cells[x as int] != m0.cells[x as int],
            m0.spreads(x as int),
            row as int == x as int / m0.columns as int,
            column as int == x as int % m0.columns as int,
            dr <= 2,
            dc <= 2,
            forall|y: int| #[trigger] m0.adjacent(x as int, y) && m0.enterable(y) && scan_rank(m0, x as int, y) < dr * 3 + dc
                ==> old(self)@.cells[y] != m0.cells[y],
        ensures
            flood_inv(m0, final(self)@, start, final(stack)@, final(changed)@, x as int),
            final(self)@.cells[x as int] == old(self)@.cells[x as int],
            forall|y: int| #[trigger] m0.adjacent(x as int, y) && m0.enterable(y) && scan_rank(m0, x as int, y) <= dr * 3 + dc
                ==> final(self)@.cells[y] != m0.cells[y],
            count_true(hidden_flags(final(self)@.cells)) + final(stack)@.len()
                == count_true(hidden_flags(old(self)@.cells)) + old(stack)@.len(),
    {
        let ghost m1 = self@;
        let columns = self.columns;
        proof {
            assert forall|y: int| #[trigger] m0.adjacent(x as int, y) implies
                0 <= y / m0.columns as int && (y / m0.columns as int) < m0.rows
                && 0 <= y % m0.columns as int && (y % m0.columns as int) < m0.columns by {
                let q = y / m0.columns as int;
                assert(0 <= q && q < m0.rows as int) by (nonlinear_arith)
                    requires 0 <= y < m0.rows * m0.columns, m0.columns > 0, q == y / m0.columns as int;
            }
        }
        if (dr == 0 && row == 0) || (dc == 0 && column == 0) {
            return;
        }
        if (dr == 2 && row + 1 >= self.rows) || (dc == 2 && column + 1 >= columns) {
            return;
        }
        let nr: usize = row + dr - 1;
        let nc: usize = column + dc - 1;
        proof {
            assert(row < self.rows) by (nonlinear_arith)
                requires row == x as int / columns as int, x < self.rows * columns, columns > 0;
            lemma_index_bound(self.rows as int, columns as int, nr as int, nc as int);
        }
        let y: usize = nr * columns + nc;
        proof {
            lemma_split(y as int, columns as int, nr as int, nc as int);
            assert forall|y2: int| #[trigger] m0.adjacent(x as int, y2) && scan_rank(m0, x as int, y2) == dr * 3 + dc implies y2 == y by {
                vstd::arithmetic::div_mod::lemma_fundamental_div_mod(y2, columns as int);
                assert(y2 / m0.columns as int == nr);
                assert(y2 % m0.columns as int == nc);
                vstd::arithmetic::mul::lemma_mul_is_commutative(nr as int, columns as int);
            }
        }
        if self.cells[y].state == CellState::Hidden && !self.cells[y].is_mine {
            let c = self.cells[y];
            self.cells.set(y, Cell { state: CellState::Revealed(Revealed::AdjacentMines(c.adjacent_mines)), ..c });
            stack.push(y);
            changed.push(y);
            proof {
                assert(c == m0.cells[y as int]);
                assert(m0.adjacent(x as int, y as int));
                assert(self@.cells == m1.cells.update(y as int, revealed_cell(m0.cells[y as int])));
                lemma_flood_step(m0, m1, self@, start, old(stack)@, stack@, old(changed)@, changed@, x as int, y);
            }
        }
    }

    /// Reveals the cell at (row, column). A flagged or already revealed cell is
    /// left alone. A mine is revealed on its own and loses the game. A safe cell
    /// is revealed, and when it has no mine around it the reveal floods: every
    /// hidden safe neighbour of a revealed cell with no mine around it is
    /// revealed too. Flags stop the flood.
    pub fn reveal_at(&mut self, row: usize, column: usize) -> (r: Result<RevealOutcome, BoardError>)
        requires
            old(self)@.wf(),
        ensures
            final(self)@.wf(),
            final(self)@.rows == old(self)@.rows,
            final(self)@.columns == old(self)@.columns,
            final(self)@.mine_count == old(self)@.mine_count,
            match r {
                Err(e) => {
                    &&& e == BoardError::OutOfBounds
                    &&& !old(self)@.in_bounds(row as int, column as int)
                    &&& final(self)@.cells == old(self)@.cells
                },
                Ok(RevealOutcome::Flagged) => {
                    &&& old(self)@.in_bounds(row as int, column as int)
                    &&& old(self)@.cells[old(self)@.index(row as int, column as int)].state == CellState::Flagged
                    &&& final(self)@.cells == old(self)@.cells
                },
                Ok(RevealOutcome::AlreadyRevealed) => {
                    &&& old(self)@.in_bounds(row as int, column as int)
                    &&& old(self)@.cells[old(self)@.index(row as int, column as int)].state is Revealed
                    &&& final(self)@.cells == old(self)@.cells
                },
                Ok(RevealOutcome::Changed { cells, status }) => {
                    let m0 = old(self)@;
                    let m = final(self)@;
                    let s = m0.index(row as int, column as int);
                    &&& m0.in_bounds(row as int, column as int)
                    &&& m0.cells[s].state == CellState::Hidden
                    &&& status == m.status()
                    &&& m.cells.len() == m0.cells.len()
                    &&& forall|i: usize| #[trigger] cells@.contains(i) <==> (i < m.cells.len() && m.cells[i as int] != m0.cells[i as int])
                    &&& m0.cells[s].is_mine ==> m.cells == m0.cells.update(s, revealed_cell(m0.cells[s]))
                        && status == GameStatus::Lost
                    &&& !m0.cells[s].is_mine ==> forall|i: int| 0 <= i < m.cells.len() ==> #[trigger] m.cells[i]
                        == if flooded(m0, s, i) { revealed_cell(m0.cells[i]) } else { m0.cells[i] }
                },
            },
    {
        let s = self.index_of(row, column)?;
        let c = self.cells[s];
        match c.state {
            CellState::Flagged => {
                return Ok(RevealOutcome::Flagged);
            },
            CellState::Revealed(_) => {
                return Ok(RevealOutcome::AlreadyRevealed);
            },
            CellState::Hidden => {},
        }
        let ghost m0 = self@;
        if c.is_mine {
            self.cells.set(s, Cell { state: CellState::Revealed(Revealed::Mine), ..c });
            proof {
                assert(self@.mines() =~= m0.mines());
                assert forall|j: int| 0 <= j < self@.cells.len() implies #[trigger] self@.cells[j].adjacent_mines == self@.neighbor_mines(j) by {
                    assert(m0.cells[j].adjacent_mines == m0.neighbor_mines(j));
                }
                assert(self@.cells =~= m0.cells.update(s as int, revealed_cell(m0.cells[s as int])));
            }
            let mut cells: Vec<usize> = Vec::new();
            cells.push(s);
            proof {
                assert forall|i: usize| #[trigger] cells@.contains(i) <==> (i < self@.cells.len() && self@.cells[i as int] != m0.cells[i as int]) by {
                    if i == s {
                        assert(cells@[0] == s);
                    }
                }
            }
            let status = self.status();
            assert(self@.cells[s as int].state is Revealed);
            return Ok(RevealOutcome::Changed { cells, status });
        }
        self.cells.set(s, Cell { state: CellState::Revealed(Revealed::AdjacentMines(c.adjacent_mines)), ..c });
        let mut stack: Vec<usize> = Vec::new();
        stack.push(s);
        let mut changed: Vec<usize> = Vec::new();
        changed.push(s);
        proof {
            assert(flood_reaches(m0, s as int, s as int, 0));
            assert forall|i: usize| #[trigger] changed@.contains(i) <==> (i < self@.cells.len() && self@.cells[i as int] != m0.cells[i as int]) by {
                if i == s {
                    assert(changed@[0] == s);
                }
            }
        }
        while stack.len() > 0
            invariant
                flood_inv(m0, self@, s as int, stack@, changed@, -1),
            decreases count_true(hidden_flags(self@.cells)) + stack@.len(),
        {
            let ghost st0 = stack@;
            let x: usize = stack.pop().unwrap();
            proof {
                assert(st0 =~= stack@.push(x));
                assert forall|x2: int| 0 <= x2 < m0.cells.len() && !stack@.contains(x2 as usize) && x2 != x implies !(#[trigger] st0.contains(x2 as usize)) by {
                    if st0.contains(x2 as usize) {
                        let k = choose|k: int| 0 <= k < st0.len() && st0[k] == x2 as usize;
                        if k < stack@.len() {
                            assert(stack@[k] == x2 as usize);
                        }
                    }
                }
                assert(self@.cells[x as int] != m0.cells[x as int]);
            }
            if self.cells[x].adjacent_mines == 0 {
                let row: usize = x / self.columns;
                let column: usize = x % self.columns;
                self.flood_neighbor(Ghost(m0), Ghost(s as int), x, row, column, 0, 0, &mut stack, &mut changed);
                self.flood_neighbor(Ghost(m0), Ghost(s as int), x, row, column, 0, 1, &mut stack, &mut changed);
                self.flood_neighbor(Ghost(m0), Ghost(s as int), x, row, column, 0, 2, &mut stack, &mut changed);
                self.flood_neighbor(Ghost(m0), Ghost(s as int), x, row, column, 1, 0, &mut stack, &mut changed);
                self.flood_neighbor(Ghost(m0), Ghost(s as int), x, row, column, 1, 1, &mut stack, &mut changed);
                self.flood_neighbor(Ghost(m0), Ghost(s as int), x, row, column, 1, 2, &mut stack, &mut changed);
                self.flood_neighbor(Ghost(m0), Ghost(s as int), x, row, column, 2, 0, &mut stack, &mut changed);
                self.flood_neighbor(Ghost(m0), Ghost(s as int), x, row, column, 2, 1, &mut stack, &mut changed);
                self.flood_neighbor(Ghost(m0), Ghost(s as int), x, row, column, 2, 2, &mut stack, &mut changed);
                proof {
                    let m = self@;
                    assert forall|x2: int, y: int| #[trigger] m0.adjacent(x2, y) && m.cells[x2] != m0.cells[x2] && x2 != -1
                        && !stack@.contains(x2 as usize) && m0.spreads(x2) && m0.enterable(y) implies m.cells[y] != m0.cells[y] by {
                        if x2 == x {
                            assert(scan_rank(m0, x as int, y) <= 8);
                        }
                    }
                }
            }
        }
        proof {
            let m = self@;
            assert(self@.mines() =~= m0.mines()) by {
                assert forall|i: int| 0 <= i < m.cells.len() implies m.cells[i].is_mine == m0.cells[i].is_mine by {
                    assert(m.cells[i] == m0.cells[i] || m.cells[i] == revealed_cell(m0.cells[i]));
                }
            }
            assert forall|i: int| 0 <= i < m.cells.len() implies #[trigger] m.cells[i]
                == if flooded(m0, s as int, i) { revealed_cell(m0.cells[i]) } else { m0.cells[i] } by {
                if flooded(m0, s as int, i) {
                    let n = choose|n: nat| #[trigger] flood_reaches(m0, s as int, i, n);
                    lemma_flood_complete(m0, m, s as int, i, n);
                }
            }
            assert forall|j: int| #![trigger m.cells[j]] 0 <= j < m.cells.len() implies {
                &&& m.cells[j].row == j / m.columns as int
                &&& m.cells[j].column == j % m.columns as int
                &&& m.cells[j].adjacent_mines == m.neighbor_mines(j)
                &&& (m.cells[j].state is Revealed ==> m.cells[j].state == CellState::Revealed(face_of(m.cells[j])))
            } by {
                assert(m0.cells[j].adjacent_mines == m0.neighbor_mines(j));
            }
        }
        let status = self.status();
        Ok(RevealOutcome::Changed { cells: changed, status })
    }
}

} // verus!
