use vstd::prelude::*;

use crate::direction::Direction;

verus! {

/// A (row, column) pair; rows count from the top, columns from the left.
pub type Position = (usize, usize);

/// Number of rows, and of columns, of the board.
pub const BOARD_WIDTH: usize = 6;

/// The largest magnitude of a value on the board.
pub const MAX_CELL_MAGNITUDE: i16 = 732;

/// The puzzle's values, row by row from the top.
pub open spec fn puzzle_grid() -> Seq<Seq<int>> {
    seq![
        seq![57, 33, 132, 268, 492, 732],
        seq![81, 123, 240, 443, 353, 508],
        seq![186, 42, 195, 704, 452, 228],
        seq![-7, 2, 357, 452, 317, 395],
        seq![5, 23, -4, 592, 445, 620],
        seq![0, 77, 32, 403, 337, 452],
    ]
}

pub open spec fn in_bounds(p: Position) -> bool {
    p.0 < BOARD_WIDTH && p.1 < BOARD_WIDTH
}

/// The bottom-left cell, where the die starts.
pub open spec fn start_position() -> Position {
    ((BOARD_WIDTH - 1) as usize, 0usize)
}

/// The top-right cell, which the die must reach.
pub open spec fn end_position() -> Position {
    (0usize, (BOARD_WIDTH - 1) as usize)
}

/// The position one step from `p` in direction `d`, if it is on the board.
pub open spec fn neighbour_position(p: Position, d: Direction) -> Option<Position> {
    match d {
        Direction::UP => if p.0 > 0 {
            Some(((p.0 - 1) as usize, p.1))
        } else {
            None
        },
        Direction::DOWN => if p.0 + 1 < BOARD_WIDTH {
            Some(((p.0 + 1) as usize, p.1))
        } else {
            None
        },
        Direction::LEFT => if p.1 > 0 {
            Some((p.0, (p.1 - 1) as usize))
        } else {
            None
        },
        Direction::RIGHT => if p.1 + 1 < BOARD_WIDTH {
            Some((p.0, (p.1 + 1) as usize))
        } else {
            None
        },
    }
}

/// Whether `p` lies on the edge of the board that faces direction `d`.
pub open spec fn on_outer_edge(p: Position, d: Direction) -> bool {
    match d {
        Direction::UP => p.0 == 0,
        Direction::DOWN => p.0 == BOARD_WIDTH - 1,
        Direction::LEFT => p.1 == 0,
        Direction::RIGHT => p.1 == BOARD_WIDTH - 1,
    }
}

/// A value on the board, together with where it stands.
#[derive(Clone, Copy, Debug)]
pub struct Cell {
    pub value: i16,
    pub position: Position,
}

impl PartialEq for Cell {
    fn eq(&self, o: &Cell) -> (r: bool) {
        self.value == o.value && self.position.0 == o.position.0 && self.position.1
            == o.position.1
    }
}

impl vstd::std_specs::cmp::PartialEqSpecImpl for Cell {
    open spec fn obeys_eq_spec() -> bool {
        true
    }

    open spec fn eq_spec(&self, o: &Cell) -> bool {
        self.value == o.value && self.position == o.position
    }
}

impl Cell {
    pub fn new(value: i16, position: Position) -> (r: Cell)
        ensures
            r.value == value,
            r.position == position,
    {
        Cell { value, position }
    }

    pub fn get_value(&self) -> (r: i16)
        ensures
            r == self.value,
    {
        self.value
    }

    /// Whether this is the cell the die must reach.
    pub fn is_end_cell(&self) -> (r: bool)
        ensures
            r == (self.position == end_position()),
    {
        self.position.0 == 0 && self.position.1 == BOARD_WIDTH - 1
    }

    pub fn get_position(&self) -> (r: &Position)
        ensures
            *r == self.position,
    {
        &self.position
    }
}

/// The fixed six by six grid of the puzzle.
pub struct Board {
    board: [[i16; 6]; 6],
}

impl Board {
    /// The value at (`row`, `col`).
    pub closed spec fn value_at(&self, row: int, col: int) -> i16 {
        self.board@[row]@[col]
    }

    /// The board holds the puzzle's values.
    pub open spec fn wf(&self) -> bool {
        forall|row: int, col: int|
            0 <= row < 6 && 0 <= col < 6 ==> #[trigger] self.value_at(row, col) as int
                == puzzle_grid()[row][col]
    }

    /// The cell at a position of the board.
    pub open spec fn cell_at(&self, p: Position) -> Cell {
        Cell { value: self.value_at(p.0 as int, p.1 as int), position: p }
    }

    /// The cell one step from `p` in direction `d`, if it is on the board.
    pub open spec fn neighbour(&self, p: Position, d: Direction) -> Option<Cell> {
        match neighbour_position(p, d) {
            Some(q) => Some(self.cell_at(q)),
            None => None,
        }
    }

    pub fn new() -> (r: Board)
        ensures
            r.wf(),
    {
        let b = Board {
            board: [
                [57, 33, 132, 268, 492, 732],
                [81, 123, 240, 443, 353, 508],
                [186, 42, 195, 704, 452, 228],
                [-7, 2, 357, 452, 317, 395],
                [5, 23, -4, 592, 445, 620],
                [0, 77, 32, 403, 337, 452],
            ],
        };
        assert(b.board@[0]@.map_values(|v: i16| v as int) =~= puzzle_grid()[0]);
        assert(b.board@[1]@.map_values(|v: i16| v as int) =~= puzzle_grid()[1]);
        assert(b.board@[2]@.map_values(|v: i16| v as int) =~= puzzle_grid()[2]);
        assert(b.board@[3]@.map_values(|v: i16| v as int) =~= puzzle_grid()[3]);
        assert(b.board@[4]@.map_values(|v: i16| v as int) =~= puzzle_grid()[4]);
        assert(b.board@[5]@.map_values(|v: i16| v as int) =~= puzzle_grid()[5]);
        b
    }

    /// The cell where the die starts, at the bottom left.
    pub fn start_cell(&self) -> (r: Cell)
        ensures
            r == self.cell_at(start_position()),
    {
        Cell { value: self.board[BOARD_WIDTH - 1][0], position: (BOARD_WIDTH - 1, 0) }
    }

    /// The cell at `position`, if it is on the board.
    pub fn get_cell_at(&self, position: Position) -> (r: Option<Cell>)
        ensures
            r == (if in_bounds(position) {
                Some(self.cell_at(position))
            } else {
                None
            }),
    {
        if position.0 < BOARD_WIDTH && position.1 < BOARD_WIDTH {
            Some(Cell { value: self.board[position.0][position.1], position })
        } else {
            None
        }
    }

    /// The cell next to `curr_cell` in `direction`, or `None` past the edge.
    pub fn move_in(&self, curr_cell: &Cell, direction: Direction) -> (r: Option<Cell>)
        requires
            in_bounds(curr_cell.position),
        ensures
            r == self.neighbour(curr_cell.position, direction),
    {
        match direction {
            Direction::UP => self.move_up(curr_cell),
            Direction::RIGHT => self.move_right(curr_cell),
            Direction::DOWN => self.move_down(curr_cell),
            Direction::LEFT => self.move_left(curr_cell),
        }
    }

    pub fn move_up(&self, curr_cell: &Cell) -> (r: Option<Cell>)
        requires
            in_bounds(curr_cell.position),
        ensures
            r == self.neighbour(curr_cell.position, Direction::UP),
    {
        let (curr_row, curr_col) = curr_cell.position;
        if curr_row > 0 {
            let row_up = curr_row - 1;
            Some(Cell { value: self.board[row_up][curr_col], position: (row_up, curr_col) })
        } else {
            None
        }
    }

    pub fn move_down(&self, curr_cell: &Cell) -> (r: Option<Cell>)
        requires
            in_bounds(curr_cell.position),
        ensures
            r == self.neighbour(curr_cell.position, Direction::DOWN),
    {
        let (curr_row, curr_col) = curr_cell.position;
        if curr_row < BOARD_WIDTH - 1 {
            let row_down = curr_row + 1;
            Some(Cell { value: self.board[row_down][curr_col], position: (row_down, curr_col) })
        } else {
            None
        }
    }

    pub fn move_left(&self, curr_cell: &Cell) -> (r: Option<Cell>)
        requires
            in_bounds(curr_cell.position),
        ensures
            r == self.neighbour(curr_cell.position, Direction::LEFT),
    {
        let (curr_row, curr_col) = curr_cell.position;
        if curr_col > 0 {
            let col_left = curr_col - 1;
            Some(Cell { value: self.board[curr_row][col_left], position: (curr_row, col_left) })
        } else {
            None
        }
    }

    pub fn move_right(&self, curr_cell: &Cell) -> (r: Option<Cell>)
        requires
            in_bounds(curr_cell.position),
        ensures
            r == self.neighbour(curr_cell.position, Direction::RIGHT),
    {
        let (curr_row, curr_col) = curr_cell.position;
        if curr_col < BOARD_WIDTH - 1 {
            let col_right = curr_col + 1;
            Some(Cell { value: self.board[curr_row][col_right], position: (curr_row, col_right) })
        } else {
            None
        }
    }
}

/// The position of the `k`-th cell, counting row by row from the top left.
pub open spec fn position_of_index(k: int) -> Position {
    ((k / 6) as usize, (k % 6) as usize)
}

/// Where a position stands in that count.
pub open spec fn index_of_position(p: Position) -> int {
    p.0 * 6 + p.1
}

proof fn lemma_index_round_trip(p: Position)
    requires
        in_bounds(p),
    ensures
        position_of_index(index_of_position(p)) == p,
{
    vstd::arithmetic::div_mod::lemma_fundamental_div_mod_converse(
        index_of_position(p),
        6,
        p.0 as int,
        p.1 as int,
    );
}

proof fn lemma_index_in_bounds(k: int)
    requires
        0 <= k < 36,
    ensures
        in_bounds(position_of_index(k)),
        index_of_position(position_of_index(k)) == k,
{
    vstd::arithmetic::div_mod::lemma_fundamental_div_mod(k, 6);
    assert(k / 6 < 6) by {
        vstd::arithmetic::div_mod::lemma_div_is_ordered(k, 35, 6);
    }
}

proof fn lemma_puzzle_value_bounds(row: int, col: int)
    requires
        0 <= row < 6,
        0 <= col < 6,
    ensures
        -MAX_CELL_MAGNITUDE <= puzzle_grid()[row][col] <= MAX_CELL_MAGNITUDE,
{
    let g = puzzle_grid();
    assert(0 <= col < 6);
    if row == 0 {
        assert(g[0] == seq![57int, 33, 132, 268, 492, 732]);
    } else if row == 1 {
        assert(g[1] == seq![81int, 123, 240, 443, 353, 508]);
    } else if row == 2 {
        assert(g[2] == seq![186int, 42, 195, 704, 452, 228]);
    } else if row == 3 {
        assert(g[3] == seq![-7int, 2, 357, 452, 317, 395]);
    } else if row == 4 {
        assert(g[4] == seq![5int, 23, -4, 592, 445, 620]);
    } else {
        assert(g[5] == seq![0int, 77, 32, 403, 337, 452]);
    }
}

/// Whether `visited` lists position `p`.
fn contains_position(visited: &Vec<Position>, p: Position) -> (r: bool)
    ensures
        r == visited@.contains(p),
{
    let mut i: usize = 0;
    while i < visited.len()
        invariant
            i <= visited@.len(),
            forall|j: int| 0 <= j < i ==> visited@[j] != p,
        decreases visited@.len() - i,
    {
        if visited[i].0 == p.0 && visited[i].1 == p.1 {
            assert(visited@[i as int] == p);
            return true;
        }
        i += 1;
    }
    false
}

impl Board {
    /// The sum of the values of the first `k` cells, row by row.
    pub open spec fn sum_upto(&self, k: nat) -> int
        decreases k,
    {
        if k == 0 {
            0
        } else {
            let p = position_of_index(k - 1);
            self.sum_upto((k - 1) as nat) + self.value_at(p.0 as int, p.1 as int) as int
        }
    }

    /// The sum of all values on the board.
    pub open spec fn total(&self) -> int {
        self.sum_upto(36)
    }

    /// The sum of the values of the first `k` cells, row by row, whose
    /// position is not in `visited`.
    pub open spec fn unvisited_sum_upto(&self, visited: Set<Position>, k: nat) -> int
        decreases k,
    {
        if k == 0 {
            0
        } else {
            let p = position_of_index(k - 1);
            self.unvisited_sum_upto(visited, (k - 1) as nat) + if visited.contains(p) {
                0
            } else {
                self.value_at(p.0 as int, p.1 as int) as int
            }
        }
    }

    /// The sum of the values of all cells whose position is not in `visited`.
    pub open spec fn unvisited_sum(&self, visited: Set<Position>) -> int {
        self.unvisited_sum_upto(visited, 36)
    }

    /// Sums the values of the cells whose position `unique_visited_positions`
    /// does not hold; a position listed twice counts once.
    pub fn compute_sum_of_unvisited_cells(&self, unique_visited_positions: &Vec<Position>) -> (r:
        i16)
        requires
            self.wf(),
        ensures
            r == self.unvisited_sum(unique_visited_positions@.to_set()),
    {
        let ghost visited = unique_visited_positions@.to_set();
        let mut sum: i16 = 0;
        let mut row: usize = 0;
        while row < BOARD_WIDTH
            invariant
                self.wf(),
                visited == unique_visited_positions@.to_set(),
                row <= 6,
                sum == self.unvisited_sum_upto(visited, (row * 6) as nat),
                -732 * (row * 6) <= sum <= 732 * (row * 6),
            decreases 6 - row,
        {
            let mut col: usize = 0;
            while col < BOARD_WIDTH
                invariant
                    self.wf(),
                    visited == unique_visited_positions@.to_set(),
                    row < 6,
                    col <= 6,
                    sum == self.unvisited_sum_upto(visited, (row * 6 + col) as nat),
                    -732 * (row * 6 + col) <= sum <= 732 * (row * 6
                        + col),
                decreases 6 - col,
            {
                let position = (row, col);
                proof {
                    lemma_index_round_trip(position);
                    lemma_puzzle_value_bounds(row as int, col as int);
                    assert(self.value_at(row as int, col as int) as int
                        == puzzle_grid()[row as int][col as int]);
                }
                if !contains_position(unique_visited_positions, position) {
                    sum = sum + self.board[row][col];
                }
                col += 1;
            }
            row += 1;
        }
        sum
    }
}

/// Marking one more position as visited takes away exactly the value of
/// its cell.
pub proof fn lemma_unvisited_sum_exclude_one(b: &Board, visited: Set<Position>, p: Position)
    requires
        in_bounds(p),
        !visited.contains(p),
    ensures
        b.unvisited_sum(visited.insert(p)) == b.unvisited_sum(visited) - b.value_at(
            p.0 as int,
            p.1 as int,
        ),
{
    lemma_unvisited_sum_upto_exclude_one(b, visited, p, 36);
    lemma_index_round_trip(p);
}

/// With nothing visited, the sum of the unvisited cells is that of the
/// whole board.
pub proof fn lemma_nothing_visited_sums_all(b: &Board)
    ensures
        b.unvisited_sum(Set::empty()) == b.total(),
{
    lemma_nothing_visited_upto(b, 36);
}

proof fn lemma_nothing_visited_upto(b: &Board, k: nat)
    ensures
        b.unvisited_sum_upto(Set::empty(), k) == b.sum_upto(k),
    decreases k,
{
    if k > 0 {
        lemma_nothing_visited_upto(b, (k - 1) as nat);
    }
}

proof fn lemma_unvisited_sum_upto_exclude_one(
    b: &Board,
    visited: Set<Position>,
    p: Position,
    k: nat,
)
    requires
        in_bounds(p),
        !visited.contains(p),
        k <= 36,
    ensures
        b.unvisited_sum_upto(visited.insert(p), k) == b.unvisited_sum_upto(visited, k) - (
        if index_of_position(p) < k {
            b.value_at(p.0 as int, p.1 as int) as int
        } else {
            0
        }),
    decreases k,
{
    if k > 0 {
        lemma_unvisited_sum_upto_exclude_one(b, visited, p, (k - 1) as nat);
        lemma_index_in_bounds(k - 1);
        lemma_index_round_trip(p);
    }
}

/// A move leaves the board exactly when it starts on the edge facing it;
/// otherwise it lands on a cell of the board.
pub proof fn lemma_move_off_edge(b: &Board, p: Position, d: Direction)
    requires
        in_bounds(p),
    ensures
        b.neighbour(p, d) is None <==> on_outer_edge(p, d),
        neighbour_position(p, d) matches Some(q) ==> in_bounds(q),
{
}

} // verus!
