//! The choice of the cell on which a search branches.

use vstd::prelude::*;

use crate::grid::constraints::{lemma_sum_blocks_prefix, min_length, sum_blocks};
use crate::grid::{column_of, count_in_line, CellState, Constraints, Grid};
use crate::solver::contradiction_detector::count_state;
use crate::solver::SolveError;

verus! {

/// Why a search ended without a solution.
#[derive(Debug, Clone, Copy, PartialEq, Eq, Structural)]
pub enum SearchFailure {
    /// The search went as deep as it may.
    DepthLimit,
    /// The search looked at as many grids as it may.
    StateLimit,
    /// The grid was looked at before.
    AlreadyVisited,
    /// Neither state of the chosen cell led to a solution.
    NoSolution,
    /// No undecided cell has a score above zero.
    NoCandidate,
    /// A solver found a fault in the grid.
    Solver(SolveError),
}

/// The smaller of two numbers.
pub open spec fn least(a: int, b: int) -> int {
    if a <= b {
        a
    } else {
        b
    }
}

/// Score of a cell by the filled cells of its lines and the number of their runs; a line
/// outside the grid, or without run lengths, adds nothing.
pub open spec fn plain_score(grid: Seq<Seq<CellState>>, k: Constraints, width: int, row: int, col: int) -> int {
    (if row < grid.len() {
        count_in_line(grid[row], CellState::Filled) as int
    } else {
        0int
    }) + (if col < width {
        count_in_line(column_of(grid, col), CellState::Filled) as int
    } else {
        0int
    }) + (if row < k.rows@.len() {
        k.row(row).len() as int * 2
    } else {
        0int
    }) + (if col < k.columns@.len() {
        k.column(col).len() as int * 2
    } else {
        0int
    })
}

/// Score of a cell by the filled cells of its lines (ten each), the runs of its lines (five
/// each, and their lengths), and its distance from the edge of the grid.
pub open spec fn weighted_score(
    grid: Seq<Seq<CellState>>,
    k: Constraints,
    width: int,
    height: int,
    row: int,
    col: int,
) -> int {
    count_in_line(grid[row], CellState::Filled) as int * 10 + count_in_line(
        column_of(grid, col),
        CellState::Filled,
    ) as int * 10 + (if row < k.rows@.len() {
        k.row(row).len() as int * 5 + sum_blocks(k.row(row))
    } else {
        0int
    }) + (if col < k.columns@.len() {
        k.column(col).len() as int * 5 + sum_blocks(k.column(col))
    } else {
        0int
    }) + (10 - least(least(row, height - row - 1) + least(col, width - col - 1), 10)) * 2
}

/// Score of a cell: weighted where `weighted` is set, else plain.
pub open spec fn cell_score(
    weighted: bool,
    grid: Seq<Seq<CellState>>,
    k: Constraints,
    width: int,
    height: int,
    row: int,
    col: int,
) -> int {
    if weighted {
        weighted_score(grid, k, width, height, row, col)
    } else {
        plain_score(grid, k, width, row, col)
    }
}

/// The best cell found so far, and its score.
pub struct Best {
    pub score: int,
    pub cell: Option<(usize, usize)>,
}

/// The best cell after the first `n` cells of row `row` have been looked at: an undecided
/// cell takes the place of the best only with a higher score.
pub open spec fn scan_row(
    weighted: bool,
    grid: Seq<Seq<CellState>>,
    k: Constraints,
    width: int,
    height: int,
    row: int,
    n: int,
    best: Best,
) -> Best
    decreases n,
{
    if n <= 0 {
        best
    } else {
        let before = scan_row(weighted, grid, k, width, height, row, n - 1, best);
        let score = cell_score(weighted, grid, k, width, height, row, n - 1);
        if grid[row][n - 1] == CellState::Empty && score > before.score {
            Best { score, cell: Some((row as usize, (n - 1) as usize)) }
        } else {
            before
        }
    }
}

/// The best cell after the first `n` rows have been looked at, starting from a score of
/// zero and no cell.
pub open spec fn scan_rows(
    weighted: bool,
    grid: Seq<Seq<CellState>>,
    k: Constraints,
    width: int,
    height: int,
    n: int,
) -> Best
    decreases n,
{
    if n <= 0 {
        Best { score: 0, cell: None }
    } else {
        scan_row(
            weighted,
            grid,
            k,
            width,
            height,
            n - 1,
            width,
            scan_rows(weighted, grid, k, width, height, n - 1),
        )
    }
}

/// The cell on which the search branches: the undecided cell with the highest score above
/// zero, the first of them row by row.
pub open spec fn best_cell(
    weighted: bool,
    grid: Seq<Seq<CellState>>,
    k: Constraints,
    width: int,
    height: int,
) -> Option<(usize, usize)> {
    scan_rows(weighted, grid, k, width, height, height).cell
}

/// The cell that a scan chooses is an undecided cell of the grid.
pub proof fn lemma_scan_row(
    weighted: bool,
    grid: Seq<Seq<CellState>>,
    k: Constraints,
    width: int,
    height: int,
    row: int,
    n: int,
    best: Best,
)
    requires
        0 <= row < height <= usize::MAX,
        0 <= n <= width <= usize::MAX,
        best.cell matches Some(c) ==> c.0 < height && c.1 < width && grid[c.0 as int][c.1 as int]
            == CellState::Empty,
    ensures
        scan_row(weighted, grid, k, width, height, row, n, best).cell matches Some(c) ==> c.0
            < height && c.1 < width && grid[c.0 as int][c.1 as int] == CellState::Empty,
    decreases n,
{
    if n > 0 {
        lemma_scan_row(weighted, grid, k, width, height, row, n - 1, best);
    }
}

/// The cell on which the search branches is an undecided cell of the grid.
pub proof fn lemma_scan_rows(
    weighted: bool,
    grid: Seq<Seq<CellState>>,
    k: Constraints,
    width: int,
    height: int,
    n: int,
)
    requires
        0 <= n <= height <= usize::MAX,
        0 <= width <= usize::MAX,
    ensures
        scan_rows(weighted, grid, k, width, height, n).cell matches Some(c) ==> c.0 < height
            && c.1 < width && grid[c.0 as int][c.1 as int] == CellState::Empty,
    decreases n,
{
    if n > 0 {
        lemma_scan_rows(weighted, grid, k, width, height, n - 1);
        lemma_scan_row(
            weighted,
            grid,
            k,
            width,
            height,
            n - 1,
            width,
            scan_rows(weighted, grid, k, width, height, n - 1),
        );
    }
}

/// The sum of the run lengths of `constraint`.
pub fn sum_of(constraint: &[usize]) -> (sum: usize)
    requires
        sum_blocks(constraint@) <= usize::MAX,
    ensures
        sum == sum_blocks(constraint@),
{
    let mut sum: usize = 0;
    let mut i: usize = 0;
    while i < constraint.len()
        invariant
            i <= constraint@.len(),
            sum == sum_blocks(constraint@.take(i as int)),
            sum_blocks(constraint@) <= usize::MAX,
        decreases constraint@.len() - i,
    {
        proof {
            assert(constraint@.take(i + 1).drop_last() =~= constraint@.take(i as int));
            lemma_sum_blocks_prefix(constraint@, i + 1);
        }
        sum = sum + constraint[i];
        i += 1;
    }
    assert(constraint@.take(constraint@.len() as int) =~= constraint@);
    sum
}

/// Number of filled cells in row `row` and in column `col`; none in a line outside the grid.
fn filled_in_lines(grid: &Grid, row: usize, col: usize) -> (counts: (usize, usize))
    requires
        grid.wf(),
    ensures
        counts.0 == if row < grid.spec_height() {
            count_in_line(grid@[row as int], CellState::Filled)
        } else {
            0
        },
        counts.1 == if col < grid.spec_width() {
            count_in_line(column_of(grid@, col as int), CellState::Filled)
        } else {
            0
        },
{
    let in_row = match grid.get_row(row) {
        Some(line) => count_state(line.as_slice(), CellState::Filled),
        None => 0,
    };
    let in_column = match grid.get_column(col) {
        Some(line) => count_state(line.as_slice(), CellState::Filled),
        None => 0,
    };
    (in_row, in_column)
}

/// Plain score of the cell `(row, col)`.
pub fn plain_cell_score(grid: &Grid, constraints: &Constraints, row: usize, col: usize) -> (score:
    u128)
    requires
        grid.wf(),
    ensures
        score == plain_score(
            grid@,
            *constraints,
            grid.spec_width() as int,
            row as int,
            col as int,
        ),
{
    let (in_row, in_column) = filled_in_lines(grid, row, col);
    let mut score: u128 = in_row as u128 + in_column as u128;
    match constraints.get_row_constraint(row) {
        Some(c) => {
            score = score + (c.len() as u128) * 2;
        },
        None => {},
    }
    match constraints.get_column_constraint(col) {
        Some(c) => {
            score = score + (c.len() as u128) * 2;
        },
        None => {},
    }
    score
}

/// Weighted score of the cell `(row, col)`.
pub fn weighted_cell_score(grid: &Grid, constraints: &Constraints, row: usize, col: usize) -> (score:
    u128)
    requires
        grid.wf(),
        constraints.wf(),
        row < grid.spec_height(),
        col < grid.spec_width(),
    ensures
        score == weighted_score(
            grid@,
            *constraints,
            grid.spec_width() as int,
            grid.spec_height() as int,
            row as int,
            col as int,
        ),
{
    let (in_row, in_column) = filled_in_lines(grid, row, col);
    let mut score: u128 = (in_row as u128) * 10 + (in_column as u128) * 10;
    match constraints.get_row_constraint(row) {
        Some(c) => {
            proof {
                crate::grid::constraints::lemma_sum_blocks_nonnegative(c@);
                assert(min_length(constraints.rows@[row as int]@) <= constraints.width);
            }
            score = score + (c.len() as u128) * 5 + sum_of(c.as_slice()) as u128;
        },
        None => {},
    }
    match constraints.get_column_constraint(col) {
        Some(c) => {
            proof {
                crate::grid::constraints::lemma_sum_blocks_nonnegative(c@);
                assert(min_length(constraints.columns@[col as int]@) <= constraints.height);
            }
            score = score + (c.len() as u128) * 5 + sum_of(c.as_slice()) as u128;
        },
        None => {},
    }
    let height = grid.height();
    let width = grid.width();
    let below = height - row - 1;
    let right = width - col - 1;
    let vertical = if row <= below {
        row
    } else {
        below
    };
    let horizontal = if col <= right {
        col
    } else {
        right
    };
    let distance: u128 = vertical as u128 + horizontal as u128;
    let near: u128 = if distance <= 10 {
        distance
    } else {
        10
    };
    score + (10 - near) * 2
}

/// The cell on which the search branches: the undecided cell with the highest score above
/// zero, the first of them row by row.
pub fn choose_cell(weighted: bool, grid: &Grid, constraints: &Constraints) -> (cell: Option<
    (usize, usize),
>)
    requires
        grid.wf(),
        weighted ==> constraints.wf(),
    ensures
        cell == best_cell(
            weighted,
            grid@,
            *constraints,
            grid.spec_width() as int,
            grid.spec_height() as int,
        ),
        cell matches Some(c) ==> c.0 < grid.spec_height() && c.1 < grid.spec_width()
            && grid@[c.0 as int][c.1 as int] == CellState::Empty,
{
    let height = grid.height();
    let width = grid.width();
    let ghost k = *constraints;
    let ghost w = width as int;
    let ghost h = height as int;
    let mut best_score: u128 = 0;
    let mut best: Option<(usize, usize)> = None;
    let mut row: usize = 0;
    while row < height
        invariant
            grid.wf(),
            weighted ==> constraints.wf(),
            k == *constraints,
            height == grid.spec_height(),
            width == grid.spec_width(),
            w == width,
            h == height,
            row <= height,
            (Best { score: best_score as int, cell: best }) == scan_rows(
                weighted,
                grid@,
                k,
                w,
                h,
                row as int,
            ),
        decreases height - row,
    {
        let ghost start = scan_rows(weighted, grid@, k, w, h, row as int);
        let mut col: usize = 0;
        while col < width
            invariant
                grid.wf(),
                weighted ==> constraints.wf(),
                k == *constraints,
                height == grid.spec_height(),
                width == grid.spec_width(),
                w == width,
                h == height,
                row < height,
                col <= width,
                (Best { score: best_score as int, cell: best }) == scan_row(
                    weighted,
                    grid@,
                    k,
                    w,
                    h,
                    row as int,
                    col as int,
                    start,
                ),
            decreases width - col,
        {
            match grid.get(row, col) {
                Some(CellState::Empty) => {
                    let score = if weighted {
                        weighted_cell_score(grid, constraints, row, col)
                    } else {
                        plain_cell_score(grid, constraints, row, col)
                    };
                    if score > best_score {
                        best_score = score;
                        best = Some((row, col));
                    }
                },
                _ => {},
            }
            col += 1;
        }
        row += 1;
    }
    proof {
        lemma_scan_rows(weighted, grid@, k, w, h, h);
    }
    best
}

} // verus!
