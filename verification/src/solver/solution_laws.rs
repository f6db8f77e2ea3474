//! When a grid without undecided cells is a solution: when every line of it has a
//! completion, which is what line solving finds out.

use vstd::prelude::*;

use crate::grid::{column_of, count_in_line, count_in_rows, rectangular, CellState, Constraints};
use crate::solver::completion::{agrees, feasible, is_completion, render, solvable, valid_placement};
use crate::solver::contradiction_detector::valid_state;
use crate::solver::propagation::{
    after_columns, after_passes, after_rows, after_sweep, fresh, is_solution,
    lemma_after_column_advances, lemma_after_columns_advances, lemma_after_passes_advances,
    lemma_after_row_advances, lemma_after_rows_advances, lemma_after_sweep_advances, Progress,
    MAX_ITERATIONS,
};
use crate::solver::SolveError;

verus! {

/// Every line of the grid has run lengths and a completion.
pub open spec fn all_solvable(grid: Seq<Seq<CellState>>, k: Constraints, width: int, height: int) -> bool {
    &&& height <= k.rows@.len()
    &&& width <= k.columns@.len()
    &&& forall|r: int| 0 <= r < height ==> solvable(#[trigger] grid[r], k.row(r))
    &&& forall|c: int| 0 <= c < width ==> solvable(#[trigger] column_of(grid, c), k.column(c))
}

/// No cell of the grid is undecided.
pub open spec fn decided(grid: Seq<Seq<CellState>>, width: int, height: int) -> bool {
    forall|r: int, c: int| 0 <= r < height && 0 <= c < width ==> #[trigger] grid[r][c] != CellState::Empty
}

/// A line that holds a state in some cell holds it at least once.
pub proof fn lemma_count_has(line: Seq<CellState>, i: int, state: CellState)
    requires
        0 <= i < line.len(),
        line[i] == state,
    ensures
        count_in_line(line, state) >= 1,
    decreases line.len(),
{
    if i < line.len() - 1 {
        lemma_count_has(line.drop_last(), i, state);
    }
}

/// A grid that counts no undecided cell has none.
pub proof fn lemma_no_empty(grid: Seq<Seq<CellState>>, width: int, height: int)
    requires
        rectangular(grid, width, height),
        count_in_rows(grid, CellState::Empty) == 0,
    ensures
        decided(grid, width, height),
    decreases grid.len(),
{
    if grid.len() > 0 {
        let init = grid.drop_last();
        lemma_no_empty(init, width, height - 1);
        assert forall|r: int, c: int| 0 <= r < height && 0 <= c < width implies #[trigger] grid[r][c]
            != CellState::Empty by {
            if r < height - 1 {
                assert(init[r][c] != CellState::Empty);
            } else if grid[r][c] == CellState::Empty {
                lemma_count_has(grid.last(), c, CellState::Empty);
            }
        }
    }
}

/// A line without undecided cells that has a completion is its own completion.
pub proof fn lemma_complete_line(line: Seq<CellState>, blocks: Seq<usize>)
    requires
        forall|i: int| 0 <= i < line.len() ==> line[i] != CellState::Empty,
        feasible(line, blocks),
    ensures
        is_completion(line, blocks, line),
{
    let c = choose|c: Seq<CellState>| is_completion(line, blocks, c);
    let len = line.len() as int;
    let s = choose|s: Seq<int>|
        #![trigger render(len, blocks, s)]
        valid_placement(len, blocks, s) && c == render(len, blocks, s) && agrees(line, c);
    assert(c =~= line);
}

/// A grid without undecided cells whose lines all have a completion is a solution.
pub proof fn lemma_solvable_solution(grid: Seq<Seq<CellState>>, k: Constraints, width: int, height: int)
    requires
        rectangular(grid, width, height),
        decided(grid, width, height),
        all_solvable(grid, k, width, height),
    ensures
        is_solution(grid, k, width, height),
{
    assert forall|r: int| 0 <= r < height implies is_completion(#[trigger] grid[r], k.row(r), grid[r]) by {
        assert forall|i: int| 0 <= i < grid[r].len() implies grid[r][i] != CellState::Empty by {}
        lemma_complete_line(grid[r], k.row(r));
    }
    assert forall|c: int| 0 <= c < width implies is_completion(
        #[trigger] column_of(grid, c),
        k.column(c),
        column_of(grid, c),
    ) by {
        let line = column_of(grid, c);
        assert forall|i: int| 0 <= i < line.len() implies line[i] != CellState::Empty by {
            assert(grid[i][c] != CellState::Empty);
        }
        lemma_complete_line(line, k.column(c));
    }
}

/// Rows that are solved without a fault and without a deduction all have a completion, and
/// the grid is as it was.
pub proof fn lemma_rows_checked(p: Progress, k: Constraints, width: int, height: int, n: int)
    requires
        rectangular(p.grid, width, height),
        0 <= n <= height <= usize::MAX,
        width <= usize::MAX,
        after_rows(p, k, n).error is None,
        after_rows(p, k, n).log.len() == p.log.len(),
    ensures
        p.error is None,
        after_rows(p, k, n).grid == p.grid,
        n <= k.rows@.len(),
        forall|r: int| 0 <= r < n ==> solvable(#[trigger] p.grid[r], k.row(r)),
    decreases n,
{
    if n > 0 {
        let mid = after_rows(p, k, n - 1);
        lemma_after_rows_advances(p, k, width, height, n - 1);
        lemma_after_row_advances(mid, k, width, height, n - 1);
        lemma_rows_checked(p, k, width, height, n - 1);
    }
}

/// Columns that are solved without a fault and without a deduction all have a completion,
/// and the grid is as it was.
pub proof fn lemma_columns_checked(p: Progress, k: Constraints, width: int, height: int, n: int)
    requires
        rectangular(p.grid, width, height),
        0 <= n <= width <= usize::MAX,
        height <= usize::MAX,
        after_columns(p, k, n).error is None,
        after_columns(p, k, n).log.len() == p.log.len(),
    ensures
        p.error is None,
        after_columns(p, k, n).grid == p.grid,
        n <= k.columns@.len(),
        forall|c: int| 0 <= c < n ==> solvable(#[trigger] column_of(p.grid, c), k.column(c)),
    decreases n,
{
    if n > 0 {
        let mid = after_columns(p, k, n - 1);
        lemma_after_columns_advances(p, k, width, height, n - 1);
        lemma_after_column_advances(mid, k, width, height, n - 1);
        lemma_columns_checked(p, k, width, height, n - 1);
    }
}

/// A sweep without a fault and without a deduction has found a completion for every line.
pub proof fn lemma_sweep_checked(grid: Seq<Seq<CellState>>, k: Constraints, width: int, height: int)
    requires
        rectangular(grid, width, height),
        0 <= width <= usize::MAX,
        0 <= height <= usize::MAX,
        after_sweep(grid, k, width, height).error is None,
        after_sweep(grid, k, width, height).log.len() == 0,
    ensures
        after_sweep(grid, k, width, height).grid == grid,
        all_solvable(grid, k, width, height),
{
    let rows = after_rows(fresh(grid), k, height);
    lemma_after_rows_advances(fresh(grid), k, width, height, height);
    lemma_after_columns_advances(rows, k, width, height, width);
    lemma_columns_checked(rows, k, width, height, width);
    lemma_rows_checked(fresh(grid), k, width, height, height);
}

/// Line solving that ends without a fault leaves a grid in which every line has a
/// completion.
pub proof fn lemma_passes_checked(
    grid: Seq<Seq<CellState>>,
    k: Constraints,
    width: int,
    height: int,
    limit: int,
    done: int,
)
    requires
        rectangular(grid, width, height),
        0 <= width <= usize::MAX,
        0 <= height <= usize::MAX,
        after_passes(grid, k, width, height, limit, done).error is None,
    ensures
        all_solvable(after_passes(grid, k, width, height, limit, done).grid, k, width, height),
    decreases limit - done,
{
    if done < limit {
        let swept = after_sweep(grid, k, width, height);
        lemma_after_sweep_advances(grid, k, width, height);
        if swept.log.len() == 0 {
            lemma_sweep_checked(grid, k, width, height);
        } else {
            lemma_passes_checked(swept.grid, k, width, height, limit, done + 1);
        }
    }
}

/// A grid without undecided cells that line solving leaves without a fault is a solution:
/// every row and every column satisfies its run lengths.
pub proof fn lemma_passes_solved(
    grid: Seq<Seq<CellState>>,
    k: Constraints,
    width: int,
    height: int,
    limit: int,
    done: int,
)
    requires
        rectangular(grid, width, height),
        0 <= width <= usize::MAX,
        0 <= height <= usize::MAX,
        after_passes(grid, k, width, height, limit, done).error is None,
        count_in_rows(after_passes(grid, k, width, height, limit, done).grid, CellState::Empty) == 0,
    ensures
        is_solution(after_passes(grid, k, width, height, limit, done).grid, k, width, height),
{
    let out = after_passes(grid, k, width, height, limit, done);
    lemma_after_passes_advances(grid, k, width, height, limit, done);
    lemma_passes_checked(grid, k, width, height, limit, done);
    lemma_no_empty(out.grid, width, height);
    lemma_solvable_solution(out.grid, k, width, height);
}

/// Solving rows never runs into the limit on the sweeps.
pub proof fn lemma_rows_no_limit(p: Progress, k: Constraints, n: int)
    requires
        p.error != Some(SolveError::IterationLimit),
    ensures
        after_rows(p, k, n).error != Some(SolveError::IterationLimit),
    decreases n,
{
    if n > 0 {
        lemma_rows_no_limit(p, k, n - 1);
    }
}

/// Solving columns never runs into the limit on the sweeps.
pub proof fn lemma_columns_no_limit(p: Progress, k: Constraints, n: int)
    requires
        p.error != Some(SolveError::IterationLimit),
    ensures
        after_columns(p, k, n).error != Some(SolveError::IterationLimit),
    decreases n,
{
    if n > 0 {
        lemma_columns_no_limit(p, k, n - 1);
    }
}

/// On a grid without undecided cells line solving makes one sweep, which finds nothing to
/// decide: its fault, if it has one, is a line without run lengths or without a completion.
pub proof fn lemma_complete_no_limit(grid: Seq<Seq<CellState>>, k: Constraints, width: int, height: int)
    requires
        rectangular(grid, width, height),
        0 <= width <= usize::MAX,
        0 <= height <= usize::MAX,
        count_in_rows(grid, CellState::Empty) == 0,
    ensures
        after_passes(grid, k, width, height, MAX_ITERATIONS as int, 0).error != Some(
            SolveError::IterationLimit,
        ),
{
    let swept = after_sweep(grid, k, width, height);
    lemma_after_sweep_advances(grid, k, width, height);
    lemma_no_empty(grid, width, height);
    if swept.log.len() > 0 {
        let d = swept.log[0];
        assert(grid[d.row as int][d.col as int] == CellState::Empty);
    }
    let rows = after_rows(fresh(grid), k, height);
    lemma_rows_no_limit(fresh(grid), k, height);
    lemma_columns_no_limit(rows, k, width);
}

/// A grid without undecided cells that the detector accepts is a solution.
pub proof fn lemma_valid_complete(grid: Seq<Seq<CellState>>, k: Constraints, width: int, height: int)
    requires
        rectangular(grid, width, height),
        0 <= width <= usize::MAX,
        0 <= height <= usize::MAX,
        count_in_rows(grid, CellState::Empty) == 0,
        valid_state(grid, k, width, height),
    ensures
        is_solution(grid, k, width, height),
{
    let limit = MAX_ITERATIONS as int;
    let out = after_passes(grid, k, width, height, limit, 0);
    lemma_complete_no_limit(grid, k, width, height);
    lemma_after_passes_advances(grid, k, width, height, limit, 0);
    lemma_passes_checked(grid, k, width, height, limit, 0);
    lemma_no_empty(grid, width, height);
    assert(out.grid =~~= grid);
    lemma_solvable_solution(grid, k, width, height);
}

/// `p` after the last check of a solver: where its grid has no undecided cell and line
/// solving finds a fault in it, that fault is the fault of the solver.
pub open spec fn confirmed(p: Progress, k: Constraints, width: int, height: int) -> Progress {
    let check = after_passes(
        p.grid,
        k,
        width,
        height,
        crate::solver::propagation::MAX_ITERATIONS as int,
        0,
    );
    if p.error is None && count_in_rows(p.grid, CellState::Empty) == 0 && check.error is Some {
        Progress { grid: p.grid, log: p.log, error: check.error }
    } else {
        p
    }
}

/// A grid without undecided cells that a solver returns after its last check is a solution:
/// every row and every column satisfies its run lengths.
pub proof fn lemma_confirmed_solution(p: Progress, k: Constraints, width: int, height: int)
    requires
        rectangular(p.grid, width, height),
        0 <= width <= usize::MAX,
        0 <= height <= usize::MAX,
        confirmed(p, k, width, height).error is None,
        count_in_rows(p.grid, CellState::Empty) == 0,
    ensures
        is_solution(p.grid, k, width, height),
{
    let limit = crate::solver::propagation::MAX_ITERATIONS as int;
    let out = after_passes(p.grid, k, width, height, limit, 0);
    lemma_after_passes_advances(p.grid, k, width, height, limit, 0);
    lemma_passes_checked(p.grid, k, width, height, limit, 0);
    lemma_no_empty(p.grid, width, height);
    assert(out.grid =~~= p.grid);
    lemma_solvable_solution(p.grid, k, width, height);
}

} // verus!
