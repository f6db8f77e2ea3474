//! What the logs of the solvers say: every deduction speaks of a cell that was undecided
//! when the solver began and holds in the grid that it leaves, no two deductions speak of
//! the same cell, and every cell that the solver has decided is spoken of.

use vstd::prelude::*;

use crate::grid::{count_in_rows, rectangular, with_cell, CellState, Constraints};
use crate::solver::advanced_solver::{
    advanced_rounds, lemma_advanced_rounds_grow, plain,
};
use crate::solver::backtracking::{
    backtracking_outcome, entered, propagated, restored, search, BacktrackingConfig, Search,
    SEARCH_ROUNDS,
};
use crate::solver::backtracking_optimized::{
    decided_cells, decided_in_row, optimized_outcome, settled, OptimizedBacktrackingConfig,
    HUNT_ROUNDS,
};
use crate::solver::branching::{best_cell, lemma_scan_rows};
use crate::solver::contradiction_detector::valid_state;
use crate::solver::deductions::{cell_before, lemma_sort_first, ordered_by_cell, sort_first};
use crate::solver::growth::lemma_grows_preceded;
use crate::solver::log_laws::{
    added, each_once, lemma_added_refl, lemma_added_trans, lemma_advanced_rounds_exact,
    lemma_advanced_rounds_once, lemma_after_columns_exact, lemma_after_columns_once,
    lemma_after_passes_exact, lemma_after_passes_once, lemma_after_rows_exact,
    lemma_after_rows_once, lemma_names_preceded, lemma_names_trans, lemma_once_preceded,
    lemma_once_trans, logged, named_from, names_changes, once_from,
};
use crate::solver::parallel_solver::{parallel_passes, parallel_sweep};
use crate::solver::propagation::{
    after_columns, after_passes, after_rows, extends, fresh, lemma_after_columns_advances,
    lemma_after_passes_advances, lemma_after_rows_advances, Progress, MAX_ITERATIONS,
};
use crate::solver::search_laws::{
    lemma_entered_grows, lemma_extends_trans, lemma_optimized_extends, lemma_search_grows,
    standing,
};
use crate::solver::ultimate_solver::{search_config, ultimate_outcome, UltimateSolverConfig};
use crate::solver::Deduction;

verus! {

/// A log tells a solver's work on a grid: its deductions speak of cells that were undecided
/// at first and hold in the end, each cell once, and every cell in which the grid has
/// changed is among them.
pub open spec fn tells(
    before: Seq<Seq<CellState>>,
    after: Seq<Seq<CellState>>,
    log: Seq<Deduction>,
    width: int,
    height: int,
) -> bool {
    &&& logged(before, after, log, width, height)
    &&& each_once(log)
    &&& names_changes(before, after, log, 0, width, height)
}

/// Deductions in the order of their cells name a cell once.
pub proof fn lemma_ordered_once(log: Seq<Deduction>)
    requires
        ordered_by_cell(log),
    ensures
        each_once(log),
{
    assert forall|i: int, j: int| 0 <= i < j < log.len() implies !crate::solver::deductions::same_cell(
        #[trigger] log[i],
        #[trigger] log[j],
    ) by {
        assert(cell_before(log[i], log[j]));
    }
}

/// One solver after another: where the log of the first tells its work and the log of the
/// second tells its own, both logs in a row tell the work of both.
pub proof fn lemma_tells_followed(
    grid: Seq<Seq<CellState>>,
    mid: Seq<Seq<CellState>>,
    end: Seq<Seq<CellState>>,
    first: Seq<Deduction>,
    second: Seq<Deduction>,
    width: int,
    height: int,
)
    requires
        rectangular(grid, width, height),
        extends(mid, grid),
        extends(end, mid),
        tells(grid, mid, first, width, height),
        tells(mid, end, second, width, height),
    ensures
        tells(grid, end, first + second, width, height),
{
    let a = fresh(grid);
    let b = Progress { grid: mid, log: first, error: None };
    let c = Progress { grid: end, log: first + second, error: None };
    assert(first.take(0) =~= Seq::<Deduction>::empty());
    assert(c.log.take(first.len() as int) =~= first);
    assert(added(a, b, width, height));
    assert(added(b, c, width, height)) by {
        assert forall|i: int| b.log.len() <= i < c.log.len() implies {
            &&& (#[trigger] c.log[i]).row < height
            &&& c.log[i].col < width
            &&& b.grid[c.log[i].row as int][c.log[i].col as int] == CellState::Empty
            &&& c.log[i].state != CellState::Empty
            &&& c.grid[c.log[i].row as int][c.log[i].col as int] == c.log[i].state
        } by {
            assert(c.log[i] == second[i - first.len()]);
        }
    }
    lemma_once_preceded(first, second, 0);
    lemma_once_trans(a, b, c, width, height);
    lemma_added_trans(a, b, c, width, height);
    lemma_names_preceded(mid, end, first, second, width, height);
    lemma_names_trans(a, b, c, width, height);
}

/// The log of [`crate::solver::NonogramSolver::solve`] tells its work: every deduction
/// speaks of a cell that was undecided at first and holds in the end, each cell once.
pub proof fn lemma_after_passes_log(
    grid: Seq<Seq<CellState>>,
    k: Constraints,
    width: int,
    height: int,
    limit: int,
    done: int,
)
    requires
        rectangular(grid, width, height),
        0 <= width <= usize::MAX,
        0 <= height <= usize::MAX,
    ensures
        tells(
            grid,
            after_passes(grid, k, width, height, limit, done).grid,
            after_passes(grid, k, width, height, limit, done).log,
            width,
            height,
        ),
{
    lemma_after_passes_advances(grid, k, width, height, limit, done);
    lemma_after_passes_once(grid, k, width, height, limit, done);
    lemma_after_passes_exact(grid, k, width, height, limit, done);
}

/// The log of [`crate::solver::AdvancedSolver::solve`] tells its work: every deduction
/// speaks of a cell that was undecided at first and holds in the end, each cell once.
pub proof fn lemma_advanced_rounds_log(
    grid: Seq<Seq<CellState>>,
    k: Constraints,
    width: int,
    height: int,
    cross: bool,
    heuristics: bool,
    limit: int,
    done: int,
)
    requires
        rectangular(grid, width, height),
        0 <= width <= usize::MAX,
        0 <= height <= usize::MAX,
    ensures
        tells(
            grid,
            advanced_rounds(grid, k, width, height, cross, heuristics, limit, done).grid,
            advanced_rounds(grid, k, width, height, cross, heuristics, limit, done).log,
            width,
            height,
        ),
{
    lemma_advanced_rounds_grow(grid, k, width, height, cross, heuristics, limit, done);
    lemma_advanced_rounds_once(grid, k, width, height, cross, heuristics, limit, done);
    lemma_advanced_rounds_exact(grid, k, width, height, cross, heuristics, limit, done);
}

/// Taking a cell to be filled or crossed logs the one cell that it decides.
pub proof fn lemma_entered_exact(
    s: Search,
    width: int,
    height: int,
    row: usize,
    col: usize,
    state: CellState,
)
    requires
        rectangular(s.grid, width, height),
        row < height,
        col < width,
    ensures
        names_changes(
            s.grid,
            entered(s, row, col, state).grid,
            entered(s, row, col, state).log,
            s.log.len() as int,
            width,
            height,
        ),
{
    let next = entered(s, row, col, state);
    assert forall|r: int, c: int|
        0 <= r < height && 0 <= c < width && #[trigger] next.grid[r][c]
            != s.grid[r][c] implies named_from(next.log, s.log.len() as int, r, c) by {
        assert(r == row && c == col);
        assert(next.log[s.log.len() as int].row == r && next.log[s.log.len() as int].col == c);
    }
}

/// What the basic search adds to its log: deductions on cells that were undecided, holding
/// in the grid that it leaves, no two of them on the same cell; whether it ends well or not.
pub proof fn lemma_search_log(
    s: Search,
    k: Constraints,
    width: int,
    height: int,
    config: BacktrackingConfig,
    depth: int,
)
    requires
        rectangular(s.grid, width, height),
        0 <= width <= usize::MAX,
        0 <= height <= usize::MAX,
    ensures
        added(standing(s), standing(search(s, k, width, height, config, depth)), width, height),
        once_from(search(s, k, width, height, config, depth).log, s.log.len() as int),
        names_changes(
            s.grid,
            search(s, k, width, height, config, depth).grid,
            search(s, k, width, height, config, depth).log,
            s.log.len() as int,
            width,
            height,
        ),
    decreases config.max_depth - depth,
{
    let out = search(s, k, width, height, config, depth);
    lemma_added_refl(standing(s), s.grid, width, height);
    if depth >= config.max_depth || s.explored >= config.max_states || s.visited.contains(
        crate::solver::state_key::serialized(s.grid),
    ) {
    } else {
        let solved = propagated(s.grid, k, width, height);
        lemma_advanced_rounds_grow(s.grid, k, width, height, true, true, SEARCH_ROUNDS as int, 0);
        lemma_advanced_rounds_once(s.grid, k, width, height, true, true, SEARCH_ROUNDS as int, 0);
        lemma_advanced_rounds_exact(s.grid, k, width, height, true, true, SEARCH_ROUNDS as int, 0);
        if solved.error is Some {
        } else {
            let base = Search {
                grid: solved.grid,
                log: s.log + solved.log,
                explored: s.explored + 1,
                visited: s.visited.push(crate::solver::state_key::serialized(s.grid)),
                failure: None,
            };
            assert(solved == plain(solved));
            lemma_grows_preceded(s.log, fresh(s.grid), solved, width, height);
            assert(s.log + Seq::<Deduction>::empty() =~= s.log);
            assert(added(standing(s), standing(base), width, height));
            lemma_once_preceded(s.log, solved.log, 0);
            lemma_names_preceded(s.grid, solved.grid, s.log, solved.log, width, height);
            if count_in_rows(solved.grid, CellState::Empty) != 0 {
                lemma_scan_rows(false, solved.grid, k, width, height, height);
                match best_cell(false, solved.grid, k, width, height) {
                    None => {},
                    Some((row, col)) => {
                        let first = entered(base, row, col, CellState::Filled);
                        lemma_entered_grows(base, width, height, row, col, CellState::Filled);
                        lemma_entered_exact(base, width, height, row, col, CellState::Filled);
                        lemma_search_grows(first, k, width, height, config, depth + 1);
                        lemma_search_log(first, k, width, height, config, depth + 1);
                        let filled = search(first, k, width, height, config, depth + 1);
                        let try_filled = valid_state(
                            with_cell(base.grid, row as int, col as int, CellState::Filled),
                            k,
                            width,
                            height,
                        );
                        if try_filled && filled.failure is None {
                            lemma_once_trans(standing(base), standing(first), standing(filled), width, height);
                            lemma_added_trans(standing(base), standing(first), standing(filled), width, height);
                            lemma_names_trans(standing(base), standing(first), standing(filled), width, height);
                            lemma_once_trans(standing(s), standing(base), standing(filled), width, height);
                            lemma_extends_trans(base.grid, first.grid, filled.grid);
                            lemma_added_trans(standing(s), standing(base), standing(filled), width, height);
                            lemma_names_trans(standing(s), standing(base), standing(filled), width, height);
                        } else {
                            let mid = if try_filled {
                                restored(base, filled)
                            } else {
                                base
                            };
                            assert(standing(mid) == standing(base));
                            let second = entered(mid, row, col, CellState::Crossed);
                            lemma_entered_grows(mid, width, height, row, col, CellState::Crossed);
                            lemma_entered_exact(mid, width, height, row, col, CellState::Crossed);
                            lemma_search_grows(second, k, width, height, config, depth + 1);
                            lemma_search_log(second, k, width, height, config, depth + 1);
                            let crossed = search(second, k, width, height, config, depth + 1);
                            let try_crossed = valid_state(
                                with_cell(mid.grid, row as int, col as int, CellState::Crossed),
                                k,
                                width,
                                height,
                            );
                            if try_crossed && crossed.failure is None {
                                lemma_once_trans(standing(mid), standing(second), standing(crossed), width, height);
                                lemma_added_trans(standing(mid), standing(second), standing(crossed), width, height);
                                lemma_names_trans(standing(mid), standing(second), standing(crossed), width, height);
                                lemma_once_trans(standing(s), standing(mid), standing(crossed), width, height);
                                lemma_extends_trans(mid.grid, second.grid, crossed.grid);
                                lemma_added_trans(standing(s), standing(mid), standing(crossed), width, height);
                                lemma_names_trans(standing(s), standing(mid), standing(crossed), width, height);
                            } else {
                                assert(standing(out) == standing(base));
                            }
                        }
                    },
                }
            }
        }
    }
}

/// The log of [`crate::solver::BacktrackingSolver::solve`] tells its work: every deduction
/// speaks of a cell that was undecided at first and holds in the end, each cell once.
pub proof fn lemma_backtracking_log(
    grid: Seq<Seq<CellState>>,
    k: Constraints,
    width: int,
    height: int,
    config: BacktrackingConfig,
)
    requires
        rectangular(grid, width, height),
        0 <= width <= usize::MAX,
        0 <= height <= usize::MAX,
    ensures
        tells(
            grid,
            backtracking_outcome(grid, k, width, height, config).grid,
            backtracking_outcome(grid, k, width, height, config).log,
            width,
            height,
        ),
{
    let first = propagated(grid, k, width, height);
    lemma_advanced_rounds_grow(grid, k, width, height, true, true, SEARCH_ROUNDS as int, 0);
    lemma_advanced_rounds_once(grid, k, width, height, true, true, SEARCH_ROUNDS as int, 0);
    lemma_advanced_rounds_exact(grid, k, width, height, true, true, SEARCH_ROUNDS as int, 0);
    if !(first.error is Some || count_in_rows(first.grid, CellState::Empty) == 0) {
        let start = Search {
            grid: first.grid,
            log: first.log,
            explored: 0,
            visited: Seq::empty(),
            failure: None,
        };
        let out = search(start, k, width, height, config, 0);
        lemma_search_grows(start, k, width, height, config, 0);
        lemma_search_log(start, k, width, height, config, 0);
        assert(standing(start) == plain(first));
        lemma_once_trans(fresh(grid), standing(start), standing(out), width, height);
        lemma_added_trans(fresh(grid), standing(start), standing(out), width, height);
        lemma_names_trans(fresh(grid), standing(start), standing(out), width, height);
    }
}

/// The cells that a grid has decided since another, row after row: each of them was
/// undecided and is decided as the list says, and they come in the order of their cells.
pub proof fn lemma_decided_in_row(
    before: Seq<Seq<CellState>>,
    grid: Seq<Seq<CellState>>,
    row: int,
    n: int,
)
    requires
        0 <= row <= usize::MAX,
        0 <= n <= usize::MAX,
    ensures
        forall|i: int|
            0 <= i < decided_in_row(before, grid, row, n).len() ==> {
                let d = #[trigger] decided_in_row(before, grid, row, n)[i];
                &&& d.row == row
                &&& d.col < n
                &&& before[row][d.col as int] == CellState::Empty
                &&& d.state != CellState::Empty
                &&& grid[row][d.col as int] == d.state
            },
        ordered_by_cell(decided_in_row(before, grid, row, n)),
    decreases n,
{
    if n > 0 {
        lemma_decided_in_row(before, grid, row, n - 1);
    }
}

/// The cells that a grid has decided since another tell the difference of the two.
pub proof fn lemma_decided_cells(
    before: Seq<Seq<CellState>>,
    grid: Seq<Seq<CellState>>,
    width: int,
    n: int,
)
    requires
        0 <= width <= usize::MAX,
        0 <= n <= usize::MAX,
    ensures
        forall|i: int|
            0 <= i < decided_cells(before, grid, width, n).len() ==> {
                let d = #[trigger] decided_cells(before, grid, width, n)[i];
                &&& d.row < n
                &&& d.col < width
                &&& before[d.row as int][d.col as int] == CellState::Empty
                &&& d.state != CellState::Empty
                &&& grid[d.row as int][d.col as int] == d.state
            },
        ordered_by_cell(decided_cells(before, grid, width, n)),
    decreases n,
{
    if n > 0 {
        lemma_decided_cells(before, grid, width, n - 1);
        lemma_decided_in_row(before, grid, n - 1, width);
        let head = decided_cells(before, grid, width, n - 1);
        let tail = decided_in_row(before, grid, n - 1, width);
        let all = decided_cells(before, grid, width, n);
        assert forall|i: int, j: int| 0 <= i < j < all.len() implies cell_before(
            #[trigger] all[i],
            #[trigger] all[j],
        ) by {
            if j < head.len() {
                assert(all[i] == head[i] && all[j] == head[j]);
            } else if i < head.len() {
                assert(all[i] == head[i] && all[j] == tail[j - head.len()]);
            } else {
                assert(all[i] == tail[i - head.len()] && all[j] == tail[j - head.len()]);
            }
        }
        assert forall|i: int| 0 <= i < all.len() implies {
            let d = #[trigger] all[i];
            &&& d.row < n
            &&& d.col < width
            &&& before[d.row as int][d.col as int] == CellState::Empty
            &&& d.state != CellState::Empty
            &&& grid[d.row as int][d.col as int] == d.state
        } by {
            if i < head.len() {
                assert(all[i] == head[i]);
            } else {
                assert(all[i] == tail[i - head.len()]);
            }
        }
    }
}

/// The cells that a grid has decided since another name every cell of a row that was
/// undecided and is decided.
pub proof fn lemma_decided_in_row_names(
    before: Seq<Seq<CellState>>,
    grid: Seq<Seq<CellState>>,
    row: int,
    n: int,
    c: int,
)
    requires
        0 <= row <= usize::MAX,
        0 <= c < n <= usize::MAX,
        before[row][c] == CellState::Empty,
        grid[row][c] != CellState::Empty,
    ensures
        named_from(decided_in_row(before, grid, row, n), 0, row, c),
    decreases n,
{
    let list = decided_in_row(before, grid, row, n);
    if c < n - 1 {
        lemma_decided_in_row_names(before, grid, row, n - 1, c);
        let earlier = decided_in_row(before, grid, row, n - 1);
        let i = choose|i: int|
            0 <= i < earlier.len() && (#[trigger] earlier[i]).row == row && earlier[i].col == c;
        assert(list[i] == earlier[i]);
        assert(list[i].row == row && list[i].col == c);
    } else {
        let i = list.len() - 1;
        assert(list[i].row == row && list[i].col == c);
    }
}

/// The cells that a grid has decided since another name every cell that was undecided and
/// is decided.
pub proof fn lemma_decided_cells_names(
    before: Seq<Seq<CellState>>,
    grid: Seq<Seq<CellState>>,
    width: int,
    n: int,
    r: int,
    c: int,
)
    requires
        0 <= width <= usize::MAX,
        0 <= r < n <= usize::MAX,
        0 <= c < width,
        before[r][c] == CellState::Empty,
        grid[r][c] != CellState::Empty,
    ensures
        named_from(decided_cells(before, grid, width, n), 0, r, c),
    decreases n,
{
    let all = decided_cells(before, grid, width, n);
    let head = decided_cells(before, grid, width, n - 1);
    let tail = decided_in_row(before, grid, n - 1, width);
    if r < n - 1 {
        lemma_decided_cells_names(before, grid, width, n - 1, r, c);
        let i = choose|i: int|
            0 <= i < head.len() && (#[trigger] head[i]).row == r && head[i].col == c;
        assert(all[i] == head[i]);
        assert(all[i].row == r && all[i].col == c);
    } else {
        lemma_decided_in_row_names(before, grid, r, width, c);
        let i = choose|i: int|
            0 <= i < tail.len() && (#[trigger] tail[i]).row == r && tail[i].col == c;
        assert(all[head.len() + i] == tail[i]);
        assert(all[head.len() + i].row == r && all[head.len() + i].col == c);
    }
}

/// The log of [`crate::solver::OptimizedBacktrackingSolver::solve`] tells its work, where
/// there is no fault: every deduction speaks of a cell that was undecided at first and holds
/// in the end, each cell once, and every cell that was decided is spoken of.
pub proof fn lemma_optimized_log(
    grid: Seq<Seq<CellState>>,
    k: Constraints,
    width: int,
    height: int,
    config: OptimizedBacktrackingConfig,
)
    requires
        rectangular(grid, width, height),
        0 <= width <= usize::MAX,
        0 <= height <= usize::MAX,
    ensures
        optimized_outcome(grid, k, width, height, config).error is None ==> tells(
            grid,
            optimized_outcome(grid, k, width, height, config).grid,
            optimized_outcome(grid, k, width, height, config).log,
            width,
            height,
        ),
{
    let out = optimized_outcome(grid, k, width, height, config);
    let first = settled(grid, k, width, height);
    lemma_advanced_rounds_grow(grid, k, width, height, true, true, HUNT_ROUNDS as int, 0);
    lemma_advanced_rounds_once(grid, k, width, height, true, true, HUNT_ROUNDS as int, 0);
    lemma_advanced_rounds_exact(grid, k, width, height, true, true, HUNT_ROUNDS as int, 0);
    if !(first.error is Some || count_in_rows(first.grid, CellState::Empty) == 0) {
        lemma_optimized_extends(grid, k, width, height, config);
        lemma_decided_cells(grid, out.grid, width, height);
        lemma_ordered_once(decided_cells(grid, out.grid, width, height));
        if out.error is None {
            assert forall|r: int, c: int|
                0 <= r < height && 0 <= c < width && #[trigger] out.grid[r][c]
                    != grid[r][c] implies named_from(out.log, 0, r, c) by {
                assert(out.grid[r].len() == grid[r].len());
                lemma_decided_cells_names(grid, out.grid, width, height, r, c);
            }
        }
    }
}

/// What a sweep with the lines of one direction solved at the same time adds to a log.
pub proof fn lemma_parallel_sweep_log(grid: Seq<Seq<CellState>>, k: Constraints, width: int, height: int)
    requires
        rectangular(grid, width, height),
        0 <= width <= usize::MAX,
        0 <= height <= usize::MAX,
    ensures
        rectangular(parallel_sweep(grid, k, width, height).grid, width, height),
        extends(parallel_sweep(grid, k, width, height).grid, grid),
        tells(
            grid,
            parallel_sweep(grid, k, width, height).grid,
            parallel_sweep(grid, k, width, height).log,
            width,
            height,
        ),
{
    let rows = after_rows(fresh(grid), k, height);
    lemma_after_rows_advances(fresh(grid), k, width, height, height);
    lemma_after_rows_once(fresh(grid), k, width, height, height);
    if rows.error is None {
        let columns = after_columns(fresh(rows.grid), k, width);
        lemma_after_columns_advances(fresh(rows.grid), k, width, height, width);
        lemma_after_columns_once(fresh(rows.grid), k, width, height, width);
        let sorted = sort_first(columns.log);
        lemma_sort_first(columns.log);
        lemma_ordered_once(sorted);
        assert(logged(rows.grid, columns.grid, sorted, width, height)) by {
            assert forall|i: int| 0 <= i < sorted.len() implies {
                &&& (#[trigger] sorted[i]).row < height
                &&& sorted[i].col < width
                &&& rows.grid[sorted[i].row as int][sorted[i].col as int] == CellState::Empty
                &&& sorted[i].state != CellState::Empty
                &&& columns.grid[sorted[i].row as int][sorted[i].col as int] == sorted[i].state
            } by {
                assert(crate::solver::deductions::first_on_cell(columns.log, sorted[i]));
                let j = choose|j: int|
                    0 <= j < columns.log.len() && #[trigger] columns.log[j] == sorted[i];
                assert(columns.log[j].row < height);
            }
        }
        lemma_after_columns_exact(fresh(rows.grid), k, width, height, width);
        assert(names_changes(rows.grid, columns.grid, sorted, 0, width, height)) by {
            assert forall|r: int, c: int|
                0 <= r < height && 0 <= c < width && #[trigger] columns.grid[r][c]
                    != rows.grid[r][c] implies named_from(sorted, 0, r, c) by {
                assert(named_from(columns.log, 0, r, c));
                let j = choose|j: int|
                    0 <= j < columns.log.len() && (#[trigger] columns.log[j]).row == r
                        && columns.log[j].col == c;
                assert(crate::solver::deductions::speaks_of(sorted, columns.log[j]));
                let i = choose|i: int|
                    0 <= i < sorted.len() && crate::solver::deductions::same_cell(
                        #[trigger] sorted[i],
                        columns.log[j],
                    );
                assert(sorted[i].row == r && sorted[i].col == c);
            }
        }
        lemma_after_rows_exact(fresh(grid), k, width, height, height);
        lemma_tells_followed(grid, rows.grid, columns.grid, rows.log, sorted, width, height);
        lemma_extends_trans(grid, rows.grid, columns.grid);
    } else {
        lemma_after_rows_exact(fresh(grid), k, width, height, height);
    }
}

/// The log of [`crate::solver::ParallelSolver::solve`] tells its work: every deduction
/// speaks of a cell that was undecided at first and holds in the end, each cell once.
pub proof fn lemma_parallel_passes_log(
    grid: Seq<Seq<CellState>>,
    k: Constraints,
    width: int,
    height: int,
    limit: int,
    done: int,
)
    requires
        rectangular(grid, width, height),
        0 <= width <= usize::MAX,
        0 <= height <= usize::MAX,
    ensures
        rectangular(parallel_passes(grid, k, width, height, limit, done).grid, width, height),
        extends(parallel_passes(grid, k, width, height, limit, done).grid, grid),
        tells(
            grid,
            parallel_passes(grid, k, width, height, limit, done).grid,
            parallel_passes(grid, k, width, height, limit, done).log,
            width,
            height,
        ),
    decreases limit - done,
{
    if done < limit {
        let swept = parallel_sweep(grid, k, width, height);
        lemma_parallel_sweep_log(grid, k, width, height);
        if swept.error is None && swept.log.len() > 0 {
            let rest = parallel_passes(swept.grid, k, width, height, limit, done + 1);
            lemma_parallel_passes_log(swept.grid, k, width, height, limit, done + 1);
            lemma_tells_followed(grid, swept.grid, rest.grid, swept.log, rest.log, width, height);
            lemma_extends_trans(grid, swept.grid, rest.grid);
        }
    }
}

/// The log of [`crate::solver::UltimateSolver::solve`] tells its work, where there is no
/// fault: every deduction speaks of a cell that was undecided at first and holds in the
/// end, each cell once, and every cell that was decided is spoken of.
pub proof fn lemma_ultimate_log(
    grid: Seq<Seq<CellState>>,
    k: Constraints,
    width: int,
    height: int,
    config: UltimateSolverConfig,
)
    requires
        rectangular(grid, width, height),
        0 <= width <= usize::MAX,
        0 <= height <= usize::MAX,
    ensures
        ultimate_outcome(grid, k, width, height, config).error is None ==> tells(
            grid,
            ultimate_outcome(grid, k, width, height, config).grid,
            ultimate_outcome(grid, k, width, height, config).log,
            width,
            height,
        ),
{
    let out = ultimate_outcome(grid, k, width, height, config);
    let first = advanced_rounds(
        grid,
        k,
        width,
        height,
        config.use_cross_analysis,
        config.use_advanced_heuristics,
        config.max_iterations as int,
        0,
    );
    lemma_advanced_rounds_grow(
        grid,
        k,
        width,
        height,
        config.use_cross_analysis,
        config.use_advanced_heuristics,
        config.max_iterations as int,
        0,
    );
    lemma_advanced_rounds_log(
        grid,
        k,
        width,
        height,
        config.use_cross_analysis,
        config.use_advanced_heuristics,
        config.max_iterations as int,
        0,
    );
    if out.error is None && !(first.error is Some || count_in_rows(first.grid, CellState::Empty)
        == 0) {
        let passes = parallel_passes(first.grid, k, width, height, MAX_ITERATIONS as int, 0);
        lemma_parallel_passes_log(first.grid, k, width, height, MAX_ITERATIONS as int, 0);
        let second_grid = if config.use_parallel {
            passes.grid
        } else {
            first.grid
        };
        let second_log = if config.use_parallel {
            first.log + passes.log
        } else {
            first.log
        };
        if config.use_parallel {
            lemma_tells_followed(grid, first.grid, passes.grid, first.log, passes.log, width, height);
            lemma_extends_trans(grid, first.grid, passes.grid);
        }
        assert(tells(grid, second_grid, second_log, width, height));
        assert(extends(second_grid, grid));
        let second_error = if config.use_parallel {
            passes.error
        } else {
            first.error
        };
        if !(second_error is Some || count_in_rows(second_grid, CellState::Empty) == 0
            || !config.use_backtracking) {
            let last = optimized_outcome(second_grid, k, width, height, search_config(config));
            lemma_optimized_extends(second_grid, k, width, height, search_config(config));
            lemma_optimized_log(second_grid, k, width, height, search_config(config));
            lemma_tells_followed(
                grid,
                second_grid,
                last.grid,
                second_log,
                last.log,
                width,
                height,
            );
        }
    }
}

} // verus!
