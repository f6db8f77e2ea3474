//! What search never does: it never takes back a cell that the grid had decided.

use vstd::prelude::*;

use crate::grid::{column_of, count_in_rows, rectangular, with_cell, CellState, Constraints};
use crate::solver::advanced_solver::{advanced_rounds, lemma_advanced_rounds_grow, plain};
use crate::solver::backtracking::{
    backtracking_outcome, entered, propagated, restored, search, BacktrackingConfig, Search,
    SEARCH_ROUNDS,
};
use crate::solver::backtracking_optimized::{
    hidden_columns, hidden_line, hidden_rows, hidden_singles, hunt, lemma_singles_in_rows,
    naked_singles, optimized_outcome, settled, single_at, singles_in_row, singles_in_rows, taken,
    undone, Hunt, OptimizedBacktrackingConfig, Outcome, HUNT_ROUNDS,
};
use crate::solver::branching::{best_cell, lemma_scan_rows};
use crate::solver::contradiction_detector::valid_state;
use crate::solver::growth::{grows, lemma_grows_preceded, lemma_grows_refl, lemma_grows_trans};
use crate::solver::parallel_solver::{lemma_parallel_passes, parallel_passes};
use crate::solver::propagation::{
    extends, fresh, lemma_after_passes_advances, Progress, MAX_ITERATIONS,
};
use crate::solver::ultimate_solver::{search_config, ultimate_outcome, UltimateSolverConfig};
use crate::solver::Deduction;

verus! {

/// Keeping the decided cells is passed on.
pub proof fn lemma_extends_trans(
    a: Seq<Seq<CellState>>,
    b: Seq<Seq<CellState>>,
    c: Seq<Seq<CellState>>,
)
    requires
        extends(b, a),
        extends(c, b),
    ensures
        extends(c, a),
{
    assert forall|r: int, col: int|
        0 <= r < a.len() && 0 <= col < a[r].len() && a[r][col] != CellState::Empty implies
        #[trigger] c[r][col] == a[r][col] by {
        assert(b[r].len() == a[r].len());
        assert(b[r][col] == a[r][col]);
    }
    assert forall|r: int| 0 <= r < a.len() implies (#[trigger] c[r]).len() == a[r].len() by {
        assert(b[r].len() == a[r].len());
    }
}

/// The grid and the deductions of a search, as the progress of a solver.
pub open spec fn standing(s: Search) -> Progress {
    Progress { grid: s.grid, log: s.log, error: None }
}

/// The search never takes back a decided cell, and where it ends well every deduction
/// that it has added speaks of a cell that was undecided and holds in the grid.
pub proof fn lemma_search_grows(
    s: Search,
    k: Constraints,
    width: int,
    height: int,
    config: BacktrackingConfig,
    depth: int,
)
    requires
        rectangular(s.grid, width, height),
        0 <= width <= usize::MAX,
        0 <= height <= usize::MAX,
    ensures
        rectangular(search(s, k, width, height, config, depth).grid, width, height),
        extends(search(s, k, width, height, config, depth).grid, s.grid),
        search(s, k, width, height, config, depth).failure is None ==> grows(
            standing(s),
            standing(search(s, k, width, height, config, depth)),
            width,
            height,
        ),
    decreases config.max_depth - depth,
{
    let out = search(s, k, width, height, config, depth);
    lemma_grows_refl(standing(s), width, height);
    if depth >= config.max_depth || s.explored >= config.max_states || s.visited.contains(
        crate::solver::state_key::serialized(s.grid),
    ) {
    } else {
        let solved = propagated(s.grid, k, width, height);
        lemma_advanced_rounds_grow(
            s.grid,
            k,
            width,
            height,
            true,
            true,
            SEARCH_ROUNDS as int,
            0,
        );
        if solved.error is None {
            let base = Search {
                grid: solved.grid,
                log: s.log + solved.log,
                explored: s.explored + 1,
                visited: s.visited.push(crate::solver::state_key::serialized(s.grid)),
                failure: None,
            };
            assert(solved == plain(solved));
            lemma_grows_preceded(s.log, fresh(s.grid), solved, width, height);
            assert(s.log + Seq::<Deduction>::empty() =~= s.log);
            assert(grows(standing(s), standing(base), width, height));
            if count_in_rows(solved.grid, CellState::Empty) != 0 {
                lemma_scan_rows(false, solved.grid, k, width, height, height);
                match best_cell(false, solved.grid, k, width, height) {
                    None => {},
                    Some((row, col)) => {
                        let first = entered(base, row, col, CellState::Filled);
                        lemma_entered_grows(base, width, height, row, col, CellState::Filled);
                        lemma_search_grows(first, k, width, height, config, depth + 1);
                        let filled = search(first, k, width, height, config, depth + 1);
                        let try_filled = valid_state(
                            with_cell(base.grid, row as int, col as int, CellState::Filled),
                            k,
                            width,
                            height,
                        );
                        if try_filled && filled.failure is None {
                            lemma_grows_trans(
                                standing(base),
                                standing(first),
                                standing(filled),
                                width,
                                height,
                            );
                            lemma_grows_trans(
                                standing(s),
                                standing(base),
                                standing(filled),
                                width,
                                height,
                            );
                        } else {
                            let mid = if try_filled {
                                restored(base, filled)
                            } else {
                                base
                            };
                            assert(standing(mid) == standing(base));
                            let second = entered(mid, row, col, CellState::Crossed);
                            lemma_entered_grows(mid, width, height, row, col, CellState::Crossed);
                            lemma_search_grows(second, k, width, height, config, depth + 1);
                            let crossed = search(second, k, width, height, config, depth + 1);
                            let try_crossed = valid_state(
                                with_cell(mid.grid, row as int, col as int, CellState::Crossed),
                                k,
                                width,
                                height,
                            );
                            if try_crossed && crossed.failure is None {
                                lemma_grows_trans(
                                    standing(mid),
                                    standing(second),
                                    standing(crossed),
                                    width,
                                    height,
                                );
                                lemma_grows_trans(
                                    standing(s),
                                    standing(mid),
                                    standing(crossed),
                                    width,
                                    height,
                                );
                            }
                        }
                    },
                }
            }
        }
    }
}

/// Taking an undecided cell to be filled or crossed decides one cell and logs it.
pub proof fn lemma_entered_grows(
    s: Search,
    width: int,
    height: int,
    row: usize,
    col: usize,
    state: CellState,
)
    requires
        rectangular(s.grid, width, height),
        row < height,
        col < width,
        s.grid[row as int][col as int] == CellState::Empty,
        state != CellState::Empty,
    ensures
        grows(standing(s), standing(entered(s, row, col, state)), width, height),
{
    let next = entered(s, row, col, state);
    assert(next.log.take(s.log.len() as int) =~= s.log);
}

/// What [`crate::solver::BacktrackingSolver::solve`] leaves keeps every cell that the grid
/// had decided.
pub proof fn lemma_backtracking_extends(
    grid: Seq<Seq<CellState>>,
    k: Constraints,
    width: int,
    height: int,
    config: BacktrackingConfig,
)
    requires
        rectangular(grid, width, height),
        0 <= width <= usize::MAX,
        0 <= height <= usize::MAX,
    ensures
        rectangular(backtracking_outcome(grid, k, width, height, config).grid, width, height),
        extends(backtracking_outcome(grid, k, width, height, config).grid, grid),
{
    let first = propagated(grid, k, width, height);
    lemma_advanced_rounds_grow(grid, k, width, height, true, true, SEARCH_ROUNDS as int, 0);
    if !(first.error is Some || count_in_rows(first.grid, CellState::Empty) == 0) {
        let start = Search {
            grid: first.grid,
            log: first.log,
            explored: 0,
            visited: Seq::empty(),
            failure: None,
        };
        lemma_search_grows(start, k, width, height, config, 0);
        lemma_extends_trans(grid, first.grid, search(start, k, width, height, config, 0).grid);
    }
}

/// Trying one cell keeps every decided cell.
pub proof fn lemma_single_at_extends(
    grid: Seq<Seq<CellState>>,
    k: Constraints,
    width: int,
    height: int,
    row: int,
    col: int,
)
    requires
        rectangular(grid, width, height),
        0 <= row < height,
        0 <= col < width,
    ensures
        rectangular(single_at(grid, k, width, height, row, col), width, height),
        extends(single_at(grid, k, width, height, row, col), grid),
{
}

/// Trying the cells of a row keeps every decided cell.
pub proof fn lemma_singles_in_row_extends(
    grid: Seq<Seq<CellState>>,
    k: Constraints,
    width: int,
    height: int,
    row: int,
    n: int,
)
    requires
        rectangular(grid, width, height),
        0 <= row < height,
        0 <= n <= width,
    ensures
        rectangular(singles_in_row(grid, k, width, height, row, n), width, height),
        extends(singles_in_row(grid, k, width, height, row, n), grid),
    decreases n,
{
    if n > 0 {
        lemma_singles_in_row_extends(grid, k, width, height, row, n - 1);
        let mid = singles_in_row(grid, k, width, height, row, n - 1);
        lemma_single_at_extends(mid, k, width, height, row, n - 1);
        lemma_extends_trans(grid, mid, single_at(mid, k, width, height, row, n - 1));
    }
}

/// Trying the cells of some rows keeps every decided cell.
pub proof fn lemma_singles_in_rows_extends(
    grid: Seq<Seq<CellState>>,
    k: Constraints,
    width: int,
    height: int,
    n: int,
)
    requires
        rectangular(grid, width, height),
        0 <= n <= height,
        0 <= width,
    ensures
        rectangular(singles_in_rows(grid, k, width, height, n), width, height),
        extends(singles_in_rows(grid, k, width, height, n), grid),
    decreases n,
{
    if n > 0 {
        lemma_singles_in_rows_extends(grid, k, width, height, n - 1);
        let mid = singles_in_rows(grid, k, width, height, n - 1);
        lemma_singles_in_row_extends(mid, k, width, height, n - 1, width);
        lemma_extends_trans(grid, mid, singles_in_row(mid, k, width, height, n - 1, width));
    }
}

/// The single-cell deductions keep every decided cell.
pub proof fn lemma_naked_singles_extends(
    grid: Seq<Seq<CellState>>,
    k: Constraints,
    width: int,
    height: int,
)
    requires
        rectangular(grid, width, height),
        0 <= width,
        0 <= height,
    ensures
        rectangular(naked_singles(grid, k, width, height), width, height),
        extends(naked_singles(grid, k, width, height), grid),
    decreases count_in_rows(grid, CellState::Empty),
{
    let next = singles_in_rows(grid, k, width, height, height);
    lemma_singles_in_rows_extends(grid, k, width, height, height);
    lemma_singles_in_rows(grid, k, width, height, height);
    if next != grid {
        lemma_naked_singles_extends(next, k, width, height);
        lemma_extends_trans(grid, next, naked_singles(next, k, width, height));
    }
}

/// Looking at the runs of a line keeps every decided cell of the line.
pub proof fn lemma_hidden_line_keeps(line: Seq<CellState>, blocks: Seq<usize>, n: int)
    ensures
        hidden_line(line, blocks, n).len() == line.len(),
        forall|i: int|
            0 <= i < line.len() && line[i] != CellState::Empty ==> #[trigger] hidden_line(
                line,
                blocks,
                n,
            )[i] == line[i],
    decreases n,
{
    if n > 0 {
        lemma_hidden_line_keeps(line, blocks, n - 1);
    }
}

/// Looking at the runs of some rows keeps every decided cell.
pub proof fn lemma_hidden_rows_extends(
    grid: Seq<Seq<CellState>>,
    k: Constraints,
    width: int,
    height: int,
    n: int,
)
    requires
        rectangular(grid, width, height),
        0 <= n <= height,
    ensures
        rectangular(hidden_rows(grid, k, n).grid, width, height),
        extends(hidden_rows(grid, k, n).grid, grid),
    decreases n,
{
    if n > 0 {
        lemma_hidden_rows_extends(grid, k, width, height, n - 1);
        let before = hidden_rows(grid, k, n - 1);
        if before.error is None && n - 1 < k.rows@.len() {
            lemma_hidden_line_keeps(before.grid[n - 1], k.row(n - 1), k.row(n - 1).len() as int);
            let after = hidden_rows(grid, k, n).grid;
            assert(extends(after, before.grid));
            lemma_extends_trans(grid, before.grid, after);
        }
    }
}

/// Looking at the runs of some columns keeps every decided cell.
pub proof fn lemma_hidden_columns_extends(
    start: Outcome,
    k: Constraints,
    width: int,
    height: int,
    n: int,
)
    requires
        rectangular(start.grid, width, height),
        0 <= n <= width,
    ensures
        rectangular(hidden_columns(start, k, n).grid, width, height),
        extends(hidden_columns(start, k, n).grid, start.grid),
    decreases n,
{
    if n > 0 {
        lemma_hidden_columns_extends(start, k, width, height, n - 1);
        let before = hidden_columns(start, k, n - 1);
        if before.error is None && n - 1 < k.columns@.len() {
            let line = column_of(before.grid, n - 1);
            lemma_hidden_line_keeps(line, k.column(n - 1), k.column(n - 1).len() as int);
            let after = hidden_columns(start, k, n).grid;
            assert(extends(after, before.grid)) by {
                assert forall|r: int, c: int|
                    0 <= r < before.grid.len() && 0 <= c < before.grid[r].len()
                        && before.grid[r][c] != CellState::Empty implies #[trigger] after[r][c]
                    == before.grid[r][c] by {
                    if c == n - 1 {
                        assert(line[r] == before.grid[r][c]);
                    }
                }
            }
            lemma_extends_trans(start.grid, before.grid, after);
        }
    }
}

/// The search in the grid never takes back a decided cell.
pub proof fn lemma_hunt_extends(
    s: Hunt,
    k: Constraints,
    width: int,
    height: int,
    config: OptimizedBacktrackingConfig,
    depth: int,
)
    requires
        rectangular(s.grid, width, height),
        0 <= width <= usize::MAX,
        0 <= height <= usize::MAX,
    ensures
        rectangular(hunt(s, k, width, height, config, depth).grid, width, height),
        extends(hunt(s, k, width, height, config, depth).grid, s.grid),
    decreases config.max_depth - depth,
{
    if depth >= config.max_depth || s.explored >= config.max_states || count_in_rows(
        s.grid,
        CellState::Empty,
    ) == 0 || s.visited.contains(crate::solver::state_key::serialized(s.grid)) {
    } else {
        let solved = settled(s.grid, k, width, height);
        lemma_advanced_rounds_grow(s.grid, k, width, height, true, true, HUNT_ROUNDS as int, 0);
        let grid = if config.use_constraint_propagation {
            solved.grid
        } else {
            s.grid
        };
        let base = Hunt {
            grid,
            explored: s.explored + 1,
            visited: s.visited.push(crate::solver::state_key::serialized(s.grid)),
            failure: None,
        };
        if config.use_constraint_propagation && (solved.error is Some || count_in_rows(
            grid,
            CellState::Empty,
        ) == 0) {
        } else {
            lemma_scan_rows(true, grid, k, width, height, height);
            match best_cell(true, grid, k, width, height) {
                None => {},
                Some((row, col)) => {
                    let first = taken(base, row, col, CellState::Filled);
                    lemma_hunt_extends(first, k, width, height, config, depth + 1);
                    let filled = hunt(first, k, width, height, config, depth + 1);
                    let try_filled = valid_state(
                        with_cell(grid, row as int, col as int, CellState::Filled),
                        k,
                        width,
                        height,
                    );
                    lemma_taken_extends(base.grid, width, height, row, col, CellState::Filled);
                    if try_filled && filled.failure is None {
                        lemma_extends_trans(base.grid, first.grid, filled.grid);
                        lemma_extends_trans(s.grid, base.grid, filled.grid);
                    } else {
                        let mid = if try_filled {
                            undone(base, filled)
                        } else {
                            base
                        };
                        let second = taken(mid, row, col, CellState::Crossed);
                        lemma_hunt_extends(second, k, width, height, config, depth + 1);
                        let crossed = hunt(second, k, width, height, config, depth + 1);
                        lemma_taken_extends(mid.grid, width, height, row, col, CellState::Crossed);
                        let try_crossed = valid_state(
                            with_cell(mid.grid, row as int, col as int, CellState::Crossed),
                            k,
                            width,
                            height,
                        );
                        lemma_extends_trans(s.grid, base.grid, mid.grid);
                        if try_crossed && crossed.failure is None {
                            lemma_extends_trans(mid.grid, second.grid, crossed.grid);
                            lemma_extends_trans(s.grid, mid.grid, crossed.grid);
                        } else {
                            let end = if try_crossed {
                                undone(mid, crossed)
                            } else {
                                mid
                            };
                            lemma_extends_trans(s.grid, mid.grid, end.grid);
                        }
                    }
                },
            }
        }
    }
}

/// Taking an undecided cell to be filled or crossed keeps every decided cell.
pub proof fn lemma_taken_extends(
    base: Seq<Seq<CellState>>,
    width: int,
    height: int,
    row: usize,
    col: usize,
    state: CellState,
)
    requires
        rectangular(base, width, height),
        row < height,
        col < width,
        base[row as int][col as int] == CellState::Empty,
    ensures
        rectangular(with_cell(base, row as int, col as int, state), width, height),
        extends(with_cell(base, row as int, col as int, state), base),
{
}

/// What [`crate::solver::OptimizedBacktrackingSolver::solve`] leaves keeps every cell that
/// the grid had decided.
pub proof fn lemma_optimized_extends(
    grid: Seq<Seq<CellState>>,
    k: Constraints,
    width: int,
    height: int,
    config: OptimizedBacktrackingConfig,
)
    requires
        rectangular(grid, width, height),
        0 <= width <= usize::MAX,
        0 <= height <= usize::MAX,
    ensures
        rectangular(optimized_outcome(grid, k, width, height, config).grid, width, height),
        extends(optimized_outcome(grid, k, width, height, config).grid, grid),
{
    let first = settled(grid, k, width, height);
    lemma_advanced_rounds_grow(grid, k, width, height, true, true, HUNT_ROUNDS as int, 0);
    if !(first.error is Some || count_in_rows(first.grid, CellState::Empty) == 0) {
        let naked = if config.use_naked_singles {
            naked_singles(first.grid, k, width, height)
        } else {
            first.grid
        };
        lemma_naked_singles_extends(first.grid, k, width, height);
        lemma_extends_trans(grid, first.grid, naked);
        let hidden = if config.use_hidden_singles {
            hidden_singles(naked, k, width, height)
        } else {
            Outcome { grid: naked, error: None }
        };
        if config.use_hidden_singles {
            lemma_hidden_rows_extends(naked, k, width, height, height);
            let rows = hidden_rows(naked, k, height);
            lemma_hidden_columns_extends(rows, k, width, height, width);
            lemma_extends_trans(naked, rows.grid, hidden.grid);
        }
        lemma_extends_trans(grid, naked, hidden.grid);
        if hidden.error is None && count_in_rows(hidden.grid, CellState::Empty) != 0 {
            let start = Hunt {
                grid: hidden.grid,
                explored: 0,
                visited: Seq::empty(),
                failure: None,
            };
            lemma_hunt_extends(start, k, width, height, config, 0);
            lemma_extends_trans(grid, hidden.grid, hunt(start, k, width, height, config, 0).grid);
        }
    }
}

/// What [`crate::solver::UltimateSolver::solve`] leaves keeps every cell that the grid had
/// decided.
pub proof fn lemma_ultimate_extends(
    grid: Seq<Seq<CellState>>,
    k: Constraints,
    width: int,
    height: int,
    config: UltimateSolverConfig,
)
    requires
        rectangular(grid, width, height),
        0 <= width <= usize::MAX,
        0 <= height <= usize::MAX,
    ensures
        rectangular(ultimate_outcome(grid, k, width, height, config).grid, width, height),
        extends(ultimate_outcome(grid, k, width, height, config).grid, grid),
{
    let first = advanced_rounds(
        grid,
        k,
        width,
        height,
        config.use_cross_analysis,
        config.use_advanced_heuristics,
        config.max_iterations as int,
        0,
    );
    lemma_advanced_rounds_grow(
        grid,
        k,
        width,
        height,
        config.use_cross_analysis,
        config.use_advanced_heuristics,
        config.max_iterations as int,
        0,
    );
    if !(first.error is Some || count_in_rows(first.grid, CellState::Empty) == 0) {
        let passes = parallel_passes(first.grid, k, width, height, MAX_ITERATIONS as int, 0);
        lemma_parallel_passes(first.grid, k, width, height, MAX_ITERATIONS as int, 0);
        lemma_after_passes_advances(first.grid, k, width, height, MAX_ITERATIONS as int, 0);
        let second_grid = if config.use_parallel {
            passes.grid
        } else {
            first.grid
        };
        lemma_extends_trans(grid, first.grid, second_grid);
        lemma_optimized_extends(second_grid, k, width, height, search_config(config));
        lemma_extends_trans(
            grid,
            second_grid,
            optimized_outcome(second_grid, k, width, height, search_config(config)).grid,
        );
    }
}

} // verus!
