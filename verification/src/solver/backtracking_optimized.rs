//! Search by trial in the grid itself, with single-cell and single-place deductions before it.

use vstd::prelude::*;

use crate::grid::{
    column_of, count_in_rows, lemma_count_with_cell, rectangular, with_cell, with_column, CellState,
    Constraints, Grid,
};
use crate::solver::advanced_solver::{advanced_rounds, AdvancedSolverConfig};
use crate::solver::branching::{best_cell, choose_cell, weighted_score, SearchFailure};
use crate::solver::contradiction_detector::valid_state;
use crate::solver::line_rules::no_crossed_in;
use crate::solver::propagation::Progress;
use crate::solver::state_key::{contains_key, grid_to_string, serialized, texts};
use crate::solver::{AdvancedSolver, ContradictionDetector, Deduction, SolveError};

verus! {

/// Limits and techniques of an [`OptimizedBacktrackingSolver`].
#[derive(Debug, Clone, Copy)]
pub struct OptimizedBacktrackingConfig {
    /// How deep the search may go.
    pub max_depth: usize,
    /// How many grids the search may look at.
    pub max_states: usize,
    /// Whether the solvers are run on every grid of the search.
    pub use_constraint_propagation: bool,
    /// Whether cells with one state left are decided before the search.
    pub use_naked_singles: bool,
    /// Whether runs with one place left are filled before the search.
    pub use_hidden_singles: bool,
    /// Whether the caller wants the progress reported.
    pub verbose: bool,
}

impl Default for OptimizedBacktrackingConfig {
    fn default() -> (config: OptimizedBacktrackingConfig)
        ensures
            config.max_depth == 50,
            config.max_states == 100000,
            config.use_constraint_propagation,
            config.use_naked_singles,
            config.use_hidden_singles,
            !config.verbose,
    {
        OptimizedBacktrackingConfig {
            max_depth: 50,
            max_states: 100000,
            use_constraint_propagation: true,
            use_naked_singles: true,
            use_hidden_singles: true,
            verbose: false,
        }
    }
}

/// Most rounds that the solvers make on one grid of the search.
pub const HUNT_ROUNDS: usize = 100;

/// What the solvers make of a grid of the search.
pub open spec fn settled(grid: Seq<Seq<CellState>>, k: Constraints, width: int, height: int) -> Progress {
    advanced_rounds(grid, k, width, height, true, true, HUNT_ROUNDS as int, 0)
}

/// The cells among the first `n` of row `row` that `before` leaves undecided and `grid` has
/// decided, as deductions.
pub open spec fn decided_in_row(
    before: Seq<Seq<CellState>>,
    grid: Seq<Seq<CellState>>,
    row: int,
    n: int,
) -> Seq<Deduction>
    decreases n,
{
    if n <= 0 {
        Seq::empty()
    } else {
        let earlier = decided_in_row(before, grid, row, n - 1);
        if before[row][n - 1] == CellState::Empty && grid[row][n - 1] != CellState::Empty {
            earlier.push(
                Deduction { row: row as usize, col: (n - 1) as usize, state: grid[row][n - 1] },
            )
        } else {
            earlier
        }
    }
}

/// The cells of the first `n` rows that `before` leaves undecided and `grid` has decided, as
/// deductions, row after row.
pub open spec fn decided_cells(
    before: Seq<Seq<CellState>>,
    grid: Seq<Seq<CellState>>,
    width: int,
    n: int,
) -> Seq<Deduction>
    decreases n,
{
    if n <= 0 {
        Seq::empty()
    } else {
        decided_cells(before, grid, width, n - 1) + decided_in_row(before, grid, n - 1, width)
    }
}

/// The grid after the undecided cell `(row, col)` has been tried: where the detector finds
/// a fault in one of its states and none in the other, the cell gets the other.
pub open spec fn single_at(
    grid: Seq<Seq<CellState>>,
    k: Constraints,
    width: int,
    height: int,
    row: int,
    col: int,
) -> Seq<Seq<CellState>> {
    if grid[row][col] != CellState::Empty {
        grid
    } else {
        let filled = valid_state(with_cell(grid, row, col, CellState::Filled), k, width, height);
        let crossed = valid_state(with_cell(grid, row, col, CellState::Crossed), k, width, height);
        if filled && !crossed {
            with_cell(grid, row, col, CellState::Filled)
        } else if !filled && crossed {
            with_cell(grid, row, col, CellState::Crossed)
        } else {
            grid
        }
    }
}

/// The grid after the first `n` cells of row `row` have been tried.
pub open spec fn singles_in_row(
    grid: Seq<Seq<CellState>>,
    k: Constraints,
    width: int,
    height: int,
    row: int,
    n: int,
) -> Seq<Seq<CellState>>
    decreases n,
{
    if n <= 0 {
        grid
    } else {
        single_at(singles_in_row(grid, k, width, height, row, n - 1), k, width, height, row, n - 1)
    }
}

/// The grid after the cells of the first `n` rows have been tried.
pub open spec fn singles_in_rows(
    grid: Seq<Seq<CellState>>,
    k: Constraints,
    width: int,
    height: int,
    n: int,
) -> Seq<Seq<CellState>>
    decreases n,
{
    if n <= 0 {
        grid
    } else {
        singles_in_row(
            singles_in_rows(grid, k, width, height, n - 1),
            k,
            width,
            height,
            n - 1,
            width,
        )
    }
}

/// `later` is `earlier` with some undecided cells decided.
pub open spec fn decided_more(
    earlier: Seq<Seq<CellState>>,
    later: Seq<Seq<CellState>>,
    width: int,
    height: int,
) -> bool {
    &&& rectangular(later, width, height)
    &&& count_in_rows(later, CellState::Empty) <= count_in_rows(earlier, CellState::Empty)
    &&& count_in_rows(later, CellState::Empty) == count_in_rows(earlier, CellState::Empty)
        ==> later == earlier
}

/// Trying one cell decides it or leaves the grid as it is.
pub proof fn lemma_single_at(
    grid: Seq<Seq<CellState>>,
    k: Constraints,
    width: int,
    height: int,
    row: int,
    col: int,
)
    requires
        rectangular(grid, width, height),
        0 <= row < height,
        0 <= col < width,
    ensures
        decided_more(grid, single_at(grid, k, width, height, row, col), width, height),
{
    lemma_count_with_cell(grid, row, col, CellState::Filled);
    lemma_count_with_cell(grid, row, col, CellState::Crossed);
}

/// Trying the cells of a row decides some of them or leaves the grid as it is.
pub proof fn lemma_singles_in_row(
    grid: Seq<Seq<CellState>>,
    k: Constraints,
    width: int,
    height: int,
    row: int,
    n: int,
)
    requires
        rectangular(grid, width, height),
        0 <= row < height,
        0 <= n <= width,
    ensures
        decided_more(grid, singles_in_row(grid, k, width, height, row, n), width, height),
    decreases n,
{
    if n > 0 {
        lemma_singles_in_row(grid, k, width, height, row, n - 1);
        lemma_single_at(
            singles_in_row(grid, k, width, height, row, n - 1),
            k,
            width,
            height,
            row,
            n - 1,
        );
    }
}

/// Trying the cells of some rows decides some of them or leaves the grid as it is.
pub proof fn lemma_singles_in_rows(
    grid: Seq<Seq<CellState>>,
    k: Constraints,
    width: int,
    height: int,
    n: int,
)
    requires
        rectangular(grid, width, height),
        0 <= n <= height,
        0 <= width,
    ensures
        decided_more(grid, singles_in_rows(grid, k, width, height, n), width, height),
    decreases n,
{
    if n > 0 {
        lemma_singles_in_rows(grid, k, width, height, n - 1);
        lemma_singles_in_row(
            singles_in_rows(grid, k, width, height, n - 1),
            k,
            width,
            height,
            n - 1,
            width,
        );
    }
}

/// The grid after every cell has been tried, again and again until a pass over all cells
/// decides none.
pub open spec fn naked_singles(
    grid: Seq<Seq<CellState>>,
    k: Constraints,
    width: int,
    height: int,
) -> Seq<Seq<CellState>>
    decreases count_in_rows(grid, CellState::Empty),
    when rectangular(grid, width, height) && 0 <= width
    via naked_singles_terminates
{
    let next = singles_in_rows(grid, k, width, height, height);
    if next == grid {
        grid
    } else {
        naked_singles(next, k, width, height)
    }
}

#[via_fn]
proof fn naked_singles_terminates(
    grid: Seq<Seq<CellState>>,
    k: Constraints,
    width: int,
    height: int,
) {
    lemma_singles_in_rows(grid, k, width, height, height);
}

/// A run of `size` cells can be put at `start`: it ends inside the line and covers no
/// crossed cell.
pub open spec fn can_place(line: Seq<CellState>, start: int, size: int) -> bool {
    start + size <= line.len() && no_crossed_in(line, start, start + size)
}

/// The cells among the first `n` of `line` at which a run of `size` cells can be put.
pub open spec fn places_upto(line: Seq<CellState>, size: int, n: int) -> Seq<usize>
    decreases n,
{
    if n <= 0 {
        Seq::empty()
    } else {
        let before = places_upto(line, size, n - 1);
        if can_place(line, n - 1, size) {
            before.push((n - 1) as usize)
        } else {
            before
        }
    }
}

/// `line` with its undecided cells from `from` up to, not including, `to` filled.
pub open spec fn filled_between(line: Seq<CellState>, from: int, to: int) -> Seq<CellState> {
    Seq::new(
        line.len(),
        |i: int|
            if from <= i < to && line[i] == CellState::Empty {
                CellState::Filled
            } else {
                line[i]
            },
    )
}

/// `line` after a run of `size` cells has been looked at: where the run can be put at one
/// cell only, it is put there.
pub open spec fn hidden_block(line: Seq<CellState>, size: int) -> Seq<CellState> {
    let places = places_upto(line, size, line.len() as int);
    if places.len() == 1 {
        filled_between(line, places[0] as int, places[0] + size)
    } else {
        line
    }
}

/// `line` after its first `n` runs have been looked at.
pub open spec fn hidden_line(line: Seq<CellState>, blocks: Seq<usize>, n: int) -> Seq<CellState>
    decreases n,
{
    if n <= 0 {
        line
    } else {
        hidden_block(hidden_line(line, blocks, n - 1), blocks[n - 1] as int)
    }
}

/// A grid, and the fault that stopped the work on it.
pub struct Outcome {
    pub grid: Seq<Seq<CellState>>,
    pub error: Option<SolveError>,
}

/// The grid after the runs of the first `n` rows have been looked at; a row without run
/// lengths is a fault.
pub open spec fn hidden_rows(grid: Seq<Seq<CellState>>, k: Constraints, n: int) -> Outcome
    decreases n,
{
    if n <= 0 {
        Outcome { grid, error: None }
    } else {
        let before = hidden_rows(grid, k, n - 1);
        if before.error is Some {
            before
        } else if n - 1 >= k.rows@.len() {
            Outcome {
                grid: before.grid,
                error: Some(SolveError::MissingRowConstraint { row: (n - 1) as usize }),
            }
        } else {
            Outcome {
                grid: before.grid.update(
                    n - 1,
                    hidden_line(before.grid[n - 1], k.row(n - 1), k.row(n - 1).len() as int),
                ),
                error: None,
            }
        }
    }
}

/// The grid after the runs of the first `n` columns have been looked at; a column without
/// run lengths is a fault.
pub open spec fn hidden_columns(start: Outcome, k: Constraints, n: int) -> Outcome
    decreases n,
{
    if n <= 0 {
        start
    } else {
        let before = hidden_columns(start, k, n - 1);
        if before.error is Some {
            before
        } else if n - 1 >= k.columns@.len() {
            Outcome {
                grid: before.grid,
                error: Some(SolveError::MissingColumnConstraint { col: (n - 1) as usize }),
            }
        } else {
            Outcome {
                grid: with_column(
                    before.grid,
                    n - 1,
                    hidden_line(
                        column_of(before.grid, n - 1),
                        k.column(n - 1),
                        k.column(n - 1).len() as int,
                    ),
                ),
                error: None,
            }
        }
    }
}

/// The grid after the runs of every row, then of every column, have been looked at.
pub open spec fn hidden_singles(grid: Seq<Seq<CellState>>, k: Constraints, width: int, height: int) -> Outcome {
    hidden_columns(hidden_rows(grid, k, height), k, width)
}

/// Where a search in the grid stands: the grid, the number of grids looked at, the grids
/// looked at as text, and why the search ended without a solution.
pub struct Hunt {
    pub grid: Seq<Seq<CellState>>,
    pub explored: int,
    pub visited: Seq<Seq<char>>,
    pub failure: Option<SearchFailure>,
}

/// The search `s` after the trial `inner` has failed: the grid of `s`, as it stood before
/// the trial, and what the trial has looked at.
pub open spec fn undone(s: Hunt, inner: Hunt) -> Hunt {
    Hunt { grid: s.grid, explored: inner.explored, visited: inner.visited, failure: None }
}

/// The search `s` with the cell `(row, col)` taken to be `state`.
pub open spec fn taken(s: Hunt, row: usize, col: usize, state: CellState) -> Hunt {
    Hunt {
        grid: with_cell(s.grid, row as int, col as int, state),
        explored: s.explored,
        visited: s.visited,
        failure: None,
    }
}

/// The search in the grid from `s` at depth `depth`.
///
/// The limits end the search, and so does a grid that was looked at before; a grid without
/// undecided cells is the solution. The solvers are run on the grid where the configuration
/// asks for it; a fault of theirs ends the search and leaves the grid as it was. Then the
/// best undecided cell is tried filled, then crossed, each where the detector finds no
/// fault in the grid with it; a trial that fails leaves the grid as it stood before the
/// trial.
pub open spec fn hunt(
    s: Hunt,
    k: Constraints,
    width: int,
    height: int,
    config: OptimizedBacktrackingConfig,
    depth: int,
) -> Hunt
    decreases config.max_depth - depth,
{
    if depth >= config.max_depth {
        Hunt {
            grid: s.grid,
            explored: s.explored,
            visited: s.visited,
            failure: Some(SearchFailure::DepthLimit),
        }
    } else if s.explored >= config.max_states {
        Hunt {
            grid: s.grid,
            explored: s.explored,
            visited: s.visited,
            failure: Some(SearchFailure::StateLimit),
        }
    } else if count_in_rows(s.grid, CellState::Empty) == 0 {
        Hunt { grid: s.grid, explored: s.explored + 1, visited: s.visited, failure: None }
    } else if s.visited.contains(serialized(s.grid)) {
        Hunt {
            grid: s.grid,
            explored: s.explored + 1,
            visited: s.visited,
            failure: Some(SearchFailure::AlreadyVisited),
        }
    } else {
        let visited = s.visited.push(serialized(s.grid));
        let solved = settled(s.grid, k, width, height);
        let grid = if config.use_constraint_propagation {
            solved.grid
        } else {
            s.grid
        };
        let base = Hunt { grid, explored: s.explored + 1, visited, failure: None };
        if config.use_constraint_propagation && solved.error is Some {
            Hunt {
                grid: s.grid,
                explored: s.explored + 1,
                visited,
                failure: Some(SearchFailure::Solver(solved.error->0)),
            }
        } else if config.use_constraint_propagation && count_in_rows(grid, CellState::Empty)
            == 0 {
            base
        } else {
            match best_cell(true, grid, k, width, height) {
                None => Hunt {
                    grid,
                    explored: s.explored + 1,
                    visited,
                    failure: Some(SearchFailure::NoCandidate),
                },
                Some((row, col)) => {
                    let try_filled = valid_state(
                        with_cell(grid, row as int, col as int, CellState::Filled),
                        k,
                        width,
                        height,
                    );
                    let filled = hunt(
                        taken(base, row, col, CellState::Filled),
                        k,
                        width,
                        height,
                        config,
                        depth + 1,
                    );
                    if try_filled && filled.failure is None {
                        filled
                    } else {
                        let mid = if try_filled {
                            undone(base, filled)
                        } else {
                            base
                        };
                        let try_crossed = valid_state(
                            with_cell(mid.grid, row as int, col as int, CellState::Crossed),
                            k,
                            width,
                            height,
                        );
                        let crossed = hunt(
                            taken(mid, row, col, CellState::Crossed),
                            k,
                            width,
                            height,
                            config,
                            depth + 1,
                        );
                        if try_crossed && crossed.failure is None {
                            crossed
                        } else {
                            let end = if try_crossed {
                                undone(mid, crossed)
                            } else {
                                mid
                            };
                            Hunt {
                                grid: end.grid,
                                explored: end.explored,
                                visited: end.visited,
                                failure: Some(SearchFailure::NoSolution),
                            }
                        }
                    }
                },
            }
        }
    }
}

/// What [`OptimizedBacktrackingSolver::solve`] makes of a grid.
///
/// The solvers come first; a grid that they complete is returned with their deductions.
/// Else the single-cell and single-place deductions are made as far as the configuration
/// asks for them, and the search where cells are still undecided; the deductions are then
/// the cells that were undecided at first and are decided in the end, row after row, each
/// of them once. Only a fault of the solvers on the first
/// grid, or a line without run lengths, is a fault of the whole.
pub open spec fn optimized_outcome(
    grid: Seq<Seq<CellState>>,
    k: Constraints,
    width: int,
    height: int,
    config: OptimizedBacktrackingConfig,
) -> Progress {
    let first = settled(grid, k, width, height);
    if first.error is Some || count_in_rows(first.grid, CellState::Empty) == 0 {
        first
    } else {
        let naked = if config.use_naked_singles {
            naked_singles(first.grid, k, width, height)
        } else {
            first.grid
        };
        let hidden = if config.use_hidden_singles {
            hidden_singles(naked, k, width, height)
        } else {
            Outcome { grid: naked, error: None }
        };
        if hidden.error is Some {
            Progress { grid: hidden.grid, log: Seq::empty(), error: hidden.error }
        } else if count_in_rows(hidden.grid, CellState::Empty) == 0 {
            Progress {
                grid: hidden.grid,
                log: decided_cells(grid, hidden.grid, width, height),
                error: None,
            }
        } else {
            let out = hunt(
                Hunt { grid: hidden.grid, explored: 0, visited: Seq::empty(), failure: None },
                k,
                width,
                height,
                config,
                0,
            );
            Progress {
                grid: out.grid,
                log: decided_cells(grid, out.grid, width, height),
                error: None,
            }
        }
    }
}

/// Solver that searches by trial in the grid itself, after single-cell and single-place
/// deductions.
pub struct OptimizedBacktrackingSolver {
    config: OptimizedBacktrackingConfig,
    advanced_solver: AdvancedSolver,
    contradiction_detector: ContradictionDetector,
    states_explored: usize,
    visited_states: Vec<String>,
}

impl OptimizedBacktrackingSolver {
    /// What the solver remembers is true, and its solvers use every rule.
    pub closed spec fn wf(&self) -> bool {
        &&& self.advanced_solver.wf()
        &&& self.contradiction_detector.wf()
        &&& self.advanced_solver.spec_config().use_cross_analysis
        &&& self.advanced_solver.spec_config().use_advanced_heuristics
        &&& self.advanced_solver.spec_config().max_iterations == HUNT_ROUNDS
    }

    /// The limits and techniques of the search.
    pub closed spec fn spec_config(&self) -> OptimizedBacktrackingConfig {
        self.config
    }

    /// Number of grids that the search has looked at.
    pub closed spec fn explored(&self) -> int {
        self.states_explored as int
    }

    /// The grids that the search has looked at, as text.
    pub closed spec fn visited(&self) -> Seq<Seq<char>> {
        texts(self.visited_states@)
    }

    /// Makes a solver that goes 50 deep, looks at 100000 grids at most and uses every
    /// technique. It has looked at no grid yet.
    pub fn new() -> (solver: OptimizedBacktrackingSolver)
        ensures
            solver.wf(),
            solver.spec_config() == (OptimizedBacktrackingConfig {
                max_depth: 50,
                max_states: 100000,
                use_constraint_propagation: true,
                use_naked_singles: true,
                use_hidden_singles: true,
                verbose: false,
            }),
            solver.explored() == 0,
            solver.visited() == Seq::<Seq<char>>::empty(),
    {
        Self::with_config(OptimizedBacktrackingConfig::default())
    }

    /// Makes a solver that does what `config` says. It has looked at no grid yet.
    pub fn with_config(config: OptimizedBacktrackingConfig) -> (solver:
        OptimizedBacktrackingSolver)
        ensures
            solver.wf(),
            solver.spec_config() == config,
            solver.explored() == 0,
            solver.visited() == Seq::<Seq<char>>::empty(),
    {
        let advanced_config = AdvancedSolverConfig {
            use_cross_analysis: true,
            use_advanced_heuristics: true,
            max_iterations: HUNT_ROUNDS,
            verbose: false,
        };
        let solver = OptimizedBacktrackingSolver {
            config,
            advanced_solver: AdvancedSolver::with_config(advanced_config),
            contradiction_detector: ContradictionDetector::new(),
            states_explored: 0,
            visited_states: Vec::new(),
        };
        assert(solver.visited() =~= Seq::<Seq<char>>::empty());
        solver
    }

    /// Number of grids that the last search has looked at.
    pub fn states_explored(&self) -> (n: usize)
        ensures
            n == self.explored(),
    {
        self.states_explored
    }

    /// Solves the grid by the solvers and, where they leave cells undecided, by the
    /// single-cell and single-place deductions and by search in the grid.
    ///
    /// A search that ends without a solution is no fault: what was decided before it stays.
    /// No cell that was decided when the solver was called is taken back.
    ///
    /// A grid that is left without undecided cells is checked once more by line solving: a
    /// line of it that does not satisfy its run lengths is a fault. So a grid without
    /// undecided cells that comes back without a fault is a solution. Every deduction
    /// returned speaks of a cell that was undecided at first, and of each cell once; every
    /// cell that was decided is among them.
    pub fn solve(&mut self, grid: &mut Grid, constraints: &Constraints) -> (res: Result<
        Vec<Deduction>,
        SolveError,
    >)
        requires
            old(self).wf(),
            old(grid).wf(),
            constraints.wf(),
        ensures
            final(self).wf(),
            final(self).spec_config() == old(self).spec_config(),
            final(grid).wf(),
            final(grid).spec_width() == old(grid).spec_width(),
            final(grid).spec_height() == old(grid).spec_height(),
            ({
                let out = crate::solver::solution_laws::confirmed(
                    optimized_outcome(
                        old(grid)@,
                        *constraints,
                        old(grid).spec_width() as int,
                        old(grid).spec_height() as int,
                        old(self).spec_config(),
                    ),
                    *constraints,
                    old(grid).spec_width() as int,
                    old(grid).spec_height() as int,
                );
                &&& final(grid)@ == out.grid
                &&& match res {
                    Ok(log) => out.error is None && log@ == out.log,
                    Err(e) => out.error == Some(e),
                }
            }),
            crate::solver::propagation::extends(final(grid)@, old(grid)@),
            match res {
                Ok(log) => crate::solver::outcome_laws::tells(
                    old(grid)@,
                    final(grid)@,
                    log@,
                    old(grid).spec_width() as int,
                    old(grid).spec_height() as int,
                ),
                Err(_) => true,
            },
            res is Ok && crate::grid::count_in_rows(final(grid)@, CellState::Empty) == 0
                ==> crate::solver::propagation::is_solution(
                final(grid)@,
                *constraints,
                old(grid).spec_width() as int,
                old(grid).spec_height() as int,
            ),
    {
        let ghost w = grid.spec_width() as int;
        let ghost h = grid.spec_height() as int;
        let ghost inner = optimized_outcome(
            grid@,
            *constraints,
            grid.spec_width() as int,
            grid.spec_height() as int,
            self.spec_config(),
        );
        let res = self.run_search(grid, constraints);
        proof {
            if crate::solver::solution_laws::confirmed(inner, *constraints, w, h).error is None
                && crate::grid::count_in_rows(inner.grid, CellState::Empty) == 0 {
                crate::solver::solution_laws::lemma_confirmed_solution(
                    inner,
                    *constraints,
                    w,
                    h,
                );
            }
        }
        crate::solver::confirm(grid, constraints, res)
    }

    /// The deductions and the search of [`OptimizedBacktrackingSolver::solve`], before its
    /// last check.
    pub(crate) fn run_search(&mut self, grid: &mut Grid, constraints: &Constraints) -> (res: Result<
        Vec<Deduction>,
        SolveError,
    >)
        requires
            old(self).wf(),
            old(grid).wf(),
            constraints.wf(),
        ensures
            final(self).wf(),
            final(self).spec_config() == old(self).spec_config(),
            final(grid).wf(),
            final(grid).spec_width() == old(grid).spec_width(),
            final(grid).spec_height() == old(grid).spec_height(),
            ({
                let out = optimized_outcome(
                    old(grid)@,
                    *constraints,
                    old(grid).spec_width() as int,
                    old(grid).spec_height() as int,
                    old(self).spec_config(),
                );
                &&& final(grid)@ == out.grid
                &&& match res {
                    Ok(log) => out.error is None && log@ == out.log,
                    Err(e) => out.error == Some(e),
                }
            }),
            crate::solver::propagation::extends(final(grid)@, old(grid)@),
            match res {
                Ok(log) => crate::solver::outcome_laws::tells(
                    old(grid)@,
                    final(grid)@,
                    log@,
                    old(grid).spec_width() as int,
                    old(grid).spec_height() as int,
                ),
                Err(_) => true,
            },
    {
        proof {
            crate::solver::search_laws::lemma_optimized_extends(
                grid@,
                *constraints,
                grid.spec_width() as int,
                grid.spec_height() as int,
                self.spec_config(),
            );
            crate::solver::outcome_laws::lemma_optimized_log(
                grid@,
                *constraints,
                grid.spec_width() as int,
                grid.spec_height() as int,
                self.spec_config(),
            );
        }
        self.states_explored = 0;
        self.visited_states.clear();
        assert(texts(self.visited_states@) =~= Seq::<Seq<char>>::empty());
        let entry = grid.clone_grid();
        let initial_deductions = match self.advanced_solver.run_rounds(grid, constraints) {
            Ok(found) => found,
            Err(e) => {
                return Err(e);
            },
        };
        if grid.count_empty_cells() == 0 {
            return Ok(initial_deductions);
        }
        if self.config.use_naked_singles {
            self.apply_naked_singles(grid, constraints);
        }
        if self.config.use_hidden_singles {
            match self.apply_hidden_singles(grid, constraints) {
                Ok(()) => {},
                Err(e) => {
                    return Err(e);
                },
            }
        }
        if grid.count_empty_cells() == 0 {
            return Ok(self.collect_all_deductions(&entry, grid));
        }
        match self.backtrack(grid, constraints, 0) {
            Ok(()) => {},
            Err(_) => {},
        }
        Ok(self.collect_all_deductions(&entry, grid))
    }

    /// The cells that `before` leaves undecided and `grid` has decided, as deductions, row
    /// after row.
    pub fn collect_all_deductions(&self, before: &Grid, grid: &Grid) -> (deductions: Vec<
        Deduction,
    >)
        requires
            before.wf(),
            grid.wf(),
            before.spec_width() == grid.spec_width(),
            before.spec_height() == grid.spec_height(),
        ensures
            deductions@ == decided_cells(
                before@,
                grid@,
                grid.spec_width() as int,
                grid.spec_height() as int,
            ),
    {
        let height = grid.height();
        let width = grid.width();
        let mut deductions: Vec<Deduction> = Vec::new();
        let mut row: usize = 0;
        while row < height
            invariant
                before.wf(),
                grid.wf(),
                height == grid.spec_height() == before.spec_height(),
                width == grid.spec_width() == before.spec_width(),
                row <= height,
                deductions@ == decided_cells(before@, grid@, width as int, row as int),
            decreases height - row,
        {
            let ghost done = deductions@;
            let mut col: usize = 0;
            assert(deductions@ =~= done + decided_in_row(before@, grid@, row as int, 0));
            while col < width
                invariant
                    before.wf(),
                    grid.wf(),
                    height == grid.spec_height() == before.spec_height(),
                    width == grid.spec_width() == before.spec_width(),
                    row < height,
                    col <= width,
                    deductions@ == done + decided_in_row(before@, grid@, row as int, col as int),
                decreases width - col,
            {
                match (before.get(row, col), grid.get(row, col)) {
                    (Some(CellState::Empty), Some(state)) => {
                        if state != CellState::Empty {
                            deductions.push(Deduction { row, col, state });
                        }
                    },
                    _ => {},
                }
                assert(deductions@ =~= done + decided_in_row(before@, grid@, row as int, col + 1));
                col += 1;
            }
            row += 1;
        }
        deductions
    }

    /// Tries every undecided cell in both states, again and again until a pass over all
    /// cells decides none: where the detector finds a fault in one state only, the cell
    /// gets the other.
    pub fn apply_naked_singles(&mut self, grid: &mut Grid, constraints: &Constraints)
        requires
            old(self).wf(),
            old(grid).wf(),
        ensures
            final(self).wf(),
            final(self).spec_config() == old(self).spec_config(),
            final(self).explored() == old(self).explored(),
            final(self).visited() == old(self).visited(),
            final(grid).wf(),
            final(grid).spec_width() == old(grid).spec_width(),
            final(grid).spec_height() == old(grid).spec_height(),
            final(grid)@ == naked_singles(
                old(grid)@,
                *constraints,
                old(grid).spec_width() as int,
                old(grid).spec_height() as int,
            ),
    {
        let ghost k = *constraints;
        let ghost w = grid.spec_width() as int;
        let ghost h = grid.spec_height() as int;
        let mut changed = true;
        while changed
            invariant
                self.wf(),
                self.spec_config() == old(self).spec_config(),
                self.explored() == old(self).explored(),
                self.visited() == old(self).visited(),
                grid.wf(),
                k == *constraints,
                w == grid.spec_width() == old(grid).spec_width(),
                h == grid.spec_height() == old(grid).spec_height(),
                changed ==> naked_singles(old(grid)@, k, w, h) == naked_singles(grid@, k, w, h),
                !changed ==> naked_singles(old(grid)@, k, w, h) == grid@,
            decreases
                    count_in_rows(grid@, CellState::Empty) + if changed {
                        1int
                    } else {
                        0int
                    },
        {
            let ghost start = grid@;
            changed = self.singles_pass(grid, constraints);
            proof {
                lemma_singles_in_rows(start, k, w, h, h);
            }
        }
    }

    /// One pass over all cells; tells whether a cell was decided.
    fn singles_pass(&mut self, grid: &mut Grid, constraints: &Constraints) -> (changed: bool)
        requires
            old(self).wf(),
            old(grid).wf(),
        ensures
            final(self).wf(),
            final(self).spec_config() == old(self).spec_config(),
            final(self).explored() == old(self).explored(),
            final(self).visited() == old(self).visited(),
            final(grid).wf(),
            final(grid).spec_width() == old(grid).spec_width(),
            final(grid).spec_height() == old(grid).spec_height(),
            final(grid)@ == singles_in_rows(
                old(grid)@,
                *constraints,
                old(grid).spec_width() as int,
                old(grid).spec_height() as int,
                old(grid).spec_height() as int,
            ),
            changed == (final(grid)@ != old(grid)@),
    {
        let ghost k = *constraints;
        let ghost w = grid.spec_width() as int;
        let ghost h = grid.spec_height() as int;
        let ghost start = grid@;
        let height = grid.height();
        let width = grid.width();
        let mut changed = false;
        let mut row: usize = 0;
        while row < height
            invariant
                self.wf(),
                self.spec_config() == old(self).spec_config(),
                self.explored() == old(self).explored(),
                self.visited() == old(self).visited(),
                grid.wf(),
                k == *constraints,
                start == old(grid)@,
                rectangular(start, w, h),
                w == width == grid.spec_width() == old(grid).spec_width(),
                h == height == grid.spec_height() == old(grid).spec_height(),
                row <= height,
                grid@ == singles_in_rows(start, k, w, h, row as int),
                changed == (grid@ != start),
                decided_more(start, grid@, w, h),
            decreases height - row,
        {
            let ghost row_start = grid@;
            let mut col: usize = 0;
            while col < width
                invariant
                    self.wf(),
                    self.spec_config() == old(self).spec_config(),
                    self.explored() == old(self).explored(),
                    self.visited() == old(self).visited(),
                    grid.wf(),
                    k == *constraints,
                    rectangular(start, w, h),
                    rectangular(row_start, w, h),
                    w == width == grid.spec_width() == old(grid).spec_width(),
                    h == height == grid.spec_height() == old(grid).spec_height(),
                    row < height,
                    col <= width,
                    grid@ == singles_in_row(row_start, k, w, h, row as int, col as int),
                    changed == (grid@ != start),
                    decided_more(start, grid@, w, h),
                decreases width - col,
            {
                proof {
                    lemma_single_at(grid@, k, w, h, row as int, col as int);
                }
                match grid.get(row, col) {
                    Some(CellState::Empty) => {
                        let filled_valid = self.contradiction_detector.test_hypothesis(
                            grid,
                            constraints,
                            row,
                            col,
                            CellState::Filled,
                        );
                        let crossed_valid = self.contradiction_detector.test_hypothesis(
                            grid,
                            constraints,
                            row,
                            col,
                            CellState::Crossed,
                        );
                        if filled_valid && !crossed_valid {
                            let written = grid.set(row, col, CellState::Filled);
                            assert(written is Ok);
                            changed = true;
                        } else if !filled_valid && crossed_valid {
                            let written = grid.set(row, col, CellState::Crossed);
                            assert(written is Ok);
                            changed = true;
                        }
                    },
                    _ => {},
                }
                col += 1;
            }
            row += 1;
        }
        changed
    }

    /// Looks at every run of every row, then of every column: a run that can be put at one
    /// cell only is put there.
    pub fn apply_hidden_singles(&self, grid: &mut Grid, constraints: &Constraints) -> (res: Result<
        (),
        SolveError,
    >)
        requires
            old(grid).wf(),
        ensures
            final(grid).wf(),
            final(grid).spec_width() == old(grid).spec_width(),
            final(grid).spec_height() == old(grid).spec_height(),
            ({
                let out = hidden_singles(
                    old(grid)@,
                    *constraints,
                    old(grid).spec_width() as int,
                    old(grid).spec_height() as int,
                );
                &&& final(grid)@ == out.grid
                &&& match res {
                    Ok(()) => out.error is None,
                    Err(e) => out.error == Some(e),
                }
            }),
    {
        let ghost k = *constraints;
        let ghost start = grid@;
        let height = grid.height();
        let width = grid.width();
        let mut row: usize = 0;
        while row < height
            invariant
                grid.wf(),
                k == *constraints,
                start == old(grid)@,
                width == grid.spec_width() == old(grid).spec_width(),
                height == grid.spec_height() == old(grid).spec_height(),
                row <= height,
                hidden_rows(start, k, row as int).error is None,
                grid@ == hidden_rows(start, k, row as int).grid,
            decreases height - row,
        {
            let row_constraint = match constraints.get_row_constraint(row) {
                Some(c) => c,
                None => {
                    proof {
                        lemma_hidden_rows_stopped(start, k, row + 1, height as int);
                        lemma_hidden_columns_stopped(
                            hidden_rows(start, k, height as int),
                            k,
                            0,
                            width as int,
                        );
                    }
                    return Err(SolveError::MissingRowConstraint { row });
                },
            };
            let ghost before = grid@;
            let mut b: usize = 0;
            assert(grid@ =~= before.update(row as int, hidden_line(before[row as int], row_constraint@, 0)));
            while b < row_constraint.len()
                invariant
                    grid.wf(),
                    width == grid.spec_width() == old(grid).spec_width(),
                    height == grid.spec_height() == old(grid).spec_height(),
                    row < height,
                    b <= row_constraint@.len(),
                    before.len() == height,
                    grid@ == before.update(
                        row as int,
                        hidden_line(before[row as int], row_constraint@, b as int),
                    ),
                decreases row_constraint@.len() - b,
            {
                let block_size = row_constraint[b];
                let ghost line = grid@[row as int];
                let mut possible_positions: Vec<usize> = Vec::new();
                let mut col: usize = 0;
                while col < width
                    invariant
                        grid.wf(),
                        width == grid.spec_width(),
                        height == grid.spec_height(),
                        row < height,
                        col <= width,
                        line == grid@[row as int],
                        possible_positions@ == places_upto(line, block_size as int, col as int),
                    decreases width - col,
                {
                    if self.can_place_block(grid, row, col, block_size, true) {
                        possible_positions.push(col);
                    }
                    col += 1;
                }
                if possible_positions.len() == 1 {
                    let col = possible_positions[0];
                    proof {
                        lemma_places_upto(line, block_size as int, width as int);
                    }
                    let ghost current = grid@;
                    let mut i: usize = 0;
                    assert(filled_between(line, col as int, col + 0) =~= line);
                    assert(grid@ =~= current.update(
                        row as int,
                        filled_between(line, col as int, col + 0),
                    ));
                    while i < block_size
                        invariant
                            grid.wf(),
                            width == grid.spec_width() == old(grid).spec_width(),
                            height == grid.spec_height() == old(grid).spec_height(),
                            row < height,
                            current.len() == height,
                            line == current[row as int],
                            line.len() == width,
                            col + block_size <= width,
                            i <= block_size,
                            grid@ == current.update(
                                row as int,
                                filled_between(line, col as int, col + i),
                            ),
                        decreases block_size - i,
                    {
                        match grid.get(row, col + i) {
                            Some(CellState::Empty) => {
                                let written = grid.set(row, col + i, CellState::Filled);
                                assert(written is Ok);
                            },
                            _ => {},
                        }
                        proof {
                            let earlier = filled_between(line, col as int, col + i);
                            let later = filled_between(line, col as int, col + i + 1);
                            assert(grid@[row as int] =~= later);
                            assert(grid@ =~= current.update(row as int, later));
                        }
                        i += 1;
                    }
                }
                assert(grid@ =~= before.update(
                    row as int,
                    hidden_line(before[row as int], row_constraint@, b + 1),
                ));
                b += 1;
            }
            row += 1;
        }
        let ghost rows = hidden_rows(start, k, height as int);
        let mut col: usize = 0;
        while col < width
            invariant
                grid.wf(),
                k == *constraints,
                start == old(grid)@,
                rows == hidden_rows(start, k, height as int),
                width == grid.spec_width() == old(grid).spec_width(),
                height == grid.spec_height() == old(grid).spec_height(),
                col <= width,
                hidden_columns(rows, k, col as int).error is None,
                grid@ == hidden_columns(rows, k, col as int).grid,
            decreases width - col,
        {
            let col_constraint = match constraints.get_column_constraint(col) {
                Some(c) => c,
                None => {
                    proof {
                        lemma_hidden_columns_stopped(rows, k, col + 1, width as int);
                    }
                    return Err(SolveError::MissingColumnConstraint { col });
                },
            };
            let ghost before = grid@;
            let ghost column = column_of(before, col as int);
            let mut b: usize = 0;
            assert(grid@ =~= with_column(before, col as int, hidden_line(column, col_constraint@, 0)))
                by {
                assert forall|r: int| 0 <= r < before.len() implies with_column(
                    before,
                    col as int,
                    column,
                )[r] == before[r] by {
                    assert(before[r].update(col as int, column[r]) =~= before[r]);
                }
            }
            while b < col_constraint.len()
                invariant
                    grid.wf(),
                    width == grid.spec_width() == old(grid).spec_width(),
                    height == grid.spec_height() == old(grid).spec_height(),
                    col < width,
                    b <= col_constraint@.len(),
                    rectangular(before, width as int, height as int),
                    column == column_of(before, col as int),
                    grid@ == with_column(
                        before,
                        col as int,
                        hidden_line(column, col_constraint@, b as int),
                    ),
                decreases col_constraint@.len() - b,
            {
                let block_size = col_constraint[b];
                let ghost line = column_of(grid@, col as int);
                proof {
                    lemma_hidden_line_len(column, col_constraint@, b as int);
                    assert(line =~= hidden_line(column, col_constraint@, b as int));
                }
                let mut possible_positions: Vec<usize> = Vec::new();
                let mut row: usize = 0;
                while row < height
                    invariant
                        grid.wf(),
                        width == grid.spec_width(),
                        height == grid.spec_height(),
                        col < width,
                        row <= height,
                        line == column_of(grid@, col as int),
                        possible_positions@ == places_upto(line, block_size as int, row as int),
                    decreases height - row,
                {
                    if self.can_place_block(grid, row, col, block_size, false) {
                        possible_positions.push(row);
                    }
                    row += 1;
                }
                if possible_positions.len() == 1 {
                    let row = possible_positions[0];
                    proof {
                        lemma_places_upto(line, block_size as int, height as int);
                    }
                    let ghost current = grid@;
                    let mut i: usize = 0;
                    assert(grid@ =~= with_column(
                        current,
                        col as int,
                        filled_between(line, row as int, row + 0),
                    )) by {
                        assert forall|r: int| 0 <= r < current.len() implies with_column(
                            current,
                            col as int,
                            filled_between(line, row as int, row + 0),
                        )[r] == current[r] by {
                            assert(current[r].update(col as int, line[r]) =~= current[r]);
                        }
                    }
                    while i < block_size
                        invariant
                            grid.wf(),
                            width == grid.spec_width() == old(grid).spec_width(),
                            height == grid.spec_height() == old(grid).spec_height(),
                            col < width,
                            rectangular(current, width as int, height as int),
                            line == column_of(current, col as int),
                            row + block_size <= height,
                            i <= block_size,
                            grid@ == with_column(
                                current,
                                col as int,
                                filled_between(line, row as int, row + i),
                            ),
                        decreases block_size - i,
                    {
                        let ghost so_far = grid@;
                        match grid.get(row + i, col) {
                            Some(CellState::Empty) => {
                                let written = grid.set(row + i, col, CellState::Filled);
                                assert(written is Ok);
                            },
                            _ => {},
                        }
                        proof {
                            let earlier = filled_between(line, row as int, row + i);
                            let later = filled_between(line, row as int, row + i + 1);
                            assert forall|r: int| 0 <= r < current.len() implies grid@[r]
                                == with_column(current, col as int, later)[r] by {
                                if r == row + i {
                                    assert(grid@[r] =~= current[r].update(col as int, later[r]));
                                } else {
                                    assert(later[r] == earlier[r]);
                                }
                            }
                            assert(grid@ =~= with_column(current, col as int, later));
                        }
                        i += 1;
                    }
                    proof {
                        let filled = filled_between(line, row as int, row + block_size);
                        assert(with_column(current, col as int, filled) =~= with_column(
                            before,
                            col as int,
                            filled,
                        )) by {
                            assert forall|r: int| 0 <= r < before.len() implies with_column(
                                current,
                                col as int,
                                filled,
                            )[r] == with_column(before, col as int, filled)[r] by {
                                assert(current[r] == before[r].update(col as int, line[r]));
                                assert(current[r].update(col as int, filled[r]) =~= before[r].update(
                                    col as int,
                                    filled[r],
                                ));
                            }
                        }
                    }
                }
                b += 1;
            }
            col += 1;
        }
        Ok(())
    }

    /// Whether a run of `size` cells can be put at the cell `(start_row, start_col)`, along
    /// the row where `horizontal` is set and along the column else: it must end inside the
    /// grid and cover no crossed cell. Outside the grid there are no crossed cells.
    pub fn can_place_block(
        &self,
        grid: &Grid,
        start_row: usize,
        start_col: usize,
        size: usize,
        horizontal: bool,
    ) -> (ok: bool)
        requires
            grid.wf(),
        ensures
            ok == if horizontal {
                start_col + size <= grid.spec_width() && (start_row < grid.spec_height()
                    ==> no_crossed_in(grid@[start_row as int], start_col as int, start_col + size))
            } else {
                start_row + size <= grid.spec_height() && (start_col < grid.spec_width()
                    ==> no_crossed_in(
                    column_of(grid@, start_col as int),
                    start_row as int,
                    start_row + size,
                ))
            },
    {
        let width = grid.width();
        let height = grid.height();
        if horizontal {
            if size > width || start_col > width - size {
                return false;
            }
            let mut i: usize = 0;
            while i < size
                invariant
                    horizontal,
                    grid.wf(),
                    width == grid.spec_width(),
                    start_col + size <= width,
                    i <= size,
                    start_row < grid.spec_height() ==> no_crossed_in(
                        grid@[start_row as int],
                        start_col as int,
                        start_col + i,
                    ),
                decreases size - i,
            {
                match grid.get(start_row, start_col + i) {
                    Some(CellState::Crossed) => {
                        assert(grid@[start_row as int][start_col + i] == CellState::Crossed);
                        assert(!no_crossed_in(
                            grid@[start_row as int],
                            start_col as int,
                            start_col + size,
                        ));
                        return false;
                    },
                    _ => {},
                }
                i += 1;
            }
            true
        } else {
            if size > height || start_row > height - size {
                return false;
            }
            let mut i: usize = 0;
            while i < size
                invariant
                    !horizontal,
                    grid.wf(),
                    height == grid.spec_height(),
                    start_row + size <= height,
                    i <= size,
                    start_col < grid.spec_width() ==> no_crossed_in(
                        column_of(grid@, start_col as int),
                        start_row as int,
                        start_row + i,
                    ),
                decreases size - i,
            {
                match grid.get(start_row + i, start_col) {
                    Some(CellState::Crossed) => {
                        assert(column_of(grid@, start_col as int)[start_row + i]
                            == CellState::Crossed);
                        assert(!no_crossed_in(
                            column_of(grid@, start_col as int),
                            start_row as int,
                            start_row + size,
                        ));
                        return false;
                    },
                    _ => {},
                }
                i += 1;
            }
            true
        }
    }

    /// The search in `grid` at depth `depth`.
    #[verifier::rlimit(40)]
    pub fn backtrack(&mut self, grid: &mut Grid, constraints: &Constraints, depth: usize) -> (res:
        Result<(), SearchFailure>)
        requires
            old(self).wf(),
            old(grid).wf(),
            constraints.wf(),
        ensures
            final(self).wf(),
            final(self).spec_config() == old(self).spec_config(),
            final(grid).wf(),
            final(grid).spec_width() == old(grid).spec_width(),
            final(grid).spec_height() == old(grid).spec_height(),
            ({
                let out = hunt(
                    Hunt {
                        grid: old(grid)@,
                        explored: old(self).explored(),
                        visited: old(self).visited(),
                        failure: None,
                    },
                    *constraints,
                    old(grid).spec_width() as int,
                    old(grid).spec_height() as int,
                    old(self).spec_config(),
                    depth as int,
                );
                &&& final(grid)@ == out.grid
                &&& final(self).explored() == out.explored
                &&& final(self).visited() == out.visited
                &&& match res {
                    Ok(()) => out.failure is None,
                    Err(why) => out.failure == Some(why),
                }
            }),
        decreases old(self).spec_config().max_depth - depth,
    {
        if depth >= self.config.max_depth {
            return Err(SearchFailure::DepthLimit);
        }
        if self.states_explored >= self.config.max_states {
            return Err(SearchFailure::StateLimit);
        }
        self.states_explored += 1;
        if grid.count_empty_cells() == 0 {
            return Ok(());
        }
        let state_key = grid_to_string(grid);
        if contains_key(&self.visited_states, &state_key) {
            return Err(SearchFailure::AlreadyVisited);
        }
        self.visited_states.push(state_key);
        assert(texts(self.visited_states@) =~= old(self).visited().push(serialized(old(grid)@)));
        if self.config.use_constraint_propagation {
            let mut settled = grid.clone_grid();
            match self.advanced_solver.run_rounds(&mut settled, constraints) {
                Ok(_) => {},
                Err(e) => {
                    return Err(SearchFailure::Solver(e));
                },
            }
            *grid = settled;
            if grid.count_empty_cells() == 0 {
                return Ok(());
            }
        }
        let (best_row, best_col) = match self.choose_best_cell_mrv_plus(grid, constraints) {
            Ok(cell) => cell,
            Err(why) => {
                return Err(why);
            },
        };
        if self.contradiction_detector.test_hypothesis(
            grid,
            constraints,
            best_row,
            best_col,
            CellState::Filled,
        ) {
            let before = grid.clone_grid();
            let written = grid.set(best_row, best_col, CellState::Filled);
            assert(written is Ok);
            match self.backtrack(grid, constraints, depth + 1) {
                Ok(()) => {
                    return Ok(());
                },
                Err(_) => {
                    *grid = before;
                },
            }
        }
        if self.contradiction_detector.test_hypothesis(
            grid,
            constraints,
            best_row,
            best_col,
            CellState::Crossed,
        ) {
            let before = grid.clone_grid();
            let written = grid.set(best_row, best_col, CellState::Crossed);
            assert(written is Ok);
            match self.backtrack(grid, constraints, depth + 1) {
                Ok(()) => {
                    return Ok(());
                },
                Err(_) => {
                    *grid = before;
                },
            }
        }
        Err(SearchFailure::NoSolution)
    }

    /// The cell on which the search branches: the undecided cell with the highest weighted
    /// score above zero, the first of them row by row; a fault where there is none.
    pub fn choose_best_cell_mrv_plus(&self, grid: &Grid, constraints: &Constraints) -> (res:
        Result<(usize, usize), SearchFailure>)
        requires
            grid.wf(),
            constraints.wf(),
        ensures
            match res {
                Ok(cell) => {
                    &&& best_cell(
                        true,
                        grid@,
                        *constraints,
                        grid.spec_width() as int,
                        grid.spec_height() as int,
                    ) == Some(cell)
                    &&& cell.0 < grid.spec_height()
                    &&& cell.1 < grid.spec_width()
                    &&& grid@[cell.0 as int][cell.1 as int] == CellState::Empty
                },
                Err(why) => {
                    &&& best_cell(
                        true,
                        grid@,
                        *constraints,
                        grid.spec_width() as int,
                        grid.spec_height() as int,
                    ) is None
                    &&& why == SearchFailure::NoCandidate
                },
            },
    {
        match choose_cell(true, grid, constraints) {
            Some(cell) => Ok(cell),
            None => Err(SearchFailure::NoCandidate),
        }
    }

    /// Weighted score of the cell `(row, col)`.
    pub fn calculate_cell_score(&self, grid: &Grid, constraints: &Constraints, row: usize, col: usize) -> (score:
        u128)
        requires
            grid.wf(),
            constraints.wf(),
            row < grid.spec_height(),
            col < grid.spec_width(),
        ensures
            score == weighted_score(
                grid@,
                *constraints,
                grid.spec_width() as int,
                grid.spec_height() as int,
                row as int,
                col as int,
            ),
    {
        crate::solver::branching::weighted_cell_score(grid, constraints, row, col)
    }

    /// The grid as text: `.` for an undecided cell, `#` for a filled one, `X` for a crossed
    /// one, row after row.
    pub fn grid_to_string(&self, grid: &Grid) -> (text: String)
        requires
            grid.wf(),
        ensures
            text@ == serialized(grid@),
    {
        grid_to_string(grid)
    }
}

impl Default for OptimizedBacktrackingSolver {
    fn default() -> (solver: OptimizedBacktrackingSolver)
        ensures
            solver.wf(),
            solver.spec_config() == (OptimizedBacktrackingConfig {
                max_depth: 50,
                max_states: 100000,
                use_constraint_propagation: true,
                use_naked_singles: true,
                use_hidden_singles: true,
                verbose: false,
            }),
            solver.explored() == 0,
            solver.visited() == Seq::<Seq<char>>::empty(),
    {
        OptimizedBacktrackingSolver::new()
    }
}

/// A fault stops the rows that follow.
pub proof fn lemma_hidden_rows_stopped(grid: Seq<Seq<CellState>>, k: Constraints, m: int, n: int)
    requires
        0 <= m <= n,
        hidden_rows(grid, k, m).error is Some,
    ensures
        hidden_rows(grid, k, n) == hidden_rows(grid, k, m),
    decreases n - m,
{
    if m < n {
        lemma_hidden_rows_stopped(grid, k, m, n - 1);
    }
}

/// A fault stops the columns that follow.
pub proof fn lemma_hidden_columns_stopped(start: Outcome, k: Constraints, m: int, n: int)
    requires
        0 <= m <= n,
        hidden_columns(start, k, m).error is Some,
    ensures
        hidden_columns(start, k, n) == hidden_columns(start, k, m),
    decreases n - m,
{
    if m < n {
        lemma_hidden_columns_stopped(start, k, m, n - 1);
    }
}

/// A place at which a run can be put lies in the line, run and all.
pub proof fn lemma_places_upto(line: Seq<CellState>, size: int, n: int)
    requires
        0 <= n <= line.len() <= usize::MAX,
        0 <= size,
    ensures
        forall|i: int|
            0 <= i < places_upto(line, size, n).len() ==> (#[trigger] places_upto(
                line,
                size,
                n,
            )[i]) + size <= line.len(),
    decreases n,
{
    if n > 0 {
        lemma_places_upto(line, size, n - 1);
        let before = places_upto(line, size, n - 1);
        let all = places_upto(line, size, n);
        assert forall|i: int| 0 <= i < all.len() implies (#[trigger] all[i]) + size
            <= line.len() by {
            if i < before.len() {
                assert(all[i] == before[i]);
            }
        }
    }
}

/// Looking at the runs of a line keeps its length.
pub proof fn lemma_hidden_line_len(line: Seq<CellState>, blocks: Seq<usize>, n: int)
    ensures
        hidden_line(line, blocks, n).len() == line.len(),
    decreases n,
{
    if n > 0 {
        lemma_hidden_line_len(line, blocks, n - 1);
    }
}

} // verus!
