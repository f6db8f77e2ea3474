//! Search by trial: where the solvers stop, a cell is chosen and each of its states is
//! tried on a copy of the grid.

use vstd::prelude::*;

use crate::grid::{count_in_rows, with_cell, CellState, Constraints, Grid};
use crate::solver::advanced_solver::{advanced_rounds, plain, AdvancedSolverConfig};
use crate::solver::branching::{best_cell, choose_cell, SearchFailure};
use crate::solver::contradiction_detector::valid_state;
use crate::solver::propagation::Progress;
use crate::solver::state_key::{contains_key, grid_to_string, serialized, texts};
use crate::solver::{AdvancedSolver, ContradictionDetector, Deduction, SolveError};

verus! {

/// Limits of a [`BacktrackingSolver`].
#[derive(Debug, Clone, Copy)]
pub struct BacktrackingConfig {
    /// How deep the search may go.
    pub max_depth: usize,
    /// How many grids the search may look at.
    pub max_states: usize,
    /// Whether the caller wants the progress reported.
    pub verbose: bool,
}

impl Default for BacktrackingConfig {
    fn default() -> (config: BacktrackingConfig)
        ensures
            config.max_depth == 10,
            config.max_states == 10000,
            !config.verbose,
    {
        BacktrackingConfig { max_depth: 10, max_states: 10000, verbose: false }
    }
}

/// Most rounds that the solvers make on one grid of the search.
pub const SEARCH_ROUNDS: usize = 50;

/// Where a search stands: the grid, the deductions made, the number of grids looked at, the
/// grids looked at as text, and why the search ended without a solution.
pub struct Search {
    pub grid: Seq<Seq<CellState>>,
    pub log: Seq<Deduction>,
    pub explored: int,
    pub visited: Seq<Seq<char>>,
    pub failure: Option<SearchFailure>,
}

/// What the solvers make of a grid of the search.
pub open spec fn propagated(grid: Seq<Seq<CellState>>, k: Constraints, width: int, height: int) -> Progress {
    advanced_rounds(grid, k, width, height, true, true, SEARCH_ROUNDS as int, 0)
}

/// The search `s`, ended by `why`.
pub open spec fn stopped(s: Search, why: SearchFailure) -> Search {
    Search { grid: s.grid, log: s.log, explored: s.explored, visited: s.visited, failure: Some(why) }
}

/// The search `s` with the cell `(row, col)` taken to be `state`.
pub open spec fn entered(s: Search, row: usize, col: usize, state: CellState) -> Search {
    Search {
        grid: with_cell(s.grid, row as int, col as int, state),
        log: s.log.push(Deduction { row, col, state }),
        explored: s.explored,
        visited: s.visited,
        failure: None,
    }
}

/// The search `s` after the trial `inner` has failed: the grid and the deductions of `s`,
/// and what the trial has looked at.
pub open spec fn restored(s: Search, inner: Search) -> Search {
    Search {
        grid: s.grid,
        log: s.log,
        explored: inner.explored,
        visited: inner.visited,
        failure: None,
    }
}

/// The search from `s` at depth `depth`.
///
/// A grid that was looked at before ends the search, and so do the limits. The solvers are
/// run on the grid; a fault of theirs ends the search and leaves the grid as it was. Where
/// cells are left undecided, the best of them is tried filled, then crossed, each on a grid
/// that the detector finds no fault in; the first trial that ends well is the result.
pub open spec fn search(
    s: Search,
    k: Constraints,
    width: int,
    height: int,
    config: BacktrackingConfig,
    depth: int,
) -> Search
    decreases config.max_depth - depth,
{
    if depth >= config.max_depth {
        stopped(s, SearchFailure::DepthLimit)
    } else if s.explored >= config.max_states {
        stopped(s, SearchFailure::StateLimit)
    } else if s.visited.contains(serialized(s.grid)) {
        Search {
            grid: s.grid,
            log: s.log,
            explored: s.explored + 1,
            visited: s.visited,
            failure: Some(SearchFailure::AlreadyVisited),
        }
    } else {
        let solved = propagated(s.grid, k, width, height);
        let visited = s.visited.push(serialized(s.grid));
        if solved.error is Some {
            Search {
                grid: s.grid,
                log: s.log,
                explored: s.explored + 1,
                visited,
                failure: Some(SearchFailure::Solver(solved.error->0)),
            }
        } else {
            let base = Search {
                grid: solved.grid,
                log: s.log + solved.log,
                explored: s.explored + 1,
                visited,
                failure: None,
            };
            if count_in_rows(solved.grid, CellState::Empty) == 0 {
                base
            } else {
                match best_cell(false, solved.grid, k, width, height) {
                    None => base,
                    Some((row, col)) => {
                        let try_filled = valid_state(
                            with_cell(base.grid, row as int, col as int, CellState::Filled),
                            k,
                            width,
                            height,
                        );
                        let filled = search(
                            entered(base, row, col, CellState::Filled),
                            k,
                            width,
                            height,
                            config,
                            depth + 1,
                        );
                        if try_filled && filled.failure is None {
                            filled
                        } else {
                            let mid = if try_filled {
                                restored(base, filled)
                            } else {
                                base
                            };
                            let try_crossed = valid_state(
                                with_cell(mid.grid, row as int, col as int, CellState::Crossed),
                                k,
                                width,
                                height,
                            );
                            let crossed = search(
                                entered(mid, row, col, CellState::Crossed),
                                k,
                                width,
                                height,
                                config,
                                depth + 1,
                            );
                            if try_crossed && crossed.failure is None {
                                crossed
                            } else if try_crossed {
                                stopped(restored(mid, crossed), SearchFailure::NoSolution)
                            } else {
                                stopped(mid, SearchFailure::NoSolution)
                            }
                        }
                    },
                }
            }
        }
    }
}

/// What [`BacktrackingSolver::solve`] makes of a grid: the solvers first, and the search
/// where they leave cells undecided. Only a fault of the solvers on the first grid is a
/// fault of the whole.
pub open spec fn backtracking_outcome(
    grid: Seq<Seq<CellState>>,
    k: Constraints,
    width: int,
    height: int,
    config: BacktrackingConfig,
) -> Progress {
    let first = propagated(grid, k, width, height);
    if first.error is Some || count_in_rows(first.grid, CellState::Empty) == 0 {
        first
    } else {
        let out = search(
            Search {
                grid: first.grid,
                log: first.log,
                explored: 0,
                visited: Seq::empty(),
                failure: None,
            },
            k,
            width,
            height,
            config,
            0,
        );
        Progress { grid: out.grid, log: out.log, error: None }
    }
}

/// A copy of `log`.
pub fn copy_deductions(log: &Vec<Deduction>) -> (out: Vec<Deduction>)
    ensures
        out@ == log@,
{
    let mut out: Vec<Deduction> = Vec::new();
    crate::solver::deductions::append_deductions(&mut out, log);
    assert(out@ =~= log@);
    out
}

/// Solver that searches by trial where the other solvers stop.
pub struct BacktrackingSolver {
    config: BacktrackingConfig,
    advanced_solver: AdvancedSolver,
    contradiction_detector: ContradictionDetector,
    states_explored: usize,
    visited_states: Vec<String>,
}

impl BacktrackingSolver {
    /// What the solver remembers is true, and its solvers use every rule.
    pub closed spec fn wf(&self) -> bool {
        &&& self.advanced_solver.wf()
        &&& self.contradiction_detector.wf()
        &&& self.advanced_solver.spec_config().use_cross_analysis
        &&& self.advanced_solver.spec_config().use_advanced_heuristics
        &&& self.advanced_solver.spec_config().max_iterations == SEARCH_ROUNDS
    }

    /// The limits of the search.
    pub closed spec fn spec_config(&self) -> BacktrackingConfig {
        self.config
    }

    /// Number of grids that the search has looked at.
    pub closed spec fn explored(&self) -> int {
        self.states_explored as int
    }

    /// The grids that the search has looked at, as text.
    pub closed spec fn visited(&self) -> Seq<Seq<char>> {
        texts(self.visited_states@)
    }

    /// Makes a solver that goes 10 deep and looks at 10000 grids at most. It has looked at
    /// no grid yet.
    pub fn new() -> (solver: BacktrackingSolver)
        ensures
            solver.wf(),
            solver.spec_config() == (BacktrackingConfig {
                max_depth: 10,
                max_states: 10000,
                verbose: false,
            }),
            solver.explored() == 0,
            solver.visited() == Seq::<Seq<char>>::empty(),
    {
        Self::with_config(BacktrackingConfig::default())
    }

    /// Makes a solver with the limits of `config`. It has looked at no grid yet.
    pub fn with_config(config: BacktrackingConfig) -> (solver: BacktrackingSolver)
        ensures
            solver.wf(),
            solver.spec_config() == config,
            solver.explored() == 0,
            solver.visited() == Seq::<Seq<char>>::empty(),
    {
        let advanced_config = AdvancedSolverConfig {
            use_cross_analysis: true,
            use_advanced_heuristics: true,
            max_iterations: SEARCH_ROUNDS,
            verbose: false,
        };
        let solver = BacktrackingSolver {
            config,
            advanced_solver: AdvancedSolver::with_config(advanced_config),
            contradiction_detector: ContradictionDetector::new(),
            states_explored: 0,
            visited_states: Vec::new(),
        };
        assert(solver.visited() =~= Seq::<Seq<char>>::empty());
        solver
    }

    /// Number of grids that the last search has looked at.
    pub fn states_explored(&self) -> (n: usize)
        ensures
            n == self.explored(),
    {
        self.states_explored
    }

    /// Solves the grid by the solvers and, where they leave cells undecided, by search.
    ///
    /// The deductions come in the order in which they were made, and each of them is
    /// written into `grid`. A search that ends without a solution is no fault: what the
    /// solvers found before it stays. No cell that was decided is taken back.
    ///
    /// A grid that is left without undecided cells is checked once more by line solving: a
    /// line of it that does not satisfy its run lengths is a fault. So a grid without
    /// undecided cells that comes back without a fault is a solution. Every deduction
    /// returned speaks of a cell that was undecided at first, and of each cell once; every
    /// cell that was decided is among them.
    pub fn solve(&mut self, grid: &mut Grid, constraints: &Constraints) -> (res: Result<
        Vec<Deduction>,
        SolveError,
    >)
        requires
            old(self).wf(),
            old(grid).wf(),
        ensures
            final(self).wf(),
            final(self).spec_config() == old(self).spec_config(),
            final(grid).wf(),
            final(grid).spec_width() == old(grid).spec_width(),
            final(grid).spec_height() == old(grid).spec_height(),
            ({
                let out = crate::solver::solution_laws::confirmed(
                    backtracking_outcome(
                        old(grid)@,
                        *constraints,
                        old(grid).spec_width() as int,
                        old(grid).spec_height() as int,
                        old(self).spec_config(),
                    ),
                    *constraints,
                    old(grid).spec_width() as int,
                    old(grid).spec_height() as int,
                );
                &&& final(grid)@ == out.grid
                &&& match res {
                    Ok(log) => out.error is None && log@ == out.log,
                    Err(e) => out.error == Some(e),
                }
            }),
            crate::solver::propagation::extends(final(grid)@, old(grid)@),
            match res {
                Ok(log) => crate::solver::outcome_laws::tells(
                    old(grid)@,
                    final(grid)@,
                    log@,
                    old(grid).spec_width() as int,
                    old(grid).spec_height() as int,
                ),
                Err(_) => true,
            },
            res is Ok && crate::grid::count_in_rows(final(grid)@, CellState::Empty) == 0
                ==> crate::solver::propagation::is_solution(
                final(grid)@,
                *constraints,
                old(grid).spec_width() as int,
                old(grid).spec_height() as int,
            ),
    {
        let ghost w = grid.spec_width() as int;
        let ghost h = grid.spec_height() as int;
        let ghost inner = backtracking_outcome(
            grid@,
            *constraints,
            grid.spec_width() as int,
            grid.spec_height() as int,
            self.spec_config(),
        );
        let res = self.run_search(grid, constraints);
        proof {
            if crate::solver::solution_laws::confirmed(inner, *constraints, w, h).error is None
                && crate::grid::count_in_rows(inner.grid, CellState::Empty) == 0 {
                crate::solver::solution_laws::lemma_confirmed_solution(
                    inner,
                    *constraints,
                    w,
                    h,
                );
            }
        }
        crate::solver::confirm(grid, constraints, res)
    }

    /// The solvers and the search of [`BacktrackingSolver::solve`], before its last check.
    pub(crate) fn run_search(&mut self, grid: &mut Grid, constraints: &Constraints) -> (res: Result<
        Vec<Deduction>,
        SolveError,
    >)
        requires
            old(self).wf(),
            old(grid).wf(),
        ensures
            final(self).wf(),
            final(self).spec_config() == old(self).spec_config(),
            final(grid).wf(),
            final(grid).spec_width() == old(grid).spec_width(),
            final(grid).spec_height() == old(grid).spec_height(),
            ({
                let out = backtracking_outcome(
                    old(grid)@,
                    *constraints,
                    old(grid).spec_width() as int,
                    old(grid).spec_height() as int,
                    old(self).spec_config(),
                );
                &&& final(grid)@ == out.grid
                &&& match res {
                    Ok(log) => out.error is None && log@ == out.log,
                    Err(e) => out.error == Some(e),
                }
            }),
            crate::solver::propagation::extends(final(grid)@, old(grid)@),
            match res {
                Ok(log) => crate::solver::outcome_laws::tells(
                    old(grid)@,
                    final(grid)@,
                    log@,
                    old(grid).spec_width() as int,
                    old(grid).spec_height() as int,
                ),
                Err(_) => true,
            },
    {
        proof {
            crate::solver::search_laws::lemma_backtracking_extends(
                grid@,
                *constraints,
                grid.spec_width() as int,
                grid.spec_height() as int,
                self.spec_config(),
            );
            crate::solver::outcome_laws::lemma_backtracking_log(
                grid@,
                *constraints,
                grid.spec_width() as int,
                grid.spec_height() as int,
                self.spec_config(),
            );
        }
        self.states_explored = 0;
        self.visited_states.clear();
        assert(texts(self.visited_states@) =~= Seq::<Seq<char>>::empty());
        let mut all_deductions = match self.advanced_solver.run_rounds(grid, constraints) {
            Ok(found) => found,
            Err(e) => {
                return Err(e);
            },
        };
        if grid.count_empty_cells() == 0 {
            return Ok(all_deductions);
        }
        match self.backtrack(grid, constraints, 0, &mut all_deductions) {
            Ok(()) => {},
            Err(_) => {},
        }
        Ok(all_deductions)
    }

    /// The search on `grid` at depth `depth`; the deductions are added to `log`.
    pub fn backtrack(
        &mut self,
        grid: &mut Grid,
        constraints: &Constraints,
        depth: usize,
        log: &mut Vec<Deduction>,
    ) -> (res: Result<(), SearchFailure>)
        requires
            old(self).wf(),
            old(grid).wf(),
        ensures
            final(self).wf(),
            final(self).spec_config() == old(self).spec_config(),
            final(grid).wf(),
            final(grid).spec_width() == old(grid).spec_width(),
            final(grid).spec_height() == old(grid).spec_height(),
            ({
                let out = search(
                    Search {
                        grid: old(grid)@,
                        log: old(log)@,
                        explored: old(self).explored(),
                        visited: old(self).visited(),
                        failure: None,
                    },
                    *constraints,
                    old(grid).spec_width() as int,
                    old(grid).spec_height() as int,
                    old(self).spec_config(),
                    depth as int,
                );
                &&& final(grid)@ == out.grid
                &&& final(log)@ == out.log
                &&& final(self).explored() == out.explored
                &&& final(self).visited() == out.visited
                &&& match res {
                    Ok(()) => out.failure is None,
                    Err(why) => out.failure == Some(why),
                }
            }),
        decreases old(self).spec_config().max_depth - depth,
    {
        if depth >= self.config.max_depth {
            return Err(SearchFailure::DepthLimit);
        }
        if self.states_explored >= self.config.max_states {
            return Err(SearchFailure::StateLimit);
        }
        self.states_explored += 1;
        let state_key = grid_to_string(grid);
        if contains_key(&self.visited_states, &state_key) {
            return Err(SearchFailure::AlreadyVisited);
        }
        self.visited_states.push(state_key);
        assert(texts(self.visited_states@) =~= old(self).visited().push(serialized(old(grid)@)));
        let mut settled = grid.clone_grid();
        let deductions = match self.advanced_solver.run_rounds(&mut settled, constraints) {
            Ok(found) => found,
            Err(e) => {
                return Err(SearchFailure::Solver(e));
            },
        };
        *grid = settled;
        crate::solver::deductions::append_deductions(log, &deductions);
        if grid.count_empty_cells() == 0 {
            return Ok(());
        }
        let (row, col) = match self.choose_best_cell(grid, constraints) {
            Some(cell) => cell,
            None => {
                return Ok(());
            },
        };
        let mut test_grid = grid.clone_grid();
        let written = test_grid.set(row, col, CellState::Filled);
        assert(written is Ok);
        if self.contradiction_detector.is_valid(&test_grid, constraints) {
            let mut branch_log = copy_deductions(log);
            branch_log.push(Deduction { row, col, state: CellState::Filled });
            match self.backtrack(&mut test_grid, constraints, depth + 1, &mut branch_log) {
                Ok(()) => {
                    *grid = test_grid;
                    *log = branch_log;
                    return Ok(());
                },
                Err(_) => {},
            }
        }
        let mut test_grid = grid.clone_grid();
        let written = test_grid.set(row, col, CellState::Crossed);
        assert(written is Ok);
        if self.contradiction_detector.is_valid(&test_grid, constraints) {
            let mut branch_log = copy_deductions(log);
            branch_log.push(Deduction { row, col, state: CellState::Crossed });
            match self.backtrack(&mut test_grid, constraints, depth + 1, &mut branch_log) {
                Ok(()) => {
                    *grid = test_grid;
                    *log = branch_log;
                    return Ok(());
                },
                Err(_) => {},
            }
        }
        Err(SearchFailure::NoSolution)
    }

    /// The cell on which the search branches: the undecided cell with the highest plain
    /// score above zero, the first of them row by row.
    pub fn choose_best_cell(&self, grid: &Grid, constraints: &Constraints) -> (cell: Option<
        (usize, usize),
    >)
        requires
            grid.wf(),
        ensures
            cell == best_cell(
                false,
                grid@,
                *constraints,
                grid.spec_width() as int,
                grid.spec_height() as int,
            ),
            cell matches Some(c) ==> c.0 < grid.spec_height() && c.1 < grid.spec_width()
                && grid@[c.0 as int][c.1 as int] == CellState::Empty,
    {
        choose_cell(false, grid, constraints)
    }

    /// Plain score of the cell `(row, col)`.
    pub fn calculate_cell_score(&self, grid: &Grid, constraints: &Constraints, row: usize, col: usize) -> (score:
        u128)
        requires
            grid.wf(),
        ensures
            score == crate::solver::branching::plain_score(
                grid@,
                *constraints,
                grid.spec_width() as int,
                row as int,
                col as int,
            ),
    {
        crate::solver::branching::plain_cell_score(grid, constraints, row, col)
    }

    /// The grid as text: `.` for an undecided cell, `#` for a filled one, `X` for a crossed
    /// one, row after row.
    pub fn grid_to_string(&self, grid: &Grid) -> (text: String)
        requires
            grid.wf(),
        ensures
            text@ == serialized(grid@),
    {
        grid_to_string(grid)
    }
}

} // verus!
