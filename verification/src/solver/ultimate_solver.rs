//! Every solver in turn: rounds of line solving, analysis and heuristics, then line solving
//! with the lines solved at the same time, then search.

use vstd::prelude::*;

use crate::grid::{count_in_rows, CellState, Constraints, Grid};
use crate::solver::advanced_solver::{advanced_rounds, AdvancedSolverConfig};
use crate::solver::backtracking_optimized::{optimized_outcome, OptimizedBacktrackingConfig};
use crate::solver::deductions::append_deductions;
use crate::solver::parallel_solver::parallel_passes;
use crate::solver::propagation::{Progress, MAX_ITERATIONS};
use crate::solver::{
    AdvancedSolver, Deduction, OptimizedBacktrackingSolver, ParallelSolver, SolveError,
};

verus! {

/// What an [`UltimateSolver`] does.
#[derive(Debug, Clone, Copy)]
pub struct UltimateSolverConfig {
    /// Whether overlap and edge forcing are used in the first phase.
    pub use_cross_analysis: bool,
    /// Whether glue, mercury, joining and punctuation are used in the first phase.
    pub use_advanced_heuristics: bool,
    /// Whether line solving with the lines solved at the same time follows.
    pub use_parallel: bool,
    /// Whether search follows.
    pub use_backtracking: bool,
    /// How deep the search may go.
    pub backtracking_depth: usize,
    /// How many grids the search may look at.
    pub backtracking_max_states: usize,
    /// Whether cells with one state left are decided before the search.
    pub use_naked_singles: bool,
    /// Whether runs with one place left are filled before the search.
    pub use_hidden_singles: bool,
    /// Whether the caller wants the progress reported.
    pub verbose: bool,
    /// Most rounds of the first phase.
    pub max_iterations: usize,
}

impl Default for UltimateSolverConfig {
    fn default() -> (config: UltimateSolverConfig)
        ensures
            config == (UltimateSolverConfig {
                use_cross_analysis: true,
                use_advanced_heuristics: true,
                use_parallel: true,
                use_backtracking: true,
                backtracking_depth: 10,
                backtracking_max_states: 100000,
                use_naked_singles: true,
                use_hidden_singles: true,
                verbose: false,
                max_iterations: 100,
            }),
    {
        UltimateSolverConfig {
            use_cross_analysis: true,
            use_advanced_heuristics: true,
            use_parallel: true,
            use_backtracking: true,
            backtracking_depth: 10,
            backtracking_max_states: 100000,
            use_naked_singles: true,
            use_hidden_singles: true,
            verbose: false,
            max_iterations: 100,
        }
    }
}

/// The configuration of the search that `config` asks for.
pub open spec fn search_config(config: UltimateSolverConfig) -> OptimizedBacktrackingConfig {
    OptimizedBacktrackingConfig {
        max_depth: config.backtracking_depth,
        max_states: config.backtracking_max_states,
        use_constraint_propagation: true,
        use_naked_singles: config.use_naked_singles,
        use_hidden_singles: config.use_hidden_singles,
        verbose: config.verbose,
    }
}

/// `p`, followed by what `next` makes of its grid.
pub open spec fn followed(p: Progress, next: Progress) -> Progress {
    Progress { grid: next.grid, log: p.log + next.log, error: next.error }
}

/// What [`UltimateSolver::solve`] makes of a grid: the phases that the configuration asks
/// for, one after the other, each on the grid that the phase before has left. A fault, or a
/// grid without undecided cells, ends the work after any phase.
pub open spec fn ultimate_outcome(
    grid: Seq<Seq<CellState>>,
    k: Constraints,
    width: int,
    height: int,
    config: UltimateSolverConfig,
) -> Progress {
    let first = advanced_rounds(
        grid,
        k,
        width,
        height,
        config.use_cross_analysis,
        config.use_advanced_heuristics,
        config.max_iterations as int,
        0,
    );
    if first.error is Some || count_in_rows(first.grid, CellState::Empty) == 0 {
        first
    } else {
        let second = if config.use_parallel {
            followed(
                first,
                parallel_passes(first.grid, k, width, height, MAX_ITERATIONS as int, 0),
            )
        } else {
            first
        };
        if second.error is Some || count_in_rows(second.grid, CellState::Empty) == 0
            || !config.use_backtracking {
            second
        } else {
            followed(
                second,
                optimized_outcome(second.grid, k, width, height, search_config(config)),
            )
        }
    }
}

/// Solver that runs every solver in turn.
pub struct UltimateSolver {
    config: UltimateSolverConfig,
}

impl UltimateSolver {
    /// What the solver was told to do.
    pub closed spec fn spec_config(&self) -> UltimateSolverConfig {
        self.config
    }

    /// Makes a solver that runs every phase.
    pub fn new() -> (solver: UltimateSolver)
        ensures
            solver.spec_config() == (UltimateSolverConfig {
                use_cross_analysis: true,
                use_advanced_heuristics: true,
                use_parallel: true,
                use_backtracking: true,
                backtracking_depth: 10,
                backtracking_max_states: 100000,
                use_naked_singles: true,
                use_hidden_singles: true,
                verbose: false,
                max_iterations: 100,
            }),
    {
        Self::with_config(UltimateSolverConfig::default())
    }

    /// Makes a solver that does what `config` says.
    pub fn with_config(config: UltimateSolverConfig) -> (solver: UltimateSolver)
        ensures
            solver.spec_config() == config,
    {
        UltimateSolver { config }
    }

    /// What the solver was told to do.
    pub fn config(&self) -> (config: UltimateSolverConfig)
        ensures
            config == self.spec_config(),
    {
        self.config
    }

    /// Solves the grid by the phases of the configuration and returns the deductions of all
    /// phases, one phase after the other. No cell that was decided is taken back.
    ///
    /// A grid that is left without undecided cells is checked once more by line solving: a
    /// line of it that does not satisfy its run lengths is a fault. So a grid without
    /// undecided cells that comes back without a fault is a solution. Every deduction
    /// returned speaks of a cell that was undecided at first, and of each cell once; every
    /// cell that was decided is among them.
    pub fn solve(&mut self, grid: &mut Grid, constraints: &Constraints) -> (res: Result<
        Vec<Deduction>,
        SolveError,
    >)
        requires
            old(grid).wf(),
            constraints.wf(),
        ensures
            final(self).spec_config() == old(self).spec_config(),
            final(grid).wf(),
            final(grid).spec_width() == old(grid).spec_width(),
            final(grid).spec_height() == old(grid).spec_height(),
            ({
                let out = crate::solver::solution_laws::confirmed(
                    ultimate_outcome(
                        old(grid)@,
                        *constraints,
                        old(grid).spec_width() as int,
                        old(grid).spec_height() as int,
                        old(self).spec_config(),
                    ),
                    *constraints,
                    old(grid).spec_width() as int,
                    old(grid).spec_height() as int,
                );
                &&& final(grid)@ == out.grid
                &&& match res {
                    Ok(log) => out.error is None && log@ == out.log,
                    Err(e) => out.error == Some(e),
                }
            }),
            crate::solver::propagation::extends(final(grid)@, old(grid)@),
            match res {
                Ok(log) => crate::solver::outcome_laws::tells(
                    old(grid)@,
                    final(grid)@,
                    log@,
                    old(grid).spec_width() as int,
                    old(grid).spec_height() as int,
                ),
                Err(_) => true,
            },
            res is Ok && crate::grid::count_in_rows(final(grid)@, CellState::Empty) == 0
                ==> crate::solver::propagation::is_solution(
                final(grid)@,
                *constraints,
                old(grid).spec_width() as int,
                old(grid).spec_height() as int,
            ),
    {
        let ghost w = grid.spec_width() as int;
        let ghost h = grid.spec_height() as int;
        let ghost inner = ultimate_outcome(
            grid@,
            *constraints,
            grid.spec_width() as int,
            grid.spec_height() as int,
            self.spec_config(),
        );
        let res = self.run_phases(grid, constraints);
        proof {
            if crate::solver::solution_laws::confirmed(inner, *constraints, w, h).error is None
                && crate::grid::count_in_rows(inner.grid, CellState::Empty) == 0 {
                crate::solver::solution_laws::lemma_confirmed_solution(
                    inner,
                    *constraints,
                    w,
                    h,
                );
            }
        }
        crate::solver::confirm(grid, constraints, res)
    }

    /// The phases of [`UltimateSolver::solve`], before its last check.
    pub(crate) fn run_phases(&mut self, grid: &mut Grid, constraints: &Constraints) -> (res: Result<
        Vec<Deduction>,
        SolveError,
    >)
        requires
            old(grid).wf(),
            constraints.wf(),
        ensures
            final(self).spec_config() == old(self).spec_config(),
            final(grid).wf(),
            final(grid).spec_width() == old(grid).spec_width(),
            final(grid).spec_height() == old(grid).spec_height(),
            ({
                let out = ultimate_outcome(
                    old(grid)@,
                    *constraints,
                    old(grid).spec_width() as int,
                    old(grid).spec_height() as int,
                    old(self).spec_config(),
                );
                &&& final(grid)@ == out.grid
                &&& match res {
                    Ok(log) => out.error is None && log@ == out.log,
                    Err(e) => out.error == Some(e),
                }
            }),
            crate::solver::propagation::extends(final(grid)@, old(grid)@),
            match res {
                Ok(log) => crate::solver::outcome_laws::tells(
                    old(grid)@,
                    final(grid)@,
                    log@,
                    old(grid).spec_width() as int,
                    old(grid).spec_height() as int,
                ),
                Err(_) => true,
            },
    {
        proof {
            crate::solver::search_laws::lemma_ultimate_extends(
                grid@,
                *constraints,
                grid.spec_width() as int,
                grid.spec_height() as int,
                self.spec_config(),
            );
            crate::solver::outcome_laws::lemma_ultimate_log(
                grid@,
                *constraints,
                grid.spec_width() as int,
                grid.spec_height() as int,
                self.spec_config(),
            );
        }
        let advanced_config = AdvancedSolverConfig {
            use_cross_analysis: self.config.use_cross_analysis,
            use_advanced_heuristics: self.config.use_advanced_heuristics,
            max_iterations: self.config.max_iterations,
            verbose: self.config.verbose,
        };
        let mut advanced_solver = AdvancedSolver::with_config(advanced_config);
        let mut all_deductions = match advanced_solver.run_rounds(grid, constraints) {
            Ok(found) => found,
            Err(e) => {
                return Err(e);
            },
        };
        if grid.count_empty_cells() == 0 {
            return Ok(all_deductions);
        }
        if self.config.use_parallel {
            let parallel_solver = ParallelSolver::with_verbose(self.config.verbose);
            let parallel_deductions = match parallel_solver.solve(grid, constraints) {
                Ok(found) => found,
                Err(e) => {
                    return Err(e);
                },
            };
            append_deductions(&mut all_deductions, &parallel_deductions);
            if grid.count_empty_cells() == 0 {
                return Ok(all_deductions);
            }
        }
        if self.config.use_backtracking {
            let backtracking_config = OptimizedBacktrackingConfig {
                max_depth: self.config.backtracking_depth,
                max_states: self.config.backtracking_max_states,
                use_constraint_propagation: true,
                use_naked_singles: self.config.use_naked_singles,
                use_hidden_singles: self.config.use_hidden_singles,
                verbose: self.config.verbose,
            };
            let mut backtracking_solver = OptimizedBacktrackingSolver::with_config(
                backtracking_config,
            );
            let backtracking_deductions = match backtracking_solver.run_search(grid, constraints) {
                Ok(found) => found,
                Err(e) => {
                    return Err(e);
                },
            };
            append_deductions(&mut all_deductions, &backtracking_deductions);
        }
        Ok(all_deductions)
    }
}

} // verus!
