//! Solvers: from one line to the whole grid.

use vstd::prelude::*;

use crate::grid::{column_of, with_column, CellState, Constraints, Grid};

pub mod advanced_heuristics;
pub mod advanced_solver;
pub mod backtracking;
pub mod backtracking_optimized;
pub mod branching;
pub mod completion;
pub mod contradiction_detector;
pub mod cross_analysis;
pub mod deductions;
pub mod detector_laws;
pub mod enumerate;
pub mod grid_rules;
pub mod growth;
pub mod line_rules;
pub mod line_solver;
pub mod log_laws;
pub mod outcome_laws;
pub mod line_solver_optimized;
pub mod parallel_solver;
pub mod propagation;
pub mod rule_laws;
pub mod search_laws;
pub mod solution_laws;
pub mod state_key;
pub mod ultimate_solver;

pub use advanced_heuristics::AdvancedHeuristics;
pub use advanced_solver::{AdvancedSolver, AdvancedSolverConfig};
pub use backtracking::{BacktrackingConfig, BacktrackingSolver};
pub use backtracking_optimized::{OptimizedBacktrackingConfig, OptimizedBacktrackingSolver};
pub use contradiction_detector::ContradictionDetector;
pub use cross_analysis::CrossAnalyzer;
pub use line_solver::LineSolver;
pub use line_solver_optimized::OptimizedLineSolver;
pub use parallel_solver::ParallelSolver;
pub use ultimate_solver::{UltimateSolver, UltimateSolverConfig};

use propagation::{
    advances, after_column, after_columns, after_passes, after_row, after_rows, after_sweep,
    apply_found, column_log, completes, fresh, lemma_after_column_preceded,
    lemma_after_columns_stopped, lemma_after_passes_advances, lemma_after_row_preceded,
    lemma_after_rows_stopped, lemma_apply_found_len, lemma_line_deductions, preceded, row_log,
    Progress, MAX_ITERATIONS,
};

verus! {

/// A proven cell state: the cell `(row, col)` is `state`.
#[derive(Debug, Clone, Copy, PartialEq, Eq, Structural)]
pub struct Deduction {
    pub row: usize,
    pub col: usize,
    pub state: CellState,
}

/// Why a solver gave up.
#[derive(Debug, Clone, Copy, PartialEq, Eq, Structural)]
pub enum SolveError {
    /// A line has no completion.
    InfeasibleLine,
    /// The pass limit was reached before the grid stopped changing.
    IterationLimit,
    /// The grid has a row `row` for which there are no run lengths.
    MissingRowConstraint { row: usize },
    /// The grid has a column `col` for which there are no run lengths.
    MissingColumnConstraint { col: usize },
    /// The grid has no row `row`.
    RowOutOfBounds { row: usize },
    /// The grid has no column `col`.
    ColumnOutOfBounds { col: usize },
}

/// Writes the deductions `found` on row `row` into `grid` and adds them to `log`.
pub fn record_row(grid: &mut Grid, row: usize, found: &Vec<(usize, CellState)>, log: &mut Vec<Deduction>)
    requires
        old(grid).wf(),
        row < old(grid).spec_height(),
        forall|j: int| 0 <= j < found@.len() ==> (#[trigger] found@[j]).0 < old(grid).spec_width(),
    ensures
        final(grid).wf(),
        final(grid).spec_width() == old(grid).spec_width(),
        final(grid).spec_height() == old(grid).spec_height(),
        final(grid)@ == old(grid)@.update(
            row as int,
            apply_found(old(grid)@[row as int], found@, found@.len() as int),
        ),
        final(log)@ == old(log)@ + row_log(row as int, found@),
{
    let ghost before = grid@;
    let ghost logged = log@;
    let ghost line = before[row as int];
    let mut i: usize = 0;
    assert(grid@ =~= before.update(row as int, apply_found(line, found@, 0)));
    assert(log@ =~= logged + row_log(row as int, found@).take(0));
    while i < found.len()
        invariant
            i <= found@.len(),
            grid.wf(),
            grid.spec_width() == old(grid).spec_width(),
            grid.spec_height() == old(grid).spec_height(),
            row < grid.spec_height(),
            before.len() == grid.spec_height(),
            line == before[row as int],
            line.len() == grid.spec_width(),
            forall|j: int| 0 <= j < found@.len() ==> (#[trigger] found@[j]).0 < line.len(),
            grid@ == before.update(row as int, apply_found(line, found@, i as int)),
            log@ == logged + row_log(row as int, found@).take(i as int),
        decreases found@.len() - i,
    {
        let (col, state) = found[i];
        proof {
            lemma_apply_found_len(line, found@, i as int);
        }
        let written = grid.set(row, col, state);
        assert(written is Ok);
        log.push(Deduction { row, col, state });
        proof {
            assert(grid@ =~= before.update(row as int, apply_found(line, found@, i + 1)));
            assert(row_log(row as int, found@).take(i + 1) =~= row_log(row as int, found@).take(
                i as int,
            ).push(Deduction { row, col, state }));
            assert(log@ =~= logged + row_log(row as int, found@).take(i + 1));
        }
        i += 1;
    }
    assert(row_log(row as int, found@).take(found@.len() as int) =~= row_log(row as int, found@));
}

/// Writes the deductions `found` on column `col` into `grid` and adds them to `log`.
pub fn record_column(
    grid: &mut Grid,
    col: usize,
    found: &Vec<(usize, CellState)>,
    log: &mut Vec<Deduction>,
)
    requires
        old(grid).wf(),
        col < old(grid).spec_width(),
        forall|j: int| 0 <= j < found@.len() ==> (#[trigger] found@[j]).0 < old(grid).spec_height(),
    ensures
        final(grid).wf(),
        final(grid).spec_width() == old(grid).spec_width(),
        final(grid).spec_height() == old(grid).spec_height(),
        final(grid)@ == with_column(
            old(grid)@,
            col as int,
            apply_found(column_of(old(grid)@, col as int), found@, found@.len() as int),
        ),
        final(log)@ == old(log)@ + column_log(col as int, found@),
{
    let ghost before = grid@;
    let ghost logged = log@;
    let ghost line = column_of(before, col as int);
    proof {
        assert forall|r: int| 0 <= r < before.len() implies with_column(
            before,
            col as int,
            line,
        )[r] == before[r] by {
            assert(before[r].update(col as int, line[r]) =~= before[r]);
        }
        assert(grid@ =~= with_column(before, col as int, apply_found(line, found@, 0)));
        assert(log@ =~= logged + column_log(col as int, found@).take(0));
    }
    let mut i: usize = 0;
    while i < found.len()
        invariant
            i <= found@.len(),
            grid.wf(),
            grid.spec_width() == old(grid).spec_width(),
            grid.spec_height() == old(grid).spec_height(),
            col < grid.spec_width(),
            crate::grid::rectangular(before, grid.spec_width() as int, grid.spec_height() as int),
            line == column_of(before, col as int),
            line.len() == grid.spec_height(),
            forall|j: int| 0 <= j < found@.len() ==> (#[trigger] found@[j]).0 < line.len(),
            grid@ == with_column(before, col as int, apply_found(line, found@, i as int)),
            log@ == logged + column_log(col as int, found@).take(i as int),
        decreases found@.len() - i,
    {
        let (row, state) = found[i];
        proof {
            lemma_apply_found_len(line, found@, i as int);
        }
        let written = grid.set(row, col, state);
        assert(written is Ok);
        log.push(Deduction { row, col, state });
        proof {
            let earlier = apply_found(line, found@, i as int);
            let later = apply_found(line, found@, i + 1);
            assert forall|r: int| 0 <= r < before.len() implies grid@[r] == with_column(
                before,
                col as int,
                later,
            )[r] by {
                if r == row {
                    assert(before[r].update(col as int, earlier[r]).update(col as int, state)
                        =~= before[r].update(col as int, later[r]));
                } else {
                    assert(later[r] == earlier[r]);
                }
            }
            assert(grid@ =~= with_column(before, col as int, later));
            assert(column_log(col as int, found@).take(i + 1) =~= column_log(
                col as int,
                found@,
            ).take(i as int).push(Deduction { row, col, state }));
            assert(log@ =~= logged + column_log(col as int, found@).take(i + 1));
        }
        i += 1;
    }
    assert(column_log(col as int, found@).take(found@.len() as int) =~= column_log(
        col as int,
        found@,
    ));
}

/// Solver for a whole grid by line solving alone: every row and every column is solved in
/// turn until a sweep over all of them finds nothing.
pub struct NonogramSolver {
    line_solver: OptimizedLineSolver,
}

impl NonogramSolver {
    /// What the solver remembers is true.
    pub closed spec fn wf(&self) -> bool {
        self.line_solver.wf()
    }

    /// The lines that the line solver has in memory, each with its run lengths.
    pub closed spec fn cached(&self) -> Seq<(Seq<CellState>, Seq<usize>)> {
        self.line_solver.cached()
    }

    /// Makes a solver with an empty memory.
    pub fn new() -> (solver: NonogramSolver)
        ensures
            solver.wf(),
            solver.cached() == Seq::<(Seq<CellState>, Seq<usize>)>::empty(),
    {
        NonogramSolver { line_solver: OptimizedLineSolver::new() }
    }

    /// Solves row `row`, writes its deductions into `grid` and adds them to `log`. A row
    /// without run lengths is a fault, and so is a row outside the grid.
    pub fn solve_row(
        &mut self,
        grid: &mut Grid,
        constraints: &Constraints,
        row: usize,
        log: &mut Vec<Deduction>,
    ) -> (res: Result<(), SolveError>)
        requires
            old(self).wf(),
            old(grid).wf(),
        ensures
            final(self).wf(),
            final(grid).wf(),
            final(grid).spec_width() == old(grid).spec_width(),
            final(grid).spec_height() == old(grid).spec_height(),
            if row < old(grid).spec_height() || row >= constraints.rows@.len() {
                let step = after_row(fresh(old(grid)@), *constraints, row as int);
                &&& final(grid)@ == step.grid
                &&& final(log)@ == old(log)@ + step.log
                &&& match res {
                    Ok(()) => step.error is None,
                    Err(e) => step.error == Some(e),
                }
            } else {
                &&& final(grid)@ == old(grid)@
                &&& final(log)@ == old(log)@
                &&& res == Err::<(), SolveError>(SolveError::RowOutOfBounds { row })
            },
    {
        let ghost before = grid@;
        let ghost logged = log@;
        let row_constraint = match constraints.get_row_constraint(row) {
            Some(c) => c,
            None => {
                assert(log@ + Seq::<Deduction>::empty() =~= log@);
                return Err(SolveError::MissingRowConstraint { row });
            },
        };
        let current_line = match grid.get_row(row) {
            Some(l) => l,
            None => {
                return Err(SolveError::RowOutOfBounds { row });
            },
        };
        let ghost line = current_line@;
        let ghost blocks = row_constraint@;
        let found = match self.line_solver.solve_line(
            current_line.as_slice(),
            row_constraint.as_slice(),
        ) {
            Ok(f) => f,
            Err(e) => {
                assert(log@ + Seq::<Deduction>::empty() =~= log@);
                return Err(e);
            },
        };
        proof {
            lemma_line_deductions(line, blocks);
        }
        record_row(grid, row, &found, log);
        proof {
            assert(Seq::<Deduction>::empty() + row_log(row as int, found@) =~= row_log(
                row as int,
                found@,
            ));
        }
        Ok(())
    }

    /// Solves column `col`, writes its deductions into `grid` and adds them to `log`. A
    /// column without run lengths is a fault, and so is a column outside the grid.
    pub fn solve_column(
        &mut self,
        grid: &mut Grid,
        constraints: &Constraints,
        col: usize,
        log: &mut Vec<Deduction>,
    ) -> (res: Result<(), SolveError>)
        requires
            old(self).wf(),
            old(grid).wf(),
        ensures
            final(self).wf(),
            final(grid).wf(),
            final(grid).spec_width() == old(grid).spec_width(),
            final(grid).spec_height() == old(grid).spec_height(),
            if col < old(grid).spec_width() || col >= constraints.columns@.len() {
                let step = after_column(fresh(old(grid)@), *constraints, col as int);
                &&& final(grid)@ == step.grid
                &&& final(log)@ == old(log)@ + step.log
                &&& match res {
                    Ok(()) => step.error is None,
                    Err(e) => step.error == Some(e),
                }
            } else {
                &&& final(grid)@ == old(grid)@
                &&& final(log)@ == old(log)@
                &&& res == Err::<(), SolveError>(SolveError::ColumnOutOfBounds { col })
            },
    {
        let ghost before = grid@;
        let ghost logged = log@;
        let col_constraint = match constraints.get_column_constraint(col) {
            Some(c) => c,
            None => {
                assert(log@ + Seq::<Deduction>::empty() =~= log@);
                return Err(SolveError::MissingColumnConstraint { col });
            },
        };
        let current_column = match grid.get_column(col) {
            Some(l) => l,
            None => {
                return Err(SolveError::ColumnOutOfBounds { col });
            },
        };
        let ghost line = current_column@;
        let ghost blocks = col_constraint@;
        let found = match self.line_solver.solve_line(
            current_column.as_slice(),
            col_constraint.as_slice(),
        ) {
            Ok(f) => f,
            Err(e) => {
                assert(log@ + Seq::<Deduction>::empty() =~= log@);
                return Err(e);
            },
        };
        proof {
            lemma_line_deductions(line, blocks);
        }
        record_column(grid, col, &found, log);
        proof {
            assert(Seq::<Deduction>::empty() + column_log(col as int, found@) =~= column_log(
                col as int,
                found@,
            ));
        }
        Ok(())
    }

    /// One sweep: solves every row, then every column, and adds the deductions to `log`.
    pub fn sweep(&mut self, grid: &mut Grid, constraints: &Constraints, log: &mut Vec<Deduction>) -> (res:
        Result<(), SolveError>)
        requires
            old(self).wf(),
            old(grid).wf(),
        ensures
            final(self).wf(),
            final(grid).wf(),
            final(grid).spec_width() == old(grid).spec_width(),
            final(grid).spec_height() == old(grid).spec_height(),
            ({
                let swept = after_sweep(
                    old(grid)@,
                    *constraints,
                    old(grid).spec_width() as int,
                    old(grid).spec_height() as int,
                );
                &&& final(grid)@ == swept.grid
                &&& final(log)@ == old(log)@ + swept.log
                &&& match res {
                    Ok(()) => swept.error is None,
                    Err(e) => swept.error == Some(e),
                }
            }),
    {
        let ghost start = fresh(grid@);
        let ghost logged = log@;
        let ghost k = *constraints;
        let height = grid.height();
        let width = grid.width();
        assert(log@ =~= logged + start.log);
        let mut row: usize = 0;
        while row < height
            invariant
                row <= height,
                self.wf(),
                grid.wf(),
                height == grid.spec_height() == old(grid).spec_height(),
                width == grid.spec_width() == old(grid).spec_width(),
                k == *constraints,
                start == fresh(old(grid)@),
                logged == old(log)@,
                after_rows(start, k, row as int).error is None,
                grid@ == after_rows(start, k, row as int).grid,
                log@ == logged + after_rows(start, k, row as int).log,
            decreases height - row,
        {
            let ghost p = after_rows(start, k, row as int);
            proof {
                lemma_after_row_preceded(p, k, row as int);
                let step = after_row(fresh(p.grid), k, row as int);
                assert((logged + p.log) + step.log =~= logged + (p.log + step.log));
            }
            match self.solve_row(grid, constraints, row, log) {
                Ok(()) => {},
                Err(e) => {
                    proof {
                        lemma_after_rows_stopped(start, k, row + 1, height as int);
                        lemma_after_columns_stopped(
                            after_rows(start, k, height as int),
                            k,
                            0,
                            width as int,
                        );
                    }
                    return Err(e);
                },
            }
            row += 1;
        }
        let ghost rows = after_rows(start, k, height as int);
        let mut col: usize = 0;
        while col < width
            invariant
                col <= width,
                self.wf(),
                grid.wf(),
                height == grid.spec_height() == old(grid).spec_height(),
                width == grid.spec_width() == old(grid).spec_width(),
                k == *constraints,
                start == fresh(old(grid)@),
                rows == after_rows(start, k, height as int),
                logged == old(log)@,
                after_columns(rows, k, col as int).error is None,
                grid@ == after_columns(rows, k, col as int).grid,
                log@ == logged + after_columns(rows, k, col as int).log,
            decreases width - col,
        {
            let ghost p = after_columns(rows, k, col as int);
            proof {
                lemma_after_column_preceded(p, k, col as int);
                let step = after_column(fresh(p.grid), k, col as int);
                assert((logged + p.log) + step.log =~= logged + (p.log + step.log));
            }
            match self.solve_column(grid, constraints, col, log) {
                Ok(()) => {},
                Err(e) => {
                    proof {
                        lemma_after_columns_stopped(rows, k, col + 1, width as int);
                    }
                    return Err(e);
                },
            }
            col += 1;
        }
        Ok(())
    }

    /// Solves the grid as far as line solving goes and returns the deductions in the order
    /// in which they were made.
    ///
    /// Sweeps are made until one finds nothing. Every deduction is written into `grid`, also
    /// those made before a fault; the deductions are returned only where there is no fault.
    /// No solution of the puzzle is lost: each one that completed the grid before completes
    /// it afterwards.
    ///
    /// The log is kept in the order of the work, as a log is: sweep after sweep, in a sweep
    /// row after row and then column after column. It is one solving of a line whose
    /// deductions come sorted, by position.
    ///
    /// A grid that comes back without undecided cells and without a fault is a solution.
    /// Every deduction returned speaks of a cell that was undecided at first, and of each
    /// cell once; every cell that was decided is among them.
    pub fn solve(&mut self, grid: &mut Grid, constraints: &Constraints) -> (res: Result<
        Vec<Deduction>,
        SolveError,
    >)
        requires
            old(self).wf(),
            old(grid).wf(),
        ensures
            final(self).wf(),
            final(grid).wf(),
            final(grid).spec_width() == old(grid).spec_width(),
            final(grid).spec_height() == old(grid).spec_height(),
            ({
                let out = after_passes(
                    old(grid)@,
                    *constraints,
                    old(grid).spec_width() as int,
                    old(grid).spec_height() as int,
                    MAX_ITERATIONS as int,
                    0,
                );
                &&& final(grid)@ == out.grid
                &&& match res {
                    Ok(log) => out.error is None && log@ == out.log,
                    Err(e) => out.error == Some(e),
                }
            }),
            forall|full: Seq<Seq<CellState>>| #[trigger]
                completes(
                    full,
                    old(grid)@,
                    *constraints,
                    old(grid).spec_width() as int,
                    old(grid).spec_height() as int,
                ) ==> completes(
                    full,
                    final(grid)@,
                    *constraints,
                    old(grid).spec_width() as int,
                    old(grid).spec_height() as int,
                ),
            match res {
                Ok(log) => crate::solver::outcome_laws::tells(
                    old(grid)@,
                    final(grid)@,
                    log@,
                    old(grid).spec_width() as int,
                    old(grid).spec_height() as int,
                ),
                Err(_) => true,
            },
            res is Ok && crate::grid::count_in_rows(final(grid)@, CellState::Empty) == 0 ==> crate::solver::propagation::is_solution(
                final(grid)@,
                *constraints,
                old(grid).spec_width() as int,
                old(grid).spec_height() as int,
            ),
    {
        proof {
            crate::solver::outcome_laws::lemma_after_passes_log(
                grid@,
                *constraints,
                grid.spec_width() as int,
                grid.spec_height() as int,
                MAX_ITERATIONS as int,
                0,
            );
            if after_passes(
                grid@,
                *constraints,
                grid.spec_width() as int,
                grid.spec_height() as int,
                MAX_ITERATIONS as int,
                0,
            ).error is None && crate::grid::count_in_rows(
                after_passes(
                    grid@,
                    *constraints,
                    grid.spec_width() as int,
                    grid.spec_height() as int,
                    MAX_ITERATIONS as int,
                    0,
                ).grid,
                CellState::Empty,
            ) == 0 {
                crate::solver::solution_laws::lemma_passes_solved(
                    grid@,
                    *constraints,
                    grid.spec_width() as int,
                    grid.spec_height() as int,
                    MAX_ITERATIONS as int,
                    0,
                );
            }
        }
        self.solve_within(grid, constraints, MAX_ITERATIONS)
    }

    /// Line solving with a limit of `max_iterations` sweeps in place of [`MAX_ITERATIONS`]:
    /// the sweep that finds nothing must be made before that many sweeps are over.
    pub fn solve_within(
        &mut self,
        grid: &mut Grid,
        constraints: &Constraints,
        max_iterations: usize,
    ) -> (res: Result<Vec<Deduction>, SolveError>)
        requires
            old(self).wf(),
            old(grid).wf(),
        ensures
            final(self).wf(),
            final(grid).wf(),
            final(grid).spec_width() == old(grid).spec_width(),
            final(grid).spec_height() == old(grid).spec_height(),
            ({
                let out = after_passes(
                    old(grid)@,
                    *constraints,
                    old(grid).spec_width() as int,
                    old(grid).spec_height() as int,
                    max_iterations as int,
                    0,
                );
                &&& final(grid)@ == out.grid
                &&& match res {
                    Ok(log) => out.error is None && log@ == out.log,
                    Err(e) => out.error == Some(e),
                }
            }),
            forall|full: Seq<Seq<CellState>>| #[trigger]
                completes(
                    full,
                    old(grid)@,
                    *constraints,
                    old(grid).spec_width() as int,
                    old(grid).spec_height() as int,
                ) ==> completes(
                    full,
                    final(grid)@,
                    *constraints,
                    old(grid).spec_width() as int,
                    old(grid).spec_height() as int,
                ),
    {
        let ghost k = *constraints;
        let ghost w = grid.spec_width() as int;
        let ghost h = grid.spec_height() as int;
        let ghost limit = max_iterations as int;
        let ghost out = after_passes(grid@, k, w, h, limit, 0);
        proof {
            lemma_after_passes_advances(grid@, k, w, h, limit, 0);
        }
        let mut all_deductions: Vec<Deduction> = Vec::new();
        let mut changed = true;
        let mut iteration: usize = 0;
        assert(all_deductions@ + out.log =~= out.log);
        while changed && iteration < max_iterations
            invariant
                self.wf(),
                grid.wf(),
                w == grid.spec_width() == old(grid).spec_width(),
                h == grid.spec_height() == old(grid).spec_height(),
                k == *constraints,
                limit == max_iterations,
                iteration <= max_iterations,
                out == after_passes(old(grid)@, k, w, h, limit, 0),
                advances(
                    fresh(old(grid)@),
                    Progress { grid: out.grid, log: out.log, error: None },
                    k,
                    w,
                    h,
                ),
                changed ==> out == preceded(
                    all_deductions@,
                    after_passes(grid@, k, w, h, limit, iteration as int),
                ),
                !changed ==> out == (Progress {
                    grid: grid@,
                    log: all_deductions@,
                    error: if iteration >= max_iterations {
                        Some(SolveError::IterationLimit)
                    } else {
                        None
                    },
                }),
            decreases max_iterations - iteration,
        {
            let ghost swept = after_sweep(grid@, k, w, h);
            let ghost logged = all_deductions@;
            let before = all_deductions.len();
            match self.sweep(grid, constraints, &mut all_deductions) {
                Ok(()) => {},
                Err(e) => {
                    return Err(e);
                },
            }
            changed = all_deductions.len() > before;
            proof {
                if changed {
                    let rest = after_passes(swept.grid, k, w, h, limit, iteration + 1);
                    assert(logged + (swept.log + rest.log) =~= (logged + swept.log) + rest.log);
                } else {
                    assert(swept.log =~= Seq::<Deduction>::empty());
                    assert(logged + swept.log =~= logged);
                }
            }
            iteration += 1;
        }
        if iteration >= max_iterations {
            proof {
                if changed {
                    assert(all_deductions@ + Seq::<Deduction>::empty() =~= all_deductions@);
                }
            }
            return Err(SolveError::IterationLimit);
        }
        Ok(all_deductions)
    }

    /// The deductions that [`NonogramSolver::solve`] would make on `grid`, which is left as
    /// it is.
    pub fn find_next_deductions(&mut self, grid: &Grid, constraints: &Constraints) -> (res: Result<
        Vec<Deduction>,
        SolveError,
    >)
        requires
            old(self).wf(),
            grid.wf(),
        ensures
            final(self).wf(),
            ({
                let out = after_passes(
                    grid@,
                    *constraints,
                    grid.spec_width() as int,
                    grid.spec_height() as int,
                    MAX_ITERATIONS as int,
                    0,
                );
                match res {
                    Ok(log) => out.error is None && log@ == out.log,
                    Err(e) => out.error == Some(e),
                }
            }),
    {
        let mut grid_copy = grid.clone_grid();
        self.solve(&mut grid_copy, constraints)
    }

    /// Empties the memory of the line solver.
    pub fn clear_cache(&mut self)
        ensures
            final(self).wf(),
            final(self).cached() == Seq::<(Seq<CellState>, Seq<usize>)>::empty(),
    {
        self.line_solver.clear_cache();
    }
}

impl Default for NonogramSolver {
    fn default() -> (solver: NonogramSolver)
        ensures
            solver.wf(),
            solver.cached() == Seq::<(Seq<CellState>, Seq<usize>)>::empty(),
    {
        NonogramSolver::new()
    }
}

/// The last check of a solver: where `grid` has no undecided cell, line solving is run on a
/// copy of it, and a fault that it finds takes the place of the result.
pub fn confirm(grid: &Grid, constraints: &Constraints, res: Result<Vec<Deduction>, SolveError>) -> (out:
    Result<Vec<Deduction>, SolveError>)
    requires
        grid.wf(),
    ensures
        ({
            let check = after_passes(
                grid@,
                *constraints,
                grid.spec_width() as int,
                grid.spec_height() as int,
                MAX_ITERATIONS as int,
                0,
            );
            match res {
                Err(e) => out == Err::<Vec<Deduction>, SolveError>(e),
                Ok(log) => if crate::grid::count_in_rows(grid@, CellState::Empty) == 0
                    && check.error is Some {
                    out == Err::<Vec<Deduction>, SolveError>(check.error->0)
                } else {
                    out == Ok::<Vec<Deduction>, SolveError>(log)
                },
            }
        }),
{
    match res {
        Err(e) => Err(e),
        Ok(log) => {
            if grid.count_empty_cells() != 0 {
                return Ok(log);
            }
            let mut copy = grid.clone_grid();
            let mut solver = NonogramSolver::new();
            match solver.solve(&mut copy, constraints) {
                Ok(_) => Ok(log),
                Err(e) => Err(e),
            }
        },
    }
}

} // verus!
