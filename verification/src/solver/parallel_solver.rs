//! Line solving with the lines of one direction solved at the same time.
//!
//! In a sweep every row is solved on its own, on the grid as it stands; then the deductions
//! are written into the grid one after the other. The columns follow in the same way. No
//! two lines of one direction share a cell, so the grid after a sweep is the grid that
//! solving the lines in turn gives.

use rayon::iter::{IndexedParallelIterator, IntoParallelRefIterator, ParallelIterator};
use vstd::prelude::*;

use crate::grid::{column_of, CellState, Constraints, Grid};
use crate::solver::completion::{line_deductions, solvable};
use crate::solver::deductions::{append_deductions, lemma_sort_first, sort_by_cell, sort_first};
use crate::solver::propagation::{
    after_column, after_columns, after_passes, after_row, after_rows, after_sweep, fresh,
    lemma_after_column_preceded, lemma_after_columns_stopped, lemma_after_row_preceded,
    lemma_after_rows_stopped, lemma_line_deductions, preceded, Progress, MAX_ITERATIONS,
};
use crate::solver::{record_column, record_row, Deduction, OptimizedLineSolver, SolveError};

verus! {

/// `res` is what solving `line` under the run lengths `blocks` gives.
pub open spec fn is_line_result(
    line: Seq<CellState>,
    blocks: Seq<usize>,
    res: Result<Vec<(usize, CellState)>, SolveError>,
) -> bool {
    match res {
        Ok(found) => solvable(line, blocks) && found@ == line_deductions(line, blocks),
        Err(e) => !solvable(line, blocks) && e == SolveError::InfeasibleLine,
    }
}

/// Solves one line with a solver of its own.
pub fn solve_line_job(line: &Vec<CellState>, constraint: &Vec<usize>) -> (res: Result<
    Vec<(usize, CellState)>,
    SolveError,
>)
    ensures
        is_line_result(line@, constraint@, res),
{
    let mut solver = OptimizedLineSolver::new();
    solver.solve_line(line.as_slice(), constraint.as_slice())
}

/// Runs [`solve_line_job`] on every line of `lines` with the run lengths of the same rank,
/// on the worker threads of `rayon`.
///
/// This is `par_iter().zip(..).map(..).collect()` of `rayon`: the lines are paired with the
/// run lengths as far as there are lines, the job is applied to each pair, and the results
/// are collected in the order of the lines. Trusted: that the collected vector holds, at
/// the rank of each line, what the job returns for that line.
#[verifier::external_body]
fn solve_lines_in_parallel(lines: &Vec<Vec<CellState>>, constraints: &Vec<Vec<usize>>) -> (results:
    Vec<Result<Vec<(usize, CellState)>, SolveError>>)
    requires
        lines@.len() <= constraints@.len(),
    ensures
        results@.len() == lines@.len(),
        forall|i: int|
            0 <= i < lines@.len() ==> is_line_result(
                lines@[i]@,
                constraints@[i]@,
                #[trigger] results@[i],
            ),
{
    lines.par_iter().zip(constraints.par_iter()).map(|(line, constraint)| {
        solve_line_job(line, constraint)
    }).collect()
}

/// One sweep with the lines of one direction solved at the same time: the rows, then the
/// columns. The deductions on the columns are logged in the order of their cells.
pub open spec fn parallel_sweep(grid: Seq<Seq<CellState>>, k: Constraints, width: int, height: int) -> Progress {
    let rows = after_rows(fresh(grid), k, height);
    if rows.error is Some {
        rows
    } else {
        let columns = after_columns(fresh(rows.grid), k, width);
        Progress {
            grid: columns.grid,
            log: rows.log + sort_first(columns.log),
            error: columns.error,
        }
    }
}

/// Sweeps over `grid` until a sweep finds nothing, `done` sweeps having been made before,
/// with the same faults and the same limit as solving the lines in turn.
pub open spec fn parallel_passes(
    grid: Seq<Seq<CellState>>,
    k: Constraints,
    width: int,
    height: int,
    limit: int,
    done: int,
) -> Progress
    decreases limit - done,
{
    if done >= limit {
        Progress { grid, log: Seq::empty(), error: Some(SolveError::IterationLimit) }
    } else {
        let swept = parallel_sweep(grid, k, width, height);
        if swept.error is Some {
            swept
        } else if swept.log.len() == 0 {
            if done + 1 >= limit {
                Progress { grid: swept.grid, log: swept.log, error: Some(SolveError::IterationLimit) }
            } else {
                swept
            }
        } else {
            preceded(swept.log, parallel_passes(swept.grid, k, width, height, limit, done + 1))
        }
    }
}

/// Solving columns goes on from the deductions made before them.
pub proof fn lemma_after_columns_preceded(p: Progress, k: Constraints, n: int)
    requires
        p.error is None,
    ensures
        after_columns(p, k, n) == preceded(p.log, after_columns(fresh(p.grid), k, n)),
    decreases n,
{
    if n <= 0 {
        assert(p.log + Seq::<Deduction>::empty() =~= p.log);
    } else {
        lemma_after_columns_preceded(p, k, n - 1);
        let a = after_columns(p, k, n - 1);
        let b = after_columns(fresh(p.grid), k, n - 1);
        if a.error is None {
            lemma_after_column_preceded(a, k, n - 1);
            lemma_after_column_preceded(b, k, n - 1);
            let step = after_column(fresh(a.grid), k, n - 1);
            assert((p.log + b.log) + step.log =~= p.log + (b.log + step.log));
        }
    }
}

/// A sweep with the lines of one direction solved at the same time leaves the grid, and has
/// the fault, of a sweep that solves the lines in turn; it finds nothing exactly when that
/// sweep finds nothing.
pub proof fn lemma_parallel_sweep(grid: Seq<Seq<CellState>>, k: Constraints, width: int, height: int)
    ensures
        parallel_sweep(grid, k, width, height).grid == after_sweep(grid, k, width, height).grid,
        parallel_sweep(grid, k, width, height).error == after_sweep(grid, k, width, height).error,
        (parallel_sweep(grid, k, width, height).log.len() == 0) == (after_sweep(
            grid,
            k,
            width,
            height,
        ).log.len() == 0),
{
    let rows = after_rows(fresh(grid), k, height);
    if rows.error is Some {
        if width > 0 {
            lemma_after_columns_stopped(rows, k, 0, width);
        }
    } else {
        lemma_after_columns_preceded(rows, k, width);
        let columns = after_columns(fresh(rows.grid), k, width);
        lemma_sort_first(columns.log);
        if columns.log.len() > 0 {
            assert(crate::solver::deductions::speaks_of(sort_first(columns.log), columns.log[0]));
        }
    }
}

/// Solving the lines of one direction at the same time leaves the grid, and has the fault,
/// of solving the lines in turn.
pub proof fn lemma_parallel_passes(
    grid: Seq<Seq<CellState>>,
    k: Constraints,
    width: int,
    height: int,
    limit: int,
    done: int,
)
    ensures
        parallel_passes(grid, k, width, height, limit, done).grid == after_passes(
            grid,
            k,
            width,
            height,
            limit,
            done,
        ).grid,
        parallel_passes(grid, k, width, height, limit, done).error == after_passes(
            grid,
            k,
            width,
            height,
            limit,
            done,
        ).error,
    decreases limit - done,
{
    if done < limit {
        lemma_parallel_sweep(grid, k, width, height);
        let swept = parallel_sweep(grid, k, width, height);
        if swept.error is None && swept.log.len() > 0 {
            lemma_parallel_passes(swept.grid, k, width, height, limit, done + 1);
        }
    }
}

/// Solver for a whole grid by line solving, with the lines of one direction solved at the
/// same time.
pub struct ParallelSolver {
    verbose: bool,
}

impl ParallelSolver {
    /// Whether the caller wants the progress reported.
    pub closed spec fn spec_verbose(&self) -> bool {
        self.verbose
    }

    /// Makes a solver.
    pub fn new() -> (solver: ParallelSolver)
        ensures
            !solver.spec_verbose(),
    {
        ParallelSolver { verbose: false }
    }

    /// Makes a solver for a caller that wants, or does not want, the progress reported.
    pub fn with_verbose(verbose: bool) -> (solver: ParallelSolver)
        ensures
            solver.spec_verbose() == verbose,
    {
        ParallelSolver { verbose }
    }

    /// Whether the caller wants the progress reported.
    pub fn verbose(&self) -> (verbose: bool)
        ensures
            verbose == self.spec_verbose(),
    {
        self.verbose
    }

    /// Solves the grid as far as line solving goes and returns the deductions.
    ///
    /// The grid and the faults are those of [`crate::solver::NonogramSolver::solve`]. The
    /// deductions of a sweep come row by row, then, for the columns, in the order of their
    /// cells.
    ///
    /// A grid that comes back without undecided cells and without a fault is a solution.
    /// Every deduction returned speaks of a cell that was undecided at first, and of each
    /// cell once; every cell that was decided is among them.
    pub fn solve(&self, grid: &mut Grid, constraints: &Constraints) -> (res: Result<
        Vec<Deduction>,
        SolveError,
    >)
        requires
            old(grid).wf(),
        ensures
            final(grid).wf(),
            final(grid).spec_width() == old(grid).spec_width(),
            final(grid).spec_height() == old(grid).spec_height(),
            ({
                let out = parallel_passes(
                    old(grid)@,
                    *constraints,
                    old(grid).spec_width() as int,
                    old(grid).spec_height() as int,
                    MAX_ITERATIONS as int,
                    0,
                );
                let turn = after_passes(
                    old(grid)@,
                    *constraints,
                    old(grid).spec_width() as int,
                    old(grid).spec_height() as int,
                    MAX_ITERATIONS as int,
                    0,
                );
                &&& final(grid)@ == out.grid
                &&& final(grid)@ == turn.grid
                &&& match res {
                    Ok(log) => out.error is None && turn.error is None && log@ == out.log,
                    Err(e) => out.error == Some(e) && turn.error == Some(e),
                }
            }),
            match res {
                Ok(log) => crate::solver::outcome_laws::tells(
                    old(grid)@,
                    final(grid)@,
                    log@,
                    old(grid).spec_width() as int,
                    old(grid).spec_height() as int,
                ),
                Err(_) => true,
            },
            res is Ok && crate::grid::count_in_rows(final(grid)@, CellState::Empty) == 0
                ==> crate::solver::propagation::is_solution(
                final(grid)@,
                *constraints,
                old(grid).spec_width() as int,
                old(grid).spec_height() as int,
            ),
    {
        proof {
            crate::solver::outcome_laws::lemma_parallel_passes_log(
                grid@,
                *constraints,
                grid.spec_width() as int,
                grid.spec_height() as int,
                MAX_ITERATIONS as int,
                0,
            );
            lemma_parallel_passes(
                grid@,
                *constraints,
                grid.spec_width() as int,
                grid.spec_height() as int,
                MAX_ITERATIONS as int,
                0,
            );
            let turn = after_passes(
                grid@,
                *constraints,
                grid.spec_width() as int,
                grid.spec_height() as int,
                MAX_ITERATIONS as int,
                0,
            );
            if turn.error is None && crate::grid::count_in_rows(turn.grid, CellState::Empty) == 0 {
                crate::solver::solution_laws::lemma_passes_solved(
                    grid@,
                    *constraints,
                    grid.spec_width() as int,
                    grid.spec_height() as int,
                    MAX_ITERATIONS as int,
                    0,
                );
            }
        }
        self.run_sweeps(grid, constraints)
    }

    /// The sweeps of [`ParallelSolver::solve`].
    fn run_sweeps(&self, grid: &mut Grid, constraints: &Constraints) -> (res: Result<
        Vec<Deduction>,
        SolveError,
    >)
        requires
            old(grid).wf(),
        ensures
            final(grid).wf(),
            final(grid).spec_width() == old(grid).spec_width(),
            final(grid).spec_height() == old(grid).spec_height(),
            ({
                let out = parallel_passes(
                    old(grid)@,
                    *constraints,
                    old(grid).spec_width() as int,
                    old(grid).spec_height() as int,
                    MAX_ITERATIONS as int,
                    0,
                );
                let turn = after_passes(
                    old(grid)@,
                    *constraints,
                    old(grid).spec_width() as int,
                    old(grid).spec_height() as int,
                    MAX_ITERATIONS as int,
                    0,
                );
                &&& final(grid)@ == out.grid
                &&& final(grid)@ == turn.grid
                &&& match res {
                    Ok(log) => out.error is None && turn.error is None && log@ == out.log,
                    Err(e) => out.error == Some(e) && turn.error == Some(e),
                }
            }),
    {
        let ghost k = *constraints;
        let ghost w = grid.spec_width() as int;
        let ghost h = grid.spec_height() as int;
        let ghost limit = MAX_ITERATIONS as int;
        let ghost out = parallel_passes(grid@, k, w, h, limit, 0);
        proof {
            lemma_parallel_passes(grid@, k, w, h, limit, 0);
        }
        let mut all_deductions: Vec<Deduction> = Vec::new();
        let mut changed = true;
        let mut iteration: usize = 0;
        assert(all_deductions@ + out.log =~= out.log);
        while changed && iteration < MAX_ITERATIONS
            invariant
                grid.wf(),
                w == grid.spec_width() == old(grid).spec_width(),
                h == grid.spec_height() == old(grid).spec_height(),
                k == *constraints,
                limit == MAX_ITERATIONS,
                iteration <= MAX_ITERATIONS,
                out == parallel_passes(old(grid)@, k, w, h, limit, 0),
                out.grid == after_passes(old(grid)@, k, w, h, limit, 0).grid,
                out.error == after_passes(old(grid)@, k, w, h, limit, 0).error,
                changed ==> out == preceded(
                    all_deductions@,
                    parallel_passes(grid@, k, w, h, limit, iteration as int),
                ),
                !changed ==> out == (Progress {
                    grid: grid@,
                    log: all_deductions@,
                    error: if iteration >= MAX_ITERATIONS {
                        Some(SolveError::IterationLimit)
                    } else {
                        None
                    },
                }),
            decreases MAX_ITERATIONS - iteration,
        {
            let ghost swept = parallel_sweep(grid@, k, w, h);
            let ghost logged = all_deductions@;
            let before = all_deductions.len();
            match self.solve_rows_parallel(grid, constraints, &mut all_deductions) {
                Ok(()) => {},
                Err(e) => {
                    return Err(e);
                },
            }
            let ghost rows_log = all_deductions@;
            match self.solve_columns_parallel(grid, constraints, &mut all_deductions) {
                Ok(()) => {},
                Err(e) => {
                    return Err(e);
                },
            }
            changed = all_deductions.len() > before;
            proof {
                let rows = after_rows(fresh(old(grid)@), k, h);
                assert(all_deductions@ =~= logged + swept.log);
                if changed {
                    let rest = parallel_passes(swept.grid, k, w, h, limit, iteration + 1);
                    assert(logged + (swept.log + rest.log) =~= (logged + swept.log) + rest.log);
                } else {
                    assert(swept.log =~= Seq::<Deduction>::empty());
                    assert(logged + swept.log =~= logged);
                }
            }
            iteration += 1;
        }
        if iteration >= MAX_ITERATIONS {
            proof {
                if changed {
                    assert(all_deductions@ + Seq::<Deduction>::empty() =~= all_deductions@);
                }
            }
            return Err(SolveError::IterationLimit);
        }
        Ok(all_deductions)
    }

    /// Solves every row at the same time on the grid as it stands, then writes the
    /// deductions into `grid`, row by row, and adds them to `log`. The first row with a
    /// fault stops the writing.
    pub fn solve_rows_parallel(&self, grid: &mut Grid, constraints: &Constraints, log: &mut Vec<Deduction>) -> (res:
        Result<(), SolveError>)
        requires
            old(grid).wf(),
        ensures
            final(grid).wf(),
            final(grid).spec_width() == old(grid).spec_width(),
            final(grid).spec_height() == old(grid).spec_height(),
            ({
                let rows = after_rows(fresh(old(grid)@), *constraints, old(grid).spec_height() as int);
                &&& final(grid)@ == rows.grid
                &&& match res {
                    Ok(()) => rows.error is None && final(log)@ == old(log)@ + rows.log,
                    Err(e) => rows.error == Some(e),
                }
            }),
    {
        let ghost k = *constraints;
        let ghost start = grid@;
        let ghost logged = log@;
        let height = grid.height();
        let present = if height <= constraints.rows.len() {
            height
        } else {
            constraints.rows.len()
        };
        let mut lines: Vec<Vec<CellState>> = Vec::new();
        let mut r: usize = 0;
        while r < present
            invariant
                grid.wf(),
                grid@ == start,
                present <= grid.spec_height(),
                r <= present,
                lines@.len() == r,
                forall|i: int| 0 <= i < r ==> (#[trigger] lines@[i])@ == start[i],
            decreases present - r,
        {
            match grid.get_row(r) {
                Some(line) => {
                    lines.push(line);
                },
                None => {},
            }
            r += 1;
        }
        let results = solve_lines_in_parallel(&lines, &constraints.rows);
        assert(log@ =~= logged + fresh(start).log);
        let mut row: usize = 0;
        while row < present
            invariant
                grid.wf(),
                k == *constraints,
                height == grid.spec_height() == old(grid).spec_height(),
                grid.spec_width() == old(grid).spec_width(),
                start == old(grid)@,
                start.len() == height,
                logged == old(log)@,
                present <= height,
                present <= constraints.rows@.len(),
                row <= present,
                results@.len() == present,
                lines@.len() == present,
                forall|i: int| 0 <= i < present ==> (#[trigger] lines@[i])@ == start[i],
                forall|i: int|
                    0 <= i < present ==> is_line_result(
                        lines@[i]@,
                        constraints.rows@[i]@,
                        #[trigger] results@[i],
                    ),
                forall|i: int| row <= i < height ==> (#[trigger] grid@[i]) == start[i],
                after_rows(fresh(start), k, row as int).error is None,
                grid@ == after_rows(fresh(start), k, row as int).grid,
                log@ == logged + after_rows(fresh(start), k, row as int).log,
            decreases present - row,
        {
            let ghost p = after_rows(fresh(start), k, row as int);
            let ghost line = start[row as int];
            proof {
                lemma_after_row_preceded(p, k, row as int);
                let step = after_row(fresh(p.grid), k, row as int);
                assert((logged + p.log) + step.log =~= logged + (p.log + step.log));
                assert(is_line_result(lines@[row as int]@, constraints.rows@[row as int]@, results@[row as int]));
                assert(grid@[row as int] == line);
                lemma_line_deductions(line, k.row(row as int));
            }
            match &results[row] {
                Ok(found) => {
                    record_row(grid, row, found, log);
                },
                Err(e) => {
                    proof {
                        lemma_after_rows_stopped(fresh(start), k, row + 1, height as int);
                    }
                    return Err(*e);
                },
            }
            row += 1;
        }
        if present < height {
            proof {
                lemma_after_rows_stopped(fresh(start), k, present + 1, height as int);
            }
            return Err(SolveError::MissingRowConstraint { row: present });
        }
        Ok(())
    }

    /// Solves every column at the same time on the grid as it stands, then writes the
    /// deductions into `grid`, column by column, and adds them to `log` in the order of
    /// their cells. The first column with a fault stops the writing.
    pub fn solve_columns_parallel(
        &self,
        grid: &mut Grid,
        constraints: &Constraints,
        log: &mut Vec<Deduction>,
    ) -> (res: Result<(), SolveError>)
        requires
            old(grid).wf(),
        ensures
            final(grid).wf(),
            final(grid).spec_width() == old(grid).spec_width(),
            final(grid).spec_height() == old(grid).spec_height(),
            ({
                let columns = after_columns(
                    fresh(old(grid)@),
                    *constraints,
                    old(grid).spec_width() as int,
                );
                &&& final(grid)@ == columns.grid
                &&& match res {
                    Ok(()) => columns.error is None && final(log)@ == old(log)@ + sort_first(
                        columns.log,
                    ),
                    Err(e) => columns.error == Some(e),
                }
            }),
    {
        let ghost k = *constraints;
        let ghost start = grid@;
        let width = grid.width();
        let present = if width <= constraints.columns.len() {
            width
        } else {
            constraints.columns.len()
        };
        let mut lines: Vec<Vec<CellState>> = Vec::new();
        let mut c: usize = 0;
        while c < present
            invariant
                grid.wf(),
                grid@ == start,
                present <= grid.spec_width(),
                c <= present,
                lines@.len() == c,
                forall|i: int| 0 <= i < c ==> (#[trigger] lines@[i])@ == column_of(start, i),
            decreases present - c,
        {
            match grid.get_column(c) {
                Some(line) => {
                    lines.push(line);
                },
                None => {},
            }
            c += 1;
        }
        let results = solve_lines_in_parallel(&lines, &constraints.columns);
        let mut found_log: Vec<Deduction> = Vec::new();
        assert(found_log@ =~= fresh(start).log);
        let mut col: usize = 0;
        while col < present
            invariant
                grid.wf(),
                k == *constraints,
                width == grid.spec_width() == old(grid).spec_width(),
                grid.spec_height() == old(grid).spec_height(),
                start == old(grid)@,
                crate::grid::rectangular(start, width as int, grid.spec_height() as int),
                present <= width,
                present <= constraints.columns@.len(),
                col <= present,
                results@.len() == present,
                lines@.len() == present,
                forall|i: int| 0 <= i < present ==> (#[trigger] lines@[i])@ == column_of(start, i),
                forall|i: int|
                    0 <= i < present ==> is_line_result(
                        lines@[i]@,
                        constraints.columns@[i]@,
                        #[trigger] results@[i],
                    ),
                forall|i: int|
                    col <= i < width ==> #[trigger] column_of(grid@, i) == column_of(start, i),
                after_columns(fresh(start), k, col as int).error is None,
                grid@ == after_columns(fresh(start), k, col as int).grid,
                found_log@ == after_columns(fresh(start), k, col as int).log,
            decreases present - col,
        {
            let ghost p = after_columns(fresh(start), k, col as int);
            let ghost line = column_of(start, col as int);
            let ghost before = grid@;
            proof {
                lemma_after_column_preceded(p, k, col as int);
                let step = after_column(fresh(p.grid), k, col as int);
                assert(is_line_result(
                    lines@[col as int]@,
                    constraints.columns@[col as int]@,
                    results@[col as int],
                ));
                assert(column_of(grid@, col as int) == line);
                lemma_line_deductions(line, k.column(col as int));
            }
            match &results[col] {
                Ok(found) => {
                    record_column(grid, col, found, &mut found_log);
                    proof {
                        assert forall|i: int| col + 1 <= i < width implies #[trigger] column_of(
                            grid@,
                            i,
                        ) == column_of(start, i) by {
                            assert(column_of(before, i) == column_of(start, i));
                            assert(column_of(grid@, i) =~= column_of(before, i));
                        }
                    }
                },
                Err(e) => {
                    proof {
                        lemma_after_columns_stopped(fresh(start), k, col + 1, width as int);
                    }
                    return Err(*e);
                },
            }
            col += 1;
        }
        if present < width {
            proof {
                lemma_after_columns_stopped(fresh(start), k, present + 1, width as int);
            }
            return Err(SolveError::MissingColumnConstraint { col: present });
        }
        let sorted = sort_by_cell(&found_log);
        append_deductions(log, &sorted);
        Ok(())
    }
}

} // verus!
