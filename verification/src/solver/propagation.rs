//! What line solving does to a whole grid: one line, one sweep over all lines, and sweeps
//! repeated until nothing changes.

use vstd::prelude::*;

use crate::grid::{column_of, rectangular, with_column, CellState, Constraints};
use crate::solver::completion::{
    agrees, deduced_at, deductions_upto, is_completion, line_after, line_deductions, render,
    solvable, valid_placement,
};
use crate::solver::{Deduction, SolveError};

verus! {

/// Most sweeps that line solving makes over a grid.
pub const MAX_ITERATIONS: usize = 1000;

/// `full` decides every cell of a grid of `width` by `height` cells, and each of its lines
/// satisfies its run lengths.
pub open spec fn is_solution(full: Seq<Seq<CellState>>, k: Constraints, width: int, height: int) -> bool {
    &&& rectangular(full, width, height)
    &&& k.rows@.len() >= height
    &&& k.columns@.len() >= width
    &&& forall|r: int| 0 <= r < height ==> is_completion(#[trigger] full[r], k.row(r), full[r])
    &&& forall|c: int|
        0 <= c < width ==> is_completion(
            #[trigger] column_of(full, c),
            k.column(c),
            column_of(full, c),
        )
}

/// `later` keeps every cell that `earlier` has decided.
pub open spec fn extends(later: Seq<Seq<CellState>>, earlier: Seq<Seq<CellState>>) -> bool {
    &&& later.len() == earlier.len()
    &&& forall|r: int|
        0 <= r < earlier.len() ==> (#[trigger] later[r]).len() == earlier[r].len()
    &&& forall|r: int, c: int|
        0 <= r < earlier.len() && 0 <= c < earlier[r].len() && earlier[r][c] != CellState::Empty
            ==> #[trigger] later[r][c] == earlier[r][c]
}

/// `full` is a solution of the puzzle that keeps what `grid` has decided.
pub open spec fn completes(
    full: Seq<Seq<CellState>>,
    grid: Seq<Seq<CellState>>,
    k: Constraints,
    width: int,
    height: int,
) -> bool {
    is_solution(full, k, width, height) && extends(full, grid)
}

/// Where a solver stands: the grid, the deductions made, and the fault that stopped it.
pub struct Progress {
    pub grid: Seq<Seq<CellState>>,
    pub log: Seq<Deduction>,
    pub error: Option<SolveError>,
}

/// The deductions `found` on row `row`, as deductions on the grid.
pub open spec fn row_log(row: int, found: Seq<(usize, CellState)>) -> Seq<Deduction> {
    Seq::new(found.len(), |i: int| Deduction { row: row as usize, col: found[i].0, state: found[i].1 })
}

/// The deductions `found` on column `col`, as deductions on the grid.
pub open spec fn column_log(col: int, found: Seq<(usize, CellState)>) -> Seq<Deduction> {
    Seq::new(found.len(), |i: int| Deduction { row: found[i].0, col: col as usize, state: found[i].1 })
}

/// Progress after row `row` has been solved.
pub open spec fn after_row(p: Progress, k: Constraints, row: int) -> Progress {
    if p.error is Some {
        p
    } else if row >= k.rows@.len() {
        Progress {
            grid: p.grid,
            log: p.log,
            error: Some(SolveError::MissingRowConstraint { row: row as usize }),
        }
    } else if !solvable(p.grid[row], k.row(row)) {
        Progress { grid: p.grid, log: p.log, error: Some(SolveError::InfeasibleLine) }
    } else {
        Progress {
            grid: p.grid.update(row, line_after(p.grid[row], k.row(row))),
            log: p.log + row_log(row, line_deductions(p.grid[row], k.row(row))),
            error: None,
        }
    }
}

/// Progress after the first `n` rows have been solved, top to bottom.
pub open spec fn after_rows(p: Progress, k: Constraints, n: int) -> Progress
    decreases n,
{
    if n <= 0 {
        p
    } else {
        after_row(after_rows(p, k, n - 1), k, n - 1)
    }
}

/// Progress after column `col` has been solved.
pub open spec fn after_column(p: Progress, k: Constraints, col: int) -> Progress {
    if p.error is Some {
        p
    } else if col >= k.columns@.len() {
        Progress {
            grid: p.grid,
            log: p.log,
            error: Some(SolveError::MissingColumnConstraint { col: col as usize }),
        }
    } else if !solvable(column_of(p.grid, col), k.column(col)) {
        Progress { grid: p.grid, log: p.log, error: Some(SolveError::InfeasibleLine) }
    } else {
        Progress {
            grid: with_column(p.grid, col, line_after(column_of(p.grid, col), k.column(col))),
            log: p.log + column_log(col, line_deductions(column_of(p.grid, col), k.column(col))),
            error: None,
        }
    }
}

/// Progress after the first `n` columns have been solved, left to right.
pub open spec fn after_columns(p: Progress, k: Constraints, n: int) -> Progress
    decreases n,
{
    if n <= 0 {
        p
    } else {
        after_column(after_columns(p, k, n - 1), k, n - 1)
    }
}

/// A solver that has made no deduction yet on `grid`.
pub open spec fn fresh(grid: Seq<Seq<CellState>>) -> Progress {
    Progress { grid, log: Seq::empty(), error: None }
}

/// One sweep over `grid`: every row, then every column.
pub open spec fn after_sweep(grid: Seq<Seq<CellState>>, k: Constraints, width: int, height: int) -> Progress {
    after_columns(after_rows(fresh(grid), k, height), k, width)
}

/// `p`, with `log` put before its deductions.
pub open spec fn preceded(log: Seq<Deduction>, p: Progress) -> Progress {
    Progress { grid: p.grid, log: log + p.log, error: p.error }
}

/// Sweeps over `grid` until a sweep finds nothing, `done` sweeps having been made before.
///
/// A fault in a line stops at once. The sweep that finds nothing must be made before
/// `limit` sweeps are over; where it is not, the limit is the fault.
pub open spec fn after_passes(
    grid: Seq<Seq<CellState>>,
    k: Constraints,
    width: int,
    height: int,
    limit: int,
    done: int,
) -> Progress
    decreases limit - done,
{
    if done >= limit {
        Progress { grid, log: Seq::empty(), error: Some(SolveError::IterationLimit) }
    } else {
        let swept = after_sweep(grid, k, width, height);
        if swept.error is Some {
            swept
        } else if swept.log.len() == 0 {
            if done + 1 >= limit {
                Progress { grid: swept.grid, log: swept.log, error: Some(SolveError::IterationLimit) }
            } else {
                swept
            }
        } else {
            preceded(swept.log, after_passes(swept.grid, k, width, height, limit, done + 1))
        }
    }
}

/// The first `n` deductions of `found`, written into `line`.
pub open spec fn apply_found(line: Seq<CellState>, found: Seq<(usize, CellState)>, n: int) -> Seq<
    CellState,
>
    decreases n,
{
    if n <= 0 {
        line
    } else {
        apply_found(line, found, n - 1).update(found[n - 1].0 as int, found[n - 1].1)
    }
}

/// `line` with its deductions on the first `n` cells written in.
pub open spec fn line_after_upto(line: Seq<CellState>, blocks: Seq<usize>, n: int) -> Seq<CellState> {
    Seq::new(
        line.len(),
        |i: int|
            if i < n {
                line_after(line, blocks)[i]
            } else {
                line[i]
            },
    )
}

/// What the list of deductions of a line holds: the deduced cells, each once, by position.
pub proof fn lemma_deductions_upto(line: Seq<CellState>, blocks: Seq<usize>, n: int)
    requires
        0 <= n <= line.len() <= usize::MAX,
    ensures
        ({
            let found = deductions_upto(line, blocks, n);
            &&& found.len() <= n
            &&& forall|i: int|
                0 <= i < found.len() ==> {
                    &&& (#[trigger] found[i]).0 < n
                    &&& line[found[i].0 as int] == CellState::Empty
                    &&& found[i].1 != CellState::Empty
                    &&& deduced_at(line, blocks, found[i].0 as int) == Some(found[i].1)
                }
            &&& forall|i: int, j: int|
                0 <= i < j < found.len() ==> (#[trigger] found[i]).0 < (#[trigger] found[j]).0
            &&& forall|pos: int|
                0 <= pos < n && deduced_at(line, blocks, pos) is Some ==> found.contains(
                    (pos as usize, #[trigger] deduced_at(line, blocks, pos)->0),
                )
            &&& apply_found(line, found, found.len() as int) == line_after_upto(line, blocks, n)
            &&& found.len() == 0 ==> line_after_upto(line, blocks, n) == line
        }),
    decreases n,
{
    let found = deductions_upto(line, blocks, n);
    if n == 0 {
        assert(line_after_upto(line, blocks, n) =~= line);
    } else {
        lemma_deductions_upto(line, blocks, n - 1);
        let before = deductions_upto(line, blocks, n - 1);
        match deduced_at(line, blocks, n - 1) {
            Some(state) => {
                let entry = ((n - 1) as usize, state);
                assert(found == before.push(entry));
                assert(found[found.len() - 1] == entry);
                assert forall|pos: int|
                    0 <= pos < n && deduced_at(line, blocks, pos) is Some implies found.contains(
                    (pos as usize, #[trigger] deduced_at(line, blocks, pos)->0),
                ) by {
                    if pos < n - 1 {
                        let e = (pos as usize, deduced_at(line, blocks, pos)->0);
                        let i = choose|i: int| 0 <= i < before.len() && before[i] == e;
                        assert(found[i] == e);
                    } else {
                        assert(found[found.len() - 1] == entry);
                    }
                }
                lemma_apply_found_prefix(line, before, found, before.len() as int);
                assert(apply_found(line, found, found.len() as int) =~= line_after_upto(
                    line,
                    blocks,
                    n,
                ));
            },
            None => {
                assert(line_after_upto(line, blocks, n) =~= line_after_upto(line, blocks, n - 1));
            },
        }
    }
}

/// Writing the first deductions of a list does not depend on the rest of the list.
pub proof fn lemma_apply_found_prefix(
    line: Seq<CellState>,
    shorter: Seq<(usize, CellState)>,
    longer: Seq<(usize, CellState)>,
    n: int,
)
    requires
        0 <= n <= shorter.len() <= longer.len(),
        forall|i: int| 0 <= i < shorter.len() ==> shorter[i] == longer[i],
    ensures
        apply_found(line, shorter, n) == apply_found(line, longer, n),
    decreases n,
{
    if n > 0 {
        lemma_apply_found_prefix(line, shorter, longer, n - 1);
    }
}

/// What the deductions of a line are: the deduced cells, each once, by position; written
/// into the line they give the line after solving.
pub proof fn lemma_line_deductions(line: Seq<CellState>, blocks: Seq<usize>)
    requires
        line.len() <= usize::MAX,
    ensures
        ({
            let found = line_deductions(line, blocks);
            &&& found.len() <= line.len()
            &&& forall|i: int|
                0 <= i < found.len() ==> {
                    &&& (#[trigger] found[i]).0 < line.len()
                    &&& line[found[i].0 as int] == CellState::Empty
                    &&& found[i].1 != CellState::Empty
                    &&& deduced_at(line, blocks, found[i].0 as int) == Some(found[i].1)
                }
            &&& forall|i: int, j: int|
                0 <= i < j < found.len() ==> (#[trigger] found[i]).0 < (#[trigger] found[j]).0
            &&& forall|pos: int|
                0 <= pos < line.len() && deduced_at(line, blocks, pos) is Some ==> found.contains(
                    (pos as usize, #[trigger] deduced_at(line, blocks, pos)->0),
                )
            &&& apply_found(line, found, found.len() as int) == line_after(line, blocks)
            &&& found.len() == 0 ==> line_after(line, blocks) == line
        }),
{
    lemma_deductions_upto(line, blocks, line.len() as int);
    assert(line_after_upto(line, blocks, line.len() as int) =~= line_after(line, blocks));
}

/// A line without runs has one arrangement: every cell crossed.
pub proof fn lemma_no_runs_all_crossed(len: int, blocks: Seq<usize>, starts: Seq<int>, i: int)
    requires
        blocks.len() == 0,
        0 <= i < len,
    ensures
        render(len, blocks, starts)[i] == CellState::Crossed,
{
}

/// Solving a line loses no completion: every completion of the line is a completion of the
/// line after solving, which keeps what the line had decided.
pub proof fn lemma_line_after_sound(line: Seq<CellState>, blocks: Seq<usize>, config: Seq<CellState>)
    requires
        is_completion(line, blocks, config),
    ensures
        is_completion(line_after(line, blocks), blocks, config),
        agrees(line, line_after(line, blocks)),
{
    let after = line_after(line, blocks);
    let len = line.len() as int;
    let s = choose|s: Seq<int>|
        #![trigger render(len, blocks, s)]
        valid_placement(len, blocks, s) && config == render(len, blocks, s) && agrees(line, config);
    assert forall|i: int| 0 <= i < after.len() && after[i] != CellState::Empty implies
        #[trigger] config[i] == after[i] by {
        if line[i] == CellState::Empty {
            if blocks.len() == 0 {
                lemma_no_runs_all_crossed(len, blocks, s, i);
            }
        }
    }
    assert(after.len() == line.len());
    assert(agrees(after, config));
    assert(render(after.len() as int, blocks, s) == config);
}

/// The line after solving keeps what the line had decided.
pub proof fn lemma_line_after_keeps(line: Seq<CellState>, blocks: Seq<usize>)
    ensures
        line_after(line, blocks).len() == line.len(),
        forall|i: int|
            0 <= i < line.len() && line[i] != CellState::Empty ==> #[trigger] line_after(
                line,
                blocks,
            )[i] == line[i],
{
}

/// `after` follows from `before` by sound deductions on a grid of `width` by `height`
/// cells.
///
/// The grid keeps its shape and every decided cell; every solution that completed the grid
/// before still completes it; the log has grown by deductions on cells that were undecided
/// before, each holding the logged state after; and where the log has not grown, the grid
/// is as it was. That every cell that was decided is logged is stated apart, by
/// [`crate::solver::log_laws::names_changes`], and proved of every solver there.
pub open spec fn advances(before: Progress, after: Progress, k: Constraints, width: int, height: int) -> bool {
    &&& rectangular(after.grid, width, height)
    &&& extends(after.grid, before.grid)
    &&& forall|full: Seq<Seq<CellState>>| #[trigger]
        completes(full, before.grid, k, width, height) ==> completes(
            full,
            after.grid,
            k,
            width,
            height,
        )
    &&& before.log.len() <= after.log.len()
    &&& after.log.take(before.log.len() as int) == before.log
    &&& forall|i: int|
        before.log.len() <= i < after.log.len() ==> {
            &&& (#[trigger] after.log[i]).row < height
            &&& after.log[i].col < width
            &&& before.grid[after.log[i].row as int][after.log[i].col as int] == CellState::Empty
            &&& after.log[i].state != CellState::Empty
            &&& after.grid[after.log[i].row as int][after.log[i].col as int] == after.log[i].state
        }
    &&& after.log.len() == before.log.len() ==> after.grid == before.grid
    &&& before.error is Some ==> after == before
}

/// Nothing done is an advance.
pub proof fn lemma_advances_refl(p: Progress, k: Constraints, width: int, height: int)
    requires
        rectangular(p.grid, width, height),
    ensures
        advances(p, p, k, width, height),
{
    assert(p.log.take(p.log.len() as int) =~= p.log);
}

/// Two advances in a row are an advance.
pub proof fn lemma_advances_trans(
    a: Progress,
    b: Progress,
    c: Progress,
    k: Constraints,
    width: int,
    height: int,
)
    requires
        rectangular(a.grid, width, height),
        advances(a, b, k, width, height),
        advances(b, c, k, width, height),
    ensures
        advances(a, c, k, width, height),
{
    assert(c.log.take(a.log.len() as int) =~= a.log) by {
        assert forall|i: int| 0 <= i < a.log.len() implies c.log[i] == a.log[i] by {
            assert(c.log.take(b.log.len() as int)[i] == b.log[i]);
            assert(b.log.take(a.log.len() as int)[i] == a.log[i]);
        }
    }
    assert forall|i: int| a.log.len() <= i < c.log.len() implies {
        &&& (#[trigger] c.log[i]).row < height
        &&& c.log[i].col < width
        &&& a.grid[c.log[i].row as int][c.log[i].col as int] == CellState::Empty
        &&& c.log[i].state != CellState::Empty
        &&& c.grid[c.log[i].row as int][c.log[i].col as int] == c.log[i].state
    } by {
        if i < b.log.len() {
            assert(c.log.take(b.log.len() as int)[i] == b.log[i]);
            let d = b.log[i];
            assert(c.grid[d.row as int][d.col as int] == b.grid[d.row as int][d.col as int]);
        } else {
            let d = c.log[i];
            if a.grid[d.row as int][d.col as int] != CellState::Empty {
                assert(b.grid[d.row as int][d.col as int] == a.grid[d.row as int][d.col as int]);
            }
        }
    }
    assert forall|r: int, col: int|
        0 <= r < a.grid.len() && 0 <= col < a.grid[r].len() && a.grid[r][col]
            != CellState::Empty implies #[trigger] c.grid[r][col] == a.grid[r][col] by {
        assert(b.grid[r][col] == a.grid[r][col]);
    }
    if c.log.len() == a.log.len() {
        assert(b.log.len() == a.log.len());
    }
}

/// Solving one row is an advance.
pub proof fn lemma_after_row_advances(p: Progress, k: Constraints, width: int, height: int, row: int)
    requires
        rectangular(p.grid, width, height),
        0 <= row < height,
        width <= usize::MAX,
        height <= usize::MAX,
    ensures
        advances(p, after_row(p, k, row), k, width, height),
{
    let q = after_row(p, k, row);
    if p.error is Some || row >= k.rows@.len() || !solvable(p.grid[row], k.row(row)) {
        assert(p.log.take(p.log.len() as int) =~= p.log);
    } else {
        let line = p.grid[row];
        let blocks = k.row(row);
        let found = line_deductions(line, blocks);
        lemma_line_deductions(line, blocks);
        lemma_line_after_keeps(line, blocks);
        assert(q.log.take(p.log.len() as int) =~= p.log);
        assert forall|full: Seq<Seq<CellState>>| #[trigger]
            completes(full, p.grid, k, width, height) implies completes(
            full,
            q.grid,
            k,
            width,
            height,
        ) by {
            assert(is_completion(full[row], blocks, full[row]));
            let len = full[row].len() as int;
            let s = choose|s: Seq<int>|
                #![trigger render(len, blocks, s)]
                valid_placement(len, blocks, s) && full[row] == render(len, blocks, s) && agrees(
                    full[row],
                    full[row],
                );
            assert(agrees(line, full[row])) by {
                assert forall|i: int|
                    0 <= i < line.len() && line[i] != CellState::Empty implies #[trigger] full[row][i]
                    == line[i] by {
                    assert(full[row][i] == p.grid[row][i]);
                }
            }
            assert(render(line.len() as int, blocks, s) == full[row]);
            assert(is_completion(line, blocks, full[row]));
            lemma_line_after_sound(line, blocks, full[row]);
            assert forall|r: int, c: int|
                0 <= r < q.grid.len() && 0 <= c < q.grid[r].len() && q.grid[r][c]
                    != CellState::Empty implies #[trigger] full[r][c] == q.grid[r][c] by {
                if r != row {
                    assert(full[r][c] == p.grid[r][c]);
                }
            }
        }
        assert forall|i: int| p.log.len() <= i < q.log.len() implies {
            &&& (#[trigger] q.log[i]).row < height
            &&& q.log[i].col < width
            &&& p.grid[q.log[i].row as int][q.log[i].col as int] == CellState::Empty
            &&& q.log[i].state != CellState::Empty
            &&& q.grid[q.log[i].row as int][q.log[i].col as int] == q.log[i].state
        } by {
            let e = found[i - p.log.len()];
            assert(q.log[i] == row_log(row, found)[i - p.log.len()]);
            assert(deduced_at(line, blocks, e.0 as int) == Some(e.1));
        }
        if q.log.len() == p.log.len() {
            assert(found.len() == 0);
            assert(q.grid =~= p.grid);
        }
    }
}

/// Solving one column is an advance.
pub proof fn lemma_after_column_advances(
    p: Progress,
    k: Constraints,
    width: int,
    height: int,
    col: int,
)
    requires
        rectangular(p.grid, width, height),
        0 <= col < width,
        width <= usize::MAX,
        height <= usize::MAX,
    ensures
        advances(p, after_column(p, k, col), k, width, height),
{
    let q = after_column(p, k, col);
    if p.error is Some || col >= k.columns@.len() || !solvable(column_of(p.grid, col), k.column(col)) {
        assert(p.log.take(p.log.len() as int) =~= p.log);
    } else {
        let line = column_of(p.grid, col);
        let blocks = k.column(col);
        let found = line_deductions(line, blocks);
        let after = line_after(line, blocks);
        lemma_line_deductions(line, blocks);
        lemma_line_after_keeps(line, blocks);
        assert(q.log.take(p.log.len() as int) =~= p.log);
        assert forall|full: Seq<Seq<CellState>>| #[trigger]
            completes(full, p.grid, k, width, height) implies completes(
            full,
            q.grid,
            k,
            width,
            height,
        ) by {
            let fc = column_of(full, col);
            assert(is_completion(fc, blocks, fc));
            let len = fc.len() as int;
            let s = choose|s: Seq<int>|
                #![trigger render(len, blocks, s)]
                valid_placement(len, blocks, s) && fc == render(len, blocks, s) && agrees(fc, fc);
            assert(agrees(line, fc)) by {
                assert forall|i: int|
                    0 <= i < line.len() && line[i] != CellState::Empty implies #[trigger] fc[i]
                    == line[i] by {
                    assert(full[i][col] == p.grid[i][col]);
                }
            }
            assert(render(line.len() as int, blocks, s) == fc);
            assert(is_completion(line, blocks, fc));
            lemma_line_after_sound(line, blocks, fc);
            assert forall|r: int, c: int|
                0 <= r < q.grid.len() && 0 <= c < q.grid[r].len() && q.grid[r][c]
                    != CellState::Empty implies #[trigger] full[r][c] == q.grid[r][c] by {
                if c != col {
                    assert(full[r][c] == p.grid[r][c]);
                } else {
                    assert(fc[r] == after[r]);
                }
            }
        }
        assert forall|i: int| p.log.len() <= i < q.log.len() implies {
            &&& (#[trigger] q.log[i]).row < height
            &&& q.log[i].col < width
            &&& p.grid[q.log[i].row as int][q.log[i].col as int] == CellState::Empty
            &&& q.log[i].state != CellState::Empty
            &&& q.grid[q.log[i].row as int][q.log[i].col as int] == q.log[i].state
        } by {
            let e = found[i - p.log.len()];
            assert(q.log[i] == column_log(col, found)[i - p.log.len()]);
            assert(deduced_at(line, blocks, e.0 as int) == Some(e.1));
        }
        assert forall|r: int, c: int|
            0 <= r < p.grid.len() && 0 <= c < p.grid[r].len() && p.grid[r][c]
                != CellState::Empty implies #[trigger] q.grid[r][c] == p.grid[r][c] by {
            if c == col {
                assert(line[r] == p.grid[r][c]);
            }
        }
        if q.log.len() == p.log.len() {
            assert(found.len() == 0);
            assert(after == line);
            assert(q.grid =~= p.grid) by {
                assert forall|r: int| 0 <= r < p.grid.len() implies q.grid[r] =~= p.grid[r] by {
                    assert(line[r] == p.grid[r][col]);
                }
            }
        }
    }
}

/// Solving the first `n` rows is an advance.
pub proof fn lemma_after_rows_advances(p: Progress, k: Constraints, width: int, height: int, n: int)
    requires
        rectangular(p.grid, width, height),
        0 <= n <= height,
        width <= usize::MAX,
        height <= usize::MAX,
    ensures
        advances(p, after_rows(p, k, n), k, width, height),
    decreases n,
{
    if n == 0 {
        lemma_advances_refl(p, k, width, height);
    } else {
        lemma_after_rows_advances(p, k, width, height, n - 1);
        let mid = after_rows(p, k, n - 1);
        lemma_after_row_advances(mid, k, width, height, n - 1);
        lemma_advances_trans(p, mid, after_row(mid, k, n - 1), k, width, height);
    }
}

/// Solving the first `n` columns is an advance.
pub proof fn lemma_after_columns_advances(
    p: Progress,
    k: Constraints,
    width: int,
    height: int,
    n: int,
)
    requires
        rectangular(p.grid, width, height),
        0 <= n <= width,
        width <= usize::MAX,
        height <= usize::MAX,
    ensures
        advances(p, after_columns(p, k, n), k, width, height),
    decreases n,
{
    if n == 0 {
        lemma_advances_refl(p, k, width, height);
    } else {
        lemma_after_columns_advances(p, k, width, height, n - 1);
        let mid = after_columns(p, k, n - 1);
        lemma_after_column_advances(mid, k, width, height, n - 1);
        lemma_advances_trans(p, mid, after_column(mid, k, n - 1), k, width, height);
    }
}

/// One sweep is an advance.
pub proof fn lemma_after_sweep_advances(
    grid: Seq<Seq<CellState>>,
    k: Constraints,
    width: int,
    height: int,
)
    requires
        rectangular(grid, width, height),
        0 <= width <= usize::MAX,
        0 <= height <= usize::MAX,
    ensures
        advances(fresh(grid), after_sweep(grid, k, width, height), k, width, height),
{
    let rows = after_rows(fresh(grid), k, height);
    lemma_after_rows_advances(fresh(grid), k, width, height, height);
    lemma_after_columns_advances(rows, k, width, height, width);
    lemma_advances_trans(fresh(grid), rows, after_columns(rows, k, width), k, width, height);
}

/// A fault stops the rows that follow.
pub proof fn lemma_after_rows_stopped(p: Progress, k: Constraints, m: int, n: int)
    requires
        0 <= m <= n,
        after_rows(p, k, m).error is Some,
    ensures
        after_rows(p, k, n) == after_rows(p, k, m),
    decreases n - m,
{
    if m < n {
        lemma_after_rows_stopped(p, k, m, n - 1);
    }
}

/// A fault stops the columns that follow.
pub proof fn lemma_after_columns_stopped(p: Progress, k: Constraints, m: int, n: int)
    requires
        0 <= m <= n,
        after_columns(p, k, m).error is Some,
    ensures
        after_columns(p, k, n) == after_columns(p, k, m),
    decreases n - m,
{
    if m < n {
        lemma_after_columns_stopped(p, k, m, n - 1);
    }
}

/// Sweeping until nothing changes is an advance.
pub proof fn lemma_after_passes_advances(
    grid: Seq<Seq<CellState>>,
    k: Constraints,
    width: int,
    height: int,
    limit: int,
    done: int,
)
    requires
        rectangular(grid, width, height),
        0 <= width <= usize::MAX,
        0 <= height <= usize::MAX,
    ensures
        advances(
            fresh(grid),
            Progress {
                grid: after_passes(grid, k, width, height, limit, done).grid,
                log: after_passes(grid, k, width, height, limit, done).log,
                error: None,
            },
            k,
            width,
            height,
        ),
    decreases limit - done,
{
    let out = after_passes(grid, k, width, height, limit, done);
    let plain = Progress { grid: out.grid, log: out.log, error: None };
    if done >= limit {
        lemma_advances_refl(fresh(grid), k, width, height);
        assert(plain == fresh(grid));
    } else {
        let swept = after_sweep(grid, k, width, height);
        lemma_after_sweep_advances(grid, k, width, height);
        let swept_plain = Progress { grid: swept.grid, log: swept.log, error: None };
        assert(advances(fresh(grid), swept_plain, k, width, height));
        if swept.error is Some || swept.log.len() == 0 {
            assert(plain == swept_plain);
        } else {
            let rest = after_passes(swept.grid, k, width, height, limit, done + 1);
            lemma_after_passes_advances(swept.grid, k, width, height, limit, done + 1);
            let rest_plain = Progress { grid: rest.grid, log: rest.log, error: None };
            lemma_preceded_advances(swept.log, fresh(swept.grid), rest_plain, k, width, height);
            assert(preceded(swept.log, fresh(swept.grid)) == swept_plain) by {
                assert(swept.log + Seq::<Deduction>::empty() =~= swept.log);
            }
            assert(preceded(swept.log, rest_plain) == plain);
            lemma_advances_trans(fresh(grid), swept_plain, plain, k, width, height);
        }
    }
}

/// An advance stays one when the same deductions are put before both logs.
pub proof fn lemma_preceded_advances(
    log: Seq<Deduction>,
    before: Progress,
    after: Progress,
    k: Constraints,
    width: int,
    height: int,
)
    requires
        advances(before, after, k, width, height),
        before.error is None,
        after.error is None,
    ensures
        advances(preceded(log, before), preceded(log, after), k, width, height),
{
    let b = preceded(log, before);
    let a = preceded(log, after);
    assert(a.log.take(b.log.len() as int) =~= b.log) by {
        assert forall|i: int| 0 <= i < b.log.len() implies a.log[i] == b.log[i] by {
            if i >= log.len() {
                assert(after.log.take(before.log.len() as int)[i - log.len()] == before.log[i
                    - log.len()]);
            }
        }
    }
    assert forall|i: int| b.log.len() <= i < a.log.len() implies {
        &&& (#[trigger] a.log[i]).row < height
        &&& a.log[i].col < width
        &&& b.grid[a.log[i].row as int][a.log[i].col as int] == CellState::Empty
        &&& a.log[i].state != CellState::Empty
        &&& a.grid[a.log[i].row as int][a.log[i].col as int] == a.log[i].state
    } by {
        assert(a.log[i] == after.log[i - log.len()]);
    }
}

/// Line solving is idempotent: on the grid that sweeping has left without a fault, a
/// second run makes no deduction and leaves the grid as it is.
pub proof fn lemma_passes_idempotent(
    grid: Seq<Seq<CellState>>,
    k: Constraints,
    width: int,
    height: int,
    limit: int,
    done: int,
)
    requires
        rectangular(grid, width, height),
        0 <= width <= usize::MAX,
        0 <= height <= usize::MAX,
        0 <= done,
        limit >= 2,
        after_passes(grid, k, width, height, limit, done).error is None,
    ensures
        after_passes(
            after_passes(grid, k, width, height, limit, done).grid,
            k,
            width,
            height,
            limit,
            0,
        ) == fresh(after_passes(grid, k, width, height, limit, done).grid),
    decreases limit - done,
{
    let swept = after_sweep(grid, k, width, height);
    lemma_after_sweep_advances(grid, k, width, height);
    if swept.log.len() == 0 {
        assert(swept.grid == grid);
        assert(swept.log =~= Seq::<Deduction>::empty());
    } else {
        lemma_passes_idempotent(swept.grid, k, width, height, limit, done + 1);
    }
}

/// Solving a row goes on from the deductions made before it.
pub proof fn lemma_after_row_preceded(p: Progress, k: Constraints, row: int)
    requires
        p.error is None,
    ensures
        after_row(p, k, row) == preceded(p.log, after_row(fresh(p.grid), k, row)),
{
    let q = after_row(fresh(p.grid), k, row);
    assert(p.log + q.log =~= after_row(p, k, row).log) by {
        assert(Seq::<Deduction>::empty() + row_log(
            row,
            line_deductions(p.grid[row], k.row(row)),
        ) =~= row_log(row, line_deductions(p.grid[row], k.row(row))));
        assert(p.log + Seq::<Deduction>::empty() =~= p.log);
    }
}

/// Solving a column goes on from the deductions made before it.
pub proof fn lemma_after_column_preceded(p: Progress, k: Constraints, col: int)
    requires
        p.error is None,
    ensures
        after_column(p, k, col) == preceded(p.log, after_column(fresh(p.grid), k, col)),
{
    let q = after_column(fresh(p.grid), k, col);
    assert(p.log + q.log =~= after_column(p, k, col).log) by {
        assert(Seq::<Deduction>::empty() + column_log(
            col,
            line_deductions(column_of(p.grid, col), k.column(col)),
        ) =~= column_log(col, line_deductions(column_of(p.grid, col), k.column(col))));
        assert(p.log + Seq::<Deduction>::empty() =~= p.log);
    }
}

/// Writing deductions into a line keeps its length.
pub proof fn lemma_apply_found_len(line: Seq<CellState>, found: Seq<(usize, CellState)>, n: int)
    requires
        n <= found.len(),
        forall|j: int| 0 <= j < found.len() ==> (#[trigger] found[j]).0 < line.len(),
    ensures
        apply_found(line, found, n).len() == line.len(),
    decreases n,
{
    if n > 0 {
        lemma_apply_found_len(line, found, n - 1);
    }
}

/// Line solving is sound: a cell that it decides has the decided state in every solution of
/// the puzzle that keeps what the grid had decided.
pub proof fn lemma_deductions_sound(
    grid: Seq<Seq<CellState>>,
    k: Constraints,
    width: int,
    height: int,
    limit: int,
    full: Seq<Seq<CellState>>,
    i: int,
)
    requires
        rectangular(grid, width, height),
        0 <= width <= usize::MAX,
        0 <= height <= usize::MAX,
        completes(full, grid, k, width, height),
        0 <= i < after_passes(grid, k, width, height, limit, 0).log.len(),
    ensures
        ({
            let d = after_passes(grid, k, width, height, limit, 0).log[i];
            &&& d.row < height
            &&& d.col < width
            &&& grid[d.row as int][d.col as int] == CellState::Empty
            &&& full[d.row as int][d.col as int] == d.state
        }),
{
    let out = after_passes(grid, k, width, height, limit, 0);
    lemma_after_passes_advances(grid, k, width, height, limit, 0);
    let d = out.log[i];
    assert(completes(full, out.grid, k, width, height));
    assert(out.grid[d.row as int][d.col as int] == d.state);
}

} // verus!
