//! A log names a cell once, and names every cell that was decided: whatever the solvers add
//! to a log, no two of the deductions added speak of the same cell, and every cell in which
//! the grid has changed is spoken of.

use vstd::prelude::*;

use crate::grid::{rectangular, CellState, Constraints};
use crate::solver::advanced_solver::{
    advanced_round, advanced_rounds, lemma_advanced_round_grows, lemma_advanced_rounds_grow,
    lemma_analysis_grows, lemma_cross_found, lemma_heuristics_found, plain,
};
use crate::solver::advanced_heuristics::heuristics_found;
use crate::solver::cross_analysis::cross_found;
use crate::solver::grid_rules::missing_constraint;
use crate::solver::propagation::MAX_ITERATIONS;
use crate::solver::completion::line_deductions;
use crate::solver::deductions::{cell_before, ordered_by_cell, same_cell};
use crate::solver::growth::{
    analysis_step, lemma_advances_grows, lemma_grows_preceded, lemma_grows_trans,
    lemma_undecided_only, undecided_only,
};
use crate::solver::propagation::{
    after_column, after_columns, after_passes, after_row, after_rows, after_sweep, column_log,
    extends, fresh, lemma_after_column_advances, lemma_after_columns_advances,
    lemma_after_passes_advances, lemma_after_row_advances, lemma_after_rows_advances,
    lemma_after_sweep_advances, lemma_line_deductions, row_log, Progress,
};
use crate::solver::Deduction;

verus! {

/// From the deduction `from` on, no two deductions of `log` speak of the same cell.
pub open spec fn once_from(log: Seq<Deduction>, from: int) -> bool {
    forall|i: int, j: int|
        from <= i < j < log.len() ==> !same_cell(#[trigger] log[i], #[trigger] log[j])
}

/// No two deductions of `log` speak of the same cell.
pub open spec fn each_once(log: Seq<Deduction>) -> bool {
    once_from(log, 0)
}

/// Every deduction of `log` speaks of a cell that `before` leaves undecided, and `after`
/// holds what it says.
pub open spec fn logged(
    before: Seq<Seq<CellState>>,
    after: Seq<Seq<CellState>>,
    log: Seq<Deduction>,
    width: int,
    height: int,
) -> bool {
    forall|i: int|
        0 <= i < log.len() ==> {
            &&& (#[trigger] log[i]).row < height
            &&& log[i].col < width
            &&& before[log[i].row as int][log[i].col as int] == CellState::Empty
            &&& log[i].state != CellState::Empty
            &&& after[log[i].row as int][log[i].col as int] == log[i].state
        }
}

/// `after` has the deductions of `before` and then deductions of its own, each on a cell
/// that `before` leaves undecided, each holding in the grid of `after`.
pub open spec fn added(before: Progress, after: Progress, width: int, height: int) -> bool {
    &&& before.log.len() <= after.log.len()
    &&& after.log.take(before.log.len() as int) == before.log
    &&& forall|i: int|
        before.log.len() <= i < after.log.len() ==> {
            &&& (#[trigger] after.log[i]).row < height
            &&& after.log[i].col < width
            &&& before.grid[after.log[i].row as int][after.log[i].col as int] == CellState::Empty
            &&& after.log[i].state != CellState::Empty
            &&& after.grid[after.log[i].row as int][after.log[i].col as int] == after.log[i].state
        }
}

/// Nothing added is an addition.
pub proof fn lemma_added_refl(p: Progress, grid: Seq<Seq<CellState>>, width: int, height: int)
    ensures
        added(p, Progress { grid, log: p.log, error: None }, width, height),
{
    assert(p.log.take(p.log.len() as int) =~= p.log);
}

/// Two additions in a row, none of which takes back a decided cell, are an addition.
pub proof fn lemma_added_trans(a: Progress, b: Progress, c: Progress, width: int, height: int)
    requires
        rectangular(a.grid, width, height),
        extends(b.grid, a.grid),
        extends(c.grid, b.grid),
        added(a, b, width, height),
        added(b, c, width, height),
    ensures
        added(a, c, width, height),
{
    assert(c.log.take(a.log.len() as int) =~= a.log) by {
        assert forall|i: int| 0 <= i < a.log.len() implies c.log[i] == a.log[i] by {
            assert(c.log.take(b.log.len() as int)[i] == b.log[i]);
            assert(b.log.take(a.log.len() as int)[i] == a.log[i]);
        }
    }
    assert forall|i: int| a.log.len() <= i < c.log.len() implies {
        &&& (#[trigger] c.log[i]).row < height
        &&& c.log[i].col < width
        &&& a.grid[c.log[i].row as int][c.log[i].col as int] == CellState::Empty
        &&& c.log[i].state != CellState::Empty
        &&& c.grid[c.log[i].row as int][c.log[i].col as int] == c.log[i].state
    } by {
        if i < b.log.len() {
            assert(c.log.take(b.log.len() as int)[i] == b.log[i]);
            let d = b.log[i];
            assert(b.grid[d.row as int].len() == a.grid[d.row as int].len());
            assert(c.grid[d.row as int][d.col as int] == b.grid[d.row as int][d.col as int]);
        } else {
            let d = c.log[i];
            if a.grid[d.row as int][d.col as int] != CellState::Empty {
                assert(b.grid[d.row as int][d.col as int] == a.grid[d.row as int][d.col as int]);
            }
        }
    }
}

/// Two additions in a row that each name a cell once name a cell once together: what the
/// second decides was undecided after the first.
pub proof fn lemma_once_trans(a: Progress, b: Progress, c: Progress, width: int, height: int)
    requires
        added(a, b, width, height),
        added(b, c, width, height),
        once_from(b.log, a.log.len() as int),
        once_from(c.log, b.log.len() as int),
    ensures
        once_from(c.log, a.log.len() as int),
{
    assert forall|i: int, j: int| a.log.len() <= i < j < c.log.len() implies !same_cell(
        #[trigger] c.log[i],
        #[trigger] c.log[j],
    ) by {
        if j < b.log.len() {
            assert(c.log.take(b.log.len() as int)[i] == b.log[i]);
            assert(c.log.take(b.log.len() as int)[j] == b.log[j]);
            assert(!same_cell(b.log[i], b.log[j]));
        } else if i < b.log.len() {
            assert(c.log.take(b.log.len() as int)[i] == b.log[i]);
            let d = b.log[i];
            assert(b.grid[d.row as int][d.col as int] == d.state);
            let e = c.log[j];
            assert(b.grid[e.row as int][e.col as int] == CellState::Empty);
        }
    }
}

/// Deductions put before a log that names a cell once from its start leave the rest as it
/// was.
pub proof fn lemma_once_preceded(log: Seq<Deduction>, rest: Seq<Deduction>, from: int)
    requires
        0 <= from,
        once_from(rest, from),
    ensures
        once_from(log + rest, log.len() + from),
{
    let all = log + rest;
    assert forall|i: int, j: int| log.len() + from <= i < j < all.len() implies !same_cell(
        #[trigger] all[i],
        #[trigger] all[j],
    ) by {
        assert(all[i] == rest[i - log.len()]);
        assert(all[j] == rest[j - log.len()]);
    }
}

/// Solving one row names a cell once.
pub proof fn lemma_after_row_once(p: Progress, k: Constraints, width: int, height: int, row: int)
    requires
        rectangular(p.grid, width, height),
        0 <= row < height,
        width <= usize::MAX,
        height <= usize::MAX,
    ensures
        once_from(after_row(p, k, row).log, p.log.len() as int),
{
    let q = after_row(p, k, row);
    if q.log.len() > p.log.len() {
        let found = line_deductions(p.grid[row], k.row(row));
        lemma_line_deductions(p.grid[row], k.row(row));
        assert(q.log == p.log + row_log(row, found));
        assert forall|i: int, j: int| p.log.len() <= i < j < q.log.len() implies !same_cell(
            #[trigger] q.log[i],
            #[trigger] q.log[j],
        ) by {
            assert(q.log[i] == row_log(row, found)[i - p.log.len()]);
            assert(q.log[j] == row_log(row, found)[j - p.log.len()]);
            assert(found[i - p.log.len()].0 < found[j - p.log.len()].0);
        }
    }
}

/// Solving one column names a cell once.
pub proof fn lemma_after_column_once(p: Progress, k: Constraints, width: int, height: int, col: int)
    requires
        rectangular(p.grid, width, height),
        0 <= col < width,
        width <= usize::MAX,
        height <= usize::MAX,
    ensures
        once_from(after_column(p, k, col).log, p.log.len() as int),
{
    let q = after_column(p, k, col);
    if q.log.len() > p.log.len() {
        let line = crate::grid::column_of(p.grid, col);
        let found = line_deductions(line, k.column(col));
        lemma_line_deductions(line, k.column(col));
        assert(q.log == p.log + column_log(col, found));
        assert forall|i: int, j: int| p.log.len() <= i < j < q.log.len() implies !same_cell(
            #[trigger] q.log[i],
            #[trigger] q.log[j],
        ) by {
            assert(q.log[i] == column_log(col, found)[i - p.log.len()]);
            assert(q.log[j] == column_log(col, found)[j - p.log.len()]);
            assert(found[i - p.log.len()].0 < found[j - p.log.len()].0);
        }
    }
}

/// Solving the first `n` rows names a cell once.
pub proof fn lemma_after_rows_once(p: Progress, k: Constraints, width: int, height: int, n: int)
    requires
        rectangular(p.grid, width, height),
        0 <= n <= height,
        width <= usize::MAX,
        height <= usize::MAX,
    ensures
        once_from(after_rows(p, k, n).log, p.log.len() as int),
    decreases n,
{
    if n > 0 {
        lemma_after_rows_once(p, k, width, height, n - 1);
        let mid = after_rows(p, k, n - 1);
        lemma_after_rows_advances(p, k, width, height, n - 1);
        lemma_after_row_advances(mid, k, width, height, n - 1);
        lemma_after_row_once(mid, k, width, height, n - 1);
        lemma_once_trans(p, mid, after_row(mid, k, n - 1), width, height);
    }
}

/// Solving the first `n` columns names a cell once.
pub proof fn lemma_after_columns_once(p: Progress, k: Constraints, width: int, height: int, n: int)
    requires
        rectangular(p.grid, width, height),
        0 <= n <= width,
        width <= usize::MAX,
        height <= usize::MAX,
    ensures
        once_from(after_columns(p, k, n).log, p.log.len() as int),
    decreases n,
{
    if n > 0 {
        lemma_after_columns_once(p, k, width, height, n - 1);
        let mid = after_columns(p, k, n - 1);
        lemma_after_columns_advances(p, k, width, height, n - 1);
        lemma_after_column_advances(mid, k, width, height, n - 1);
        lemma_after_column_once(mid, k, width, height, n - 1);
        lemma_once_trans(p, mid, after_column(mid, k, n - 1), width, height);
    }
}

/// One sweep names a cell once.
pub proof fn lemma_after_sweep_once(grid: Seq<Seq<CellState>>, k: Constraints, width: int, height: int)
    requires
        rectangular(grid, width, height),
        0 <= width <= usize::MAX,
        0 <= height <= usize::MAX,
    ensures
        each_once(after_sweep(grid, k, width, height).log),
{
    let rows = after_rows(fresh(grid), k, height);
    lemma_after_rows_once(fresh(grid), k, width, height, height);
    lemma_after_rows_advances(fresh(grid), k, width, height, height);
    lemma_after_columns_once(rows, k, width, height, width);
    lemma_after_columns_advances(rows, k, width, height, width);
    lemma_once_trans(fresh(grid), rows, after_columns(rows, k, width), width, height);
}

/// Line solving names a cell once.
pub proof fn lemma_after_passes_once(
    grid: Seq<Seq<CellState>>,
    k: Constraints,
    width: int,
    height: int,
    limit: int,
    done: int,
)
    requires
        rectangular(grid, width, height),
        0 <= width <= usize::MAX,
        0 <= height <= usize::MAX,
    ensures
        each_once(after_passes(grid, k, width, height, limit, done).log),
    decreases limit - done,
{
    let out = after_passes(grid, k, width, height, limit, done);
    if done < limit {
        let swept = after_sweep(grid, k, width, height);
        lemma_after_sweep_once(grid, k, width, height);
        lemma_after_sweep_advances(grid, k, width, height);
        if swept.error is None && swept.log.len() > 0 {
            let rest = after_passes(swept.grid, k, width, height, limit, done + 1);
            lemma_after_passes_once(swept.grid, k, width, height, limit, done + 1);
            lemma_after_passes_advances(swept.grid, k, width, height, limit, done + 1);
            let rest_plain = Progress { grid: rest.grid, log: rest.log, error: None };
            lemma_grows_preceded(swept.log, fresh(swept.grid), rest_plain, width, height);
            lemma_once_preceded(swept.log, rest.log, 0);
            let b = Progress {
                grid: swept.grid,
                log: swept.log + Seq::<Deduction>::empty(),
                error: None,
            };
            let c = Progress { grid: rest.grid, log: swept.log + rest.log, error: None };
            assert(b.log =~= swept.log);
            lemma_once_trans(fresh(grid), b, c, width, height);
        }
    }
}

/// An analysis whose deductions come in the order of their cells names a cell once.
pub proof fn lemma_analysis_step_once(
    p: Progress,
    found: Seq<Deduction>,
    fault: Option<crate::solver::SolveError>,
    width: int,
    height: int,
)
    requires
        rectangular(p.grid, width, height),
        ordered_by_cell(found),
    ensures
        once_from(analysis_step(p, found, fault).log, p.log.len() as int),
{
    let q = analysis_step(p, found, fault);
    if p.error is None && fault is None {
        let kept = undecided_only(p.grid, found, found.len() as int);
        lemma_undecided_only(p.grid, found, found.len() as int);
        assert forall|i: int, j: int| p.log.len() <= i < j < q.log.len() implies !same_cell(
            #[trigger] q.log[i],
            #[trigger] q.log[j],
        ) by {
            assert(q.log[i] == kept[i - p.log.len()]);
            assert(q.log[j] == kept[j - p.log.len()]);
            assert(cell_before(kept[i - p.log.len()], kept[j - p.log.len()]));
        }
    }
}

/// One round names a cell once.
pub proof fn lemma_advanced_round_once(
    grid: Seq<Seq<CellState>>,
    k: Constraints,
    width: int,
    height: int,
    cross: bool,
    heuristics: bool,
)
    requires
        rectangular(grid, width, height),
        0 <= width <= usize::MAX,
        0 <= height <= usize::MAX,
    ensures
        each_once(advanced_round(grid, k, width, height, cross, heuristics).log),
{
    let lines = after_passes(grid, k, width, height, MAX_ITERATIONS as int, 0);
    lemma_after_passes_once(grid, k, width, height, MAX_ITERATIONS as int, 0);
    lemma_after_passes_advances(grid, k, width, height, MAX_ITERATIONS as int, 0);
    lemma_advances_grows(fresh(grid), plain(lines), k, width, height);
    let fault = missing_constraint(k, width, height);
    let crossed = if cross {
        analysis_step(lines, cross_found(lines.grid, k, width, height), fault)
    } else {
        lines
    };
    if lines.error is None {
        assert(lines == plain(lines));
        if cross {
            lemma_cross_found(lines.grid, k, width, height);
            lemma_analysis_grows(
                lines,
                cross_found(lines.grid, k, width, height),
                fault,
                width,
                height,
            );
            lemma_analysis_step_once(
                lines,
                cross_found(lines.grid, k, width, height),
                fault,
                width,
                height,
            );
            lemma_once_trans(fresh(grid), lines, plain(crossed), width, height);
            lemma_grows_trans(fresh(grid), lines, plain(crossed), width, height);
        }
        if heuristics && crossed.error is None {
            assert(crossed == plain(crossed));
            let last = analysis_step(
                crossed,
                heuristics_found(crossed.grid, k, width, height),
                fault,
            );
            lemma_heuristics_found(crossed.grid, k, width, height);
            lemma_analysis_grows(
                crossed,
                heuristics_found(crossed.grid, k, width, height),
                fault,
                width,
                height,
            );
            lemma_analysis_step_once(
                crossed,
                heuristics_found(crossed.grid, k, width, height),
                fault,
                width,
                height,
            );
            lemma_once_trans(fresh(grid), crossed, plain(last), width, height);
        }
    }
}

/// Rounds name a cell once.
pub proof fn lemma_advanced_rounds_once(
    grid: Seq<Seq<CellState>>,
    k: Constraints,
    width: int,
    height: int,
    cross: bool,
    heuristics: bool,
    limit: int,
    done: int,
)
    requires
        rectangular(grid, width, height),
        0 <= width <= usize::MAX,
        0 <= height <= usize::MAX,
    ensures
        each_once(advanced_rounds(grid, k, width, height, cross, heuristics, limit, done).log),
    decreases limit - done,
{
    if done < limit {
        let round = advanced_round(grid, k, width, height, cross, heuristics);
        lemma_advanced_round_once(grid, k, width, height, cross, heuristics);
        lemma_advanced_round_grows(grid, k, width, height, cross, heuristics);
        if round.error is None && round.log.len() > 0 {
            let rest = advanced_rounds(
                round.grid,
                k,
                width,
                height,
                cross,
                heuristics,
                limit,
                done + 1,
            );
            lemma_advanced_rounds_once(
                round.grid,
                k,
                width,
                height,
                cross,
                heuristics,
                limit,
                done + 1,
            );
            lemma_advanced_rounds_grow(
                round.grid,
                k,
                width,
                height,
                cross,
                heuristics,
                limit,
                done + 1,
            );
            lemma_grows_preceded(round.log, fresh(round.grid), plain(rest), width, height);
            lemma_once_preceded(round.log, rest.log, 0);
            let b = Progress {
                grid: round.grid,
                log: round.log + Seq::<Deduction>::empty(),
                error: None,
            };
            let c = Progress { grid: rest.grid, log: round.log + rest.log, error: None };
            assert(b.log =~= round.log);
            assert(b == plain(round));
            lemma_once_trans(fresh(grid), b, c, width, height);
        }
    }
}

/// A deduction of `log` from the deduction `from` on speaks of the cell `(row, col)`.
pub open spec fn named_from(log: Seq<Deduction>, from: int, row: int, col: int) -> bool {
    exists|i: int| from <= i < log.len() && (#[trigger] log[i]).row == row && log[i].col == col
}

/// The log is exact: every cell in which `after` differs from `before` is named by a
/// deduction of `log` from the deduction `from` on.
pub open spec fn names_changes(
    before: Seq<Seq<CellState>>,
    after: Seq<Seq<CellState>>,
    log: Seq<Deduction>,
    from: int,
    width: int,
    height: int,
) -> bool {
    forall|r: int, c: int|
        0 <= r < height && 0 <= c < width && #[trigger] after[r][c] != before[r][c] ==> named_from(
            log,
            from,
            r,
            c,
        )
}

/// Two steps in a row whose logs are exact have an exact log together.
pub proof fn lemma_names_trans(a: Progress, b: Progress, c: Progress, width: int, height: int)
    requires
        a.log.len() <= b.log.len() <= c.log.len(),
        c.log.take(b.log.len() as int) == b.log,
        names_changes(a.grid, b.grid, b.log, a.log.len() as int, width, height),
        names_changes(b.grid, c.grid, c.log, b.log.len() as int, width, height),
    ensures
        names_changes(a.grid, c.grid, c.log, a.log.len() as int, width, height),
{
    assert forall|r: int, col: int|
        0 <= r < height && 0 <= col < width && #[trigger] c.grid[r][col]
            != a.grid[r][col] implies named_from(c.log, a.log.len() as int, r, col) by {
        if b.grid[r][col] != a.grid[r][col] {
            assert(named_from(b.log, a.log.len() as int, r, col));
            let i = choose|i: int|
                a.log.len() <= i < b.log.len() && (#[trigger] b.log[i]).row == r && b.log[i].col
                    == col;
            assert(c.log.take(b.log.len() as int)[i] == c.log[i]);
            assert(c.log[i].row == r && c.log[i].col == col);
        } else {
            assert(c.grid[r][col] != b.grid[r][col]);
            assert(named_from(c.log, b.log.len() as int, r, col));
            let i = choose|i: int|
                b.log.len() <= i < c.log.len() && (#[trigger] c.log[i]).row == r && c.log[i].col
                    == col;
            assert(c.log[i].row == r && c.log[i].col == col);
        }
    }
}

/// Deductions put before an exact log leave it exact from where it began.
pub proof fn lemma_names_preceded(
    before: Seq<Seq<CellState>>,
    after: Seq<Seq<CellState>>,
    log: Seq<Deduction>,
    rest: Seq<Deduction>,
    width: int,
    height: int,
)
    requires
        names_changes(before, after, rest, 0, width, height),
    ensures
        names_changes(before, after, log + rest, log.len() as int, width, height),
{
    let all = log + rest;
    assert forall|r: int, col: int|
        0 <= r < height && 0 <= col < width && #[trigger] after[r][col]
            != before[r][col] implies named_from(all, log.len() as int, r, col) by {
        assert(named_from(rest, 0, r, col));
        let i = choose|i: int|
            0 <= i < rest.len() && (#[trigger] rest[i]).row == r && rest[i].col == col;
        assert(all[log.len() + i] == rest[i]);
        assert(all[log.len() + i].row == r && all[log.len() + i].col == col);
    }
}

/// Solving one row logs every cell that it decides.
pub proof fn lemma_after_row_exact(p: Progress, k: Constraints, width: int, height: int, row: int)
    requires
        rectangular(p.grid, width, height),
        0 <= row < height,
        width <= usize::MAX,
        height <= usize::MAX,
    ensures
        names_changes(
            p.grid,
            after_row(p, k, row).grid,
            after_row(p, k, row).log,
            p.log.len() as int,
            width,
            height,
        ),
{
    let q = after_row(p, k, row);
    if q.grid != p.grid {
        let line = p.grid[row];
        let blocks = k.row(row);
        let found = line_deductions(line, blocks);
        lemma_line_deductions(line, blocks);
        assert forall|r: int, c: int|
            0 <= r < height && 0 <= c < width && #[trigger] q.grid[r][c]
                != p.grid[r][c] implies named_from(q.log, p.log.len() as int, r, c) by {
            assert(r == row);
            let state = crate::solver::completion::deduced_at(line, blocks, c)->0;
            assert(found.contains((c as usize, state)));
            let j = choose|j: int| 0 <= j < found.len() && found[j] == (c as usize, state);
            assert(q.log[p.log.len() + j] == row_log(row, found)[j]);
            assert(q.log[p.log.len() + j].row == r && q.log[p.log.len() + j].col == c);
        }
    }
}

/// Solving one column logs every cell that it decides.
pub proof fn lemma_after_column_exact(p: Progress, k: Constraints, width: int, height: int, col: int)
    requires
        rectangular(p.grid, width, height),
        0 <= col < width,
        width <= usize::MAX,
        height <= usize::MAX,
    ensures
        names_changes(
            p.grid,
            after_column(p, k, col).grid,
            after_column(p, k, col).log,
            p.log.len() as int,
            width,
            height,
        ),
{
    let q = after_column(p, k, col);
    if q.grid != p.grid {
        let line = crate::grid::column_of(p.grid, col);
        let blocks = k.column(col);
        let found = line_deductions(line, blocks);
        lemma_line_deductions(line, blocks);
        assert forall|r: int, c: int|
            0 <= r < height && 0 <= c < width && #[trigger] q.grid[r][c]
                != p.grid[r][c] implies named_from(q.log, p.log.len() as int, r, c) by {
            assert(c == col);
            assert(line[r] == p.grid[r][col]);
            let state = crate::solver::completion::deduced_at(line, blocks, r)->0;
            assert(found.contains((r as usize, state)));
            let j = choose|j: int| 0 <= j < found.len() && found[j] == (r as usize, state);
            assert(q.log[p.log.len() + j] == column_log(col, found)[j]);
            assert(q.log[p.log.len() + j].row == r && q.log[p.log.len() + j].col == c);
        }
    }
}

/// Solving the first `n` rows logs every cell that it decides.
pub proof fn lemma_after_rows_exact(p: Progress, k: Constraints, width: int, height: int, n: int)
    requires
        rectangular(p.grid, width, height),
        0 <= n <= height,
        width <= usize::MAX,
        height <= usize::MAX,
    ensures
        names_changes(
            p.grid,
            after_rows(p, k, n).grid,
            after_rows(p, k, n).log,
            p.log.len() as int,
            width,
            height,
        ),
    decreases n,
{
    if n > 0 {
        lemma_after_rows_exact(p, k, width, height, n - 1);
        let mid = after_rows(p, k, n - 1);
        lemma_after_rows_advances(p, k, width, height, n - 1);
        lemma_after_row_advances(mid, k, width, height, n - 1);
        lemma_after_row_exact(mid, k, width, height, n - 1);
        lemma_names_trans(p, mid, after_row(mid, k, n - 1), width, height);
    }
}

/// Solving the first `n` columns logs every cell that it decides.
pub proof fn lemma_after_columns_exact(p: Progress, k: Constraints, width: int, height: int, n: int)
    requires
        rectangular(p.grid, width, height),
        0 <= n <= width,
        width <= usize::MAX,
        height <= usize::MAX,
    ensures
        names_changes(
            p.grid,
            after_columns(p, k, n).grid,
            after_columns(p, k, n).log,
            p.log.len() as int,
            width,
            height,
        ),
    decreases n,
{
    if n > 0 {
        lemma_after_columns_exact(p, k, width, height, n - 1);
        let mid = after_columns(p, k, n - 1);
        lemma_after_columns_advances(p, k, width, height, n - 1);
        lemma_after_column_advances(mid, k, width, height, n - 1);
        lemma_after_column_exact(mid, k, width, height, n - 1);
        lemma_names_trans(p, mid, after_column(mid, k, n - 1), width, height);
    }
}

/// One sweep logs every cell that it decides.
pub proof fn lemma_after_sweep_exact(grid: Seq<Seq<CellState>>, k: Constraints, width: int, height: int)
    requires
        rectangular(grid, width, height),
        0 <= width <= usize::MAX,
        0 <= height <= usize::MAX,
    ensures
        names_changes(
            grid,
            after_sweep(grid, k, width, height).grid,
            after_sweep(grid, k, width, height).log,
            0,
            width,
            height,
        ),
{
    let rows = after_rows(fresh(grid), k, height);
    lemma_after_rows_exact(fresh(grid), k, width, height, height);
    lemma_after_rows_advances(fresh(grid), k, width, height, height);
    lemma_after_columns_exact(rows, k, width, height, width);
    lemma_after_columns_advances(rows, k, width, height, width);
    lemma_names_trans(fresh(grid), rows, after_columns(rows, k, width), width, height);
}

/// Line solving logs every cell that it decides: the log is exact.
pub proof fn lemma_after_passes_exact(
    grid: Seq<Seq<CellState>>,
    k: Constraints,
    width: int,
    height: int,
    limit: int,
    done: int,
)
    requires
        rectangular(grid, width, height),
        0 <= width <= usize::MAX,
        0 <= height <= usize::MAX,
    ensures
        names_changes(
            grid,
            after_passes(grid, k, width, height, limit, done).grid,
            after_passes(grid, k, width, height, limit, done).log,
            0,
            width,
            height,
        ),
    decreases limit - done,
{
    if done < limit {
        let swept = after_sweep(grid, k, width, height);
        lemma_after_sweep_exact(grid, k, width, height);
        lemma_after_sweep_advances(grid, k, width, height);
        if swept.error is None && swept.log.len() > 0 {
            let rest = after_passes(swept.grid, k, width, height, limit, done + 1);
            lemma_after_passes_exact(swept.grid, k, width, height, limit, done + 1);
            lemma_names_preceded(swept.grid, rest.grid, swept.log, rest.log, width, height);
            let b = Progress { grid: swept.grid, log: swept.log, error: None };
            let c = Progress { grid: rest.grid, log: swept.log + rest.log, error: None };
            assert(c.log.take(b.log.len() as int) =~= b.log);
            lemma_names_trans(fresh(grid), b, c, width, height);
        }
    }
}

/// An analysis logs every cell that it decides.
pub proof fn lemma_analysis_step_exact(
    p: Progress,
    found: Seq<Deduction>,
    fault: Option<crate::solver::SolveError>,
    width: int,
    height: int,
)
    requires
        rectangular(p.grid, width, height),
        ordered_by_cell(found),
    ensures
        names_changes(
            p.grid,
            analysis_step(p, found, fault).grid,
            analysis_step(p, found, fault).log,
            p.log.len() as int,
            width,
            height,
        ),
{
    let q = analysis_step(p, found, fault);
    if p.error is None && fault is None {
        let kept = undecided_only(p.grid, found, found.len() as int);
        let m = kept.len() as int;
        lemma_undecided_only(p.grid, found, found.len() as int);
        assert forall|i: int| 0 <= i < kept.len() implies (#[trigger] kept[i]).row < height
            && kept[i].col < width by {
            assert(crate::solver::growth::on_undecided(p.grid, kept[i]));
        }
        assert forall|r: int, c: int|
            0 <= r < height && 0 <= c < width && #[trigger] q.grid[r][c]
                != p.grid[r][c] implies named_from(q.log, p.log.len() as int, r, c) by {
            crate::solver::growth::lemma_apply_log_cell(p.grid, kept, m, width, height, r, c);
            assert(crate::solver::growth::mentions(kept, m, r, c));
            let i = choose|i: int| 0 <= i < m && (#[trigger] kept[i]).row == r && kept[i].col == c;
            assert(q.log[p.log.len() + i] == kept[i]);
            assert(q.log[p.log.len() + i].row == r && q.log[p.log.len() + i].col == c);
        }
    }
}

/// One round logs every cell that it decides.
pub proof fn lemma_advanced_round_exact(
    grid: Seq<Seq<CellState>>,
    k: Constraints,
    width: int,
    height: int,
    cross: bool,
    heuristics: bool,
)
    requires
        rectangular(grid, width, height),
        0 <= width <= usize::MAX,
        0 <= height <= usize::MAX,
    ensures
        names_changes(
            grid,
            advanced_round(grid, k, width, height, cross, heuristics).grid,
            advanced_round(grid, k, width, height, cross, heuristics).log,
            0,
            width,
            height,
        ),
{
    let lines = after_passes(grid, k, width, height, MAX_ITERATIONS as int, 0);
    lemma_after_passes_exact(grid, k, width, height, MAX_ITERATIONS as int, 0);
    lemma_after_passes_advances(grid, k, width, height, MAX_ITERATIONS as int, 0);
    lemma_advances_grows(fresh(grid), plain(lines), k, width, height);
    let fault = missing_constraint(k, width, height);
    let crossed = if cross {
        analysis_step(lines, cross_found(lines.grid, k, width, height), fault)
    } else {
        lines
    };
    if lines.error is None {
        assert(lines == plain(lines));
        if cross {
            lemma_cross_found(lines.grid, k, width, height);
            lemma_analysis_grows(
                lines,
                cross_found(lines.grid, k, width, height),
                fault,
                width,
                height,
            );
            lemma_analysis_step_exact(
                lines,
                cross_found(lines.grid, k, width, height),
                fault,
                width,
                height,
            );
            lemma_names_trans(fresh(grid), lines, plain(crossed), width, height);
        }
        if heuristics && crossed.error is None {
            assert(crossed == plain(crossed));
            let last = analysis_step(
                crossed,
                heuristics_found(crossed.grid, k, width, height),
                fault,
            );
            lemma_heuristics_found(crossed.grid, k, width, height);
            lemma_analysis_grows(
                crossed,
                heuristics_found(crossed.grid, k, width, height),
                fault,
                width,
                height,
            );
            lemma_analysis_step_exact(
                crossed,
                heuristics_found(crossed.grid, k, width, height),
                fault,
                width,
                height,
            );
            lemma_names_trans(fresh(grid), crossed, plain(last), width, height);
        }
    }
}

/// Rounds log every cell that they decide: the log is exact.
pub proof fn lemma_advanced_rounds_exact(
    grid: Seq<Seq<CellState>>,
    k: Constraints,
    width: int,
    height: int,
    cross: bool,
    heuristics: bool,
    limit: int,
    done: int,
)
    requires
        rectangular(grid, width, height),
        0 <= width <= usize::MAX,
        0 <= height <= usize::MAX,
    ensures
        names_changes(
            grid,
            advanced_rounds(grid, k, width, height, cross, heuristics, limit, done).grid,
            advanced_rounds(grid, k, width, height, cross, heuristics, limit, done).log,
            0,
            width,
            height,
        ),
    decreases limit - done,
{
    if done < limit {
        let round = advanced_round(grid, k, width, height, cross, heuristics);
        lemma_advanced_round_exact(grid, k, width, height, cross, heuristics);
        lemma_advanced_round_grows(grid, k, width, height, cross, heuristics);
        if round.error is None && round.log.len() > 0 {
            let rest = advanced_rounds(
                round.grid,
                k,
                width,
                height,
                cross,
                heuristics,
                limit,
                done + 1,
            );
            lemma_advanced_rounds_exact(
                round.grid,
                k,
                width,
                height,
                cross,
                heuristics,
                limit,
                done + 1,
            );
            lemma_names_preceded(round.grid, rest.grid, round.log, rest.log, width, height);
            let b = Progress { grid: round.grid, log: round.log, error: None };
            let c = Progress { grid: rest.grid, log: round.log + rest.log, error: None };
            assert(c.log.take(b.log.len() as int) =~= b.log);
            lemma_names_trans(fresh(grid), b, c, width, height);
        }
    }
}

} // verus!
