//! Grids that only grow: deductions that decide undecided cells and leave the rest alone.

use vstd::prelude::*;

use crate::grid::{rectangular, with_cell, CellState, Constraints};
use crate::solver::deductions::{cell_before, ordered_by_cell};
use crate::solver::propagation::{advances, extends, Progress};
use crate::solver::{Deduction, SolveError};

verus! {

/// `after` follows from `before` by deciding undecided cells of a grid of `width` by
/// `height` cells.
///
/// The grid keeps its shape and every decided cell; the log has grown by deductions on
/// cells that were undecided before, each holding the logged state after; and where the log
/// has not grown, the grid is as it was. That every cell that was decided is logged is
/// stated apart, by [`crate::solver::log_laws::names_changes`], and proved of every solver
/// there.
pub open spec fn grows(before: Progress, after: Progress, width: int, height: int) -> bool {
    &&& rectangular(after.grid, width, height)
    &&& extends(after.grid, before.grid)
    &&& before.log.len() <= after.log.len()
    &&& after.log.take(before.log.len() as int) == before.log
    &&& forall|i: int|
        before.log.len() <= i < after.log.len() ==> {
            &&& (#[trigger] after.log[i]).row < height
            &&& after.log[i].col < width
            &&& before.grid[after.log[i].row as int][after.log[i].col as int] == CellState::Empty
            &&& after.log[i].state != CellState::Empty
            &&& after.grid[after.log[i].row as int][after.log[i].col as int] == after.log[i].state
        }
    &&& after.log.len() == before.log.len() ==> after.grid == before.grid
    &&& before.error is Some ==> after == before
}

/// A sound advance is a growth.
pub proof fn lemma_advances_grows(before: Progress, after: Progress, k: Constraints, width: int, height: int)
    requires
        advances(before, after, k, width, height),
    ensures
        grows(before, after, width, height),
{
}

/// Nothing done is a growth.
pub proof fn lemma_grows_refl(p: Progress, width: int, height: int)
    requires
        rectangular(p.grid, width, height),
    ensures
        grows(p, p, width, height),
{
    assert(p.log.take(p.log.len() as int) =~= p.log);
}

/// Two growths in a row are a growth.
pub proof fn lemma_grows_trans(a: Progress, b: Progress, c: Progress, width: int, height: int)
    requires
        rectangular(a.grid, width, height),
        grows(a, b, width, height),
        grows(b, c, width, height),
    ensures
        grows(a, c, width, height),
{
    assert(c.log.take(a.log.len() as int) =~= a.log) by {
        assert forall|i: int| 0 <= i < a.log.len() implies c.log[i] == a.log[i] by {
            assert(c.log.take(b.log.len() as int)[i] == b.log[i]);
            assert(b.log.take(a.log.len() as int)[i] == a.log[i]);
        }
    }
    assert forall|i: int| a.log.len() <= i < c.log.len() implies {
        &&& (#[trigger] c.log[i]).row < height
        &&& c.log[i].col < width
        &&& a.grid[c.log[i].row as int][c.log[i].col as int] == CellState::Empty
        &&& c.log[i].state != CellState::Empty
        &&& c.grid[c.log[i].row as int][c.log[i].col as int] == c.log[i].state
    } by {
        if i < b.log.len() {
            assert(c.log.take(b.log.len() as int)[i] == b.log[i]);
            let d = b.log[i];
            assert(c.grid[d.row as int][d.col as int] == b.grid[d.row as int][d.col as int]);
        } else {
            let d = c.log[i];
            if a.grid[d.row as int][d.col as int] != CellState::Empty {
                assert(b.grid[d.row as int][d.col as int] == a.grid[d.row as int][d.col as int]);
            }
        }
    }
    assert forall|r: int, col: int|
        0 <= r < a.grid.len() && 0 <= col < a.grid[r].len() && a.grid[r][col]
            != CellState::Empty implies #[trigger] c.grid[r][col] == a.grid[r][col] by {
        assert(b.grid[r][col] == a.grid[r][col]);
    }
    if c.log.len() == a.log.len() {
        assert(b.log.len() == a.log.len());
    }
}

/// A growth stays one when the same deductions are put before both logs.
pub proof fn lemma_grows_preceded(
    log: Seq<Deduction>,
    before: Progress,
    after: Progress,
    width: int,
    height: int,
)
    requires
        grows(before, after, width, height),
    ensures
        grows(
            Progress { grid: before.grid, log: log + before.log, error: None },
            Progress { grid: after.grid, log: log + after.log, error: None },
            width,
            height,
        ),
{
    let b = Progress { grid: before.grid, log: log + before.log, error: None };
    let a = Progress { grid: after.grid, log: log + after.log, error: None };
    assert(a.log.take(b.log.len() as int) =~= b.log) by {
        assert forall|i: int| 0 <= i < b.log.len() implies a.log[i] == b.log[i] by {
            if i >= log.len() {
                assert(after.log.take(before.log.len() as int)[i - log.len()] == before.log[i
                    - log.len()]);
            }
        }
    }
    assert forall|i: int| b.log.len() <= i < a.log.len() implies {
        &&& (#[trigger] a.log[i]).row < height
        &&& a.log[i].col < width
        &&& b.grid[a.log[i].row as int][a.log[i].col as int] == CellState::Empty
        &&& a.log[i].state != CellState::Empty
        &&& a.grid[a.log[i].row as int][a.log[i].col as int] == a.log[i].state
    } by {
        assert(a.log[i] == after.log[i - log.len()]);
    }
}

/// `d` speaks of an undecided cell of `grid`.
pub open spec fn on_undecided(grid: Seq<Seq<CellState>>, d: Deduction) -> bool {
    &&& d.row < grid.len()
    &&& d.col < grid[d.row as int].len()
    &&& grid[d.row as int][d.col as int] == CellState::Empty
}

/// Those of the first `n` deductions of `found` that speak of an undecided cell of `grid`.
pub open spec fn undecided_only(grid: Seq<Seq<CellState>>, found: Seq<Deduction>, n: int) -> Seq<
    Deduction,
>
    decreases n,
{
    if n <= 0 {
        Seq::empty()
    } else {
        let before = undecided_only(grid, found, n - 1);
        if on_undecided(grid, found[n - 1]) {
            before.push(found[n - 1])
        } else {
            before
        }
    }
}

/// `grid` with the first `n` deductions of `log` written in.
pub open spec fn apply_log(grid: Seq<Seq<CellState>>, log: Seq<Deduction>, n: int) -> Seq<
    Seq<CellState>,
>
    decreases n,
{
    if n <= 0 {
        grid
    } else {
        with_cell(
            apply_log(grid, log, n - 1),
            log[n - 1].row as int,
            log[n - 1].col as int,
            log[n - 1].state,
        )
    }
}

/// Every deduction of `list` decides its cell.
pub open spec fn all_decided(list: Seq<Deduction>) -> bool {
    forall|i: int| 0 <= i < list.len() ==> (#[trigger] list[i]).state != CellState::Empty
}

/// What is kept of a list speaks of undecided cells only.
pub proof fn lemma_undecided_only_on(grid: Seq<Seq<CellState>>, found: Seq<Deduction>, n: int)
    ensures
        forall|i: int|
            0 <= i < undecided_only(grid, found, n).len() ==> on_undecided(
                grid,
                #[trigger] undecided_only(grid, found, n)[i],
            ),
    decreases n,
{
    if n > 0 {
        lemma_undecided_only_on(grid, found, n - 1);
        let before = undecided_only(grid, found, n - 1);
        let kept = undecided_only(grid, found, n);
        assert forall|i: int| 0 <= i < kept.len() implies on_undecided(grid, #[trigger] kept[i]) by {
            if i < before.len() {
                assert(kept[i] == before[i]);
            }
        }
    }
}

/// What is kept of a list in the order of its cells: deductions of the list, on undecided
/// cells, still in the order of their cells.
pub proof fn lemma_undecided_only(grid: Seq<Seq<CellState>>, found: Seq<Deduction>, n: int)
    requires
        0 <= n <= found.len(),
        ordered_by_cell(found),
    ensures
        ({
            let kept = undecided_only(grid, found, n);
            &&& ordered_by_cell(kept)
            &&& forall|i: int|
                0 <= i < kept.len() ==> on_undecided(grid, #[trigger] kept[i]) && exists|j: int|
                    0 <= j < n && found[j] == kept[i]
        }),
    decreases n,
{
    let kept = undecided_only(grid, found, n);
    if n > 0 {
        let before = undecided_only(grid, found, n - 1);
        lemma_undecided_only(grid, found, n - 1);
        if on_undecided(grid, found[n - 1]) {
            assert forall|i: int, j: int| 0 <= i < j < kept.len() implies cell_before(
                #[trigger] kept[i],
                #[trigger] kept[j],
            ) by {
                if j == before.len() {
                    let q = choose|q: int| 0 <= q < n - 1 && found[q] == before[i];
                    assert(cell_before(found[q], found[n - 1]));
                } else {
                    assert(cell_before(before[i], before[j]));
                }
            }
            assert forall|i: int| 0 <= i < kept.len() implies on_undecided(
                grid,
                #[trigger] kept[i],
            ) && exists|j: int| 0 <= j < n && found[j] == kept[i] by {
                if i < before.len() {
                    let q = choose|q: int| 0 <= q < n - 1 && found[q] == before[i];
                    assert(found[q] == kept[i]);
                } else {
                    assert(found[n - 1] == kept[i]);
                }
            }
        } else {
            assert forall|i: int| 0 <= i < kept.len() implies on_undecided(
                grid,
                #[trigger] kept[i],
            ) && exists|j: int| 0 <= j < n && found[j] == kept[i] by {
                let q = choose|q: int| 0 <= q < n - 1 && found[q] == before[i];
                assert(found[q] == kept[i]);
            }
        }
    }
}

/// One of the first `n` deductions of `log` speaks of the cell `(row, col)`.
pub open spec fn mentions(log: Seq<Deduction>, n: int, row: int, col: int) -> bool {
    exists|i: int| 0 <= i < n && (#[trigger] log[i]).row == row && log[i].col == col
}

/// Writing deductions that lie in a grid into it keeps the shape of the grid.
pub proof fn lemma_apply_log_shape(
    grid: Seq<Seq<CellState>>,
    log: Seq<Deduction>,
    n: int,
    width: int,
    height: int,
)
    requires
        0 <= n <= log.len(),
        rectangular(grid, width, height),
        forall|i: int| 0 <= i < log.len() ==> (#[trigger] log[i]).row < height && log[i].col < width,
    ensures
        rectangular(apply_log(grid, log, n), width, height),
    decreases n,
{
    if n > 0 {
        lemma_apply_log_shape(grid, log, n - 1, width, height);
        assert(log[n - 1].row < height);
    }
}

/// What writing deductions on different cells into a grid does to one cell: a cell that a
/// deduction speaks of holds that deduction, any other cell is as it was.
pub proof fn lemma_apply_log_cell(
    grid: Seq<Seq<CellState>>,
    log: Seq<Deduction>,
    n: int,
    width: int,
    height: int,
    row: int,
    col: int,
)
    requires
        0 <= n <= log.len(),
        rectangular(grid, width, height),
        ordered_by_cell(log),
        forall|i: int| 0 <= i < log.len() ==> (#[trigger] log[i]).row < height && log[i].col < width,
        0 <= row < height,
        0 <= col < width,
    ensures
        !mentions(log, n, row, col) ==> apply_log(grid, log, n)[row][col] == grid[row][col],
        forall|i: int|
            0 <= i < n && (#[trigger] log[i]).row == row && log[i].col == col ==> apply_log(
                grid,
                log,
                n,
            )[row][col] == log[i].state,
    decreases n,
{
    if n > 0 {
        lemma_apply_log_cell(grid, log, n - 1, width, height, row, col);
        lemma_apply_log_shape(grid, log, n - 1, width, height);
        let mid = apply_log(grid, log, n - 1);
        let d = log[n - 1];
        assert(d.row < height && d.col < width);
        if d.row == row && d.col == col {
            assert forall|i: int|
                0 <= i < n && (#[trigger] log[i]).row == row && log[i].col == col implies i == n
                - 1 by {
                if i < n - 1 {
                    assert(cell_before(log[i], log[n - 1]));
                }
            }
        } else {
            if !mentions(log, n, row, col) {
                assert forall|i: int| 0 <= i < n - 1 implies !((#[trigger] log[i]).row == row
                    && log[i].col == col) by {
                    if log[i].row == row && log[i].col == col {
                        assert(mentions(log, n, row, col));
                    }
                }
            }
        }
    }
}

/// Where a solver stands after an analysis: the deductions `found` that speak of an
/// undecided cell are written into the grid and logged. A `fault` of the analysis stops
/// the solver.
pub open spec fn analysis_step(p: Progress, found: Seq<Deduction>, fault: Option<SolveError>) -> Progress {
    if p.error is Some {
        p
    } else if fault is Some {
        Progress { grid: p.grid, log: p.log, error: fault }
    } else {
        let kept = undecided_only(p.grid, found, found.len() as int);
        Progress {
            grid: apply_log(p.grid, kept, kept.len() as int),
            log: p.log + kept,
            error: None,
        }
    }
}

/// An analysis whose deductions come in the order of their cells and decide them is a
/// growth.
pub proof fn lemma_analysis_step_grows(
    p: Progress,
    found: Seq<Deduction>,
    fault: Option<SolveError>,
    width: int,
    height: int,
)
    requires
        rectangular(p.grid, width, height),
        ordered_by_cell(found),
        all_decided(found),
    ensures
        grows(p, analysis_step(p, found, fault), width, height),
{
    let q = analysis_step(p, found, fault);
    if p.error is Some || fault is Some {
        assert(p.log.take(p.log.len() as int) =~= p.log);
    } else {
        let kept = undecided_only(p.grid, found, found.len() as int);
        let m = kept.len() as int;
        lemma_undecided_only(p.grid, found, found.len() as int);
        assert forall|i: int| 0 <= i < kept.len() implies (#[trigger] kept[i]).row < height
            && kept[i].col < width && kept[i].state != CellState::Empty by {
            assert(on_undecided(p.grid, kept[i]));
            let j = choose|j: int| 0 <= j < found.len() && found[j] == kept[i];
            assert(found[j].state != CellState::Empty);
        }
        lemma_apply_log_shape(p.grid, kept, m, width, height);
        assert(q.log.take(p.log.len() as int) =~= p.log);
        assert forall|r: int, c: int|
            0 <= r < p.grid.len() && 0 <= c < p.grid[r].len() && p.grid[r][c]
                != CellState::Empty implies #[trigger] q.grid[r][c] == p.grid[r][c] by {
            lemma_apply_log_cell(p.grid, kept, m, width, height, r, c);
            if mentions(kept, m, r, c) {
                let i = choose|i: int|
                    0 <= i < m && (#[trigger] kept[i]).row == r && kept[i].col == c;
                assert(on_undecided(p.grid, kept[i]));
            }
        }
        assert forall|i: int| p.log.len() <= i < q.log.len() implies {
            &&& (#[trigger] q.log[i]).row < height
            &&& q.log[i].col < width
            &&& p.grid[q.log[i].row as int][q.log[i].col as int] == CellState::Empty
            &&& q.log[i].state != CellState::Empty
            &&& q.grid[q.log[i].row as int][q.log[i].col as int] == q.log[i].state
        } by {
            let d = kept[i - p.log.len()];
            assert(q.log[i] == d);
            assert(on_undecided(p.grid, d));
            lemma_apply_log_cell(p.grid, kept, m, width, height, d.row as int, d.col as int);
        }
        if q.log.len() == p.log.len() {
            assert(kept.len() == 0);
        }
    }
}

} // verus!
