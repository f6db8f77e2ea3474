//! Line rules applied to every row and every column of a grid.

use vstd::prelude::*;

use crate::grid::{column_of, CellState, Constraints, Grid};
use crate::solver::deductions::{
    append_deductions, first_on_cell, lemma_sort_first, on_column, on_row, ordered_by_cell,
    sort_first,
};
use crate::solver::growth::all_decided;
use crate::solver::line_rules::{apply_rule, lemma_rule_decides, rule_found, LineRule};
use crate::solver::propagation::{column_log, row_log};
use crate::solver::{Deduction, SolveError};

verus! {

/// The deductions of `rule` on the first `n` rows, top to bottom.
pub open spec fn rule_rows(rule: LineRule, grid: Seq<Seq<CellState>>, k: Constraints, n: int) -> Seq<
    Deduction,
>
    decreases n,
{
    if n <= 0 {
        Seq::empty()
    } else {
        rule_rows(rule, grid, k, n - 1) + row_log(n - 1, rule_found(rule, grid[n - 1], k.row(n - 1)))
    }
}

/// The deductions of `rule` on the first `n` columns, left to right.
pub open spec fn rule_columns(rule: LineRule, grid: Seq<Seq<CellState>>, k: Constraints, n: int) -> Seq<
    Deduction,
>
    decreases n,
{
    if n <= 0 {
        Seq::empty()
    } else {
        rule_columns(rule, grid, k, n - 1) + column_log(
            n - 1,
            rule_found(rule, column_of(grid, n - 1), k.column(n - 1)),
        )
    }
}

/// The deductions of `rule` on every row, then on every column.
pub open spec fn rule_grid(
    rule: LineRule,
    grid: Seq<Seq<CellState>>,
    k: Constraints,
    width: int,
    height: int,
) -> Seq<Deduction> {
    rule_rows(rule, grid, k, height) + rule_columns(rule, grid, k, width)
}

/// The fault of a grid of `width` by `height` cells that has a line without run lengths:
/// the first such row, else the first such column.
pub open spec fn missing_constraint(k: Constraints, width: int, height: int) -> Option<SolveError> {
    if height > k.rows@.len() {
        Some(SolveError::MissingRowConstraint { row: k.rows@.len() as usize })
    } else if width > k.columns@.len() {
        Some(SolveError::MissingColumnConstraint { col: k.columns@.len() as usize })
    } else {
        None
    }
}

/// The deductions of `rule` on row `row` under the run lengths `constraint`.
pub fn rule_on_row(rule: LineRule, grid: &Grid, row: usize, constraint: &[usize]) -> (res: Result<
    Vec<Deduction>,
    SolveError,
>)
    requires
        grid.wf(),
    ensures
        match res {
            Ok(found) => row < grid.spec_height() && found@ == row_log(
                row as int,
                rule_found(rule, grid@[row as int], constraint@),
            ),
            Err(e) => row >= grid.spec_height() && e == (SolveError::RowOutOfBounds { row }),
        },
{
    let line = match grid.get_row(row) {
        Some(l) => l,
        None => {
            return Err(SolveError::RowOutOfBounds { row });
        },
    };
    let found = apply_rule(rule, line.as_slice(), constraint);
    Ok(on_row(row, &found))
}

/// The deductions of `rule` on column `col` under the run lengths `constraint`.
pub fn rule_on_column(rule: LineRule, grid: &Grid, col: usize, constraint: &[usize]) -> (res:
    Result<Vec<Deduction>, SolveError>)
    requires
        grid.wf(),
    ensures
        match res {
            Ok(found) => col < grid.spec_width() && found@ == column_log(
                col as int,
                rule_found(rule, column_of(grid@, col as int), constraint@),
            ),
            Err(e) => col >= grid.spec_width() && e == (SolveError::ColumnOutOfBounds { col }),
        },
{
    let line = match grid.get_column(col) {
        Some(l) => l,
        None => {
            return Err(SolveError::ColumnOutOfBounds { col });
        },
    };
    let found = apply_rule(rule, line.as_slice(), constraint);
    Ok(on_column(col, &found))
}

/// Adds to `out` the deductions of `rule` on every row, top to bottom; stops at the first
/// row without run lengths.
pub fn rule_on_rows(rule: LineRule, grid: &Grid, constraints: &Constraints, out: &mut Vec<Deduction>) -> (res:
    Result<(), SolveError>)
    requires
        grid.wf(),
    ensures
        match res {
            Ok(()) => {
                &&& grid.spec_height() <= constraints.rows@.len()
                &&& final(out)@ == old(out)@ + rule_rows(
                    rule,
                    grid@,
                    *constraints,
                    grid.spec_height() as int,
                )
            },
            Err(e) => {
                &&& grid.spec_height() > constraints.rows@.len()
                &&& e == (SolveError::MissingRowConstraint { row: constraints.rows@.len() as usize })
            },
        },
{
    let height = grid.height();
    let mut row: usize = 0;
    assert(out@ =~= old(out)@ + rule_rows(rule, grid@, *constraints, 0));
    while row < height
        invariant
            grid.wf(),
            height == grid.spec_height(),
            row <= height,
            row <= constraints.rows@.len(),
            out@ == old(out)@ + rule_rows(rule, grid@, *constraints, row as int),
        decreases height - row,
    {
        let constraint = match constraints.get_row_constraint(row) {
            Some(c) => c,
            None => {
                return Err(SolveError::MissingRowConstraint { row });
            },
        };
        let ghost so_far = rule_rows(rule, grid@, *constraints, row as int);
        match rule_on_row(rule, grid, row, constraint.as_slice()) {
            Ok(found) => {
                append_deductions(out, &found);
                assert(out@ =~= old(out)@ + (so_far + found@));
            },
            Err(e) => {
                return Err(e);
            },
        }
        row += 1;
    }
    Ok(())
}

/// Adds to `out` the deductions of `rule` on every column, left to right; stops at the first
/// column without run lengths.
pub fn rule_on_columns(
    rule: LineRule,
    grid: &Grid,
    constraints: &Constraints,
    out: &mut Vec<Deduction>,
) -> (res: Result<(), SolveError>)
    requires
        grid.wf(),
    ensures
        match res {
            Ok(()) => {
                &&& grid.spec_width() <= constraints.columns@.len()
                &&& final(out)@ == old(out)@ + rule_columns(
                    rule,
                    grid@,
                    *constraints,
                    grid.spec_width() as int,
                )
            },
            Err(e) => {
                &&& grid.spec_width() > constraints.columns@.len()
                &&& e == (SolveError::MissingColumnConstraint {
                    col: constraints.columns@.len() as usize,
                })
            },
        },
{
    let width = grid.width();
    let mut col: usize = 0;
    assert(out@ =~= old(out)@ + rule_columns(rule, grid@, *constraints, 0));
    while col < width
        invariant
            grid.wf(),
            width == grid.spec_width(),
            col <= width,
            col <= constraints.columns@.len(),
            out@ == old(out)@ + rule_columns(rule, grid@, *constraints, col as int),
        decreases width - col,
    {
        let constraint = match constraints.get_column_constraint(col) {
            Some(c) => c,
            None => {
                return Err(SolveError::MissingColumnConstraint { col });
            },
        };
        let ghost so_far = rule_columns(rule, grid@, *constraints, col as int);
        match rule_on_column(rule, grid, col, constraint.as_slice()) {
            Ok(found) => {
                append_deductions(out, &found);
                assert(out@ =~= old(out)@ + (so_far + found@));
            },
            Err(e) => {
                return Err(e);
            },
        }
        col += 1;
    }
    Ok(())
}

/// The deductions of `rule` on every row, then on every column.
pub fn rule_on_grid(rule: LineRule, grid: &Grid, constraints: &Constraints) -> (res: Result<
    Vec<Deduction>,
    SolveError,
>)
    requires
        grid.wf(),
    ensures
        match res {
            Ok(found) => {
                &&& missing_constraint(
                    *constraints,
                    grid.spec_width() as int,
                    grid.spec_height() as int,
                ) is None
                &&& found@ == rule_grid(
                    rule,
                    grid@,
                    *constraints,
                    grid.spec_width() as int,
                    grid.spec_height() as int,
                )
            },
            Err(e) => missing_constraint(
                *constraints,
                grid.spec_width() as int,
                grid.spec_height() as int,
            ) == Some(e),
        },
{
    let mut found: Vec<Deduction> = Vec::new();
    match rule_on_rows(rule, grid, constraints, &mut found) {
        Ok(()) => {},
        Err(e) => {
            return Err(e);
        },
    }
    match rule_on_columns(rule, grid, constraints, &mut found) {
        Ok(()) => {},
        Err(e) => {
            return Err(e);
        },
    }
    assert(found@ =~= rule_grid(
        rule,
        grid@,
        *constraints,
        grid.spec_width() as int,
        grid.spec_height() as int,
    ));
    Ok(found)
}

/// Two lists of deductions that decide their cells, one after the other, decide their cells.
pub proof fn lemma_all_decided_concat(a: Seq<Deduction>, b: Seq<Deduction>)
    requires
        all_decided(a),
        all_decided(b),
    ensures
        all_decided(a + b),
{
    assert forall|i: int| 0 <= i < (a + b).len() implies (#[trigger] (a + b)[i]).state
        != CellState::Empty by {
        if i < a.len() {
            assert((a + b)[i] == a[i]);
        } else {
            assert((a + b)[i] == b[i - a.len()]);
        }
    }
}

/// A rule decides the cells that it speaks of on the rows.
pub proof fn lemma_rule_rows_decided(rule: LineRule, grid: Seq<Seq<CellState>>, k: Constraints, n: int)
    ensures
        all_decided(rule_rows(rule, grid, k, n)),
    decreases n,
{
    if n > 0 {
        lemma_rule_rows_decided(rule, grid, k, n - 1);
        let found = rule_found(rule, grid[n - 1], k.row(n - 1));
        lemma_rule_decides(rule, grid[n - 1], k.row(n - 1));
        assert forall|i: int| 0 <= i < found.len() implies (#[trigger] row_log(
            n - 1,
            found,
        )[i]).state != CellState::Empty by {
            assert(found[i].1 != CellState::Empty);
        }
        lemma_all_decided_concat(rule_rows(rule, grid, k, n - 1), row_log(n - 1, found));
    }
}

/// A rule decides the cells that it speaks of on the columns.
pub proof fn lemma_rule_columns_decided(
    rule: LineRule,
    grid: Seq<Seq<CellState>>,
    k: Constraints,
    n: int,
)
    ensures
        all_decided(rule_columns(rule, grid, k, n)),
    decreases n,
{
    if n > 0 {
        lemma_rule_columns_decided(rule, grid, k, n - 1);
        let found = rule_found(rule, column_of(grid, n - 1), k.column(n - 1));
        lemma_rule_decides(rule, column_of(grid, n - 1), k.column(n - 1));
        assert forall|i: int| 0 <= i < found.len() implies (#[trigger] column_log(
            n - 1,
            found,
        )[i]).state != CellState::Empty by {
            assert(found[i].1 != CellState::Empty);
        }
        lemma_all_decided_concat(rule_columns(rule, grid, k, n - 1), column_log(n - 1, found));
    }
}

/// A rule decides the cells that it speaks of on the grid.
pub proof fn lemma_rule_grid_decided(
    rule: LineRule,
    grid: Seq<Seq<CellState>>,
    k: Constraints,
    width: int,
    height: int,
)
    ensures
        all_decided(rule_grid(rule, grid, k, width, height)),
{
    lemma_rule_rows_decided(rule, grid, k, height);
    lemma_rule_columns_decided(rule, grid, k, width);
    lemma_all_decided_concat(rule_rows(rule, grid, k, height), rule_columns(rule, grid, k, width));
}

/// Putting deductions that decide their cells in the order of their cells keeps them so.
pub proof fn lemma_sort_first_decided(all: Seq<Deduction>)
    requires
        all_decided(all),
    ensures
        all_decided(sort_first(all)),
        ordered_by_cell(sort_first(all)),
{
    lemma_sort_first(all);
    assert forall|i: int| 0 <= i < sort_first(all).len() implies (#[trigger] sort_first(
        all,
    )[i]).state != CellState::Empty by {
        assert(first_on_cell(all, sort_first(all)[i]));
    }
}

} // verus!
