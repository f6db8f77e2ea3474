//! Deductions from the run lengths and the ends of each line, without enumeration.

use vstd::prelude::*;

use crate::grid::{column_of, CellState, Constraints, Grid};
use crate::solver::deductions::{sort_by_cell, sort_first};
use crate::solver::grid_rules::{
    missing_constraint, rule_columns, rule_on_column, rule_on_columns, rule_on_row, rule_on_rows,
    rule_rows,
};
use crate::solver::line_rules::{
    edge_found, max_position, max_start, min_position, min_start, overlap_found, LineRule,
};
use crate::solver::propagation::{column_log, row_log};
use crate::solver::{Deduction, SolveError};

verus! {

/// Every deduction of the analysis in the order in which it is made: overlap on the rows,
/// overlap on the columns, edge forcing on the rows, edge forcing on the columns.
pub open spec fn cross_all(grid: Seq<Seq<CellState>>, k: Constraints, width: int, height: int) -> Seq<
    Deduction,
> {
    rule_rows(LineRule::Overlap, grid, k, height) + rule_columns(LineRule::Overlap, grid, k, width)
        + rule_rows(LineRule::EdgeForcing, grid, k, height) + rule_columns(
        LineRule::EdgeForcing,
        grid,
        k,
        width,
    )
}

/// The deductions of the analysis in the order of their cells, for each cell the one that
/// is made first.
pub open spec fn cross_found(grid: Seq<Seq<CellState>>, k: Constraints, width: int, height: int) -> Seq<
    Deduction,
> {
    sort_first(cross_all(grid, k, width, height))
}

/// Overlap and edge forcing on every line of a grid.
pub struct CrossAnalyzer;

impl CrossAnalyzer {
    /// Makes an analyzer.
    pub fn new() -> (analyzer: CrossAnalyzer) {
        CrossAnalyzer
    }

    /// Overlap and edge forcing on every row and column of `grid`, which is left as it is.
    ///
    /// The deductions come in the order of their cells, at most one for a cell. A grid with
    /// a line for which there are no run lengths is refused.
    pub fn analyze(&self, grid: &Grid, constraints: &Constraints) -> (res: Result<
        Vec<Deduction>,
        SolveError,
    >)
        requires
            grid.wf(),
        ensures
            match res {
                Ok(found) => {
                    &&& missing_constraint(
                        *constraints,
                        grid.spec_width() as int,
                        grid.spec_height() as int,
                    ) is None
                    &&& found@ == cross_found(
                        grid@,
                        *constraints,
                        grid.spec_width() as int,
                        grid.spec_height() as int,
                    )
                },
                Err(e) => missing_constraint(
                    *constraints,
                    grid.spec_width() as int,
                    grid.spec_height() as int,
                ) == Some(e),
            },
    {
        let mut deductions: Vec<Deduction> = Vec::new();
        match rule_on_rows(LineRule::Overlap, grid, constraints, &mut deductions) {
            Ok(()) => {},
            Err(e) => {
                return Err(e);
            },
        }
        match rule_on_columns(LineRule::Overlap, grid, constraints, &mut deductions) {
            Ok(()) => {},
            Err(e) => {
                return Err(e);
            },
        }
        match rule_on_rows(LineRule::EdgeForcing, grid, constraints, &mut deductions) {
            Ok(()) => {},
            Err(e) => {
                return Err(e);
            },
        }
        match rule_on_columns(LineRule::EdgeForcing, grid, constraints, &mut deductions) {
            Ok(()) => {},
            Err(e) => {
                return Err(e);
            },
        }
        assert(deductions@ =~= cross_all(
            grid@,
            *constraints,
            grid.spec_width() as int,
            grid.spec_height() as int,
        ));
        Ok(sort_by_cell(&deductions))
    }

    /// Overlap on row `row` under the run lengths `constraint`.
    pub fn overlap_analysis_row(&self, grid: &Grid, row: usize, constraint: &[usize]) -> (res:
        Result<Vec<Deduction>, SolveError>)
        requires
            grid.wf(),
        ensures
            match res {
                Ok(found) => row < grid.spec_height() && found@ == row_log(
                    row as int,
                    overlap_found(grid@[row as int], constraint@),
                ),
                Err(e) => row >= grid.spec_height() && e == (SolveError::RowOutOfBounds { row }),
            },
    {
        rule_on_row(LineRule::Overlap, grid, row, constraint)
    }

    /// Overlap on column `col` under the run lengths `constraint`.
    pub fn overlap_analysis_column(&self, grid: &Grid, col: usize, constraint: &[usize]) -> (res:
        Result<Vec<Deduction>, SolveError>)
        requires
            grid.wf(),
        ensures
            match res {
                Ok(found) => col < grid.spec_width() && found@ == column_log(
                    col as int,
                    overlap_found(column_of(grid@, col as int), constraint@),
                ),
                Err(e) => col >= grid.spec_width() && e == (SolveError::ColumnOutOfBounds { col }),
            },
    {
        rule_on_column(LineRule::Overlap, grid, col, constraint)
    }

    /// Edge forcing on row `row` under the run lengths `constraint`.
    pub fn edge_forcing_row(&self, grid: &Grid, row: usize, constraint: &[usize]) -> (res: Result<
        Vec<Deduction>,
        SolveError,
    >)
        requires
            grid.wf(),
        ensures
            match res {
                Ok(found) => row < grid.spec_height() && found@ == row_log(
                    row as int,
                    edge_found(grid@[row as int], constraint@),
                ),
                Err(e) => row >= grid.spec_height() && e == (SolveError::RowOutOfBounds { row }),
            },
    {
        rule_on_row(LineRule::EdgeForcing, grid, row, constraint)
    }

    /// Edge forcing on column `col` under the run lengths `constraint`.
    pub fn edge_forcing_column(&self, grid: &Grid, col: usize, constraint: &[usize]) -> (res:
        Result<Vec<Deduction>, SolveError>)
        requires
            grid.wf(),
        ensures
            match res {
                Ok(found) => col < grid.spec_width() && found@ == column_log(
                    col as int,
                    edge_found(column_of(grid@, col as int), constraint@),
                ),
                Err(e) => col >= grid.spec_width() && e == (SolveError::ColumnOutOfBounds { col }),
            },
    {
        rule_on_column(LineRule::EdgeForcing, grid, col, constraint)
    }

    /// First cell at which run `block_idx` can start at the earliest, or `usize::MAX` where
    /// that cell cannot be counted in a `usize`.
    pub fn calculate_min_position(&self, constraint: &[usize], block_idx: usize) -> (pos: usize)
        requires
            block_idx <= constraint@.len(),
        ensures
            pos == if min_start(constraint@, block_idx as int) <= usize::MAX {
                min_start(constraint@, block_idx as int)
            } else {
                usize::MAX as int
            },
    {
        min_position(constraint, block_idx)
    }

    /// First cell at which run `block_idx` can start at the latest in a line of `length`
    /// cells; zero where the runs do not fit.
    pub fn calculate_max_position(&self, constraint: &[usize], block_idx: usize, length: usize) -> (pos:
        usize)
        requires
            block_idx < constraint@.len(),
        ensures
            pos == max_start(length as int, constraint@, block_idx as int),
    {
        max_position(constraint, block_idx, length)
    }
}

} // verus!
