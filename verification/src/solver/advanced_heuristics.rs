//! Heuristic deductions: glue, mercury, joining and punctuation.

use vstd::prelude::*;

use crate::grid::{CellState, Constraints, Grid};
use crate::solver::deductions::{on_column, on_row, sort_by_cell, sort_first};
use crate::solver::grid_rules::{missing_constraint, rule_grid, rule_on_grid};
use crate::solver::line_rules::{
    filled_blocks, filled_runs, glue_found, glue_line, mercury_found, mercury_line, LineRule,
};
use crate::solver::propagation::{column_log, row_log};
use crate::solver::{Deduction, SolveError};

verus! {

/// Every deduction of the heuristics in the order in which it is made: glue, mercury,
/// joining, punctuation, each on the rows and then on the columns.
pub open spec fn heuristics_all(grid: Seq<Seq<CellState>>, k: Constraints, width: int, height: int) -> Seq<
    Deduction,
> {
    rule_grid(LineRule::Glue, grid, k, width, height) + rule_grid(
        LineRule::Mercury,
        grid,
        k,
        width,
        height,
    ) + rule_grid(LineRule::Joining, grid, k, width, height) + rule_grid(
        LineRule::Puncturing,
        grid,
        k,
        width,
        height,
    )
}

/// The deductions of the heuristics in the order of their cells, for each cell the one that
/// is made first.
pub open spec fn heuristics_found(
    grid: Seq<Seq<CellState>>,
    k: Constraints,
    width: int,
    height: int,
) -> Seq<Deduction> {
    sort_first(heuristics_all(grid, k, width, height))
}

/// Glue, mercury, joining and punctuation on every line of a grid.
pub struct AdvancedHeuristics;

impl AdvancedHeuristics {
    /// Makes the heuristics.
    pub fn new() -> (heuristics: AdvancedHeuristics) {
        AdvancedHeuristics
    }

    /// Every heuristic on every row and column of `grid`, which is left as it is.
    ///
    /// The deductions come in the order of their cells, at most one for a cell. A grid with
    /// a line for which there are no run lengths is refused.
    pub fn apply(&self, grid: &Grid, constraints: &Constraints) -> (res: Result<
        Vec<Deduction>,
        SolveError,
    >)
        requires
            grid.wf(),
        ensures
            match res {
                Ok(found) => {
                    &&& missing_constraint(
                        *constraints,
                        grid.spec_width() as int,
                        grid.spec_height() as int,
                    ) is None
                    &&& found@ == heuristics_found(
                        grid@,
                        *constraints,
                        grid.spec_width() as int,
                        grid.spec_height() as int,
                    )
                },
                Err(e) => missing_constraint(
                    *constraints,
                    grid.spec_width() as int,
                    grid.spec_height() as int,
                ) == Some(e),
            },
    {
        let mut deductions = match self.glue_method(grid, constraints) {
            Ok(d) => d,
            Err(e) => {
                return Err(e);
            },
        };
        let mercury = match self.mercury_method(grid, constraints) {
            Ok(d) => d,
            Err(e) => {
                return Err(e);
            },
        };
        let joining = match self.joining_splitting(grid, constraints) {
            Ok(d) => d,
            Err(e) => {
                return Err(e);
            },
        };
        let puncturing = match self.puncturing(grid, constraints) {
            Ok(d) => d,
            Err(e) => {
                return Err(e);
            },
        };
        crate::solver::deductions::append_deductions(&mut deductions, &mercury);
        crate::solver::deductions::append_deductions(&mut deductions, &joining);
        crate::solver::deductions::append_deductions(&mut deductions, &puncturing);
        Ok(sort_by_cell(&deductions))
    }

    /// Glue on every row, then on every column.
    pub fn glue_method(&self, grid: &Grid, constraints: &Constraints) -> (res: Result<
        Vec<Deduction>,
        SolveError,
    >)
        requires
            grid.wf(),
        ensures
            match res {
                Ok(found) => {
                    &&& missing_constraint(
                        *constraints,
                        grid.spec_width() as int,
                        grid.spec_height() as int,
                    ) is None
                    &&& found@ == rule_grid(
                        LineRule::Glue,
                        grid@,
                        *constraints,
                        grid.spec_width() as int,
                        grid.spec_height() as int,
                    )
                },
                Err(e) => missing_constraint(
                    *constraints,
                    grid.spec_width() as int,
                    grid.spec_height() as int,
                ) == Some(e),
            },
    {
        rule_on_grid(LineRule::Glue, grid, constraints)
    }

    /// Glue on one line: row `index` where `is_row` is set, else column `index`. A cell
    /// that glue fills is filled in every completion of the line.
    pub fn glue_method_line(
        &self,
        index: usize,
        line: &[CellState],
        constraint: &[usize],
        is_row: bool,
    ) -> (found: Vec<Deduction>)
        ensures
            found@ == if is_row {
                row_log(index as int, glue_found(line@, constraint@))
            } else {
                column_log(index as int, glue_found(line@, constraint@))
            },
    {
        let found = glue_line(line, constraint);
        if is_row {
            on_row(index, &found)
        } else {
            on_column(index, &found)
        }
    }

    /// Mercury on every row, then on every column.
    pub fn mercury_method(&self, grid: &Grid, constraints: &Constraints) -> (res: Result<
        Vec<Deduction>,
        SolveError,
    >)
        requires
            grid.wf(),
        ensures
            match res {
                Ok(found) => {
                    &&& missing_constraint(
                        *constraints,
                        grid.spec_width() as int,
                        grid.spec_height() as int,
                    ) is None
                    &&& found@ == rule_grid(
                        LineRule::Mercury,
                        grid@,
                        *constraints,
                        grid.spec_width() as int,
                        grid.spec_height() as int,
                    )
                },
                Err(e) => missing_constraint(
                    *constraints,
                    grid.spec_width() as int,
                    grid.spec_height() as int,
                ) == Some(e),
            },
    {
        rule_on_grid(LineRule::Mercury, grid, constraints)
    }

    /// Mercury on one line: row `index` where `is_row` is set, else column `index`. A cell
    /// that mercury fills is filled in every completion of the line.
    pub fn mercury_method_line(
        &self,
        index: usize,
        line: &[CellState],
        constraint: &[usize],
        is_row: bool,
    ) -> (found: Vec<Deduction>)
        ensures
            found@ == if is_row {
                row_log(index as int, mercury_found(line@, constraint@))
            } else {
                column_log(index as int, mercury_found(line@, constraint@))
            },
    {
        let found = mercury_line(line, constraint);
        if is_row {
            on_row(index, &found)
        } else {
            on_column(index, &found)
        }
    }

    /// Joining on every row, then on every column.
    pub fn joining_splitting(&self, grid: &Grid, constraints: &Constraints) -> (res: Result<
        Vec<Deduction>,
        SolveError,
    >)
        requires
            grid.wf(),
        ensures
            match res {
                Ok(found) => {
                    &&& missing_constraint(
                        *constraints,
                        grid.spec_width() as int,
                        grid.spec_height() as int,
                    ) is None
                    &&& found@ == rule_grid(
                        LineRule::Joining,
                        grid@,
                        *constraints,
                        grid.spec_width() as int,
                        grid.spec_height() as int,
                    )
                },
                Err(e) => missing_constraint(
                    *constraints,
                    grid.spec_width() as int,
                    grid.spec_height() as int,
                ) == Some(e),
            },
    {
        rule_on_grid(LineRule::Joining, grid, constraints)
    }

    /// Punctuation on every row, then on every column.
    pub fn puncturing(&self, grid: &Grid, constraints: &Constraints) -> (res: Result<
        Vec<Deduction>,
        SolveError,
    >)
        requires
            grid.wf(),
        ensures
            match res {
                Ok(found) => {
                    &&& missing_constraint(
                        *constraints,
                        grid.spec_width() as int,
                        grid.spec_height() as int,
                    ) is None
                    &&& found@ == rule_grid(
                        LineRule::Puncturing,
                        grid@,
                        *constraints,
                        grid.spec_width() as int,
                        grid.spec_height() as int,
                    )
                },
                Err(e) => missing_constraint(
                    *constraints,
                    grid.spec_width() as int,
                    grid.spec_height() as int,
                ) == Some(e),
            },
    {
        rule_on_grid(LineRule::Puncturing, grid, constraints)
    }

    /// The runs of filled cells of `line`, left to right, each as its first cell and its
    /// length.
    pub fn find_filled_blocks(&self, line: &[CellState]) -> (blocks: Vec<(usize, usize)>)
        ensures
            blocks@ == filled_runs(line@),
    {
        filled_blocks(line)
    }
}

} // verus!
