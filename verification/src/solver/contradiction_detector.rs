//! Checks whether a grid can still be completed.

use vstd::prelude::*;

use crate::grid::constraints::sum_blocks;
use crate::grid::{column_of, count_in_line, CellState, Constraints, Grid};
use crate::solver::enumerate::contains_state;
use crate::solver::line_rules::{
    as_available, available_segments, filled_blocks, filled_runs, free_stretches, has_filled_in,
};
use crate::solver::detector_laws::lemma_detector_sound;
use crate::solver::propagation::{after_passes, completes, MAX_ITERATIONS};
use crate::solver::{NonogramSolver, SolveError};

verus! {

/// The length of the longest run; zero where there is no run.
pub open spec fn longest(blocks: Seq<usize>) -> usize
    decreases blocks.len(),
{
    if blocks.len() == 0 {
        0
    } else if blocks.last() > longest(blocks.drop_last()) {
        blocks.last()
    } else {
        longest(blocks.drop_last())
    }
}

/// How many of the first `n` of `segments` hold a filled cell of `line`.
pub open spec fn busy_upto(line: Seq<CellState>, segments: Seq<(usize, usize)>, n: int) -> int
    decreases n,
{
    if n <= 0 {
        0
    } else {
        busy_upto(line, segments, n - 1) + if has_filled_in(
            line,
            segments[n - 1].0 as int,
            segments[n - 1].0 + segments[n - 1].1,
        ) {
            1int
        } else {
            0int
        }
    }
}

/// How many stretches of `line` without a crossed cell hold a filled cell. Filled cells of
/// two such stretches belong to two runs.
pub open spec fn busy_segments(line: Seq<CellState>) -> int {
    busy_upto(line, available_segments(line), available_segments(line).len() as int)
}

/// The quick checks on a line: the stretches without a crossed cell that hold a filled cell
/// are no more than the runs, no run of filled cells is longer than the longest run, the
/// line holds no more filled cells than the runs have, and the cells that are not crossed
/// are enough for the cells of the runs.
pub open spec fn line_basic_ok(line: Seq<CellState>, blocks: Seq<usize>) -> bool {
    let runs = filled_runs(line);
    &&& busy_segments(line) <= blocks.len()
    &&& forall|i: int| 0 <= i < runs.len() ==> (#[trigger] runs[i]).1 <= longest(blocks)
    &&& count_in_line(line, CellState::Filled) <= sum_blocks(blocks)
    &&& line.len() - count_in_line(line, CellState::Crossed) >= sum_blocks(blocks)
}

/// Some stretch of `segments` can hold a run of `block` cells. A run of no cell needs no
/// stretch.
pub open spec fn fits_somewhere(segments: Seq<(usize, usize)>, block: usize) -> bool {
    block == 0 || exists|s: int| 0 <= s < segments.len() && (#[trigger] segments[s]).1 >= block
}

/// The check of the room for each run: a line without runs holds no filled cell; in any
/// other line every run length fits in some stretch without a crossed cell.
pub open spec fn line_blocks_possible(line: Seq<CellState>, blocks: Seq<usize>) -> bool {
    if blocks.len() == 0 {
        count_in_line(line, CellState::Filled) == 0
    } else {
        forall|k: int|
            0 <= k < blocks.len() ==> fits_somewhere(available_segments(line), #[trigger] blocks[k])
    }
}

/// Every line of the grid has run lengths and passes the quick checks.
pub open spec fn basic_ok(grid: Seq<Seq<CellState>>, k: Constraints, width: int, height: int) -> bool {
    &&& height <= k.rows@.len()
    &&& width <= k.columns@.len()
    &&& forall|r: int| 0 <= r < height ==> line_basic_ok(#[trigger] grid[r], k.row(r))
    &&& forall|c: int|
        0 <= c < width ==> line_basic_ok(#[trigger] column_of(grid, c), k.column(c))
}

/// Every line of the grid has run lengths and room for each run.
pub open spec fn blocks_possible(grid: Seq<Seq<CellState>>, k: Constraints, width: int, height: int) -> bool {
    &&& height <= k.rows@.len()
    &&& width <= k.columns@.len()
    &&& forall|r: int| 0 <= r < height ==> line_blocks_possible(#[trigger] grid[r], k.row(r))
    &&& forall|c: int|
        0 <= c < width ==> line_blocks_possible(#[trigger] column_of(grid, c), k.column(c))
}

/// Line solving finds no line of the grid without run lengths or without a completion.
/// That it stops at the limit on its sweeps is no such fault.
pub open spec fn propagation_ok(grid: Seq<Seq<CellState>>, k: Constraints, width: int, height: int) -> bool {
    let fault = after_passes(grid, k, width, height, MAX_ITERATIONS as int, 0).error;
    fault is None || fault == Some(SolveError::IterationLimit)
}

/// No solution of the puzzle keeps what `grid` has decided.
pub open spec fn hopeless(grid: Seq<Seq<CellState>>, k: Constraints, width: int, height: int) -> bool {
    forall|full: Seq<Seq<CellState>>| !#[trigger] completes(full, grid, k, width, height)
}

/// What the detector answers: the quick checks, the room for each run, and line solving
/// all find no fault.
pub open spec fn valid_state(grid: Seq<Seq<CellState>>, k: Constraints, width: int, height: int) -> bool {
    &&& basic_ok(grid, k, width, height)
    &&& blocks_possible(grid, k, width, height)
    &&& propagation_ok(grid, k, width, height)
}

/// Number of cells of `line` in state `state`.
pub fn count_state(line: &[CellState], state: CellState) -> (n: usize)
    ensures
        n == count_in_line(line@, state),
{
    let mut n: usize = 0;
    let mut i: usize = 0;
    while i < line.len()
        invariant
            i <= line@.len(),
            n == count_in_line(line@.take(i as int), state),
            n <= i,
        decreases line@.len() - i,
    {
        assert(line@.take(i + 1).drop_last() =~= line@.take(i as int));
        if line[i] == state {
            n += 1;
        }
        i += 1;
    }
    assert(line@.take(line@.len() as int) =~= line@);
    n
}

/// Whether the run lengths of `constraint` add up to less than `limit`.
pub fn sum_below(constraint: &[usize], limit: usize) -> (below: bool)
    ensures
        below == (sum_blocks(constraint@) < limit),
{
    let mut sum: usize = 0;
    let mut i: usize = 0;
    while i < constraint.len()
        invariant
            i <= constraint@.len(),
            sum == sum_blocks(constraint@.take(i as int)),
            sum < limit || (i == 0 && sum == 0),
        decreases constraint@.len() - i,
    {
        assert(constraint@.take(i + 1).drop_last() =~= constraint@.take(i as int));
        let block = constraint[i];
        if sum >= limit || block >= limit - sum {
            proof {
                crate::grid::constraints::lemma_sum_blocks_prefix(constraint@, i + 1);
            }
            return false;
        }
        sum = sum + block;
        i += 1;
    }
    assert(constraint@.take(constraint@.len() as int) =~= constraint@);
    sum < limit
}

/// Whether the run lengths of `constraint` add up to more than `limit`.
pub fn sum_above(constraint: &[usize], limit: usize) -> (above: bool)
    ensures
        above == (sum_blocks(constraint@) > limit),
{
    let mut sum: usize = 0;
    let mut i: usize = 0;
    while i < constraint.len()
        invariant
            i <= constraint@.len(),
            sum == sum_blocks(constraint@.take(i as int)),
            sum <= limit,
        decreases constraint@.len() - i,
    {
        assert(constraint@.take(i + 1).drop_last() =~= constraint@.take(i as int));
        let block = constraint[i];
        if block > limit - sum {
            proof {
                crate::grid::constraints::lemma_sum_blocks_prefix(constraint@, i + 1);
            }
            return true;
        }
        sum = sum + block;
        i += 1;
    }
    assert(constraint@.take(constraint@.len() as int) =~= constraint@);
    false
}

/// The length of the longest run; zero where there is no run.
pub fn longest_run(constraint: &[usize]) -> (size: usize)
    ensures
        size == longest(constraint@),
{
    let mut size: usize = 0;
    let mut i: usize = 0;
    while i < constraint.len()
        invariant
            i <= constraint@.len(),
            size == longest(constraint@.take(i as int)),
        decreases constraint@.len() - i,
    {
        assert(constraint@.take(i + 1).drop_last() =~= constraint@.take(i as int));
        if constraint[i] > size {
            size = constraint[i];
        }
        i += 1;
    }
    assert(constraint@.take(constraint@.len() as int) =~= constraint@);
    size
}

/// Answers whether a grid can still be completed, by quick checks and by line solving.
pub struct ContradictionDetector {
    solver: NonogramSolver,
}

impl ContradictionDetector {
    /// What the detector remembers is true.
    pub closed spec fn wf(&self) -> bool {
        self.solver.wf()
    }

    /// Makes a detector.
    pub fn new() -> (detector: ContradictionDetector)
        ensures
            detector.wf(),
    {
        ContradictionDetector { solver: NonogramSolver::new() }
    }

    /// Whether no check finds a fault in `grid`, which is left as it is.
    ///
    /// A no is final: a grid that the detector refuses has no solution.
    pub fn is_valid(&mut self, grid: &Grid, constraints: &Constraints) -> (ok: bool)
        requires
            old(self).wf(),
            grid.wf(),
        ensures
            final(self).wf(),
            ok == valid_state(
                grid@,
                *constraints,
                grid.spec_width() as int,
                grid.spec_height() as int,
            ),
            !ok ==> hopeless(
                grid@,
                *constraints,
                grid.spec_width() as int,
                grid.spec_height() as int,
            ),
    {
        proof {
            let w = grid.spec_width() as int;
            let h = grid.spec_height() as int;
            if !valid_state(grid@, *constraints, w, h) {
                assert forall|full: Seq<Seq<CellState>>| !#[trigger] completes(
                    full,
                    grid@,
                    *constraints,
                    w,
                    h,
                ) by {
                    lemma_detector_sound(grid@, *constraints, w, h, full);
                }
            }
        }
        if !self.check_basic_contradictions(grid, constraints) {
            return false;
        }
        if !self.check_impossible_blocks(grid, constraints) {
            return false;
        }
        if !self.check_deduction_contradictions(grid, constraints) {
            return false;
        }
        true
    }

    /// Whether no check finds a fault in `grid` once the cell `(row, col)` is `state`. A
    /// cell outside the grid is a fault. `grid` is left as it is.
    pub fn test_hypothesis(
        &mut self,
        grid: &Grid,
        constraints: &Constraints,
        row: usize,
        col: usize,
        state: CellState,
    ) -> (ok: bool)
        requires
            old(self).wf(),
            grid.wf(),
        ensures
            final(self).wf(),
            ok == (row < grid.spec_height() && col < grid.spec_width() && valid_state(
                crate::grid::with_cell(grid@, row as int, col as int, state),
                *constraints,
                grid.spec_width() as int,
                grid.spec_height() as int,
            )),
    {
        let mut test_grid = grid.clone_grid();
        match test_grid.set(row, col, state) {
            Ok(()) => {},
            Err(_) => {
                return false;
            },
        }
        self.is_valid(&test_grid, constraints)
    }

    /// The quick checks on every row and every column.
    pub fn check_basic_contradictions(&self, grid: &Grid, constraints: &Constraints) -> (ok: bool)
        requires
            grid.wf(),
        ensures
            ok == basic_ok(
                grid@,
                *constraints,
                grid.spec_width() as int,
                grid.spec_height() as int,
            ),
    {
        let height = grid.height();
        let width = grid.width();
        let mut row: usize = 0;
        while row < height
            invariant
                grid.wf(),
                height == grid.spec_height(),
                row <= height,
                row <= constraints.rows@.len(),
                forall|r: int| 0 <= r < row ==> line_basic_ok(#[trigger] grid@[r], constraints.row(r)),
            decreases height - row,
        {
            let line = match grid.get_row(row) {
                Some(l) => l,
                None => {
                    return false;
                },
            };
            let constraint = match constraints.get_row_constraint(row) {
                Some(c) => c,
                None => {
                    return false;
                },
            };
            if !self.check_line_basic(line.as_slice(), constraint.as_slice()) {
                return false;
            }
            row += 1;
        }
        let mut col: usize = 0;
        while col < width
            invariant
                grid.wf(),
                height == grid.spec_height(),
                width == grid.spec_width(),
                height <= constraints.rows@.len(),
                col <= width,
                col <= constraints.columns@.len(),
                forall|r: int|
                    0 <= r < height ==> line_basic_ok(#[trigger] grid@[r], constraints.row(r)),
                forall|c: int|
                    0 <= c < col ==> line_basic_ok(
                        #[trigger] column_of(grid@, c),
                        constraints.column(c),
                    ),
            decreases width - col,
        {
            let column = match grid.get_column(col) {
                Some(l) => l,
                None => {
                    return false;
                },
            };
            let constraint = match constraints.get_column_constraint(col) {
                Some(c) => c,
                None => {
                    return false;
                },
            };
            if !self.check_line_basic(column.as_slice(), constraint.as_slice()) {
                return false;
            }
            col += 1;
        }
        true
    }

    /// The quick checks on one line.
    pub fn check_line_basic(&self, line: &[CellState], constraint: &[usize]) -> (ok: bool)
        ensures
            ok == line_basic_ok(line@, constraint@),
    {
        let length = line.len();
        let segments = self.find_available_segments(line);
        proof {
            assert(as_available(line@).len() == line@.len());
            crate::solver::line_rules::lemma_filled_runs(as_available(line@));
        }
        let mut busy: usize = 0;
        let mut s: usize = 0;
        while s < segments.len()
            invariant
                s <= segments@.len(),
                length == line@.len(),
                as_available(line@).len() == line@.len(),
                segments@ == available_segments(line@),
                forall|i: int|
                    0 <= i < segments@.len() ==> crate::solver::line_rules::is_run(
                        as_available(line@),
                        #[trigger] segments@[i],
                    ),
                busy == busy_upto(line@, segments@, s as int),
                busy <= s,
            decreases segments@.len() - s,
        {
            let (start, room) = segments[s];
            assert(crate::solver::line_rules::is_run(as_available(line@), segments@[s as int]));
            if contains_state(line, start, start + room, CellState::Filled) {
                busy += 1;
            }
            s += 1;
        }
        if busy > constraint.len() {
            return false;
        }
        let filled_blocks = self.count_filled_blocks(line);
        let limit = longest_run(constraint);
        let mut i: usize = 0;
        while i < filled_blocks.len()
            invariant
                i <= filled_blocks@.len(),
                limit == longest(constraint@),
                filled_blocks@ == filled_runs(line@),
                forall|j: int| 0 <= j < i ==> (#[trigger] filled_blocks@[j]).1 <= limit,
            decreases filled_blocks@.len() - i,
        {
            if filled_blocks[i].1 > limit {
                assert(filled_runs(line@)[i as int].1 > longest(constraint@));
                return false;
            }
            i += 1;
        }
        let filled_count = count_state(line, CellState::Filled);
        if sum_below(constraint, filled_count) {
            return false;
        }
        let crossed_count = count_state(line, CellState::Crossed);
        proof {
            crate::grid::lemma_count_in_line_bound(line@, CellState::Crossed);
        }
        let available_space = line.len() - crossed_count;
        if sum_above(constraint, available_space) {
            return false;
        }
        true
    }

    /// The check of the room for each run on every row and every column.
    pub fn check_impossible_blocks(&self, grid: &Grid, constraints: &Constraints) -> (ok: bool)
        requires
            grid.wf(),
        ensures
            ok == blocks_possible(
                grid@,
                *constraints,
                grid.spec_width() as int,
                grid.spec_height() as int,
            ),
    {
        let height = grid.height();
        let width = grid.width();
        let mut row: usize = 0;
        while row < height
            invariant
                grid.wf(),
                height == grid.spec_height(),
                row <= height,
                row <= constraints.rows@.len(),
                forall|r: int|
                    0 <= r < row ==> line_blocks_possible(#[trigger] grid@[r], constraints.row(r)),
            decreases height - row,
        {
            let line = match grid.get_row(row) {
                Some(l) => l,
                None => {
                    return false;
                },
            };
            let constraint = match constraints.get_row_constraint(row) {
                Some(c) => c,
                None => {
                    return false;
                },
            };
            if !self.check_line_impossible_blocks(line.as_slice(), constraint.as_slice()) {
                return false;
            }
            row += 1;
        }
        let mut col: usize = 0;
        while col < width
            invariant
                grid.wf(),
                height == grid.spec_height(),
                width == grid.spec_width(),
                height <= constraints.rows@.len(),
                col <= width,
                col <= constraints.columns@.len(),
                forall|r: int|
                    0 <= r < height ==> line_blocks_possible(
                        #[trigger] grid@[r],
                        constraints.row(r),
                    ),
                forall|c: int|
                    0 <= c < col ==> line_blocks_possible(
                        #[trigger] column_of(grid@, c),
                        constraints.column(c),
                    ),
            decreases width - col,
        {
            let column = match grid.get_column(col) {
                Some(l) => l,
                None => {
                    return false;
                },
            };
            let constraint = match constraints.get_column_constraint(col) {
                Some(c) => c,
                None => {
                    return false;
                },
            };
            if !self.check_line_impossible_blocks(column.as_slice(), constraint.as_slice()) {
                return false;
            }
            col += 1;
        }
        true
    }

    /// The check of the room for each run on one line.
    pub fn check_line_impossible_blocks(&self, line: &[CellState], constraint: &[usize]) -> (ok:
        bool)
        ensures
            ok == line_blocks_possible(line@, constraint@),
    {
        if constraint.len() == 0 {
            return count_state(line, CellState::Filled) == 0;
        }
        let segments = self.find_available_segments(line);
        let mut k: usize = 0;
        while k < constraint.len()
            invariant
                k <= constraint@.len(),
                segments@ == available_segments(line@),
                forall|j: int| 0 <= j < k ==> fits_somewhere(segments@, #[trigger] constraint@[j]),
            decreases constraint@.len() - k,
        {
            let block_size = constraint[k];
            let mut can_fit = block_size == 0;
            let mut s: usize = 0;
            while s < segments.len() && !can_fit
                invariant
                    s <= segments@.len(),
                    forall|j: int| 0 <= j < s ==> (#[trigger] segments@[j]).1 < block_size || can_fit,
                    block_size == 0 ==> can_fit,
                    can_fit ==> fits_somewhere(segments@, block_size),
                decreases segments@.len() - s,
            {
                if segments[s].1 >= block_size {
                    can_fit = true;
                }
                s += 1;
            }
            if !can_fit {
                return false;
            }
            k += 1;
        }
        true
    }

    /// Whether line solving finds every line of `grid` with run lengths and a completion;
    /// `grid` is left as it is.
    pub fn check_deduction_contradictions(&mut self, grid: &Grid, constraints: &Constraints) -> (ok:
        bool)
        requires
            old(self).wf(),
            grid.wf(),
        ensures
            final(self).wf(),
            ok == propagation_ok(
                grid@,
                *constraints,
                grid.spec_width() as int,
                grid.spec_height() as int,
            ),
    {
        let mut test_grid = grid.clone_grid();
        match self.solver.solve(&mut test_grid, constraints) {
            Ok(_) => true,
            Err(SolveError::IterationLimit) => true,
            Err(_) => false,
        }
    }

    /// The runs of filled cells of `line`, left to right, each as its first cell and its
    /// length.
    pub fn count_filled_blocks(&self, line: &[CellState]) -> (blocks: Vec<(usize, usize)>)
        ensures
            blocks@ == filled_runs(line@),
    {
        filled_blocks(line)
    }

    /// The stretches of `line` without a crossed cell, left to right, each as its first cell
    /// and its length.
    pub fn find_available_segments(&self, line: &[CellState]) -> (segments: Vec<(usize, usize)>)
        ensures
            segments@ == available_segments(line@),
    {
        free_stretches(line)
    }
}

} // verus!
