//! What the answers of the contradiction detector are worth.
//!
//! Every check of the detector says that the grid cannot be completed: filled cells in
//! more stretches than there are runs, a run of filled cells longer than the longest run,
//! more filled cells than the runs have, too few cells that are not crossed, a run that
//! fits in no stretch of its line, a line without runs that holds a filled cell, a line
//! that line solving finds without completion. The limit on the sweeps of line solving is
//! no such reason, and the detector does not take it for one.

use vstd::prelude::*;

use crate::grid::constraints::sum_blocks;
use crate::grid::{
    column_of, count_in_line, lemma_count_in_line_update, rectangular, CellState, Constraints,
};
use crate::solver::completion::{
    agrees, covered, covered_below, is_completion, lemma_runs_ordered, render, valid_placement,
};
use crate::solver::contradiction_detector::{
    basic_ok, blocks_possible, busy_segments, busy_upto, fits_somewhere, line_basic_ok,
    line_blocks_possible, longest, valid_state,
};
use crate::solver::line_rules::{
    as_available, available_segments, filled_runs, has_filled_in, is_run, lemma_filled_runs,
};
use crate::solver::propagation::{
    after_column, after_columns, after_passes, after_row, after_rows, after_sweep, completes,
    fresh, lemma_after_column_advances, lemma_after_row_advances, Progress, MAX_ITERATIONS,
};
use crate::solver::rule_laws::{lemma_run_at, lemma_run_in_segment};
use crate::solver::SolveError;

verus! {

/// A line of crossed cells holds no filled cell.
pub proof fn lemma_count_none(line: Seq<CellState>, state: CellState)
    requires
        forall|i: int| 0 <= i < line.len() ==> line[i] != state,
    ensures
        count_in_line(line, state) == 0,
    decreases line.len(),
{
    if line.len() > 0 {
        lemma_count_none(line.drop_last(), state);
    }
}

/// A line that holds a state holds it in some cell.
pub proof fn lemma_count_some(line: Seq<CellState>, state: CellState)
    requires
        count_in_line(line, state) > 0,
    ensures
        exists|i: int| 0 <= i < line.len() && line[i] == state,
    decreases line.len(),
{
    if line.last() != state {
        lemma_count_some(line.drop_last(), state);
        let i = choose|i: int| 0 <= i < line.drop_last().len() && line.drop_last()[i] == state;
        assert(line[i] == state);
    } else {
        assert(line[line.len() - 1] == state);
    }
}

/// A line that keeps the decided cells of another holds at least as many filled cells.
pub proof fn lemma_count_kept(line: Seq<CellState>, config: Seq<CellState>)
    requires
        agrees(line, config),
    ensures
        count_in_line(line, CellState::Filled) <= count_in_line(config, CellState::Filled),
    decreases line.len(),
{
    if line.len() > 0 {
        let a = line.drop_last();
        let b = config.drop_last();
        assert(agrees(a, b)) by {
            assert forall|i: int| 0 <= i < a.len() && a[i] != CellState::Empty implies #[trigger] b[i]
                == a[i] by {
                assert(config[i] == line[i]);
            }
        }
        lemma_count_kept(a, b);
        assert(line.last() == CellState::Filled ==> config[line.len() - 1] == line[line.len() - 1]);
    }
}

/// `line` with the cells from `from` up to, not including, `to` filled.
pub open spec fn painted(line: Seq<CellState>, from: int, to: int) -> Seq<CellState> {
    Seq::new(
        line.len(),
        |i: int|
            if from <= i < to {
                CellState::Filled
            } else {
                line[i]
            },
    )
}

/// Filling cells that were not filled adds as many filled cells.
pub proof fn lemma_count_painted(line: Seq<CellState>, from: int, to: int)
    requires
        0 <= from <= to <= line.len(),
        forall|i: int| from <= i < to ==> line[i] != CellState::Filled,
    ensures
        count_in_line(painted(line, from, to), CellState::Filled) == count_in_line(
            line,
            CellState::Filled,
        ) + (to - from),
    decreases to - from,
{
    if from == to {
        assert(painted(line, from, to) =~= line);
    } else {
        lemma_count_painted(line, from, to - 1);
        let before = painted(line, from, to - 1);
        assert(painted(line, from, to) =~= before.update(to - 1, CellState::Filled));
        lemma_count_in_line_update(before, to - 1, CellState::Filled, CellState::Filled);
    }
}

/// A line that satisfies run lengths holds as many filled cells as the runs have.
pub proof fn lemma_render_count(len: int, blocks: Seq<usize>, starts: Seq<int>)
    requires
        0 <= len,
        valid_placement(len, blocks, starts),
    ensures
        count_in_line(render(len, blocks, starts), CellState::Filled) == sum_blocks(blocks),
    decreases blocks.len(),
{
    let drawn = render(len, blocks, starts);
    if blocks.len() == 0 {
        lemma_count_none(drawn, CellState::Filled);
    } else {
        let m = blocks.len() as int;
        let fewer = blocks.drop_last();
        let earlier = starts.drop_last();
        assert(valid_placement(len, fewer, earlier)) by {
            assert forall|k: int| 0 <= k < fewer.len() implies 0 <= #[trigger] earlier[k]
                && earlier[k] + fewer[k] <= len by {
                assert(0 <= starts[k] && starts[k] + blocks[k] <= len);
            }
            assert forall|k: int| 0 <= k < fewer.len() - 1 implies (#[trigger] earlier[k])
                + fewer[k] < earlier[k + 1] by {
                assert(starts[k] + blocks[k] < starts[k + 1]);
            }
        }
        lemma_render_count(len, fewer, earlier);
        let before = render(len, fewer, earlier);
        let first = starts[m - 1];
        let end = first + blocks[m - 1];
        assert(0 <= first && end <= len) by {
            assert(0 <= starts[m - 1] && starts[m - 1] + blocks[m - 1] <= len);
        }
        assert forall|i: int| 0 <= i < len implies covered(fewer, earlier, i) == covered_below(
            blocks,
            starts,
            m - 1,
            i,
        ) by {
            if covered(fewer, earlier, i) {
                let k = choose|k: int|
                    0 <= k < earlier.len() && k < fewer.len() && k < earlier.len() && (
                    #[trigger] earlier[k]) <= i && i < earlier[k] + fewer[k];
                assert(starts[k] <= i && i < starts[k] + blocks[k]);
            }
            if covered_below(blocks, starts, m - 1, i) {
                let k = choose|k: int|
                    0 <= k < m - 1 && k < blocks.len() && k < starts.len() && (
                    #[trigger] starts[k]) <= i && i < starts[k] + blocks[k];
                assert(earlier[k] <= i && i < earlier[k] + fewer[k]);
            }
        }
        assert forall|i: int| first <= i < end implies before[i] != CellState::Filled by {
            if covered(fewer, earlier, i) {
                let k = choose|k: int|
                    0 <= k < m - 1 && k < blocks.len() && k < starts.len() && (
                    #[trigger] starts[k]) <= i && i < starts[k] + blocks[k];
                lemma_runs_ordered(len, blocks, starts, k, m - 1);
            }
        }
        assert(drawn =~= painted(before, first, end)) by {
            assert forall|i: int| 0 <= i < len implies drawn[i] == painted(before, first, end)[i] by {
                if first <= i < end {
                    assert(starts[m - 1] <= i && i < starts[m - 1] + blocks[m - 1]);
                    assert(covered(blocks, starts, i));
                } else {
                    if covered(blocks, starts, i) {
                        let k = choose|k: int|
                            0 <= k < starts.len() && k < blocks.len() && k < starts.len() && (
                            #[trigger] starts[k]) <= i && i < starts[k] + blocks[k];
                        assert(k < m - 1);
                        assert(covered_below(blocks, starts, m - 1, i));
                    }
                    if covered_below(blocks, starts, m - 1, i) {
                        let k = choose|k: int|
                            0 <= k < m - 1 && k < blocks.len() && k < starts.len() && (
                            #[trigger] starts[k]) <= i && i < starts[k] + blocks[k];
                        assert(covered(blocks, starts, i));
                    }
                }
            }
        }
        lemma_count_painted(before, first, end);
    }
}

/// A stretch of filled cells lies inside one of the runs of its line.
pub proof fn lemma_run_covers(line: Seq<CellState>, from: int, size: int)
    requires
        line.len() <= usize::MAX,
        0 <= from,
        1 <= size,
        from + size <= line.len(),
        forall|i: int| from <= i < from + size ==> line[i] == CellState::Filled,
    ensures
        exists|r: int|
            0 <= r < filled_runs(line).len() && (#[trigger] filled_runs(line)[r]).0 <= from && from
                + size <= filled_runs(line)[r].0 + filled_runs(line)[r].1,
    decreases line.len(),
{
    let runs = filled_runs(line);
    let n = line.len() as int;
    let init = line.drop_last();
    let before = filled_runs(init);
    if from + size < n {
        assert forall|i: int| from <= i < from + size implies init[i] == CellState::Filled by {
            assert(line[i] == CellState::Filled);
        }
        lemma_run_covers(init, from, size);
        let r = choose|r: int|
            0 <= r < before.len() && (#[trigger] before[r]).0 <= from && from + size
                <= before[r].0 + before[r].1;
        if line.last() != CellState::Filled {
            assert(runs == before);
            assert(runs[r] == before[r]);
        } else if n >= 2 && line[n - 2] == CellState::Filled {
            let grown = (before.last().0, (before.last().1 + 1) as usize);
            assert(runs == before.drop_last().push(grown));
            if r == before.len() - 1 {
                lemma_filled_runs(init);
                assert(is_run(init, before[r]));
                assert(runs[r] == grown);
            } else {
                assert(runs[r] == before[r]);
            }
        } else {
            assert(runs == before.push(((n - 1) as usize, 1)));
            assert(runs[r] == before[r]);
        }
        assert(0 <= r < runs.len() && runs[r].0 <= from && from + size <= runs[r].0 + runs[r].1);
    } else {
        lemma_filled_runs(line);
        assert(line[n - 1] == CellState::Filled);
        let last = runs.len() - 1;
        assert(is_run(line, runs[last]));
        if runs[last].0 > from {
            assert(line[runs[last].0 - 1] != CellState::Filled);
            assert(line[runs[last].0 - 1] == CellState::Filled);
        }
        assert(0 <= last < runs.len() && runs[last].0 <= from && from + size <= runs[last].0
            + runs[last].1);
    }
}

/// Where a line has a completion, every run fits in a stretch of the line without a
/// crossed cell.
pub proof fn lemma_completion_fits(
    line: Seq<CellState>,
    blocks: Seq<usize>,
    config: Seq<CellState>,
    k: int,
)
    requires
        line.len() <= usize::MAX,
        is_completion(line, blocks, config),
        0 <= k < blocks.len(),
    ensures
        fits_somewhere(available_segments(line), blocks[k]),
{
    if blocks[k] >= 1 {
        let len = line.len() as int;
        let s = choose|s: Seq<int>|
            #![trigger render(len, blocks, s)]
            valid_placement(len, blocks, s) && config == render(len, blocks, s) && agrees(line, config);
        let marked = as_available(line);
        assert(0 <= s[k] && s[k] + blocks[k] <= len);
        assert forall|i: int| s[k] <= i < s[k] + blocks[k] implies marked[i] == CellState::Filled by {
            assert(covered(blocks, s, i));
            assert(config[i] == CellState::Filled);
        }
        lemma_run_covers(marked, s[k], blocks[k] as int);
        let r = choose|r: int|
            0 <= r < filled_runs(marked).len() && (#[trigger] filled_runs(marked)[r]).0 <= s[k] && s[k]
                + blocks[k] <= filled_runs(marked)[r].0 + filled_runs(marked)[r].1;
        assert(available_segments(line)[r].1 >= blocks[k]);
    }
}

/// The cells that are not crossed, and the crossed cells, are all the cells of a line.
pub proof fn lemma_count_available(line: Seq<CellState>)
    ensures
        count_in_line(as_available(line), CellState::Filled) + count_in_line(
            line,
            CellState::Crossed,
        ) == line.len(),
    decreases line.len(),
{
    if line.len() > 0 {
        lemma_count_available(line.drop_last());
        assert(as_available(line).drop_last() =~= as_available(line.drop_last()));
    }
}

/// A line whose filled cells are filled in another line holds no more filled cells.
pub proof fn lemma_count_within(line: Seq<CellState>, other: Seq<CellState>)
    requires
        line.len() == other.len(),
        forall|i: int|
            0 <= i < line.len() && line[i] == CellState::Filled ==> other[i] == CellState::Filled,
    ensures
        count_in_line(line, CellState::Filled) <= count_in_line(other, CellState::Filled),
    decreases line.len(),
{
    if line.len() > 0 {
        assert(other.drop_last().len() == line.drop_last().len());
        assert forall|i: int|
            0 <= i < line.drop_last().len() && line.drop_last()[i]
                == CellState::Filled implies other.drop_last()[i] == CellState::Filled by {
            assert(line[i] == CellState::Filled);
        }
        lemma_count_within(line.drop_last(), other.drop_last());
        assert(line[line.len() - 1] == CellState::Filled ==> other[line.len() - 1]
            == CellState::Filled);
    }
}

/// No run is longer than the longest.
pub proof fn lemma_longest(blocks: Seq<usize>, k: int)
    requires
        0 <= k < blocks.len(),
    ensures
        blocks[k] <= longest(blocks),
    decreases blocks.len(),
{
    if k < blocks.len() - 1 {
        lemma_longest(blocks.drop_last(), k);
    }
}

/// A run of filled cells of a line lies in one run of every completion.
pub proof fn lemma_run_in_one(
    line: Seq<CellState>,
    blocks: Seq<usize>,
    starts: Seq<int>,
    run: (usize, usize),
)
    requires
        line.len() <= usize::MAX,
        valid_placement(line.len() as int, blocks, starts),
        agrees(line, render(line.len() as int, blocks, starts)),
        is_run(line, run),
    ensures
        run.1 <= longest(blocks),
{
    let len = line.len() as int;
    let config = render(len, blocks, starts);
    assert(config[run.0 as int] == line[run.0 as int]);
    let k = lemma_run_at(len, blocks, starts, run.0 as int);
    lemma_longest(blocks, k);
    let past = starts[k] + blocks[k];
    if past < run.0 + run.1 {
        assert(config[past] == line[past]);
        let other = lemma_run_at(len, blocks, starts, past);
        if other > k {
            lemma_runs_ordered(len, blocks, starts, k, other);
        } else if other < k {
            lemma_runs_ordered(len, blocks, starts, other, k);
        }
    }
}

/// The stretches without a crossed cell that hold a filled cell are no more than the runs
/// of a completion: going left to right, each of them holds a run of its own.
pub proof fn lemma_busy(line: Seq<CellState>, blocks: Seq<usize>, starts: Seq<int>, n: int)
    requires
        line.len() <= usize::MAX,
        valid_placement(line.len() as int, blocks, starts),
        agrees(line, render(line.len() as int, blocks, starts)),
        0 <= n <= available_segments(line).len(),
    ensures
        busy_upto(line, available_segments(line), n) <= blocks.len(),
        busy_upto(line, available_segments(line), n) >= 1 ==> n >= 1 && exists|k: int|
            busy_upto(line, available_segments(line), n) - 1 <= k < blocks.len()
                && #[trigger] starts[k] < available_segments(line)[n - 1].0 + available_segments(
                line,
            )[n - 1].1,
    decreases n,
{
    let len = line.len() as int;
    let segments = available_segments(line);
    if n > 0 {
        lemma_busy(line, blocks, starts, n - 1);
        assert(as_available(line).len() == len);
        lemma_filled_runs(as_available(line));
        let segment = segments[n - 1];
        assert(is_run(as_available(line), segment));
        let end = segment.0 + segment.1;
        let before = busy_upto(line, segments, n - 1);
        if before >= 1 {
            assert(segments[n - 2].0 + segments[n - 2].1 < segments[n - 1].0);
        }
        if has_filled_in(line, segment.0 as int, end) {
            let cell = choose|c: int| segment.0 <= c < end && line[c] == CellState::Filled;
            let mine = lemma_run_in_segment(line, blocks, starts, segment, cell);
            if before >= 1 {
                let k = choose|k: int|
                    before - 1 <= k < blocks.len() && #[trigger] starts[k] < segments[n - 2].0
                        + segments[n - 2].1;
                if k > mine {
                    lemma_runs_ordered(len, blocks, starts, mine, k);
                }
                assert(k < mine);
            }
            assert(before <= mine < blocks.len() && starts[mine] < end);
        } else if before >= 1 {
            let k = choose|k: int|
                before - 1 <= k < blocks.len() && #[trigger] starts[k] < segments[n - 2].0
                    + segments[n - 2].1;
            assert(starts[k] < end);
        }
    }
}

/// The checks of the detector on one line are sound: a line that has a completion passes
/// them.
pub proof fn lemma_completion_passes(line: Seq<CellState>, blocks: Seq<usize>, config: Seq<CellState>)
    requires
        line.len() <= usize::MAX,
        is_completion(line, blocks, config),
    ensures
        line_basic_ok(line, blocks),
        line_blocks_possible(line, blocks),
{
    let len = line.len() as int;
    let s = choose|s: Seq<int>|
        #![trigger render(len, blocks, s)]
        valid_placement(len, blocks, s) && config == render(len, blocks, s) && agrees(line, config);
    lemma_render_count(len, blocks, s);
    lemma_count_kept(line, config);
    if blocks.len() == 0 {
        if count_in_line(line, CellState::Filled) > 0 {
            lemma_count_some(line, CellState::Filled);
            let i = choose|i: int| 0 <= i < line.len() && line[i] == CellState::Filled;
            assert(config[i] == line[i]);
        }
    } else {
        assert forall|k: int| 0 <= k < blocks.len() implies fits_somewhere(
            available_segments(line),
            #[trigger] blocks[k],
        ) by {
            lemma_completion_fits(line, blocks, config, k);
        }
    }
    lemma_busy(line, blocks, s, available_segments(line).len() as int);
    assert(busy_segments(line) <= blocks.len());
    lemma_filled_runs(line);
    assert forall|i: int| 0 <= i < filled_runs(line).len() implies (#[trigger] filled_runs(
        line,
    )[i]).1 <= longest(blocks) by {
        lemma_run_in_one(line, blocks, s, filled_runs(line)[i]);
    }
    lemma_count_available(line);
    assert forall|i: int| 0 <= i < config.len() && config[i] == CellState::Filled implies as_available(
        line,
    )[i] == CellState::Filled by {
        if line[i] == CellState::Crossed {
            assert(config[i] == line[i]);
        }
    }
    lemma_count_within(config, as_available(line));
}

/// A row of a solution is a completion of the row of the grid that it completes.
pub proof fn lemma_row_completed(
    full: Seq<Seq<CellState>>,
    grid: Seq<Seq<CellState>>,
    k: Constraints,
    width: int,
    height: int,
    r: int,
)
    requires
        rectangular(grid, width, height),
        completes(full, grid, k, width, height),
        0 <= r < height,
    ensures
        is_completion(grid[r], k.row(r), full[r]),
{
    let blocks = k.row(r);
    assert(is_completion(full[r], blocks, full[r]));
    let len = full[r].len() as int;
    let s = choose|s: Seq<int>|
        #![trigger render(len, blocks, s)]
        valid_placement(len, blocks, s) && full[r] == render(len, blocks, s) && agrees(
            full[r],
            full[r],
        );
    assert(agrees(grid[r], full[r])) by {
        assert forall|i: int| 0 <= i < grid[r].len() && grid[r][i] != CellState::Empty implies
            #[trigger] full[r][i] == grid[r][i] by {
            assert(full[r][i] == grid[r][i]);
        }
    }
    assert(render(grid[r].len() as int, blocks, s) == full[r]);
}

/// A column of a solution is a completion of the column of the grid that it completes.
pub proof fn lemma_column_completed(
    full: Seq<Seq<CellState>>,
    grid: Seq<Seq<CellState>>,
    k: Constraints,
    width: int,
    height: int,
    c: int,
)
    requires
        rectangular(grid, width, height),
        completes(full, grid, k, width, height),
        0 <= c < width,
    ensures
        is_completion(column_of(grid, c), k.column(c), column_of(full, c)),
{
    let blocks = k.column(c);
    let line = column_of(grid, c);
    let done = column_of(full, c);
    assert(is_completion(done, blocks, done));
    let len = done.len() as int;
    let s = choose|s: Seq<int>|
        #![trigger render(len, blocks, s)]
        valid_placement(len, blocks, s) && done == render(len, blocks, s) && agrees(done, done);
    assert(agrees(line, done)) by {
        assert forall|i: int| 0 <= i < line.len() && line[i] != CellState::Empty implies
            #[trigger] done[i] == line[i] by {
            assert(full[i][c] == grid[i][c]);
        }
    }
    assert(render(line.len() as int, blocks, s) == done);
}

/// On a grid that has a solution, solving a row finds no fault.
pub proof fn lemma_row_without_fault(
    p: Progress,
    k: Constraints,
    width: int,
    height: int,
    row: int,
    full: Seq<Seq<CellState>>,
)
    requires
        rectangular(p.grid, width, height),
        0 <= row < height,
        p.error is None,
        completes(full, p.grid, k, width, height),
    ensures
        after_row(p, k, row).error is None,
{
    lemma_row_completed(full, p.grid, k, width, height, row);
}

/// On a grid that has a solution, solving a column finds no fault.
pub proof fn lemma_column_without_fault(
    p: Progress,
    k: Constraints,
    width: int,
    height: int,
    col: int,
    full: Seq<Seq<CellState>>,
)
    requires
        rectangular(p.grid, width, height),
        0 <= col < width,
        p.error is None,
        completes(full, p.grid, k, width, height),
    ensures
        after_column(p, k, col).error is None,
{
    lemma_column_completed(full, p.grid, k, width, height, col);
}

/// On a grid that has a solution, solving rows finds no fault and loses no solution.
pub proof fn lemma_rows_without_fault(
    p: Progress,
    k: Constraints,
    width: int,
    height: int,
    n: int,
    full: Seq<Seq<CellState>>,
)
    requires
        rectangular(p.grid, width, height),
        0 <= n <= height <= usize::MAX,
        0 <= width <= usize::MAX,
        p.error is None,
        completes(full, p.grid, k, width, height),
    ensures
        after_rows(p, k, n).error is None,
        rectangular(after_rows(p, k, n).grid, width, height),
        completes(full, after_rows(p, k, n).grid, k, width, height),
    decreases n,
{
    if n > 0 {
        lemma_rows_without_fault(p, k, width, height, n - 1, full);
        let mid = after_rows(p, k, n - 1);
        lemma_row_without_fault(mid, k, width, height, n - 1, full);
        lemma_after_row_advances(mid, k, width, height, n - 1);
    }
}

/// On a grid that has a solution, solving columns finds no fault and loses no solution.
pub proof fn lemma_columns_without_fault(
    p: Progress,
    k: Constraints,
    width: int,
    height: int,
    n: int,
    full: Seq<Seq<CellState>>,
)
    requires
        rectangular(p.grid, width, height),
        0 <= n <= width <= usize::MAX,
        0 <= height <= usize::MAX,
        p.error is None,
        completes(full, p.grid, k, width, height),
    ensures
        after_columns(p, k, n).error is None,
        rectangular(after_columns(p, k, n).grid, width, height),
        completes(full, after_columns(p, k, n).grid, k, width, height),
    decreases n,
{
    if n > 0 {
        lemma_columns_without_fault(p, k, width, height, n - 1, full);
        let mid = after_columns(p, k, n - 1);
        lemma_column_without_fault(mid, k, width, height, n - 1, full);
        lemma_after_column_advances(mid, k, width, height, n - 1);
    }
}

/// On a grid that has a solution, line solving has no fault but the limit on its sweeps.
pub proof fn lemma_passes_without_fault(
    grid: Seq<Seq<CellState>>,
    k: Constraints,
    width: int,
    height: int,
    limit: int,
    done: int,
    full: Seq<Seq<CellState>>,
)
    requires
        rectangular(grid, width, height),
        0 <= width <= usize::MAX,
        0 <= height <= usize::MAX,
        completes(full, grid, k, width, height),
    ensures
        after_passes(grid, k, width, height, limit, done).error is None || after_passes(
            grid,
            k,
            width,
            height,
            limit,
            done,
        ).error == Some(SolveError::IterationLimit),
    decreases limit - done,
{
    if done < limit {
        lemma_rows_without_fault(fresh(grid), k, width, height, height, full);
        let rows = after_rows(fresh(grid), k, height);
        lemma_columns_without_fault(rows, k, width, height, width, full);
        let swept = after_sweep(grid, k, width, height);
        if swept.log.len() > 0 {
            lemma_passes_without_fault(swept.grid, k, width, height, limit, done + 1, full);
        }
    }
}

/// The detector is sound: if it says no, no solution of the puzzle keeps what the grid has
/// decided.
pub proof fn lemma_detector_sound(
    grid: Seq<Seq<CellState>>,
    k: Constraints,
    width: int,
    height: int,
    full: Seq<Seq<CellState>>,
)
    requires
        rectangular(grid, width, height),
        0 <= width <= usize::MAX,
        0 <= height <= usize::MAX,
        !valid_state(grid, k, width, height),
    ensures
        !completes(full, grid, k, width, height),
{
    if completes(full, grid, k, width, height) {
        assert forall|r: int| 0 <= r < height implies line_basic_ok(#[trigger] grid[r], k.row(r))
            && line_blocks_possible(grid[r], k.row(r)) by {
            lemma_row_completed(full, grid, k, width, height, r);
            lemma_completion_passes(grid[r], k.row(r), full[r]);
        }
        assert forall|c: int| 0 <= c < width implies line_basic_ok(
            #[trigger] column_of(grid, c),
            k.column(c),
        ) && line_blocks_possible(column_of(grid, c), k.column(c)) by {
            lemma_column_completed(full, grid, k, width, height, c);
            lemma_completion_passes(column_of(grid, c), k.column(c), column_of(full, c));
        }
        assert(basic_ok(grid, k, width, height));
        assert(blocks_possible(grid, k, width, height));
        lemma_passes_without_fault(grid, k, width, height, MAX_ITERATIONS as int, 0, full);
    }
}

} // verus!
