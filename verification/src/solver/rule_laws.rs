//! Which of the line rules are sound: overlap, glue, mercury and punctuation decide a cell
//! only as every completion of the line has it. Edge forcing and joining decide cells that a
//! completion may have otherwise.

use vstd::prelude::*;

use crate::grid::constraints::sum_blocks;
use crate::grid::{count_in_line, CellState};
use crate::solver::completion::{agrees, covered, is_completion, render, valid_placement};
use crate::solver::detector_laws::{lemma_count_kept, lemma_render_count};
use crate::solver::line_rules::{
    as_available, available_segments, filled_runs, glue_found, glue_pair, glue_upto,
    is_run, lemma_filled_runs, lemma_overlap_filled, lemma_shortest, max_start,
    mercury_found, mercury_pair, mercury_upto, overlap_end, overlap_upto, puncturing_found,
    runs_match, shortest, undecided_in, walled_after, walled_before,
};

verus! {

/// What the undecided cells of a stretch are: cells of the stretch, undecided, each with the
/// given state.
pub proof fn lemma_undecided_in(
    line: Seq<CellState>,
    from: int,
    to: int,
    state: CellState,
    i: int,
)
    requires
        0 <= from,
        to <= line.len() <= usize::MAX,
        0 <= i < undecided_in(line, from, to, state).len(),
    ensures
        from <= undecided_in(line, from, to, state)[i].0 < to,
        line[undecided_in(line, from, to, state)[i].0 as int] == CellState::Empty,
        undecided_in(line, from, to, state)[i].1 == state,
    decreases to - from,
{
    if to > from {
        let before = undecided_in(line, from, to - 1, state);
        if i < before.len() {
            lemma_undecided_in(line, from, to - 1, state, i);
        }
    }
}

/// Overlap is sound: a cell that it fills is filled in every completion of the line.
pub proof fn lemma_overlap_sound(
    line: Seq<CellState>,
    blocks: Seq<usize>,
    n: int,
    config: Seq<CellState>,
    i: int,
)
    requires
        line.len() <= usize::MAX,
        is_completion(line, blocks, config),
        0 <= n <= blocks.len(),
        0 <= i < overlap_upto(line, blocks, n).len(),
    ensures
        overlap_upto(line, blocks, n)[i].0 < line.len(),
        overlap_upto(line, blocks, n)[i].1 == CellState::Filled,
        line[overlap_upto(line, blocks, n)[i].0 as int] == CellState::Empty,
        config[overlap_upto(line, blocks, n)[i].0 as int] == CellState::Filled,
    decreases n,
{
    let before = overlap_upto(line, blocks, n - 1);
    if i < before.len() {
        lemma_overlap_sound(line, blocks, n - 1, config, i);
    } else {
        let len = line.len() as int;
        let from = max_start(len, blocks, n - 1);
        let to = overlap_end(len, blocks, n - 1);
        crate::solver::line_rules::lemma_head_need_grows(blocks, n - 1, n - 1);
        lemma_undecided_in(line, from, to, CellState::Filled, i - before.len());
        let entry = undecided_in(line, from, to, CellState::Filled)[i - before.len()];
        assert(overlap_upto(line, blocks, n)[i] == entry);
        lemma_overlap_filled(line, blocks, n - 1, entry.0 as int, config);
    }
}

/// The run of a placement that a filled cell of its line belongs to.
pub proof fn lemma_run_at(len: int, blocks: Seq<usize>, starts: Seq<int>, cell: int) -> (k: int)
    requires
        valid_placement(len, blocks, starts),
        0 <= cell < len,
        render(len, blocks, starts)[cell] == CellState::Filled,
    ensures
        0 <= k < blocks.len(),
        starts[k] <= cell < starts[k] + blocks[k],
{
    assert(covered(blocks, starts, cell));
    choose|k: int|
        0 <= k < starts.len() && k < blocks.len() && k < starts.len() && (#[trigger] starts[k])
            <= cell && cell < starts[k] + blocks[k]
}

/// The cells of a run of a placement are filled.
pub proof fn lemma_run_filled(len: int, blocks: Seq<usize>, starts: Seq<int>, k: int, cell: int)
    requires
        valid_placement(len, blocks, starts),
        0 <= k < blocks.len(),
        starts[k] <= cell < starts[k] + blocks[k],
    ensures
        0 <= cell < len,
        render(len, blocks, starts)[cell] == CellState::Filled,
{
    assert(covered(blocks, starts, cell));
}

/// Glue of one run is sound.
pub proof fn lemma_glue_pair_sound(
    line: Seq<CellState>,
    blocks: Seq<usize>,
    config: Seq<CellState>,
    run: (usize, usize),
    i: int,
)
    requires
        line.len() <= usize::MAX,
        is_completion(line, blocks, config),
        is_run(line, run),
        0 <= i < glue_pair(line, run, shortest(blocks)).len(),
    ensures
        glue_pair(line, run, shortest(blocks))[i].0 < line.len(),
        glue_pair(line, run, shortest(blocks))[i].1 == CellState::Filled,
        config[glue_pair(line, run, shortest(blocks))[i].0 as int] == CellState::Filled,
{
    let len = line.len() as int;
    let size = shortest(blocks);
    let end = run.0 + run.1;
    let s = choose|s: Seq<int>|
        #![trigger render(len, blocks, s)]
        valid_placement(len, blocks, s) && config == render(len, blocks, s) && agrees(line, config);
    let left = if walled_after(line, end) && end >= size {
        undecided_in(line, end - size, run.0 as int, CellState::Filled)
    } else {
        Seq::empty()
    };
    let right = if walled_before(line, run.0 as int) && run.0 + size <= line.len() {
        undecided_in(line, end, run.0 + size, CellState::Filled)
    } else {
        Seq::empty()
    };
    assert(line[run.0 as int] == CellState::Filled);
    assert(line[end - 1] == CellState::Filled);
    assert(config[run.0 as int] == line[run.0 as int]);
    assert(config[end - 1] == line[end - 1]);
    if i < left.len() {
        lemma_undecided_in(line, end - size, run.0 as int, CellState::Filled, i);
        let cell = left[i].0 as int;
        assert(glue_pair(line, run, size)[i] == left[i]);
        let k = lemma_run_at(len, blocks, s, end - 1);
        lemma_shortest(blocks, k);
        if s[k] + blocks[k] > end {
            lemma_run_filled(len, blocks, s, k, end);
            assert(config[end] == line[end]);
        }
        lemma_run_filled(len, blocks, s, k, cell);
    } else {
        lemma_undecided_in(line, end, run.0 + size, CellState::Filled, i - left.len());
        let cell = right[i - left.len()].0 as int;
        assert(glue_pair(line, run, size)[i] == right[i - left.len()]);
        let k = lemma_run_at(len, blocks, s, run.0 as int);
        lemma_shortest(blocks, k);
        if s[k] < run.0 {
            lemma_run_filled(len, blocks, s, k, run.0 - 1);
            assert(config[run.0 - 1] == line[run.0 - 1]);
        }
        lemma_run_filled(len, blocks, s, k, cell);
    }
}

/// Glue of the first runs of a line is sound.
pub proof fn lemma_glue_upto_sound(
    line: Seq<CellState>,
    blocks: Seq<usize>,
    config: Seq<CellState>,
    m: int,
    i: int,
)
    requires
        line.len() <= usize::MAX,
        is_completion(line, blocks, config),
        0 <= m <= filled_runs(line).len(),
        0 <= i < glue_upto(line, filled_runs(line), shortest(blocks), m).len(),
    ensures
        glue_upto(line, filled_runs(line), shortest(blocks), m)[i].0 < line.len(),
        glue_upto(line, filled_runs(line), shortest(blocks), m)[i].1 == CellState::Filled,
        config[glue_upto(line, filled_runs(line), shortest(blocks), m)[i].0 as int]
            == CellState::Filled,
    decreases m,
{
    let runs = filled_runs(line);
    let size = shortest(blocks);
    let before = glue_upto(line, runs, size, m - 1);
    if i < before.len() {
        lemma_glue_upto_sound(line, blocks, config, m - 1, i);
    } else {
        lemma_filled_runs(line);
        assert(is_run(line, runs[m - 1]));
        lemma_glue_pair_sound(line, blocks, config, runs[m - 1], i - before.len());
    }
}

/// Glue is sound: a cell that it fills is filled in every completion of the line.
pub proof fn lemma_glue_sound(
    line: Seq<CellState>,
    blocks: Seq<usize>,
    config: Seq<CellState>,
    i: int,
)
    requires
        line.len() <= usize::MAX,
        is_completion(line, blocks, config),
        0 <= i < glue_found(line, blocks).len(),
    ensures
        glue_found(line, blocks)[i].0 < line.len(),
        glue_found(line, blocks)[i].1 == CellState::Filled,
        config[glue_found(line, blocks)[i].0 as int] == CellState::Filled,
{
    lemma_glue_upto_sound(line, blocks, config, filled_runs(line).len() as int, i);
}

/// A run of a completion that holds a cell of a stretch without a crossed cell lies in
/// that stretch.
pub proof fn lemma_run_in_segment(
    line: Seq<CellState>,
    blocks: Seq<usize>,
    starts: Seq<int>,
    segment: (usize, usize),
    cell: int,
) -> (k: int)
    requires
        line.len() <= usize::MAX,
        valid_placement(line.len() as int, blocks, starts),
        agrees(line, render(line.len() as int, blocks, starts)),
        is_run(as_available(line), segment),
        segment.0 <= cell < segment.0 + segment.1,
        line[cell] == CellState::Filled,
    ensures
        0 <= k < blocks.len(),
        starts[k] <= cell < starts[k] + blocks[k],
        segment.0 <= starts[k],
        starts[k] + blocks[k] <= segment.0 + segment.1,
{
    let len = line.len() as int;
    let config = render(len, blocks, starts);
    let end = segment.0 + segment.1;
    let marked = as_available(line);
    assert(marked.len() == len);
    assert(config[cell] == line[cell]);
    let k = lemma_run_at(len, blocks, starts, cell);
    if starts[k] < segment.0 {
        lemma_run_filled(len, blocks, starts, k, segment.0 - 1);
        assert(marked[segment.0 - 1] != CellState::Filled);
        assert(line[segment.0 - 1] == CellState::Crossed);
        assert(config[segment.0 - 1] == line[segment.0 - 1]);
    }
    if starts[k] + blocks[k] > end {
        lemma_run_filled(len, blocks, starts, k, end);
        assert(marked[end] != CellState::Filled);
        assert(line[end] == CellState::Crossed);
        assert(config[end] == line[end]);
    }
    k
}

/// Mercury on one stretch without a crossed cell is sound.
pub proof fn lemma_mercury_pair_sound(
    line: Seq<CellState>,
    blocks: Seq<usize>,
    config: Seq<CellState>,
    segment: (usize, usize),
    i: int,
)
    requires
        line.len() <= usize::MAX,
        is_completion(line, blocks, config),
        is_run(as_available(line), segment),
        0 <= i < mercury_pair(line, segment, shortest(blocks)).len(),
    ensures
        mercury_pair(line, segment, shortest(blocks))[i].0 < line.len(),
        mercury_pair(line, segment, shortest(blocks))[i].1 == CellState::Filled,
        config[mercury_pair(line, segment, shortest(blocks))[i].0 as int] == CellState::Filled,
{
    let len = line.len() as int;
    let size = shortest(blocks);
    let end = segment.0 + segment.1;
    let marked = as_available(line);
    let s = choose|s: Seq<int>|
        #![trigger render(len, blocks, s)]
        valid_placement(len, blocks, s) && config == render(len, blocks, s) && agrees(line, config);
    assert(marked.len() == len);
    lemma_undecided_in(line, end - size, segment.0 + size, CellState::Filled, i);
    let cell = mercury_pair(line, segment, size)[i].0 as int;
    let c = choose|c: int| segment.0 <= c < end && line[c] == CellState::Filled;
    assert(config[c] == line[c]);
    let k = lemma_run_at(len, blocks, s, c);
    lemma_shortest(blocks, k);
    if s[k] < segment.0 {
        lemma_run_filled(len, blocks, s, k, segment.0 - 1);
        assert(marked[segment.0 - 1] != CellState::Filled);
        assert(line[segment.0 - 1] == CellState::Crossed);
        assert(config[segment.0 - 1] == line[segment.0 - 1]);
    }
    if s[k] + blocks[k] > end {
        lemma_run_filled(len, blocks, s, k, end);
        assert(marked[end] != CellState::Filled);
        assert(line[end] == CellState::Crossed);
        assert(config[end] == line[end]);
    }
    lemma_run_filled(len, blocks, s, k, cell);
}

/// Mercury on the first stretches of a line is sound.
pub proof fn lemma_mercury_upto_sound(
    line: Seq<CellState>,
    blocks: Seq<usize>,
    config: Seq<CellState>,
    m: int,
    i: int,
)
    requires
        line.len() <= usize::MAX,
        is_completion(line, blocks, config),
        0 <= m <= available_segments(line).len(),
        0 <= i < mercury_upto(line, available_segments(line), shortest(blocks), m).len(),
    ensures
        mercury_upto(line, available_segments(line), shortest(blocks), m)[i].0 < line.len(),
        mercury_upto(line, available_segments(line), shortest(blocks), m)[i].1
            == CellState::Filled,
        config[mercury_upto(line, available_segments(line), shortest(blocks), m)[i].0 as int]
            == CellState::Filled,
    decreases m,
{
    let segments = available_segments(line);
    let size = shortest(blocks);
    let before = mercury_upto(line, segments, size, m - 1);
    if i < before.len() {
        lemma_mercury_upto_sound(line, blocks, config, m - 1, i);
    } else {
        assert(as_available(line).len() == line.len());
        lemma_filled_runs(as_available(line));
        assert(is_run(as_available(line), segments[m - 1]));
        lemma_mercury_pair_sound(line, blocks, config, segments[m - 1], i - before.len());
    }
}

/// Mercury is sound: a cell that it fills is filled in every completion of the line.
pub proof fn lemma_mercury_sound(
    line: Seq<CellState>,
    blocks: Seq<usize>,
    config: Seq<CellState>,
    i: int,
)
    requires
        line.len() <= usize::MAX,
        is_completion(line, blocks, config),
        0 <= i < mercury_found(line, blocks).len(),
    ensures
        mercury_found(line, blocks)[i].0 < line.len(),
        mercury_found(line, blocks)[i].1 == CellState::Filled,
        config[mercury_found(line, blocks)[i].0 as int] == CellState::Filled,
{
    lemma_mercury_upto_sound(line, blocks, config, available_segments(line).len() as int, i);
}

/// The cells of the runs `runs`, counted.
pub open spec fn runs_total(runs: Seq<(usize, usize)>) -> int
    decreases runs.len(),
{
    if runs.len() == 0 {
        0
    } else {
        runs_total(runs.drop_last()) + runs.last().1
    }
}

/// A line holds as many filled cells as its runs of filled cells have.
pub proof fn lemma_runs_total(line: Seq<CellState>)
    requires
        line.len() <= usize::MAX,
    ensures
        count_in_line(line, CellState::Filled) == runs_total(filled_runs(line)),
    decreases line.len(),
{
    if line.len() > 0 {
        let init = line.drop_last();
        let before = filled_runs(init);
        let n = line.len() as int;
        lemma_runs_total(init);
        lemma_filled_runs(init);
        if line.last() == CellState::Filled {
            if n >= 2 && line[n - 2] == CellState::Filled {
                assert(init.last() == line[n - 2]);
                let runs = filled_runs(line);
                assert(runs.drop_last() =~= before.drop_last());
                assert(before.last().0 + before.last().1 == n - 1);
            } else {
                let runs = filled_runs(line);
                assert(runs.drop_last() =~= before);
            }
        }
    }
}

/// Runs that have the run lengths of a line have as many cells as the run lengths ask for.
pub proof fn lemma_runs_match_total(runs: Seq<(usize, usize)>, blocks: Seq<usize>)
    requires
        runs_match(runs, blocks),
    ensures
        runs_total(runs) == sum_blocks(blocks),
    decreases runs.len(),
{
    if runs.len() > 0 {
        let fewer = runs.drop_last();
        let shorter = blocks.drop_last();
        assert(runs_match(fewer, shorter)) by {
            assert forall|i: int| 0 <= i < fewer.len() implies (#[trigger] fewer[i]).1
                == shorter[i] by {
                assert(runs[i].1 == blocks[i]);
            }
        }
        lemma_runs_match_total(fewer, shorter);
        assert(runs[runs.len() - 1].1 == blocks[runs.len() - 1]);
    }
}

/// Where one line keeps the filled cells of another and holds no more filled cells, both
/// have the same filled cells.
pub proof fn lemma_same_filled(line: Seq<CellState>, config: Seq<CellState>, i: int)
    requires
        agrees(line, config),
        count_in_line(line, CellState::Filled) == count_in_line(config, CellState::Filled),
        0 <= i < line.len(),
        config[i] == CellState::Filled,
    ensures
        line[i] == CellState::Filled,
    decreases line.len(),
{
    let a = line.drop_last();
    let b = config.drop_last();
    assert(agrees(a, b)) by {
        assert forall|j: int| 0 <= j < a.len() && a[j] != CellState::Empty implies #[trigger] b[j]
            == a[j] by {
            assert(config[j] == line[j]);
        }
    }
    lemma_count_kept(a, b);
    assert(line.last() == CellState::Filled ==> config[line.len() - 1] == line[line.len() - 1]);
    if i < line.len() - 1 {
        lemma_same_filled(a, b, i);
    }
}

/// Punctuation is sound: a cell that it crosses is crossed in every completion of the line.
pub proof fn lemma_puncturing_sound(
    line: Seq<CellState>,
    blocks: Seq<usize>,
    config: Seq<CellState>,
    i: int,
)
    requires
        line.len() <= usize::MAX,
        is_completion(line, blocks, config),
        0 <= i < puncturing_found(line, blocks).len(),
    ensures
        puncturing_found(line, blocks)[i].0 < line.len(),
        puncturing_found(line, blocks)[i].1 == CellState::Crossed,
        config[puncturing_found(line, blocks)[i].0 as int] == CellState::Crossed,
{
    let len = line.len() as int;
    lemma_undecided_in(line, 0, len, CellState::Crossed, i);
    let cell = puncturing_found(line, blocks)[i].0 as int;
    let s = choose|s: Seq<int>|
        #![trigger render(len, blocks, s)]
        valid_placement(len, blocks, s) && config == render(len, blocks, s) && agrees(line, config);
    lemma_render_count(len, blocks, s);
    lemma_runs_total(line);
    lemma_runs_match_total(filled_runs(line), blocks);
    if config[cell] == CellState::Filled {
        lemma_same_filled(line, config, cell);
    }
}

} // verus!
