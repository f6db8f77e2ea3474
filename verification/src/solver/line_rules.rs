//! Deductions on one line that need no enumeration: overlap, edge forcing, glue, mercury,
//! joining and punctuation.

use vstd::prelude::*;

use crate::grid::CellState;
use crate::solver::completion::{
    agrees, covered, head_need, is_completion, lemma_room_after, lemma_room_before, render,
    tail_need, valid_placement,
};
use crate::solver::enumerate::{contains_state, tail_cells};

verus! {

/// The undecided cells of `line` from `from` up to, not including, `to`, by position, each
/// with `state`.
pub open spec fn undecided_in(line: Seq<CellState>, from: int, to: int, state: CellState) -> Seq<
    (usize, CellState),
>
    decreases to - from,
{
    if to <= from {
        Seq::empty()
    } else {
        let before = undecided_in(line, from, to - 1, state);
        if line[to - 1] == CellState::Empty {
            before.push(((to - 1) as usize, state))
        } else {
            before
        }
    }
}

/// The runs of filled cells of `line`, left to right, each as its first cell and its length.
pub open spec fn filled_runs(line: Seq<CellState>) -> Seq<(usize, usize)>
    decreases line.len(),
{
    if line.len() == 0 {
        Seq::empty()
    } else {
        let before = filled_runs(line.drop_last());
        if line.last() != CellState::Filled {
            before
        } else if line.len() >= 2 && line[line.len() - 2] == CellState::Filled {
            before.drop_last().push((before.last().0, (before.last().1 + 1) as usize))
        } else {
            before.push(((line.len() - 1) as usize, 1))
        }
    }
}

/// `run` is a run of filled cells of `line`: at least one cell long, inside the line, its
/// cells filled, and the cells next to it not filled.
pub open spec fn is_run(line: Seq<CellState>, run: (usize, usize)) -> bool {
    &&& 1 <= run.1
    &&& run.0 + run.1 <= line.len()
    &&& forall|c: int| run.0 <= c < run.0 + run.1 ==> line[c] == CellState::Filled
    &&& run.0 > 0 ==> line[run.0 - 1] != CellState::Filled
    &&& run.0 + run.1 < line.len() ==> line[run.0 + run.1] != CellState::Filled
}

/// The runs come left to right, and no two of them touch.
pub open spec fn runs_in_order(runs: Seq<(usize, usize)>) -> bool {
    forall|i: int| 0 <= i < runs.len() - 1 ==> (#[trigger] runs[i]).0 + runs[i].1 < runs[i + 1].0
}

/// A run of a line is a run of the line with one more cell, unless the new cell is filled
/// and follows the run.
pub proof fn lemma_run_kept(line: Seq<CellState>, run: (usize, usize))
    requires
        line.len() > 0,
        is_run(line.drop_last(), run),
        run.0 + run.1 < line.len() - 1 || line.last() != CellState::Filled,
    ensures
        is_run(line, run),
{
    let init = line.drop_last();
    assert forall|c: int| run.0 <= c < run.0 + run.1 implies line[c] == CellState::Filled by {
        assert(init[c] == line[c]);
    }
    if run.0 > 0 {
        assert(init[run.0 - 1] == line[run.0 - 1]);
    }
    if run.0 + run.1 < line.len() - 1 {
        assert(init[run.0 + run.1] == line[run.0 + run.1]);
    }
}

/// A run that ends where a line ends is one cell longer in the line with one more filled
/// cell.
pub proof fn lemma_run_grown(line: Seq<CellState>, run: (usize, usize))
    requires
        0 < line.len() <= usize::MAX,
        is_run(line.drop_last(), run),
        run.0 + run.1 == line.len() - 1,
        line.last() == CellState::Filled,
    ensures
        is_run(line, (run.0, (run.1 + 1) as usize)),
{
    let init = line.drop_last();
    assert forall|c: int| run.0 <= c < run.0 + run.1 + 1 implies line[c]
        == CellState::Filled by {
        if c < line.len() - 1 {
            assert(init[c] == line[c]);
        }
    }
    if run.0 > 0 {
        assert(init[run.0 - 1] == line[run.0 - 1]);
    }
}

/// What the runs of a line are: each is a run of filled cells, they come left to right, and
/// the last of them ends at the end of the line exactly when the last cell is filled.
pub proof fn lemma_filled_runs(line: Seq<CellState>)
    requires
        line.len() <= usize::MAX,
    ensures
        forall|i: int| 0 <= i < filled_runs(line).len() ==> is_run(line, #[trigger] filled_runs(line)[i]),
        runs_in_order(filled_runs(line)),
        (line.len() > 0 && line.last() == CellState::Filled) ==> filled_runs(line).len() > 0
            && filled_runs(line).last().0 + filled_runs(line).last().1 == line.len(),
        (filled_runs(line).len() > 0 && (line.len() == 0 || line.last() != CellState::Filled))
            ==> filled_runs(line).last().0 + filled_runs(line).last().1 < line.len(),
    decreases line.len(),
{
    let runs = filled_runs(line);
    if line.len() > 0 {
        let init = line.drop_last();
        let before = filled_runs(init);
        let n = line.len() as int;
        lemma_filled_runs(init);
        if n >= 2 {
            assert(init.last() == line[n - 2]);
        }
        if line.last() != CellState::Filled {
            assert forall|i: int| 0 <= i < runs.len() implies is_run(line, #[trigger] runs[i]) by {
                assert(is_run(init, before[i]));
                lemma_run_kept(line, before[i]);
            }
        } else if n >= 2 && line[n - 2] == CellState::Filled {
            let last = before.last();
            assert(is_run(init, before[before.len() - 1]));
            assert forall|i: int| 0 <= i < runs.len() implies is_run(line, #[trigger] runs[i]) by {
                if i < runs.len() - 1 {
                    assert(runs[i] == before[i]);
                    assert(is_run(init, before[i]));
                    assert(before[i].0 + before[i].1 < before[i + 1].0);
                    assert(is_run(init, before[i + 1]));
                    lemma_run_kept(line, before[i]);
                } else {
                    lemma_run_grown(line, last);
                }
            }
            assert forall|i: int| 0 <= i < runs.len() - 1 implies (#[trigger] runs[i]).0
                + runs[i].1 < runs[i + 1].0 by {
                assert(runs[i] == before[i]);
                assert(before[i].0 + before[i].1 < before[i + 1].0);
            }
        } else {
            assert forall|i: int| 0 <= i < runs.len() implies is_run(line, #[trigger] runs[i]) by {
                if i < before.len() {
                    assert(runs[i] == before[i]);
                    assert(is_run(init, before[i]));
                    if i < before.len() - 1 {
                        assert(before[i].0 + before[i].1 < before[i + 1].0);
                        assert(is_run(init, before[i + 1]));
                    }
                    lemma_run_kept(line, before[i]);
                } else {
                    if n >= 2 {
                        assert(line[n - 2] != CellState::Filled);
                    }
                }
            }
            assert forall|i: int| 0 <= i < runs.len() - 1 implies (#[trigger] runs[i]).0
                + runs[i].1 < runs[i + 1].0 by {
                if i < before.len() - 1 {
                    assert(runs[i] == before[i]);
                    assert(runs[i + 1] == before[i + 1]);
                    assert(before[i].0 + before[i].1 < before[i + 1].0);
                } else {
                    assert(is_run(init, before[i]));
                }
            }
        }
    }
}

/// The runs of filled cells of `line`, left to right, each as its first cell and its length.
pub fn filled_blocks(line: &[CellState]) -> (blocks: Vec<(usize, usize)>)
    ensures
        blocks@ == filled_runs(line@),
{
    let mut blocks: Vec<(usize, usize)> = Vec::new();
    let mut in_block = false;
    let mut block_start: usize = 0;
    let mut block_size: usize = 0;
    let mut i: usize = 0;
    while i < line.len()
        invariant
            i <= line@.len(),
            in_block == (i > 0 && line@[i - 1] == CellState::Filled),
            in_block ==> block_start + block_size == i && block_size >= 1,
            filled_runs(line@.take(i as int)) == if in_block {
                blocks@.push((block_start, block_size))
            } else {
                blocks@
            },
        decreases line@.len() - i,
    {
        proof {
            let longer = line@.take(i + 1);
            assert(longer.drop_last() =~= line@.take(i as int));
            assert(longer.last() == line@[i as int]);
            if i > 0 {
                assert(longer[longer.len() - 2] == line@[i - 1]);
            }
            if in_block {
                assert(blocks@.push((block_start, block_size)).drop_last() =~= blocks@);
            }
        }
        if line[i] == CellState::Filled {
            if !in_block {
                in_block = true;
                block_start = i;
                block_size = 1;
            } else {
                block_size += 1;
            }
        } else if in_block {
            blocks.push((block_start, block_size));
            in_block = false;
        }
        i += 1;
    }
    assert(line@.take(line@.len() as int) =~= line@);
    if in_block {
        blocks.push((block_start, block_size));
    }
    blocks
}

/// Adds to `out` the undecided cells of `line` from `from` up to, not including, `to`, each
/// with `state`.
pub fn collect_undecided(
    line: &[CellState],
    from: usize,
    to: usize,
    state: CellState,
    out: &mut Vec<(usize, CellState)>,
)
    requires
        to <= line@.len(),
    ensures
        final(out)@ == old(out)@ + undecided_in(line@, from as int, to as int, state),
{
    let mut i: usize = from;
    assert(out@ =~= old(out)@ + undecided_in(line@, from as int, from as int, state));
    if from >= to {
        return ;
    }
    while i < to
        invariant
            from <= i <= to <= line@.len(),
            out@ == old(out)@ + undecided_in(line@, from as int, i as int, state),
        decreases to - i,
    {
        if line[i] == CellState::Empty {
            out.push((i, state));
        }
        proof {
            let before = undecided_in(line@, from as int, i as int, state);
            if line@[i as int] == CellState::Empty {
                assert(out@ =~= old(out)@ + before.push((i, state)));
            }
        }
        i += 1;
    }
}

/// First cell at which run `k` can start at the latest, in a line of `len` cells; zero
/// where the runs do not fit.
pub open spec fn max_start(len: int, blocks: Seq<usize>, k: int) -> int {
    let free = len - tail_need(blocks, k + 1) - blocks[k];
    if free < 0 {
        0
    } else {
        free
    }
}

/// First cell at which run `k` can start at the earliest.
pub open spec fn min_start(blocks: Seq<usize>, k: int) -> int {
    head_need(blocks, k)
}

/// End of the cells that run `k` covers when it starts at the earliest, cut at the end of
/// the line.
pub open spec fn overlap_end(len: int, blocks: Seq<usize>, k: int) -> int {
    let end = min_start(blocks, k) + blocks[k];
    if end > len {
        len
    } else {
        end
    }
}

/// The overlap deductions of the first `n` runs.
pub open spec fn overlap_upto(line: Seq<CellState>, blocks: Seq<usize>, n: int) -> Seq<
    (usize, CellState),
>
    decreases n,
{
    if n <= 0 {
        Seq::empty()
    } else {
        overlap_upto(line, blocks, n - 1) + undecided_in(
            line,
            max_start(line.len() as int, blocks, n - 1),
            overlap_end(line.len() as int, blocks, n - 1),
            CellState::Filled,
        )
    }
}

/// Overlap: for every run, the undecided cells that the run covers both when it starts at
/// the earliest and when it starts at the latest are filled.
pub open spec fn overlap_found(line: Seq<CellState>, blocks: Seq<usize>) -> Seq<(usize, CellState)> {
    overlap_upto(line, blocks, blocks.len() as int)
}

/// A cell that run `k` covers both when it starts at the earliest and when it starts at the
/// latest is filled in every completion.
pub proof fn lemma_overlap_filled(
    line: Seq<CellState>,
    blocks: Seq<usize>,
    k: int,
    pos: int,
    config: Seq<CellState>,
)
    requires
        is_completion(line, blocks, config),
        0 <= k < blocks.len(),
        max_start(line.len() as int, blocks, k) <= pos < min_start(blocks, k) + blocks[k],
    ensures
        0 <= pos < line.len(),
        config[pos] == CellState::Filled,
{
    let len = line.len() as int;
    let s = choose|s: Seq<int>|
        #![trigger render(len, blocks, s)]
        valid_placement(len, blocks, s) && config == render(len, blocks, s) && agrees(line, config);
    lemma_room_after(len, blocks, s, k);
    lemma_room_before(len, blocks, s, k);
    assert(s[k] <= pos && pos < s[k] + blocks[k]);
    assert(covered(blocks, s, pos));
}

/// Some cell of `line` from `from` up to, not including, `to` is filled.
pub open spec fn has_filled_in(line: Seq<CellState>, from: int, to: int) -> bool {
    exists|c: int| from <= c < to && line[c] == CellState::Filled
}

/// No cell of `line` from `from` up to, not including, `to` is crossed.
pub open spec fn no_crossed_in(line: Seq<CellState>, from: int, to: int) -> bool {
    forall|c: int| from <= c < to ==> line[c] != CellState::Crossed
}

/// Edge forcing at the start of the line: where a filled cell lies within the length of the
/// first run from the start, the first run is taken to start at the first cell.
pub open spec fn left_edge(line: Seq<CellState>, blocks: Seq<usize>) -> Seq<(usize, CellState)> {
    if blocks.len() == 0 {
        Seq::empty()
    } else {
        let first = blocks[0];
        let reach = if first < line.len() {
            first as int
        } else {
            line.len() as int
        };
        if has_filled_in(line, 0, reach) {
            let fills = undecided_in(line, 0, reach, CellState::Filled);
            if first < line.len() && line[first as int] == CellState::Empty {
                fills.push((first, CellState::Crossed))
            } else {
                fills
            }
        } else {
            Seq::empty()
        }
    }
}

/// Edge forcing at the end of the line: where a filled cell lies within the length of the
/// last run from the end, the last run is taken to end at the last cell.
pub open spec fn right_edge(line: Seq<CellState>, blocks: Seq<usize>) -> Seq<(usize, CellState)> {
    if blocks.len() == 0 {
        Seq::empty()
    } else {
        let last = blocks.last();
        let from = if last < line.len() {
            line.len() - last
        } else {
            0
        };
        if has_filled_in(line, from, line.len() as int) {
            let fills = undecided_in(line, from, line.len() as int, CellState::Filled);
            if last < line.len() && line[from - 1] == CellState::Empty {
                fills.push(((from - 1) as usize, CellState::Crossed))
            } else {
                fills
            }
        } else {
            Seq::empty()
        }
    }
}

/// Edge forcing at both ends of the line.
pub open spec fn edge_found(line: Seq<CellState>, blocks: Seq<usize>) -> Seq<(usize, CellState)> {
    left_edge(line, blocks) + right_edge(line, blocks)
}

/// `line` with every cell that is not crossed taken as filled.
pub open spec fn as_available(line: Seq<CellState>) -> Seq<CellState> {
    Seq::new(
        line.len(),
        |i: int|
            if line[i] == CellState::Crossed {
                CellState::Crossed
            } else {
                CellState::Filled
            },
    )
}

/// The stretches of `line` without a crossed cell, left to right, each as its first cell and
/// its length.
pub open spec fn available_segments(line: Seq<CellState>) -> Seq<(usize, usize)> {
    filled_runs(as_available(line))
}

/// The length of the shortest run; zero where there is no run.
pub open spec fn shortest(blocks: Seq<usize>) -> usize
    decreases blocks.len(),
{
    if blocks.len() == 0 {
        0
    } else if blocks.len() == 1 {
        blocks[0]
    } else if blocks.last() < shortest(blocks.drop_last()) {
        blocks.last()
    } else {
        shortest(blocks.drop_last())
    }
}

/// No run is shorter than the shortest.
pub proof fn lemma_shortest(blocks: Seq<usize>, k: int)
    requires
        0 <= k < blocks.len(),
    ensures
        shortest(blocks) <= blocks[k],
    decreases blocks.len(),
{
    if blocks.len() > 1 && k < blocks.len() - 1 {
        lemma_shortest(blocks.drop_last(), k);
    }
}

/// A run of filled cells that begins at `start` cannot reach further left: the line
/// begins there, or the cell before is crossed.
pub open spec fn walled_before(line: Seq<CellState>, start: int) -> bool {
    start == 0 || line[start - 1] == CellState::Crossed
}

/// A run of filled cells that ends before `end` cannot reach further right: the line ends
/// there, or the cell `end` is crossed.
pub open spec fn walled_after(line: Seq<CellState>, end: int) -> bool {
    end == line.len() || line[end] == CellState::Crossed
}

/// Glue of one run of filled cells to a run length that no run of the line falls short of:
/// where the run is shorter and cannot reach further right, it is the right end of its run
/// and is stretched to the left up to that length; where it cannot reach further left, it
/// is stretched to the right.
pub open spec fn glue_pair(line: Seq<CellState>, run: (usize, usize), size: usize) -> Seq<
    (usize, CellState),
> {
    if run.1 < size {
        let end = run.0 + run.1;
        let left = if walled_after(line, end) && end >= size {
            undecided_in(line, end - size, run.0 as int, CellState::Filled)
        } else {
            Seq::empty()
        };
        let right = if walled_before(line, run.0 as int) && run.0 + size <= line.len() {
            undecided_in(line, end, run.0 + size, CellState::Filled)
        } else {
            Seq::empty()
        };
        left + right
    } else {
        Seq::empty()
    }
}

/// Glue of the first `m` runs of filled cells to the run length `size`.
pub open spec fn glue_upto(line: Seq<CellState>, runs: Seq<(usize, usize)>, size: usize, m: int) -> Seq<
    (usize, CellState),
>
    decreases m,
{
    if m <= 0 {
        Seq::empty()
    } else {
        glue_upto(line, runs, size, m - 1) + glue_pair(line, runs[m - 1], size)
    }
}

/// Glue: a run of filled cells that can only be one end of its run is stretched, away from
/// the wall that it stands against, to the length of the shortest run of the line.
pub open spec fn glue_found(line: Seq<CellState>, blocks: Seq<usize>) -> Seq<(usize, CellState)> {
    glue_upto(line, filled_runs(line), shortest(blocks), filled_runs(line).len() as int)
}

/// Mercury on one stretch without a crossed cell and a run length that no run of the line
/// falls short of: where the stretch holds a filled cell, a run lies in it, and the cells
/// that a run of that length covers wherever it lies in the stretch are filled.
pub open spec fn mercury_pair(line: Seq<CellState>, segment: (usize, usize), size: usize) -> Seq<
    (usize, CellState),
> {
    let end = segment.0 + segment.1;
    if size <= segment.1 && has_filled_in(line, segment.0 as int, end) {
        undecided_in(line, end - size, segment.0 + size, CellState::Filled)
    } else {
        Seq::empty()
    }
}

/// Mercury on the first `m` stretches without a crossed cell.
pub open spec fn mercury_upto(
    line: Seq<CellState>,
    segments: Seq<(usize, usize)>,
    size: usize,
    m: int,
) -> Seq<(usize, CellState)>
    decreases m,
{
    if m <= 0 {
        Seq::empty()
    } else {
        mercury_upto(line, segments, size, m - 1) + mercury_pair(line, segments[m - 1], size)
    }
}

/// Mercury: overlap inside the crossed cells of the line. In every stretch without a
/// crossed cell that holds a filled cell, the first and the last place of the shortest run
/// are taken anew from the ends of the stretch, and the cells that both places cover are
/// filled.
pub open spec fn mercury_found(line: Seq<CellState>, blocks: Seq<usize>) -> Seq<(usize, CellState)> {
    mercury_upto(
        line,
        available_segments(line),
        shortest(blocks),
        available_segments(line).len() as int,
    )
}

/// Joining of the first `n` pairs of neighbouring runs.
pub open spec fn joining_upto(line: Seq<CellState>, runs: Seq<(usize, usize)>, n: int) -> Seq<
    (usize, CellState),
>
    decreases n,
{
    if n <= 0 {
        Seq::empty()
    } else {
        let before = joining_upto(line, runs, n - 1);
        let end = runs[n - 1].0 + runs[n - 1].1;
        if runs[n].0 == end + 1 && line[end] == CellState::Empty {
            before.push((end as usize, CellState::Filled))
        } else {
            before
        }
    }
}

/// Joining: where the line has more runs of filled cells than run lengths, an undecided
/// cell that alone parts two runs is filled.
pub open spec fn joining_found(line: Seq<CellState>, blocks: Seq<usize>) -> Seq<(usize, CellState)> {
    let runs = filled_runs(line);
    if runs.len() > blocks.len() {
        joining_upto(line, runs, runs.len() - 1)
    } else {
        Seq::empty()
    }
}

/// The runs have the lengths `blocks`, in order.
pub open spec fn runs_match(runs: Seq<(usize, usize)>, blocks: Seq<usize>) -> bool {
    &&& runs.len() == blocks.len()
    &&& forall|i: int| 0 <= i < runs.len() ==> (#[trigger] runs[i]).1 == blocks[i]
}

/// Punctuation: where the runs of filled cells have the run lengths already, every
/// undecided cell is crossed.
pub open spec fn puncturing_found(line: Seq<CellState>, blocks: Seq<usize>) -> Seq<
    (usize, CellState),
> {
    if runs_match(filled_runs(line), blocks) {
        undecided_in(line, 0, line.len() as int, CellState::Crossed)
    } else {
        Seq::empty()
    }
}

/// A rule that makes deductions on one line.
#[derive(Debug, Clone, Copy, PartialEq, Eq, Structural)]
pub enum LineRule {
    Overlap,
    EdgeForcing,
    Glue,
    Mercury,
    Joining,
    Puncturing,
}

/// The deductions of `rule` on `line`.
pub open spec fn rule_found(rule: LineRule, line: Seq<CellState>, blocks: Seq<usize>) -> Seq<
    (usize, CellState),
> {
    match rule {
        LineRule::Overlap => overlap_found(line, blocks),
        LineRule::EdgeForcing => edge_found(line, blocks),
        LineRule::Glue => glue_found(line, blocks),
        LineRule::Mercury => mercury_found(line, blocks),
        LineRule::Joining => joining_found(line, blocks),
        LineRule::Puncturing => puncturing_found(line, blocks),
    }
}

/// First cell at which run `block_idx` can start at the earliest, or `usize::MAX` where
/// that cell cannot be counted in a `usize`.
pub fn min_position(constraint: &[usize], block_idx: usize) -> (pos: usize)
    requires
        block_idx <= constraint@.len(),
    ensures
        pos == if min_start(constraint@, block_idx as int) <= usize::MAX {
            min_start(constraint@, block_idx as int)
        } else {
            usize::MAX as int
        },
{
    let mut pos: usize = 0;
    let mut i: usize = 0;
    while i < block_idx
        invariant
            i <= block_idx <= constraint@.len(),
            pos == head_need(constraint@, i as int),
        decreases block_idx - i,
    {
        let block = constraint[i];
        if block == usize::MAX || block + 1 > usize::MAX - pos {
            proof {
                lemma_head_need_grows(constraint@, i + 1, block_idx as int);
            }
            return usize::MAX;
        }
        pos = pos + block + 1;
        i += 1;
    }
    pos
}

/// Starting later never needs fewer cells before.
pub proof fn lemma_head_need_grows(blocks: Seq<usize>, j: int, k: int)
    requires
        0 <= j <= k,
    ensures
        0 <= head_need(blocks, j) <= head_need(blocks, k),
    decreases k,
{
    if j < k {
        lemma_head_need_grows(blocks, j, k - 1);
    } else {
        if j > 0 {
            lemma_head_need_grows(blocks, j - 1, j - 1);
        }
    }
}

/// First cell at which run `block_idx` can start at the latest in a line of `length` cells;
/// zero where the runs do not fit.
pub fn max_position(constraint: &[usize], block_idx: usize, length: usize) -> (pos: usize)
    requires
        block_idx < constraint@.len(),
    ensures
        pos == max_start(length as int, constraint@, block_idx as int),
{
    let blocks = constraint.len();
    match tail_cells(constraint, block_idx + 1) {
        None => 0,
        Some(tail) => {
            let block = constraint[block_idx];
            if tail > length || block > length - tail {
                0
            } else {
                length - tail - block
            }
        },
    }
}

/// Overlap on one line.
pub fn overlap_line(line: &[CellState], constraint: &[usize]) -> (found: Vec<(usize, CellState)>)
    ensures
        found@ == overlap_found(line@, constraint@),
{
    let length = line.len();
    let mut found: Vec<(usize, CellState)> = Vec::new();
    let mut block_idx: usize = 0;
    while block_idx < constraint.len()
        invariant
            block_idx <= constraint@.len(),
            length == line@.len(),
            found@ == overlap_upto(line@, constraint@, block_idx as int),
        decreases constraint@.len() - block_idx,
    {
        let block_size = constraint[block_idx];
        let min_pos = min_position(constraint, block_idx);
        let max_pos = max_position(constraint, block_idx, length);
        proof {
            lemma_head_need_grows(constraint@, block_idx as int, block_idx as int);
        }
        let end = if min_pos >= length || block_size >= length - min_pos {
            length
        } else {
            min_pos + block_size
        };
        collect_undecided(line, max_pos, end, CellState::Filled, &mut found);
        block_idx += 1;
    }
    found
}

/// Edge forcing on one line.
pub fn edge_line(line: &[CellState], constraint: &[usize]) -> (found: Vec<(usize, CellState)>)
    ensures
        found@ == edge_found(line@, constraint@),
{
    let length = line.len();
    let mut found: Vec<(usize, CellState)> = Vec::new();
    if constraint.len() == 0 {
        assert(found@ =~= edge_found(line@, constraint@));
        return found;
    }
    let first_block = constraint[0];
    let reach = if first_block < length {
        first_block
    } else {
        length
    };
    if contains_state(line, 0, reach, CellState::Filled) {
        collect_undecided(line, 0, reach, CellState::Filled, &mut found);
        if first_block < length && line[first_block] == CellState::Empty {
            found.push((first_block, CellState::Crossed));
        }
    }
    assert(found@ =~= left_edge(line@, constraint@));
    let last_block = constraint[constraint.len() - 1];
    let from = if last_block < length {
        length - last_block
    } else {
        0
    };
    let ghost left = found@;
    if contains_state(line, from, length, CellState::Filled) {
        collect_undecided(line, from, length, CellState::Filled, &mut found);
        if last_block < length && line[from - 1] == CellState::Empty {
            found.push((from - 1, CellState::Crossed));
        }
    }
    assert(found@ =~= left + right_edge(line@, constraint@));
    found
}

/// The length of the shortest run; zero where there is no run.
pub fn shortest_run(constraint: &[usize]) -> (size: usize)
    ensures
        size == shortest(constraint@),
{
    if constraint.len() == 0 {
        return 0;
    }
    let mut size = constraint[0];
    let mut i: usize = 1;
    assert(constraint@.take(1).len() == 1);
    while i < constraint.len()
        invariant
            1 <= i <= constraint@.len(),
            size == shortest(constraint@.take(i as int)),
        decreases constraint@.len() - i,
    {
        assert(constraint@.take(i + 1).drop_last() =~= constraint@.take(i as int));
        if constraint[i] < size {
            size = constraint[i];
        }
        i += 1;
    }
    assert(constraint@.take(constraint@.len() as int) =~= constraint@);
    size
}

/// The stretches of `line` without a crossed cell, left to right, each as its first cell and
/// its length.
pub fn free_stretches(line: &[CellState]) -> (segments: Vec<(usize, usize)>)
    ensures
        segments@ == available_segments(line@),
{
    let mut marked: Vec<CellState> = Vec::new();
    let mut i: usize = 0;
    while i < line.len()
        invariant
            i <= line@.len(),
            marked@.len() == i,
            forall|j: int| 0 <= j < i ==> marked@[j] == as_available(line@)[j],
        decreases line@.len() - i,
    {
        if line[i] == CellState::Crossed {
            marked.push(CellState::Crossed);
        } else {
            marked.push(CellState::Filled);
        }
        i += 1;
    }
    assert(marked@ =~= as_available(line@));
    filled_blocks(marked.as_slice())
}

/// Glue on one line.
pub fn glue_line(line: &[CellState], constraint: &[usize]) -> (found: Vec<(usize, CellState)>)
    ensures
        found@ == glue_found(line@, constraint@),
{
    let mut found: Vec<(usize, CellState)> = Vec::new();
    let runs = filled_blocks(line);
    let size = shortest_run(constraint);
    let length = line.len();
    proof {
        lemma_filled_runs(line@);
    }
    let mut b: usize = 0;
    while b < runs.len()
        invariant
            b <= runs@.len(),
            length == line@.len(),
            size == shortest(constraint@),
            runs@ == filled_runs(line@),
            forall|i: int| 0 <= i < runs@.len() ==> is_run(line@, #[trigger] runs@[i]),
            found@ == glue_upto(line@, runs@, size, b as int),
        decreases runs@.len() - b,
    {
        let (start, run_size) = runs[b];
        assert(is_run(line@, runs@[b as int]));
        let ghost so_far = found@;
        if run_size < size {
            let end = start + run_size;
            let walled_right = end == length || line[end] == CellState::Crossed;
            if walled_right && end >= size {
                collect_undecided(line, end - size, start, CellState::Filled, &mut found);
            }
            let walled_left = start == 0 || line[start - 1] == CellState::Crossed;
            if walled_left && size <= length - start {
                collect_undecided(line, end, start + size, CellState::Filled, &mut found);
            }
        }
        assert(found@ =~= so_far + glue_pair(line@, runs@[b as int], size));
        b += 1;
    }
    found
}

/// Mercury on one line.
pub fn mercury_line(line: &[CellState], constraint: &[usize]) -> (found: Vec<(usize, CellState)>)
    ensures
        found@ == mercury_found(line@, constraint@),
{
    let mut found: Vec<(usize, CellState)> = Vec::new();
    let segments = free_stretches(line);
    let size = shortest_run(constraint);
    let length = line.len();
    proof {
        assert(as_available(line@).len() == line@.len());
        lemma_filled_runs(as_available(line@));
    }
    let mut s: usize = 0;
    while s < segments.len()
        invariant
            s <= segments@.len(),
            length == line@.len(),
            as_available(line@).len() == line@.len(),
            size == shortest(constraint@),
            segments@ == available_segments(line@),
            forall|i: int|
                0 <= i < segments@.len() ==> is_run(as_available(line@), #[trigger] segments@[i]),
            found@ == mercury_upto(line@, segments@, size, s as int),
        decreases segments@.len() - s,
    {
        let (start, room) = segments[s];
        assert(is_run(as_available(line@), segments@[s as int]));
        let ghost so_far = found@;
        let end = start + room;
        if size <= room && contains_state(line, start, end, CellState::Filled) {
            collect_undecided(line, end - size, start + size, CellState::Filled, &mut found);
        }
        assert(found@ =~= so_far + mercury_pair(line@, segments@[s as int], size));
        s += 1;
    }
    found
}

/// Joining on one line.
pub fn joining_line(line: &[CellState], constraint: &[usize]) -> (found: Vec<(usize, CellState)>)
    ensures
        found@ == joining_found(line@, constraint@),
{
    let mut found: Vec<(usize, CellState)> = Vec::new();
    let blocks = filled_blocks(line);
    let length = line.len();
    proof {
        lemma_filled_runs(line@);
    }
    if blocks.len() > constraint.len() {
        let mut i: usize = 0;
        while i < blocks.len() - 1
            invariant
                i <= blocks@.len() - 1,
                blocks@ == filled_runs(line@),
                length == line@.len(),
                forall|j: int| 0 <= j < blocks@.len() ==> is_run(line@, #[trigger] blocks@[j]),
                runs_in_order(blocks@),
                found@ == joining_upto(line@, blocks@, i as int),
            decreases blocks@.len() - i,
        {
            let (start1, size1) = blocks[i];
            let (start2, _) = blocks[i + 1];
            assert(is_run(line@, blocks@[i as int]));
            assert(is_run(line@, blocks@[i + 1]));
            assert(blocks@[i as int].0 + blocks@[i as int].1 < blocks@[i + 1].0);
            let block1_end = start1 + size1;
            if start2 == block1_end + 1 && line[block1_end] == CellState::Empty {
                found.push((block1_end, CellState::Filled));
            }
            i += 1;
        }
    }
    found
}

/// Punctuation on one line.
pub fn puncturing_line(line: &[CellState], constraint: &[usize]) -> (found: Vec<(usize, CellState)>)
    ensures
        found@ == puncturing_found(line@, constraint@),
{
    let mut found: Vec<(usize, CellState)> = Vec::new();
    let blocks = filled_blocks(line);
    if blocks.len() == constraint.len() {
        let mut all_match = true;
        let mut i: usize = 0;
        while i < blocks.len() && all_match
            invariant
                i <= blocks@.len() == constraint@.len(),
                forall|j: int| 0 <= j < i ==> (#[trigger] blocks@[j]).1 == constraint@[j],
                !all_match ==> i < blocks@.len() && blocks@[i as int].1 != constraint@[i as int],
            decreases blocks@.len() - i + if all_match { 1int } else { 0int },
        {
            if blocks[i].1 != constraint[i] {
                all_match = false;
            } else {
                i += 1;
            }
        }
        if all_match {
            collect_undecided(line, 0, line.len(), CellState::Crossed, &mut found);
            assert(found@ =~= undecided_in(line@, 0, line@.len() as int, CellState::Crossed));
        }
    }
    found
}

/// The deductions of `rule` on one line.
pub fn apply_rule(rule: LineRule, line: &[CellState], constraint: &[usize]) -> (found: Vec<
    (usize, CellState),
>)
    ensures
        found@ == rule_found(rule, line@, constraint@),
{
    match rule {
        LineRule::Overlap => overlap_line(line, constraint),
        LineRule::EdgeForcing => edge_line(line, constraint),
        LineRule::Glue => glue_line(line, constraint),
        LineRule::Mercury => mercury_line(line, constraint),
        LineRule::Joining => joining_line(line, constraint),
        LineRule::Puncturing => puncturing_line(line, constraint),
    }
}

/// Every deduction of `found` decides its cell.
pub open spec fn decides(found: Seq<(usize, CellState)>) -> bool {
    forall|i: int| 0 <= i < found.len() ==> (#[trigger] found[i]).1 != CellState::Empty
}

/// Two lists that decide their cells, one after the other, decide their cells.
pub proof fn lemma_decides_concat(a: Seq<(usize, CellState)>, b: Seq<(usize, CellState)>)
    requires
        decides(a),
        decides(b),
    ensures
        decides(a + b),
{
    assert forall|i: int| 0 <= i < (a + b).len() implies (#[trigger] (a + b)[i]).1
        != CellState::Empty by {
        if i < a.len() {
            assert((a + b)[i] == a[i]);
        } else {
            assert((a + b)[i] == b[i - a.len()]);
        }
    }
}

/// The undecided cells of a stretch, given a state, are decided.
pub proof fn lemma_undecided_in_decides(line: Seq<CellState>, from: int, to: int, state: CellState)
    requires
        state != CellState::Empty,
    ensures
        decides(undecided_in(line, from, to, state)),
    decreases to - from,
{
    if to > from {
        lemma_undecided_in_decides(line, from, to - 1, state);
    }
}

/// Overlap decides its cells.
pub proof fn lemma_overlap_decides(line: Seq<CellState>, blocks: Seq<usize>, n: int)
    ensures
        decides(overlap_upto(line, blocks, n)),
    decreases n,
{
    if n > 0 {
        lemma_overlap_decides(line, blocks, n - 1);
        let window = undecided_in(
            line,
            max_start(line.len() as int, blocks, n - 1),
            overlap_end(line.len() as int, blocks, n - 1),
            CellState::Filled,
        );
        lemma_undecided_in_decides(
            line,
            max_start(line.len() as int, blocks, n - 1),
            overlap_end(line.len() as int, blocks, n - 1),
            CellState::Filled,
        );
        lemma_decides_concat(overlap_upto(line, blocks, n - 1), window);
    }
}

/// Glue decides its cells.
pub proof fn lemma_glue_decides(line: Seq<CellState>, runs: Seq<(usize, usize)>, size: usize, m: int)
    ensures
        decides(glue_upto(line, runs, size, m)),
    decreases m,
{
    if m > 0 {
        lemma_glue_decides(line, runs, size, m - 1);
        let run = runs[m - 1];
        let end = run.0 + run.1;
        lemma_undecided_in_decides(line, end - size, run.0 as int, CellState::Filled);
        lemma_undecided_in_decides(line, end, run.0 + size, CellState::Filled);
        let left = if walled_after(line, end) && end >= size {
            undecided_in(line, end - size, run.0 as int, CellState::Filled)
        } else {
            Seq::empty()
        };
        let right = if walled_before(line, run.0 as int) && run.0 + size <= line.len() {
            undecided_in(line, end, run.0 + size, CellState::Filled)
        } else {
            Seq::empty()
        };
        lemma_decides_concat(left, right);
        lemma_decides_concat(glue_upto(line, runs, size, m - 1), glue_pair(line, run, size));
    }
}

/// Mercury decides its cells.
pub proof fn lemma_mercury_decides(
    line: Seq<CellState>,
    segments: Seq<(usize, usize)>,
    size: usize,
    m: int,
)
    ensures
        decides(mercury_upto(line, segments, size, m)),
    decreases m,
{
    if m > 0 {
        lemma_mercury_decides(line, segments, size, m - 1);
        let segment = segments[m - 1];
        let end = segment.0 + segment.1;
        lemma_undecided_in_decides(line, end - size, segment.0 + size, CellState::Filled);
        lemma_decides_concat(
            mercury_upto(line, segments, size, m - 1),
            mercury_pair(line, segment, size),
        );
    }
}

/// Joining decides its cells.
pub proof fn lemma_joining_decides(line: Seq<CellState>, runs: Seq<(usize, usize)>, n: int)
    ensures
        decides(joining_upto(line, runs, n)),
    decreases n,
{
    if n > 0 {
        lemma_joining_decides(line, runs, n - 1);
    }
}

/// Every rule decides the cells that it speaks of.
pub proof fn lemma_rule_decides(rule: LineRule, line: Seq<CellState>, blocks: Seq<usize>)
    ensures
        decides(rule_found(rule, line, blocks)),
{
    match rule {
        LineRule::Overlap => {
            lemma_overlap_decides(line, blocks, blocks.len() as int);
        },
        LineRule::EdgeForcing => {
            if blocks.len() > 0 {
                let first = blocks[0];
                let reach = if first < line.len() {
                    first as int
                } else {
                    line.len() as int
                };
                lemma_undecided_in_decides(line, 0, reach, CellState::Filled);
                let last = blocks.last();
                let from = if last < line.len() {
                    line.len() - last
                } else {
                    0
                };
                lemma_undecided_in_decides(line, from, line.len() as int, CellState::Filled);
            }
            lemma_decides_concat(left_edge(line, blocks), right_edge(line, blocks));
        },
        LineRule::Glue => {
            lemma_glue_decides(
                line,
                filled_runs(line),
                shortest(blocks),
                filled_runs(line).len() as int,
            );
        },
        LineRule::Mercury => {
            lemma_mercury_decides(
                line,
                available_segments(line),
                shortest(blocks),
                available_segments(line).len() as int,
            );
        },
        LineRule::Joining => {
            lemma_joining_decides(line, filled_runs(line), filled_runs(line).len() - 1);
        },
        LineRule::Puncturing => {
            lemma_undecided_in_decides(line, 0, line.len() as int, CellState::Crossed);
        },
    }
}

} // verus!
