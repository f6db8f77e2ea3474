//! What it means for a line to satisfy its run lengths.
//!
//! A line of `len` cells satisfies the run lengths `blocks` when its filled cells are exactly
//! the cells of runs of those lengths, in that order, with at least one crossed cell between
//! two neighbouring runs. Such an arrangement is described by the first cell of every run.

use vstd::prelude::*;

use crate::grid::CellState;

verus! {

/// The run lengths `blocks`, started at the cells `starts`, lie inside a line of `len` cells,
/// in order, and no two of them touch.
pub open spec fn valid_placement(len: int, blocks: Seq<usize>, starts: Seq<int>) -> bool {
    &&& starts.len() == blocks.len()
    &&& forall|k: int|
        0 <= k < blocks.len() ==> 0 <= #[trigger] starts[k] && starts[k] + blocks[k] <= len
    &&& forall|k: int|
        0 <= k < blocks.len() - 1 ==> (#[trigger] starts[k]) + blocks[k] < starts[k + 1]
}

/// Cell `i` belongs to one of the first `upto` runs.
pub open spec fn covered_below(blocks: Seq<usize>, starts: Seq<int>, upto: int, i: int) -> bool {
    exists|k: int|
        0 <= k < upto && k < blocks.len() && k < starts.len() && (#[trigger] starts[k]) <= i && i
            < starts[k] + blocks[k]
}

/// Cell `i` belongs to one of the runs.
pub open spec fn covered(blocks: Seq<usize>, starts: Seq<int>, i: int) -> bool {
    covered_below(blocks, starts, starts.len() as int, i)
}

/// The line of `len` cells whose filled cells are those of the runs, every other cell crossed.
pub open spec fn render(len: int, blocks: Seq<usize>, starts: Seq<int>) -> Seq<CellState> {
    Seq::new(
        len as nat,
        |i: int|
            if covered(blocks, starts, i) {
                CellState::Filled
            } else {
                CellState::Crossed
            },
    )
}

/// `config` has the length of `line` and keeps every cell that `line` has decided.
pub open spec fn agrees(line: Seq<CellState>, config: Seq<CellState>) -> bool {
    &&& config.len() == line.len()
    &&& forall|i: int|
        0 <= i < line.len() && line[i] != CellState::Empty ==> #[trigger] config[i] == line[i]
}

/// `config` is a completion of `line`: it decides every cell, keeps what `line` has decided,
/// and satisfies the run lengths `blocks`.
pub open spec fn is_completion(line: Seq<CellState>, blocks: Seq<usize>, config: Seq<CellState>) -> bool {
    exists|starts: Seq<int>|
        #![trigger render(line.len() as int, blocks, starts)]
        {
            &&& valid_placement(line.len() as int, blocks, starts)
            &&& config == render(line.len() as int, blocks, starts)
            &&& agrees(line, config)
        }
}

/// `line` has at least one completion.
pub open spec fn feasible(line: Seq<CellState>, blocks: Seq<usize>) -> bool {
    exists|config: Seq<CellState>| is_completion(line, blocks, config)
}

/// Every completion of `line` has `state` at `pos`.
pub open spec fn all_completions_have(
    line: Seq<CellState>,
    blocks: Seq<usize>,
    pos: int,
    state: CellState,
) -> bool {
    forall|config: Seq<CellState>| #[trigger]
        is_completion(line, blocks, config) ==> config[pos] == state
}

/// A line can be solved when it has a completion. A line without runs has one when it
/// holds no filled cell.
pub open spec fn solvable(line: Seq<CellState>, blocks: Seq<usize>) -> bool {
    feasible(line, blocks)
}

/// A line without runs has a completion exactly when it holds no filled cell.
pub proof fn lemma_no_runs(line: Seq<CellState>, blocks: Seq<usize>)
    requires
        blocks.len() == 0,
    ensures
        feasible(line, blocks) <==> forall|i: int|
            0 <= i < line.len() ==> line[i] != CellState::Filled,
{
    let len = line.len() as int;
    let none = Seq::<int>::empty();
    let config = render(len, blocks, none);
    if forall|i: int| 0 <= i < line.len() ==> line[i] != CellState::Filled {
        assert(valid_placement(len, blocks, none));
        assert(agrees(line, config)) by {
            assert forall|i: int|
                0 <= i < line.len() && line[i] != CellState::Empty implies #[trigger] config[i]
                == line[i] by {
                assert(!covered(blocks, none, i));
            }
        }
        assert(is_completion(line, blocks, config));
    }
    if feasible(line, blocks) {
        let c = choose|c: Seq<CellState>| is_completion(line, blocks, c);
        let s = choose|s: Seq<int>|
            #![trigger render(len, blocks, s)]
            valid_placement(len, blocks, s) && c == render(len, blocks, s) && agrees(line, c);
        assert forall|i: int| 0 <= i < line.len() implies line[i] != CellState::Filled by {
            if line[i] == CellState::Filled {
                assert(c[i] == line[i]);
                assert(covered(blocks, s, i));
            }
        }
    }
}

/// What can be said of the undecided cell `pos` of `line`.
///
/// In a line without runs every undecided cell is crossed, as in its one completion.
/// Otherwise the cell gets the state that it has in every completion, if there is one such
/// state.
pub open spec fn deduced_at(line: Seq<CellState>, blocks: Seq<usize>, pos: int) -> Option<
    CellState,
> {
    if line[pos] != CellState::Empty {
        None
    } else if blocks.len() == 0 {
        Some(CellState::Crossed)
    } else if all_completions_have(line, blocks, pos, CellState::Filled) {
        Some(CellState::Filled)
    } else if all_completions_have(line, blocks, pos, CellState::Crossed) {
        Some(CellState::Crossed)
    } else {
        None
    }
}

/// The deductions on the first `n` cells of `line`, by position.
pub open spec fn deductions_upto(line: Seq<CellState>, blocks: Seq<usize>, n: int) -> Seq<
    (usize, CellState),
>
    decreases n,
{
    if n <= 0 {
        Seq::empty()
    } else {
        let before = deductions_upto(line, blocks, n - 1);
        match deduced_at(line, blocks, n - 1) {
            Some(state) => before.push(((n - 1) as usize, state)),
            None => before,
        }
    }
}

/// Every deduction on `line`, by position.
pub open spec fn line_deductions(line: Seq<CellState>, blocks: Seq<usize>) -> Seq<
    (usize, CellState),
> {
    deductions_upto(line, blocks, line.len() as int)
}

/// `line` with its deductions written in.
pub open spec fn line_after(line: Seq<CellState>, blocks: Seq<usize>) -> Seq<CellState> {
    Seq::new(
        line.len(),
        |i: int|
            match deduced_at(line, blocks, i) {
                Some(state) => state,
                None => line[i],
            },
    )
}

/// Cells needed from the first cell of run `from` to the end of the last run, counting one
/// cell after every run.
pub open spec fn tail_need(blocks: Seq<usize>, from: int) -> int
    decreases blocks.len() - from,
{
    if from >= blocks.len() {
        0
    } else {
        blocks[from] + 1 + tail_need(blocks, from + 1)
    }
}

/// Cells needed before the first cell of run `k`: the runs before it, and one cell after each.
pub open spec fn head_need(blocks: Seq<usize>, k: int) -> int
    decreases k,
{
    if k <= 0 {
        0
    } else {
        head_need(blocks, k - 1) + blocks[k - 1] + 1
    }
}

/// The views of `starts` as mathematical integers.
pub open spec fn ints(starts: Seq<usize>) -> Seq<int> {
    Seq::new(starts.len(), |k: int| starts[k] as int)
}

/// `placed` holds the first cells of the first runs of `blocks`, and a following run may
/// start at `start`.
pub open spec fn partial_placement(len: int, blocks: Seq<usize>, placed: Seq<int>, start: int) -> bool {
    &&& placed.len() <= blocks.len()
    &&& 0 <= start <= len
    &&& forall|j: int| 0 <= j < placed.len() ==> 0 <= #[trigger] placed[j]
    &&& forall|j: int|
        0 <= j < placed.len() - 1 ==> (#[trigger] placed[j]) + blocks[j] < placed[j + 1]
    &&& placed.len() > 0 ==> placed.last() + blocks[placed.len() - 1] + (if placed.len()
        < blocks.len() {
        1int
    } else {
        0int
    }) <= start
}

/// `starts` begins with `placed`, and its next run starts at `start` or later.
pub open spec fn extends_placed(starts: Seq<int>, placed: Seq<int>, start: int) -> bool {
    &&& placed.len() <= starts.len()
    &&& starts.take(placed.len() as int) == placed
    &&& placed.len() < starts.len() ==> starts[placed.len() as int] >= start
}

/// `config` is a completion of `line` whose first runs start at `placed` and whose next run
/// starts at `start` or later.
pub open spec fn extension_of(
    line: Seq<CellState>,
    blocks: Seq<usize>,
    placed: Seq<int>,
    start: int,
    config: Seq<CellState>,
) -> bool {
    exists|starts: Seq<int>|
        #![trigger render(line.len() as int, blocks, starts)]
        {
            &&& valid_placement(line.len() as int, blocks, starts)
            &&& extends_placed(starts, placed, start)
            &&& config == render(line.len() as int, blocks, starts)
            &&& agrees(line, config)
        }
}

/// `configs` holds the completions of `line`, all of them and nothing else.
pub open spec fn enumerates(configs: Seq<Vec<CellState>>, line: Seq<CellState>, blocks: Seq<usize>) -> bool {
    &&& forall|i: int| 0 <= i < configs.len() ==> is_completion(line, blocks, (#[trigger] configs[i])@)
    &&& forall|c: Seq<CellState>| #[trigger]
        is_completion(line, blocks, c) ==> exists|i: int|
            0 <= i < configs.len() && (#[trigger] configs[i])@ == c
}

/// In a valid placement a later run starts after the end of an earlier one.
pub proof fn lemma_runs_ordered(len: int, blocks: Seq<usize>, starts: Seq<int>, j: int, k: int)
    requires
        valid_placement(len, blocks, starts),
        0 <= j < k < blocks.len(),
    ensures
        starts[j] + blocks[j] < starts[k],
    decreases k - j,
{
    if j + 1 < k {
        lemma_runs_ordered(len, blocks, starts, j + 1, k);
        assert(starts[j] + blocks[j] < starts[j + 1]);
    }
}

/// A cell after the end of run `k` (or before every run, for `k == -1`) and before the
/// first cell of run `k + 1` (or after every run) belongs to no run.
pub proof fn lemma_between_runs(len: int, blocks: Seq<usize>, starts: Seq<int>, k: int, i: int)
    requires
        valid_placement(len, blocks, starts),
        -1 <= k < blocks.len(),
        k >= 0 ==> starts[k] + blocks[k] <= i,
        k + 1 < blocks.len() ==> i < starts[k + 1],
    ensures
        !covered(blocks, starts, i),
{
    assert forall|j: int| 0 <= j < blocks.len() implies !((#[trigger] starts[j]) <= i && i
        < starts[j] + blocks[j]) by {
        if j < k {
            lemma_runs_ordered(len, blocks, starts, j, k);
        } else if j > k + 1 {
            lemma_runs_ordered(len, blocks, starts, k + 1, j);
        }
    }
}

/// In a valid placement, run `k` leaves room for the runs after it.
pub proof fn lemma_room_after(len: int, blocks: Seq<usize>, starts: Seq<int>, k: int)
    requires
        valid_placement(len, blocks, starts),
        0 <= k < blocks.len(),
    ensures
        starts[k] + blocks[k] + tail_need(blocks, k + 1) <= len,
    decreases blocks.len() - k,
{
    if k + 1 < blocks.len() {
        lemma_room_after(len, blocks, starts, k + 1);
        assert(starts[k] + blocks[k] < starts[k + 1]);
    }
}

/// In a valid placement, run `k` leaves room for the runs before it.
pub proof fn lemma_room_before(len: int, blocks: Seq<usize>, starts: Seq<int>, k: int)
    requires
        valid_placement(len, blocks, starts),
        0 <= k < blocks.len(),
    ensures
        head_need(blocks, k) <= starts[k],
    decreases k,
{
    if k > 0 {
        lemma_room_before(len, blocks, starts, k - 1);
        assert(starts[k - 1] + blocks[k - 1] < starts[k]);
    }
}

/// The cells needed after a run are never negative, and at least one for every run.
pub proof fn lemma_tail_need_bounds(blocks: Seq<usize>, from: int)
    requires
        0 <= from,
    ensures
        tail_need(blocks, from) >= 0,
        from < blocks.len() ==> tail_need(blocks, from) >= blocks.len() - from,
        from >= blocks.len() ==> tail_need(blocks, from) == 0,
    decreases blocks.len() - from,
{
    if from < blocks.len() {
        lemma_tail_need_bounds(blocks, from + 1);
    }
}

} // verus!
