//! Enumeration of the completions of one line.
//!
//! The runs are placed from left to right. A run is tried at every cell from the first free
//! one up to the last that leaves room for the runs after it, and only where the line allows
//! it: no crossed cell under the run, no filled cell right after it.

use vstd::prelude::*;

use crate::grid::CellState;
use crate::solver::completion::{
    agrees, covered, covered_below, enumerates, extends_placed, extension_of, ints,
    is_completion, lemma_between_runs, lemma_room_after, lemma_tail_need_bounds,
    partial_placement, render, tail_need, valid_placement,
};

verus! {

/// Whether a cell of `line` from `from` up to, not including, `to` is in state `state`.
pub fn contains_state(line: &[CellState], from: usize, to: usize, state: CellState) -> (found: bool)
    requires
        from <= to <= line@.len(),
    ensures
        found == exists|i: int| from <= i < to && line@[i] == state,
{
    let mut i: usize = from;
    while i < to
        invariant
            from <= i <= to <= line@.len(),
            forall|j: int| from <= j < i ==> line@[j] != state,
        decreases to - i,
    {
        if line[i] == state {
            return true;
        }
        i += 1;
    }
    false
}

/// Cells needed from the first cell of run `from` to the end of the last run, counting one
/// cell after every run; `None` where that number does not fit in a `usize`.
pub fn tail_cells(constraint: &[usize], from: usize) -> (need: Option<usize>)
    requires
        from <= constraint@.len(),
    ensures
        match need {
            Some(n) => n == tail_need(constraint@, from as int),
            None => tail_need(constraint@, from as int) > usize::MAX,
        },
{
    let mut need: usize = 0;
    let mut k: usize = constraint.len();
    while k > from
        invariant
            from <= k <= constraint@.len(),
            need == tail_need(constraint@, k as int),
        decreases k,
    {
        k -= 1;
        let block = constraint[k];
        if block == usize::MAX || block + 1 > usize::MAX - need {
            proof {
                lemma_tail_need_grows(constraint@, from as int, k as int);
            }
            return None;
        }
        need = need + block + 1;
    }
    Some(need)
}

/// Starting earlier never needs fewer cells.
pub proof fn lemma_tail_need_grows(blocks: Seq<usize>, from: int, k: int)
    requires
        0 <= from <= k,
    ensures
        tail_need(blocks, from) >= tail_need(blocks, k),
    decreases k - from,
{
    if from < k {
        lemma_tail_need_grows(blocks, from + 1, k);
        lemma_tail_need_bounds(blocks, from + 1);
    }
}

/// Whether `config` keeps every decided cell of `line`, as far as both reach.
pub fn keeps_decided(config: &[CellState], line: &[CellState]) -> (ok: bool)
    ensures
        ok == forall|i: int|
            0 <= i < config@.len() && i < line@.len() && line@[i] != CellState::Empty
                ==> config@[i] == line@[i],
        config@.len() == line@.len() ==> ok == agrees(line@, config@),
{
    let mut i: usize = 0;
    while i < config.len() && i < line.len()
        invariant
            i <= config@.len(),
            i <= line@.len(),
            forall|j: int| 0 <= j < i && line@[j] != CellState::Empty ==> config@[j] == line@[j],
        decreases config@.len() - i,
    {
        let fixed = line[i];
        if fixed != CellState::Empty && config[i] != fixed {
            return false;
        }
        i += 1;
    }
    true
}

/// Draws the line of `len` cells whose runs start at `starts`.
pub fn render_line(len: usize, constraint: &[usize], starts: &Vec<usize>) -> (config: Vec<CellState>)
    requires
        starts@.len() <= constraint@.len(),
        forall|k: int| 0 <= k < starts@.len() ==> starts@[k] + constraint@[k] <= len,
    ensures
        config@ == render(len as int, constraint@, ints(starts@)),
{
    let mut config: Vec<CellState> = Vec::new();
    let mut i: usize = 0;
    while i < len
        invariant
            i <= len,
            config@.len() == i,
            forall|j: int| 0 <= j < i ==> config@[j] == CellState::Crossed,
        decreases len - i,
    {
        config.push(CellState::Crossed);
        i += 1;
    }
    let ghost placed = ints(starts@);
    let mut k: usize = 0;
    while k < starts.len()
        invariant
            k <= starts@.len() <= constraint@.len(),
            placed == ints(starts@),
            forall|j: int| 0 <= j < starts@.len() ==> starts@[j] + constraint@[j] <= len,
            config@.len() == len,
            forall|j: int|
                0 <= j < len ==> (#[trigger] config@[j]) == if covered_below(
                    constraint@,
                    placed,
                    k as int,
                    j,
                ) {
                    CellState::Filled
                } else {
                    CellState::Crossed
                },
        decreases starts@.len() - k,
    {
        let first = starts[k];
        let end = first + constraint[k];
        let mut c: usize = first;
        while c < end
            invariant
                k < starts@.len() <= constraint@.len(),
                placed == ints(starts@),
                first == starts@[k as int],
                end == first + constraint@[k as int],
                first <= c <= end <= len,
                config@.len() == len,
                forall|j: int|
                    0 <= j < len ==> (#[trigger] config@[j]) == if covered_below(
                        constraint@,
                        placed,
                        k as int,
                        j,
                    ) || (first <= j < c) {
                        CellState::Filled
                    } else {
                        CellState::Crossed
                    },
            decreases end - c,
        {
            config.set(c, CellState::Filled);
            c += 1;
        }
        assert forall|j: int| 0 <= j < len implies (#[trigger] config@[j]) == if covered_below(
            constraint@,
            placed,
            k + 1,
            j,
        ) {
            CellState::Filled
        } else {
            CellState::Crossed
        } by {
            if first <= j < end {
                assert(placed[k as int] <= j && j < placed[k as int] + constraint@[k as int]);
            }
        }
        k += 1;
    }
    assert(config@ =~= render(len as int, constraint@, placed));
    config
}

/// `s` is a placement that the enumeration from `placed` and `start` has to produce.
pub open spec fn awaited(
    line: Seq<CellState>,
    blocks: Seq<usize>,
    placed: Seq<int>,
    start: int,
    s: Seq<int>,
) -> bool {
    &&& valid_placement(line.len() as int, blocks, s)
    &&& extends_placed(s, placed, start)
    &&& agrees(line, render(line.len() as int, blocks, s))
}

/// `config` is among `results`, at index `from` or later.
pub open spec fn holds_from(results: Seq<Vec<CellState>>, from: int, config: Seq<CellState>) -> bool {
    exists|i: int| 0 <= i && from <= i < results.len() && (#[trigger] results[i])@ == config
}

/// Every entry of `results` from index `from` on is a completion that starts as `placed`.
pub open spec fn all_extend(
    results: Seq<Vec<CellState>>,
    from: int,
    line: Seq<CellState>,
    blocks: Seq<usize>,
    placed: Seq<int>,
    start: int,
) -> bool {
    forall|i: int|
        from <= i < results.len() ==> extension_of(
            line,
            blocks,
            placed,
            start,
            (#[trigger] results[i])@,
        )
}

/// In a partial placement a placed run ends no later than a later placed run.
pub proof fn lemma_partial_ordered(
    len: int,
    blocks: Seq<usize>,
    placed: Seq<int>,
    start: int,
    j: int,
    k: int,
)
    requires
        partial_placement(len, blocks, placed, start),
        0 <= j <= k < placed.len(),
    ensures
        placed[j] + blocks[j] <= placed[k] + blocks[k],
    decreases k - j,
{
    if j < k {
        lemma_partial_ordered(len, blocks, placed, start, j + 1, k);
        assert(placed[j] + blocks[j] < placed[j + 1]);
    }
}

/// A partial placement of every run is a valid placement.
pub proof fn lemma_partial_complete(len: int, blocks: Seq<usize>, placed: Seq<int>, start: int)
    requires
        partial_placement(len, blocks, placed, start),
        placed.len() == blocks.len(),
    ensures
        valid_placement(len, blocks, placed),
{
    assert forall|k: int| 0 <= k < blocks.len() implies 0 <= #[trigger] placed[k] && placed[k]
        + blocks[k] <= len by {
        lemma_partial_ordered(len, blocks, placed, start, k, blocks.len() - 1);
    }
}

/// A completion that goes on from one more placed run goes on from the runs before it.
pub proof fn lemma_widen(
    line: Seq<CellState>,
    blocks: Seq<usize>,
    placed: Seq<int>,
    start: int,
    pos: int,
    next: int,
    config: Seq<CellState>,
)
    requires
        extension_of(line, blocks, placed.push(pos), next, config),
        start <= pos,
    ensures
        extension_of(line, blocks, placed, start, config),
{
    let len = line.len() as int;
    let longer = placed.push(pos);
    let s = choose|s: Seq<int>|
        #![trigger render(len, blocks, s)]
        valid_placement(len, blocks, s) && extends_placed(s, longer, next) && config == render(
            len,
            blocks,
            s,
        ) && agrees(line, config);
    assert(s.take(placed.len() as int) =~= placed) by {
        assert forall|j: int| 0 <= j < placed.len() implies s.take(placed.len() as int)[j]
            == placed[j] by {
            assert(s.take(longer.len() as int)[j] == longer[j]);
        }
    }
    assert(s[placed.len() as int] == pos) by {
        assert(s.take(longer.len() as int)[placed.len() as int] == longer[placed.len() as int]);
    }
    assert(extends_placed(s, placed, start));
}

/// A placement that is awaited stays awaited once its next run has been placed.
pub proof fn lemma_narrow(
    line: Seq<CellState>,
    blocks: Seq<usize>,
    placed: Seq<int>,
    start: int,
    s: Seq<int>,
    next: int,
)
    requires
        awaited(line, blocks, placed, start, s),
        placed.len() < blocks.len(),
        next == s[placed.len() as int] + blocks[placed.len() as int] + (if placed.len() + 1
            < blocks.len() {
            1int
        } else {
            0int
        }),
    ensures
        awaited(line, blocks, placed.push(s[placed.len() as int]), next, s),
{
    let k = placed.len() as int;
    let longer = placed.push(s[k]);
    assert(s.take(longer.len() as int) =~= longer) by {
        assert forall|j: int| 0 <= j < longer.len() implies s.take(longer.len() as int)[j]
            == longer[j] by {
            if j < k {
                assert(s.take(k)[j] == placed[j]);
            }
        }
    }
    if k + 1 < blocks.len() {
        assert(s[k] + blocks[k] < s[k + 1]);
    }
}

/// A cell under a run is drawn filled.
pub proof fn lemma_run_drawn_filled(len: int, blocks: Seq<usize>, s: Seq<int>, k: int, q: int)
    requires
        valid_placement(len, blocks, s),
        0 <= k < blocks.len(),
        s[k] <= q < s[k] + blocks[k],
    ensures
        0 <= q < len,
        render(len, blocks, s)[q] == CellState::Filled,
{
    assert(covered(blocks, s, q));
}

/// A cell between run `k` and run `k + 1` is drawn crossed; `k == -1` stands for the cells
/// before the first run.
pub proof fn lemma_gap_drawn_crossed(len: int, blocks: Seq<usize>, s: Seq<int>, k: int, q: int)
    requires
        valid_placement(len, blocks, s),
        -1 <= k < blocks.len(),
        0 <= q < len,
        k >= 0 ==> s[k] + blocks[k] <= q,
        k + 1 < blocks.len() ==> q < s[k + 1],
    ensures
        render(len, blocks, s)[q] == CellState::Crossed,
{
    lemma_between_runs(len, blocks, s, k, q);
}

/// What is among the results stays among them when more are added.
pub proof fn lemma_holds_later(
    earlier: Seq<Vec<CellState>>,
    later: Seq<Vec<CellState>>,
    from: int,
    config: Seq<CellState>,
)
    requires
        holds_from(earlier, from, config),
        earlier.len() <= later.len(),
        later.take(earlier.len() as int) == earlier,
    ensures
        holds_from(later, from, config),
{
    let i = choose|i: int|
        0 <= i && from <= i < earlier.len() && (#[trigger] earlier[i])@ == config;
    assert(later[i] == later.take(earlier.len() as int)[i]);
}

/// Adds to `results` every completion of `line` in which the first `block_index` runs start
/// at `starts` and the next run starts at `start_pos` or later.
///
/// With `eager` set, a run is no longer tried once a filled cell of the line would be left
/// uncovered before it; without it such arrangements are made and then dropped.
pub fn place_runs(
    line: &[CellState],
    constraint: &[usize],
    block_index: usize,
    start_pos: usize,
    eager: bool,
    starts: &mut Vec<usize>,
    results: &mut Vec<Vec<CellState>>,
)
    requires
        block_index <= constraint@.len(),
        old(starts)@.len() == block_index,
        partial_placement(
            line@.len() as int,
            constraint@,
            ints(old(starts)@),
            start_pos as int,
        ),
    ensures
        final(starts)@ == old(starts)@,
        final(results)@.len() >= old(results)@.len(),
        final(results)@.take(old(results)@.len() as int) == old(results)@,
        all_extend(
            final(results)@,
            old(results)@.len() as int,
            line@,
            constraint@,
            ints(old(starts)@),
            start_pos as int,
        ),
        forall|s: Seq<int>| #[trigger]
            awaited(line@, constraint@, ints(old(starts)@), start_pos as int, s) ==> holds_from(
                final(results)@,
                old(results)@.len() as int,
                render(line@.len() as int, constraint@, s),
            ),
    decreases constraint@.len() - block_index,
{
    let n = line.len();
    let m = constraint.len();
    let ghost placed = ints(starts@);
    let ghost len = n as int;
    let ghost blocks = constraint@;
    let ghost before = results@;
    let ghost from = results@.len() as int;
    if block_index >= m {
        proof {
            lemma_partial_complete(len, blocks, placed, start_pos as int);
            assert forall|k: int| 0 <= k < starts@.len() implies starts@[k] + constraint@[k]
                <= n by {
                assert(placed[k] == starts@[k]);
            }
        }
        let config = render_line(n, constraint, starts);
        let ok = keeps_decided(config.as_slice(), line);
        assert forall|s: Seq<int>| #[trigger]
            awaited(line@, blocks, placed, start_pos as int, s) implies s == placed by {
            assert(s.take(placed.len() as int) =~= s);
        }
        if ok {
            assert(extends_placed(placed, placed, start_pos as int)) by {
                assert(placed.take(placed.len() as int) =~= placed);
            }
            results.push(config);
            assert(results@.take(from) =~= before);
            assert(results@[from]@ == render(len, blocks, placed));
        }
        return ;
    }
    let block = constraint[block_index];
    proof {
        lemma_tail_need_bounds(blocks, block_index + 1);
    }
    let tail = match tail_cells(constraint, block_index + 1) {
        Some(t) => t,
        None => {
            assert forall|s: Seq<int>| #[trigger]
                awaited(line@, blocks, placed, start_pos as int, s) implies false by {
                lemma_room_after(len, blocks, s, block_index as int);
            }
            assert(results@.take(from) =~= before);
            return ;
        },
    };
    if block > n || tail > n - block || start_pos > n - block - tail {
        assert forall|s: Seq<int>| #[trigger]
            awaited(line@, blocks, placed, start_pos as int, s) implies false by {
            lemma_room_after(len, blocks, s, block_index as int);
        }
        assert(results@.take(from) =~= before);
        return ;
    }
    let max_pos = n - block - tail;
    let last = block_index + 1 >= m;
    let mut pos = start_pos;
    let mut stop = false;
    assert(results@.take(from) =~= before);
    while !stop
        invariant
            n == line@.len(),
            m == constraint@.len(),
            len == n as int,
            blocks == constraint@,
            placed == ints(old(starts)@),
            starts@ == old(starts)@,
            block_index < m,
            starts@.len() == block_index,
            placed.len() == block_index,
            block == constraint@[block_index as int],
            tail == tail_need(blocks, block_index + 1),
            last == (block_index + 1 >= m),
            !last ==> tail >= 1,
            max_pos == n - block - tail,
            start_pos <= pos <= max_pos,
            partial_placement(len, blocks, placed, start_pos as int),
            eager ==> forall|q: int| start_pos <= q < pos ==> line@[q] != CellState::Filled,
            stop ==> pos == max_pos || (eager && pos < n && line@[pos as int]
                == CellState::Filled),
            from == before.len(),
            before == old(results)@,
            results@.len() >= from,
            results@.take(from) == before,
            all_extend(results@, from, line@, blocks, placed, start_pos as int),
            forall|s: Seq<int>| #[trigger]
                awaited(line@, blocks, placed, start_pos as int, s) && s[block_index as int]
                    < pos + (if stop {
                    1int
                } else {
                    0int
                }) ==> holds_from(results@, from, render(len, blocks, s)),
        decreases max_pos - pos + (if stop {
            0int
        } else {
            1int
        }),
    {
        let ghost so_far = results@;
        let crossed_under = contains_state(line, pos, pos + block, CellState::Crossed);
        let filled_after = !last && line[pos + block] == CellState::Filled;
        if !crossed_under && !filled_after {
            let next = if last {
                pos + block
            } else {
                pos + block + 1
            };
            starts.push(pos);
            let ghost longer = ints(starts@);
            proof {
                assert(longer =~= placed.push(pos as int));
                assert forall|j: int| 0 <= j < longer.len() - 1 implies (#[trigger] longer[j])
                    + blocks[j] < longer[j + 1] by {
                    if j + 1 < placed.len() {
                        assert(placed[j] + blocks[j] < placed[j + 1]);
                    }
                }
                assert(partial_placement(len, blocks, longer, next as int));
            }
            place_runs(line, constraint, block_index + 1, next, eager, starts, results);
            starts.pop();
            proof {
                assert(starts@ =~= old(starts)@);
                assert(results@.take(from) =~= before) by {
                    assert(results@.take(so_far.len() as int) == so_far);
                    assert(results@.take(from) =~= so_far.take(from));
                }
                assert forall|i: int| from <= i < results@.len() implies extension_of(
                    line@,
                    blocks,
                    placed,
                    start_pos as int,
                    (#[trigger] results@[i])@,
                ) by {
                    if i < so_far.len() {
                        assert(results@[i] == results@.take(so_far.len() as int)[i]);
                    } else {
                        lemma_widen(
                            line@,
                            blocks,
                            placed,
                            start_pos as int,
                            pos as int,
                            next as int,
                            results@[i]@,
                        );
                    }
                }
                assert forall|s: Seq<int>| #[trigger]
                    awaited(line@, blocks, placed, start_pos as int, s) && s[block_index as int]
                        < pos + 1 implies holds_from(results@, from, render(len, blocks, s)) by {
                    let c = render(len, blocks, s);
                    if s[block_index as int] < pos {
                        lemma_holds_later(so_far, results@, from, c);
                    } else {
                        lemma_narrow(line@, blocks, placed, start_pos as int, s, next as int);
                        assert(holds_from(results@, so_far.len() as int, c));
                        let i = choose|i: int|
                            so_far.len() <= i < results@.len() && (#[trigger] results@[i])@ == c;
                        assert(from <= i);
                    }
                }
            }
        } else {
            assert forall|s: Seq<int>| #[trigger]
                awaited(line@, blocks, placed, start_pos as int, s) && s[block_index as int]
                    == pos implies false by {
                if crossed_under {
                    let q = choose|q: int|
                        pos <= q < pos + block && line@[q] == CellState::Crossed;
                    lemma_run_drawn_filled(len, blocks, s, block_index as int, q);
                } else {
                    lemma_gap_drawn_crossed(len, blocks, s, block_index as int, pos + block);
                }
            }
        }
        if pos == max_pos || (eager && pos < n && line[pos] == CellState::Filled) {
            stop = true;
        } else {
            pos += 1;
        }
    }
    assert forall|s: Seq<int>| #[trigger]
        awaited(line@, blocks, placed, start_pos as int, s) implies holds_from(
        results@,
        from,
        render(len, blocks, s),
    ) by {
        lemma_room_after(len, blocks, s, block_index as int);
        if s[block_index as int] > pos {
            if block_index > 0 {
                assert(s.take(placed.len() as int)[block_index - 1] == placed[block_index - 1]);
                assert(placed.last() == placed[block_index - 1]);
            }
            lemma_gap_drawn_crossed(len, blocks, s, block_index - 1, pos as int);
        }
    }
}

/// What the enumeration from the first run and the first cell gives: the completions of
/// the line, all of them and nothing else.
pub proof fn lemma_enumeration(line: Seq<CellState>, blocks: Seq<usize>, results: Seq<Vec<CellState>>)
    requires
        all_extend(results, 0, line, blocks, Seq::<int>::empty(), 0),
        forall|s: Seq<int>| #[trigger]
            awaited(line, blocks, Seq::<int>::empty(), 0, s) ==> holds_from(
                results,
                0,
                render(line.len() as int, blocks, s),
            ),
    ensures
        enumerates(results, line, blocks),
{
    let len = line.len() as int;
    let none = Seq::<int>::empty();
    assert forall|i: int| 0 <= i < results.len() implies is_completion(
        line,
        blocks,
        (#[trigger] results[i])@,
    ) by {
        assert(extension_of(line, blocks, none, 0, results[i]@));
    }
    assert forall|c: Seq<CellState>| #[trigger]
        is_completion(line, blocks, c) implies exists|i: int|
        0 <= i < results.len() && (#[trigger] results[i])@ == c by {
        let s = choose|s: Seq<int>|
            #![trigger render(len, blocks, s)]
            valid_placement(len, blocks, s) && c == render(len, blocks, s) && agrees(line, c);
        assert(s.take(0) =~= none);
        assert(awaited(line, blocks, none, 0, s));
        assert(holds_from(results, 0, c));
    }
}

} // verus!
