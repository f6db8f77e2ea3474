//! Solver for a single line that remembers the lines it has enumerated.

use vstd::prelude::*;

use crate::grid::constraints::{min_length, sum_blocks, Constraints};
use crate::grid::{copy_line, CellState};
use crate::solver::completion::{
    agrees, deductions_upto, enumerates, is_completion, lemma_room_after, line_deductions, render,
    solvable, tail_need, valid_placement,
};
use crate::solver::completion::{ints, partial_placement};
use crate::solver::enumerate::{
    all_extend, awaited, holds_from, keeps_decided, lemma_enumeration, place_runs,
};
use crate::solver::line_solver::{
    cross_undecided, lemma_completion_decided, lemma_enumeration_decides,
};
use crate::solver::SolveError;

verus! {

/// Number of the first `upto` of `configs` that have `state` at `pos`.
pub open spec fn count_configs_with(
    configs: Seq<Vec<CellState>>,
    upto: int,
    pos: int,
    state: CellState,
) -> int
    decreases upto,
{
    if upto <= 0 {
        0
    } else {
        count_configs_with(configs, upto - 1, pos, state) + if configs[upto - 1]@[pos] == state {
            1int
        } else {
            0int
        }
    }
}

/// The count reaches `upto` exactly when each of the first `upto` configurations has `state`
/// at `pos`.
pub proof fn lemma_count_configs_with(
    configs: Seq<Vec<CellState>>,
    upto: int,
    pos: int,
    state: CellState,
)
    requires
        0 <= upto <= configs.len(),
    ensures
        0 <= count_configs_with(configs, upto, pos, state) <= upto,
        count_configs_with(configs, upto, pos, state) == upto <==> forall|j: int|
            0 <= j < upto ==> (#[trigger] configs[j])@[pos] == state,
    decreases upto,
{
    if upto > 0 {
        lemma_count_configs_with(configs, upto - 1, pos, state);
        if count_configs_with(configs, upto, pos, state) == upto {
            assert forall|j: int| 0 <= j < upto implies (#[trigger] configs[j])@[pos]
                == state by {
                if j == upto - 1 {
                }
            }
        }
        if forall|j: int| 0 <= j < upto ==> (#[trigger] configs[j])@[pos] == state {
            assert(configs[upto - 1]@[pos] == state);
        }
    }
}

/// The cells needed from run `k` on are the runs from `k` on and one cell after each.
pub proof fn lemma_tail_need_sum(blocks: Seq<usize>, k: int)
    requires
        0 <= k <= blocks.len(),
    ensures
        tail_need(blocks, k) + sum_blocks(blocks.take(k)) + k == sum_blocks(blocks) + blocks.len(),
    decreases blocks.len() - k,
{
    if k == blocks.len() {
        assert(blocks.take(k) =~= blocks);
    } else {
        lemma_tail_need_sum(blocks, k + 1);
        assert(blocks.take(k + 1).drop_last() =~= blocks.take(k));
    }
}

/// A line with a completion is at least as long as its runs need.
pub proof fn lemma_completion_needs_room(
    line: Seq<CellState>,
    blocks: Seq<usize>,
    config: Seq<CellState>,
)
    requires
        is_completion(line, blocks, config),
    ensures
        min_length(blocks) <= line.len(),
{
    if blocks.len() > 0 {
        let len = line.len() as int;
        let s = choose|s: Seq<int>|
            #![trigger render(len, blocks, s)]
            valid_placement(len, blocks, s) && config == render(len, blocks, s) && agrees(
                line,
                config,
            );
        lemma_room_after(len, blocks, s, 0);
        lemma_tail_need_sum(blocks, 0);
        assert(blocks.take(0) =~= Seq::<usize>::empty());
        assert(tail_need(blocks, 0) == blocks[0] + 1 + tail_need(blocks, 1));
    }
}

/// Whether two lines hold the same cells.
pub fn same_cells(a: &[CellState], b: &[CellState]) -> (same: bool)
    ensures
        same == (a@ == b@),
{
    if a.len() != b.len() {
        return false;
    }
    let mut i: usize = 0;
    while i < a.len()
        invariant
            i <= a@.len(),
            a@.len() == b@.len(),
            forall|j: int| 0 <= j < i ==> a@[j] == b@[j],
        decreases a@.len() - i,
    {
        if a[i] != b[i] {
            return false;
        }
        i += 1;
    }
    assert(a@ =~= b@);
    true
}

/// Whether two lists hold the same run lengths.
pub fn same_numbers(a: &[usize], b: &[usize]) -> (same: bool)
    ensures
        same == (a@ == b@),
{
    if a.len() != b.len() {
        return false;
    }
    let mut i: usize = 0;
    while i < a.len()
        invariant
            i <= a@.len(),
            a@.len() == b@.len(),
            forall|j: int| 0 <= j < i ==> a@[j] == b@[j],
        decreases a@.len() - i,
    {
        if a[i] != b[i] {
            return false;
        }
        i += 1;
    }
    assert(a@ =~= b@);
    true
}

/// Copies a list of run lengths.
pub fn copy_numbers(list: &[usize]) -> (out: Vec<usize>)
    ensures
        out@ == list@,
{
    let mut out: Vec<usize> = Vec::new();
    let mut i: usize = 0;
    while i < list.len()
        invariant
            i <= list@.len(),
            out@ == list@.take(i as int),
        decreases list@.len() - i,
    {
        out.push(list[i]);
        i += 1;
    }
    out
}

/// A vector of `len` zeros.
fn zeros(len: usize) -> (out: Vec<usize>)
    ensures
        out@.len() == len,
        forall|i: int| 0 <= i < len ==> out@[i] == 0,
{
    let mut out: Vec<usize> = Vec::new();
    let mut i: usize = 0;
    while i < len
        invariant
            i <= len,
            out@.len() == i,
            forall|j: int| 0 <= j < i ==> out@[j] == 0,
        decreases len - i,
    {
        out.push(0);
        i += 1;
    }
    out
}

/// The completions of one line, kept for the next time the same line is asked for.
struct CacheEntry {
    line: Vec<CellState>,
    constraint: Vec<usize>,
    configs: Vec<Vec<CellState>>,
}

/// Solver for one line with a memory: the completions of every line that it has enumerated
/// are kept, and a line that comes again is not enumerated again.
pub struct OptimizedLineSolver {
    cache: Vec<CacheEntry>,
}

impl OptimizedLineSolver {
    /// What the memory holds is true: each entry lists the completions of its line.
    pub closed spec fn wf(&self) -> bool {
        forall|i: int|
            0 <= i < self.cache@.len() ==> enumerates(
                (#[trigger] self.cache@[i]).configs@,
                self.cache@[i].line@,
                self.cache@[i].constraint@,
            )
    }

    /// The lines in memory, each with its run lengths, oldest first.
    pub closed spec fn cached(&self) -> Seq<(Seq<CellState>, Seq<usize>)> {
        Seq::new(self.cache@.len(), |i: int| (self.cache@[i].line@, self.cache@[i].constraint@))
    }

    /// Makes a solver with an empty memory.
    pub fn new() -> (solver: OptimizedLineSolver)
        ensures
            solver.wf(),
            solver.cached() == Seq::<(Seq<CellState>, Seq<usize>)>::empty(),
    {
        let solver = OptimizedLineSolver { cache: Vec::new() };
        assert(solver.cached() =~= Seq::<(Seq<CellState>, Seq<usize>)>::empty());
        solver
    }

    /// Number of lines in memory.
    pub fn cache_len(&self) -> (n: usize)
        ensures
            n == self.cached().len(),
    {
        self.cache.len()
    }

    /// Index of the entry for `line` and `constraint`, if there is one.
    fn lookup(&self, line: &[CellState], constraint: &[usize]) -> (found: Option<usize>)
        ensures
            match found {
                Some(i) => i < self.cached().len() && self.cached()[i as int] == (
                    line@,
                    constraint@,
                ),
                None => !self.cached().contains((line@, constraint@)),
            },
    {
        let mut i: usize = 0;
        while i < self.cache.len()
            invariant
                i <= self.cache@.len(),
                forall|j: int| 0 <= j < i ==> self.cached()[j] != (line@, constraint@),
            decreases self.cache@.len() - i,
        {
            let entry = &self.cache[i];
            if same_cells(entry.line.as_slice(), line) && same_numbers(
                entry.constraint.as_slice(),
                constraint,
            ) {
                return Some(i);
            }
            i += 1;
        }
        None
    }

    /// Finds every undecided cell of `line` that has the same state in all completions.
    ///
    /// The deductions come by position. In a line without runs the undecided cells are
    /// crossed. A line without a completion is refused; such is a line without runs that
    /// holds a filled cell. A line with runs that is not in memory yet is added to it.
    pub fn solve_line(&mut self, line: &[CellState], constraint: &[usize]) -> (res: Result<
        Vec<(usize, CellState)>,
        SolveError,
    >)
        requires
            old(self).wf(),
        ensures
            final(self).wf(),
            final(self).cached() == if constraint@.len() == 0 || old(self).cached().contains(
                (line@, constraint@),
            ) {
                old(self).cached()
            } else {
                old(self).cached().push((line@, constraint@))
            },
            match res {
                Ok(found) => solvable(line@, constraint@) && found@ == line_deductions(
                    line@,
                    constraint@,
                ),
                Err(e) => !solvable(line@, constraint@) && e == SolveError::InfeasibleLine,
            },
    {
        if constraint.len() == 0 {
            proof {
                crate::solver::completion::lemma_no_runs(line@, constraint@);
            }
            if crate::solver::enumerate::contains_state(line, 0, line.len(), CellState::Filled) {
                return Err(SolveError::InfeasibleLine);
            }
            let found = cross_undecided(line);
            assert(constraint@ =~= Seq::<usize>::empty());
            return Ok(found);
        }
        let index = match self.lookup(line, constraint) {
            Some(i) => i,
            None => {
                let configs = self.generate_valid_configurations_optimized(line, constraint);
                let entry = CacheEntry {
                    line: copy_line(line),
                    constraint: copy_numbers(constraint),
                    configs,
                };
                self.cache.push(entry);
                assert(self.cached() =~= old(self).cached().push((line@, constraint@)));
                self.cache.len() - 1
            },
        };
        let configs = &self.cache[index].configs;
        assert(self.cached()[index as int] == (line@, constraint@));
        assert(enumerates(configs@, line@, constraint@));
        let total = configs.len();
        if total == 0 {
            return Err(SolveError::InfeasibleLine);
        }
        assert(is_completion(line@, constraint@, configs@[0]@));
        let length = line.len();
        let mut filled_count = zeros(length);
        let mut crossed_count = zeros(length);
        let mut j: usize = 0;
        while j < total
            invariant
                j <= total == configs@.len(),
                length == line@.len(),
                enumerates(configs@, line@, constraint@),
                filled_count@.len() == length,
                crossed_count@.len() == length,
                forall|p: int|
                    0 <= p < length ==> (#[trigger] filled_count@[p]) == count_configs_with(
                        configs@,
                        j as int,
                        p,
                        CellState::Filled,
                    ),
                forall|p: int|
                    0 <= p < length ==> (#[trigger] crossed_count@[p]) == count_configs_with(
                        configs@,
                        j as int,
                        p,
                        CellState::Crossed,
                    ),
            decreases total - j,
        {
            let config = &configs[j];
            proof {
                if length > 0 {
                    lemma_completion_decided(line@, constraint@, config@, 0);
                }
            }
            let mut pos: usize = 0;
            while pos < length
                invariant
                    j < total == configs@.len(),
                    pos <= length,
                    config@ == configs@[j as int]@,
                    config@.len() == length,
                    filled_count@.len() == length,
                    crossed_count@.len() == length,
                    forall|p: int|
                        0 <= p < length ==> (#[trigger] filled_count@[p]) == count_configs_with(
                            configs@,
                            if p < pos {
                                j + 1
                            } else {
                                j as int
                            },
                            p,
                            CellState::Filled,
                        ),
                    forall|p: int|
                        0 <= p < length ==> (#[trigger] crossed_count@[p]) == count_configs_with(
                            configs@,
                            if p < pos {
                                j + 1
                            } else {
                                j as int
                            },
                            p,
                            CellState::Crossed,
                        ),
                decreases length - pos,
            {
                proof {
                    lemma_count_configs_with(configs@, j as int, pos as int, CellState::Filled);
                    lemma_count_configs_with(configs@, j as int, pos as int, CellState::Crossed);
                }
                match config[pos] {
                    CellState::Filled => {
                        let count = filled_count[pos];
                        filled_count.set(pos, count + 1);
                    },
                    CellState::Crossed => {
                        let count = crossed_count[pos];
                        crossed_count.set(pos, count + 1);
                    },
                    CellState::Empty => {},
                }
                pos += 1;
            }
            j += 1;
        }
        let mut found: Vec<(usize, CellState)> = Vec::new();
        let mut pos: usize = 0;
        while pos < length
            invariant
                pos <= length == line@.len(),
                total == configs@.len(),
                total > 0,
                constraint@.len() > 0,
                enumerates(configs@, line@, constraint@),
                filled_count@.len() == length,
                crossed_count@.len() == length,
                forall|p: int|
                    0 <= p < length ==> (#[trigger] filled_count@[p]) == count_configs_with(
                        configs@,
                        total as int,
                        p,
                        CellState::Filled,
                    ),
                forall|p: int|
                    0 <= p < length ==> (#[trigger] crossed_count@[p]) == count_configs_with(
                        configs@,
                        total as int,
                        p,
                        CellState::Crossed,
                    ),
                found@ == deductions_upto(line@, constraint@, pos as int),
            decreases length - pos,
        {
            if line[pos] == CellState::Empty {
                proof {
                    lemma_count_configs_with(configs@, total as int, pos as int, CellState::Filled);
                    lemma_count_configs_with(
                        configs@,
                        total as int,
                        pos as int,
                        CellState::Crossed,
                    );
                    lemma_enumeration_decides(
                        configs@,
                        line@,
                        constraint@,
                        pos as int,
                        CellState::Filled,
                    );
                    lemma_enumeration_decides(
                        configs@,
                        line@,
                        constraint@,
                        pos as int,
                        CellState::Crossed,
                    );
                }
                if filled_count[pos] == total {
                    found.push((pos, CellState::Filled));
                } else if crossed_count[pos] == total {
                    found.push((pos, CellState::Crossed));
                }
            }
            pos += 1;
        }
        Ok(found)
    }

    /// Every completion of `line` under the run lengths `constraint`; none is looked for
    /// where the line is too short for its runs.
    pub fn generate_valid_configurations_optimized(
        &self,
        line: &[CellState],
        constraint: &[usize],
    ) -> (configs: Vec<Vec<CellState>>)
        ensures
            enumerates(configs@, line@, constraint@),
    {
        if self.min_line_length(constraint) > line.len() {
            let configs: Vec<Vec<CellState>> = Vec::new();
            assert forall|c: Seq<CellState>| #[trigger]
                is_completion(line@, constraint@, c) implies exists|i: int|
                0 <= i < configs@.len() && (#[trigger] configs@[i])@ == c by {
                lemma_completion_needs_room(line@, constraint@, c);
            }
            return configs;
        }
        let mut starts: Vec<usize> = Vec::new();
        let mut configurations: Vec<Vec<CellState>> = Vec::new();
        assert(ints(starts@) =~= Seq::<int>::empty());
        self.generate_recursive_optimized(line, constraint, 0, 0, &mut starts, &mut configurations);
        proof {
            lemma_enumeration(line@, constraint@, configurations@);
        }
        configurations
    }

    /// Adds to `results` every completion of `line` in which the first `block_index` runs
    /// start at `starts` and the next run starts at `start_pos` or later. A run is no longer
    /// tried once a filled cell of the line would be left uncovered before it.
    pub fn generate_recursive_optimized(
        &self,
        line: &[CellState],
        constraint: &[usize],
        block_index: usize,
        start_pos: usize,
        starts: &mut Vec<usize>,
        results: &mut Vec<Vec<CellState>>,
    )
        requires
            block_index <= constraint@.len(),
            old(starts)@.len() == block_index,
            partial_placement(
                line@.len() as int,
                constraint@,
                ints(old(starts)@),
                start_pos as int,
            ),
        ensures
            final(starts)@ == old(starts)@,
            final(results)@.len() >= old(results)@.len(),
            final(results)@.take(old(results)@.len() as int) == old(results)@,
            all_extend(
                final(results)@,
                old(results)@.len() as int,
                line@,
                constraint@,
                ints(old(starts)@),
                start_pos as int,
            ),
            forall|s: Seq<int>| #[trigger]
                awaited(line@, constraint@, ints(old(starts)@), start_pos as int, s) ==> holds_from(
                    final(results)@,
                    old(results)@.len() as int,
                    render(line@.len() as int, constraint@, s),
                ),
    {
        place_runs(line, constraint, block_index, start_pos, true, starts, results)
    }

    /// Whether `config` keeps every decided cell of `line`, as far as both reach.
    pub fn is_compatible(&self, config: &[CellState], line: &[CellState]) -> (ok: bool)
        ensures
            ok == forall|i: int|
                0 <= i < config@.len() && i < line@.len() && line@[i] != CellState::Empty
                    ==> config@[i] == line@[i],
    {
        keeps_decided(config, line)
    }

    /// Length of the shortest line that can hold the runs of `constraint`, or `usize::MAX`
    /// where that length does not fit in a `usize`.
    pub fn min_line_length(&self, constraint: &[usize]) -> (needed: usize)
        ensures
            needed == if min_length(constraint@) <= usize::MAX {
                min_length(constraint@)
            } else {
                usize::MAX as int
            },
    {
        Constraints::min_line_length(constraint)
    }

    /// Empties the memory.
    pub fn clear_cache(&mut self)
        ensures
            final(self).wf(),
            final(self).cached() == Seq::<(Seq<CellState>, Seq<usize>)>::empty(),
    {
        self.cache.clear();
        assert(self.cached() =~= Seq::<(Seq<CellState>, Seq<usize>)>::empty());
    }
}

impl Default for OptimizedLineSolver {
    fn default() -> (solver: OptimizedLineSolver)
        ensures
            solver.wf(),
            solver.cached() == Seq::<(Seq<CellState>, Seq<usize>)>::empty(),
    {
        OptimizedLineSolver::new()
    }
}

} // verus!
