//! Solver for a single line.

use vstd::prelude::*;

use crate::grid::CellState;
use crate::solver::completion::{
    all_completions_have, deductions_upto, enumerates, is_completion, line_deductions, solvable,
};
use crate::solver::completion::{ints, partial_placement, render};
use crate::solver::enumerate::{
    all_extend, awaited, holds_from, keeps_decided, lemma_enumeration, place_runs,
};
use crate::solver::SolveError;

verus! {

/// Every one of `configs` has `state` at `pos`.
pub open spec fn all_configs_have(configs: Seq<Vec<CellState>>, pos: int, state: CellState) -> bool {
    forall|i: int| 0 <= i < configs.len() ==> (#[trigger] configs[i])@[pos] == state
}

/// Where `configs` holds the completions of a line, a cell has one state in all completions
/// exactly when it has that state in all of `configs`.
pub proof fn lemma_enumeration_decides(
    configs: Seq<Vec<CellState>>,
    line: Seq<CellState>,
    blocks: Seq<usize>,
    pos: int,
    state: CellState,
)
    requires
        enumerates(configs, line, blocks),
    ensures
        all_completions_have(line, blocks, pos, state) == all_configs_have(configs, pos, state),
{
    if all_completions_have(line, blocks, pos, state) {
        assert forall|i: int| 0 <= i < configs.len() implies (#[trigger] configs[i])@[pos]
            == state by {
            assert(is_completion(line, blocks, configs[i]@));
        }
    }
    if all_configs_have(configs, pos, state) {
        assert forall|c: Seq<CellState>| #[trigger]
            is_completion(line, blocks, c) implies c[pos] == state by {
            let i = choose|i: int| 0 <= i < configs.len() && (#[trigger] configs[i])@ == c;
            assert(configs[i]@[pos] == state);
        }
    }
}

/// A completion decides every cell of its line.
pub proof fn lemma_completion_decided(
    line: Seq<CellState>,
    blocks: Seq<usize>,
    config: Seq<CellState>,
    pos: int,
)
    requires
        is_completion(line, blocks, config),
        0 <= pos < line.len(),
    ensures
        config.len() == line.len(),
        config[pos] == CellState::Filled || config[pos] == CellState::Crossed,
        line[pos] != CellState::Empty ==> config[pos] == line[pos],
{
}

/// The deductions on a line without runs: every undecided cell is crossed.
pub fn cross_undecided(line: &[CellState]) -> (found: Vec<(usize, CellState)>)
    ensures
        found@ == line_deductions(line@, Seq::<usize>::empty()),
{
    let ghost blocks = Seq::<usize>::empty();
    let mut found: Vec<(usize, CellState)> = Vec::new();
    let mut i: usize = 0;
    while i < line.len()
        invariant
            i <= line@.len(),
            blocks.len() == 0,
            found@ == deductions_upto(line@, blocks, i as int),
        decreases line@.len() - i,
    {
        if line[i] == CellState::Empty {
            found.push((i, CellState::Crossed));
        }
        i += 1;
    }
    found
}

/// The state that every one of `configs` has at `pos`, if there is one.
pub fn shared_state(configs: &Vec<Vec<CellState>>, pos: usize) -> (state: Option<CellState>)
    requires
        configs@.len() > 0,
        forall|i: int| 0 <= i < configs@.len() ==> pos < (#[trigger] configs@[i])@.len(),
    ensures
        match state {
            Some(value) => all_configs_have(configs@, pos as int, value),
            None => forall|value: CellState| !all_configs_have(configs@, pos as int, value),
        },
{
    let first_value = configs[0][pos];
    let mut i: usize = 1;
    while i < configs.len()
        invariant
            1 <= i <= configs@.len(),
            forall|j: int| 0 <= j < configs@.len() ==> pos < (#[trigger] configs@[j])@.len(),
            first_value == configs@[0]@[pos as int],
            forall|j: int| 0 <= j < i ==> (#[trigger] configs@[j])@[pos as int] == first_value,
        decreases configs@.len() - i,
    {
        if configs[i][pos] != first_value {
            assert forall|value: CellState| !all_configs_have(configs@, pos as int, value) by {
                if all_configs_have(configs@, pos as int, value) {
                    assert(configs@[0]@[pos as int] == value);
                    assert(configs@[i as int]@[pos as int] == value);
                }
            }
            return None;
        }
        i += 1;
    }
    Some(first_value)
}

/// Solver for one line that enumerates the completions of the line anew at every call.
pub struct LineSolver;

impl LineSolver {
    /// Makes a solver.
    pub fn new() -> (solver: LineSolver) {
        LineSolver
    }

    /// Finds every undecided cell of `line` that has the same state in all completions.
    ///
    /// The deductions come by position. In a line without runs the undecided cells are
    /// crossed. A line without a completion is refused; such is a line without runs that
    /// holds a filled cell.
    pub fn solve_line(&self, line: &[CellState], constraint: &[usize]) -> (res: Result<
        Vec<(usize, CellState)>,
        SolveError,
    >)
        ensures
            match res {
                Ok(found) => solvable(line@, constraint@) && found@ == line_deductions(
                    line@,
                    constraint@,
                ),
                Err(e) => !solvable(line@, constraint@) && e == SolveError::InfeasibleLine,
            },
    {
        if constraint.len() == 0 {
            proof {
                crate::solver::completion::lemma_no_runs(line@, constraint@);
            }
            if crate::solver::enumerate::contains_state(line, 0, line.len(), CellState::Filled) {
                return Err(SolveError::InfeasibleLine);
            }
            let found = cross_undecided(line);
            assert(constraint@ =~= Seq::<usize>::empty());
            return Ok(found);
        }
        let configs = self.generate_valid_configurations(line, constraint);
        if configs.len() == 0 {
            return Err(SolveError::InfeasibleLine);
        }
        assert(is_completion(line@, constraint@, configs@[0]@));
        let mut found: Vec<(usize, CellState)> = Vec::new();
        let mut pos: usize = 0;
        while pos < line.len()
            invariant
                pos <= line@.len(),
                constraint@.len() > 0,
                configs@.len() > 0,
                enumerates(configs@, line@, constraint@),
                found@ == deductions_upto(line@, constraint@, pos as int),
            decreases line@.len() - pos,
        {
            if line[pos] == CellState::Empty {
                proof {
                    assert forall|i: int| 0 <= i < configs@.len() implies pos < (
                    #[trigger] configs@[i])@.len() by {
                        lemma_completion_decided(line@, constraint@, configs@[i]@, pos as int);
                    }
                    lemma_completion_decided(line@, constraint@, configs@[0]@, pos as int);
                    lemma_enumeration_decides(
                        configs@,
                        line@,
                        constraint@,
                        pos as int,
                        CellState::Filled,
                    );
                    lemma_enumeration_decides(
                        configs@,
                        line@,
                        constraint@,
                        pos as int,
                        CellState::Crossed,
                    );
                }
                match shared_state(&configs, pos) {
                    Some(first_value) => {
                        assert(configs@[0]@[pos as int] == first_value);
                        if first_value != CellState::Empty {
                            found.push((pos, first_value));
                        }
                    },
                    None => {},
                }
            }
            pos += 1;
        }
        Ok(found)
    }

    /// Every completion of `line` under the run lengths `constraint`.
    pub fn generate_valid_configurations(&self, line: &[CellState], constraint: &[usize]) -> (configs:
        Vec<Vec<CellState>>)
        ensures
            enumerates(configs@, line@, constraint@),
    {
        let mut starts: Vec<usize> = Vec::new();
        let mut configurations: Vec<Vec<CellState>> = Vec::new();
        assert(ints(starts@) =~= Seq::<int>::empty());
        self.generate_recursive(line, constraint, 0, 0, &mut starts, &mut configurations);
        proof {
            lemma_enumeration(line@, constraint@, configurations@);
        }
        configurations
    }

    /// Adds to `results` every completion of `line` in which the first `block_index` runs
    /// start at `starts` and the next run starts at `start_pos` or later. Every arrangement
    /// of the runs that covers no crossed cell is made, and dropped where it leaves a filled
    /// cell uncovered.
    pub fn generate_recursive(
        &self,
        line: &[CellState],
        constraint: &[usize],
        block_index: usize,
        start_pos: usize,
        starts: &mut Vec<usize>,
        results: &mut Vec<Vec<CellState>>,
    )
        requires
            block_index <= constraint@.len(),
            old(starts)@.len() == block_index,
            partial_placement(
                line@.len() as int,
                constraint@,
                ints(old(starts)@),
                start_pos as int,
            ),
        ensures
            final(starts)@ == old(starts)@,
            final(results)@.len() >= old(results)@.len(),
            final(results)@.take(old(results)@.len() as int) == old(results)@,
            all_extend(
                final(results)@,
                old(results)@.len() as int,
                line@,
                constraint@,
                ints(old(starts)@),
                start_pos as int,
            ),
            forall|s: Seq<int>| #[trigger]
                awaited(line@, constraint@, ints(old(starts)@), start_pos as int, s) ==> holds_from(
                    final(results)@,
                    old(results)@.len() as int,
                    render(line@.len() as int, constraint@, s),
                ),
    {
        place_runs(line, constraint, block_index, start_pos, false, starts, results)
    }

    /// Whether `config` keeps every decided cell of `line`, as far as both reach.
    pub fn is_compatible(&self, config: &[CellState], line: &[CellState]) -> (ok: bool)
        ensures
            ok == forall|i: int|
                0 <= i < config@.len() && i < line@.len() && line@[i] != CellState::Empty
                    ==> config@[i] == line@[i],
    {
        keeps_decided(config, line)
    }
}

} // verus!
