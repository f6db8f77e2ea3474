//! Line solving together with the analysis of run lengths and the heuristics.

use vstd::prelude::*;

use crate::grid::{rectangular, CellState, Constraints, Grid};
use crate::solver::advanced_heuristics::{heuristics_all, heuristics_found, AdvancedHeuristics};
use crate::solver::cross_analysis::{cross_all, cross_found, CrossAnalyzer};
use crate::solver::deductions::append_deductions;
use crate::solver::grid_rules::{
    lemma_all_decided_concat, lemma_rule_columns_decided, lemma_rule_grid_decided,
    lemma_rule_rows_decided, lemma_sort_first_decided, missing_constraint,
};
use crate::solver::growth::{
    analysis_step, apply_log, grows, lemma_advances_grows, lemma_analysis_step_grows,
    lemma_grows_preceded, lemma_grows_refl, lemma_grows_trans, lemma_undecided_only_on,
    undecided_only,
};
use crate::solver::line_rules::LineRule;
use crate::solver::propagation::{
    after_passes, fresh, lemma_after_passes_advances, preceded, Progress, MAX_ITERATIONS,
};
use crate::solver::{Deduction, NonogramSolver, SolveError};

verus! {

/// What an [`AdvancedSolver`] does.
#[derive(Debug, Clone, Copy)]
pub struct AdvancedSolverConfig {
    /// Whether overlap and edge forcing are used.
    pub use_cross_analysis: bool,
    /// Whether glue, mercury, joining and punctuation are used.
    pub use_advanced_heuristics: bool,
    /// Most rounds that are made.
    pub max_iterations: usize,
    /// Whether the caller wants the progress reported.
    pub verbose: bool,
}

impl Default for AdvancedSolverConfig {
    fn default() -> (config: AdvancedSolverConfig)
        ensures
            config.use_cross_analysis,
            config.use_advanced_heuristics,
            config.max_iterations == 100,
            !config.verbose,
    {
        AdvancedSolverConfig {
            use_cross_analysis: true,
            use_advanced_heuristics: true,
            max_iterations: 100,
            verbose: false,
        }
    }
}

/// `p` without its fault.
pub open spec fn plain(p: Progress) -> Progress {
    Progress { grid: p.grid, log: p.log, error: None }
}

/// One round on `grid`: line solving until nothing changes, then the analysis of run
/// lengths where `cross` is set, then the heuristics where `heuristics` is set.
pub open spec fn advanced_round(
    grid: Seq<Seq<CellState>>,
    k: Constraints,
    width: int,
    height: int,
    cross: bool,
    heuristics: bool,
) -> Progress {
    let lines = after_passes(grid, k, width, height, MAX_ITERATIONS as int, 0);
    let crossed = if cross {
        analysis_step(
            lines,
            cross_found(lines.grid, k, width, height),
            missing_constraint(k, width, height),
        )
    } else {
        lines
    };
    if heuristics {
        analysis_step(
            crossed,
            heuristics_found(crossed.grid, k, width, height),
            missing_constraint(k, width, height),
        )
    } else {
        crossed
    }
}

/// Rounds on `grid` until a round finds nothing or `limit` rounds are over, `done` rounds
/// having been made before. A fault stops at once.
pub open spec fn advanced_rounds(
    grid: Seq<Seq<CellState>>,
    k: Constraints,
    width: int,
    height: int,
    cross: bool,
    heuristics: bool,
    limit: int,
    done: int,
) -> Progress
    decreases limit - done,
{
    if done >= limit {
        fresh(grid)
    } else {
        let round = advanced_round(grid, k, width, height, cross, heuristics);
        if round.error is Some || round.log.len() == 0 {
            round
        } else {
            preceded(
                round.log,
                advanced_rounds(round.grid, k, width, height, cross, heuristics, limit, done + 1),
            )
        }
    }
}

/// The analysis of run lengths makes deductions in the order of their cells that decide
/// them.
pub proof fn lemma_cross_found(grid: Seq<Seq<CellState>>, k: Constraints, width: int, height: int)
    ensures
        crate::solver::deductions::ordered_by_cell(cross_found(grid, k, width, height)),
        crate::solver::growth::all_decided(cross_found(grid, k, width, height)),
{
    lemma_rule_rows_decided(LineRule::Overlap, grid, k, height);
    lemma_rule_columns_decided(LineRule::Overlap, grid, k, width);
    lemma_rule_rows_decided(LineRule::EdgeForcing, grid, k, height);
    lemma_rule_columns_decided(LineRule::EdgeForcing, grid, k, width);
    let a = crate::solver::grid_rules::rule_rows(LineRule::Overlap, grid, k, height);
    let b = crate::solver::grid_rules::rule_columns(LineRule::Overlap, grid, k, width);
    let c = crate::solver::grid_rules::rule_rows(LineRule::EdgeForcing, grid, k, height);
    let d = crate::solver::grid_rules::rule_columns(LineRule::EdgeForcing, grid, k, width);
    lemma_all_decided_concat(a, b);
    lemma_all_decided_concat(a + b, c);
    lemma_all_decided_concat(a + b + c, d);
    lemma_sort_first_decided(cross_all(grid, k, width, height));
}

/// The heuristics make deductions in the order of their cells that decide them.
pub proof fn lemma_heuristics_found(grid: Seq<Seq<CellState>>, k: Constraints, width: int, height: int)
    ensures
        crate::solver::deductions::ordered_by_cell(heuristics_found(grid, k, width, height)),
        crate::solver::growth::all_decided(heuristics_found(grid, k, width, height)),
{
    lemma_rule_grid_decided(LineRule::Glue, grid, k, width, height);
    lemma_rule_grid_decided(LineRule::Mercury, grid, k, width, height);
    lemma_rule_grid_decided(LineRule::Joining, grid, k, width, height);
    lemma_rule_grid_decided(LineRule::Puncturing, grid, k, width, height);
    let a = crate::solver::grid_rules::rule_grid(LineRule::Glue, grid, k, width, height);
    let b = crate::solver::grid_rules::rule_grid(LineRule::Mercury, grid, k, width, height);
    let c = crate::solver::grid_rules::rule_grid(LineRule::Joining, grid, k, width, height);
    let d = crate::solver::grid_rules::rule_grid(LineRule::Puncturing, grid, k, width, height);
    lemma_all_decided_concat(a, b);
    lemma_all_decided_concat(a + b, c);
    lemma_all_decided_concat(a + b + c, d);
    lemma_sort_first_decided(heuristics_all(grid, k, width, height));
}

/// An analysis after a solver without a fault is a growth, whether or not the analysis has
/// a fault.
pub proof fn lemma_analysis_grows(
    p: Progress,
    found: Seq<Deduction>,
    fault: Option<SolveError>,
    width: int,
    height: int,
)
    requires
        p.error is None,
        rectangular(p.grid, width, height),
        crate::solver::deductions::ordered_by_cell(found),
        crate::solver::growth::all_decided(found),
    ensures
        grows(p, plain(analysis_step(p, found, fault)), width, height),
{
    lemma_analysis_step_grows(p, found, fault, width, height);
    if fault is Some {
        lemma_grows_refl(p, width, height);
        assert(plain(analysis_step(p, found, fault)) == p);
    }
}

/// One round is a growth.
pub proof fn lemma_advanced_round_grows(
    grid: Seq<Seq<CellState>>,
    k: Constraints,
    width: int,
    height: int,
    cross: bool,
    heuristics: bool,
)
    requires
        rectangular(grid, width, height),
        0 <= width <= usize::MAX,
        0 <= height <= usize::MAX,
    ensures
        grows(
            fresh(grid),
            plain(advanced_round(grid, k, width, height, cross, heuristics)),
            width,
            height,
        ),
{
    let lines = after_passes(grid, k, width, height, MAX_ITERATIONS as int, 0);
    lemma_after_passes_advances(grid, k, width, height, MAX_ITERATIONS as int, 0);
    lemma_advances_grows(fresh(grid), plain(lines), k, width, height);
    if lines.error is None {
        assert(lines == plain(lines));
        let fault = missing_constraint(k, width, height);
        let crossed = if cross {
            analysis_step(lines, cross_found(lines.grid, k, width, height), fault)
        } else {
            lines
        };
        if cross {
            lemma_cross_found(lines.grid, k, width, height);
            lemma_analysis_grows(
                lines,
                cross_found(lines.grid, k, width, height),
                fault,
                width,
                height,
            );
            lemma_grows_trans(fresh(grid), lines, plain(crossed), width, height);
        }
        if heuristics && crossed.error is None {
            assert(crossed == plain(crossed));
            lemma_heuristics_found(crossed.grid, k, width, height);
            lemma_analysis_grows(
                crossed,
                heuristics_found(crossed.grid, k, width, height),
                fault,
                width,
                height,
            );
            lemma_grows_trans(
                fresh(grid),
                crossed,
                plain(advanced_round(grid, k, width, height, cross, heuristics)),
                width,
                height,
            );
        }
    }
}

/// Rounds are a growth: the grid keeps its shape and every decided cell, and every
/// deduction of the log speaks of a cell that was undecided and holds in the grid.
pub proof fn lemma_advanced_rounds_grow(
    grid: Seq<Seq<CellState>>,
    k: Constraints,
    width: int,
    height: int,
    cross: bool,
    heuristics: bool,
    limit: int,
    done: int,
)
    requires
        rectangular(grid, width, height),
        0 <= width <= usize::MAX,
        0 <= height <= usize::MAX,
    ensures
        grows(
            fresh(grid),
            plain(advanced_rounds(grid, k, width, height, cross, heuristics, limit, done)),
            width,
            height,
        ),
    decreases limit - done,
{
    if done >= limit {
        lemma_grows_refl(fresh(grid), width, height);
    } else {
        let round = advanced_round(grid, k, width, height, cross, heuristics);
        lemma_advanced_round_grows(grid, k, width, height, cross, heuristics);
        if round.error is Some || round.log.len() == 0 {
        } else {
            let rest = advanced_rounds(
                round.grid,
                k,
                width,
                height,
                cross,
                heuristics,
                limit,
                done + 1,
            );
            lemma_advanced_rounds_grow(
                round.grid,
                k,
                width,
                height,
                cross,
                heuristics,
                limit,
                done + 1,
            );
            lemma_grows_preceded(round.log, fresh(round.grid), plain(rest), width, height);
            assert(round.log + Seq::<Deduction>::empty() =~= round.log);
            lemma_grows_trans(
                fresh(grid),
                plain(round),
                plain(preceded(round.log, rest)),
                width,
                height,
            );
        }
    }
}

/// Those of `found` that speak of an undecided cell of `grid`.
pub fn keep_undecided(grid: &Grid, found: &Vec<Deduction>) -> (kept: Vec<Deduction>)
    requires
        grid.wf(),
    ensures
        kept@ == undecided_only(grid@, found@, found@.len() as int),
{
    let mut kept: Vec<Deduction> = Vec::new();
    let mut i: usize = 0;
    while i < found.len()
        invariant
            grid.wf(),
            i <= found@.len(),
            kept@ == undecided_only(grid@, found@, i as int),
        decreases found@.len() - i,
    {
        let d = found[i];
        match grid.get(d.row, d.col) {
            Some(CellState::Empty) => {
                kept.push(d);
            },
            _ => {},
        }
        i += 1;
    }
    kept
}

/// Solver that adds to line solving the analysis of run lengths and the heuristics.
pub struct AdvancedSolver {
    config: AdvancedSolverConfig,
    base_solver: NonogramSolver,
    cross_analyzer: CrossAnalyzer,
    heuristics: AdvancedHeuristics,
}

impl AdvancedSolver {
    /// What the solver remembers is true.
    pub closed spec fn wf(&self) -> bool {
        self.base_solver.wf()
    }

    /// What the solver was told to do.
    pub closed spec fn spec_config(&self) -> AdvancedSolverConfig {
        self.config
    }

    /// The lines that the line solver has in memory, each with its run lengths.
    pub closed spec fn cached(&self) -> Seq<(Seq<CellState>, Seq<usize>)> {
        self.base_solver.cached()
    }

    /// Makes a solver that uses everything and makes at most 100 rounds. Its line solver
    /// has no line in memory yet.
    pub fn new() -> (solver: AdvancedSolver)
        ensures
            solver.wf(),
            solver.spec_config() == (AdvancedSolverConfig {
                use_cross_analysis: true,
                use_advanced_heuristics: true,
                max_iterations: 100,
                verbose: false,
            }),
            solver.cached() == Seq::<(Seq<CellState>, Seq<usize>)>::empty(),
    {
        Self::with_config(AdvancedSolverConfig::default())
    }

    /// Makes a solver that does what `config` says.
    pub fn with_config(config: AdvancedSolverConfig) -> (solver: AdvancedSolver)
        ensures
            solver.wf(),
            solver.spec_config() == config,
            solver.cached() == Seq::<(Seq<CellState>, Seq<usize>)>::empty(),
    {
        AdvancedSolver {
            config,
            base_solver: NonogramSolver::new(),
            cross_analyzer: CrossAnalyzer::new(),
            heuristics: AdvancedHeuristics::new(),
        }
    }

    /// What the solver was told to do.
    pub fn config(&self) -> (config: AdvancedSolverConfig)
        ensures
            config == self.spec_config(),
    {
        self.config
    }

    /// Writes those of `found` that speak of an undecided cell into `grid` and adds them to
    /// `all`.
    fn absorb(&self, grid: &mut Grid, found: &Vec<Deduction>, all: &mut Vec<Deduction>)
        requires
            old(grid).wf(),
        ensures
            final(grid).wf(),
            final(grid).spec_width() == old(grid).spec_width(),
            final(grid).spec_height() == old(grid).spec_height(),
            ({
                let kept = undecided_only(old(grid)@, found@, found@.len() as int);
                &&& final(grid)@ == apply_log(old(grid)@, kept, kept.len() as int)
                &&& final(all)@ == old(all)@ + kept
            }),
    {
        let kept = keep_undecided(grid, found);
        proof {
            lemma_undecided_only_on(grid@, found@, found@.len() as int);
        }
        self.apply_deductions(grid, &kept);
        append_deductions(all, &kept);
    }

    /// One round: line solving until nothing changes, then the analysis of run lengths and
    /// the heuristics as far as the configuration asks for them. The deductions are written
    /// into `grid` and, where there is no fault, added to `all`.
    pub fn round(&mut self, grid: &mut Grid, constraints: &Constraints, all: &mut Vec<Deduction>) -> (res:
        Result<(), SolveError>)
        requires
            old(self).wf(),
            old(grid).wf(),
        ensures
            final(self).wf(),
            final(self).spec_config() == old(self).spec_config(),
            final(grid).wf(),
            final(grid).spec_width() == old(grid).spec_width(),
            final(grid).spec_height() == old(grid).spec_height(),
            ({
                let round = advanced_round(
                    old(grid)@,
                    *constraints,
                    old(grid).spec_width() as int,
                    old(grid).spec_height() as int,
                    old(self).spec_config().use_cross_analysis,
                    old(self).spec_config().use_advanced_heuristics,
                );
                &&& final(grid)@ == round.grid
                &&& match res {
                    Ok(()) => round.error is None && final(all)@ == old(all)@ + round.log,
                    Err(e) => round.error == Some(e),
                }
            }),
    {
        let ghost k = *constraints;
        let ghost w = grid.spec_width() as int;
        let ghost h = grid.spec_height() as int;
        let ghost logged = all@;
        let ghost lines = after_passes(grid@, k, w, h, MAX_ITERATIONS as int, 0);
        let ghost fault = missing_constraint(k, w, h);
        let line_deductions = match self.base_solver.solve(grid, constraints) {
            Ok(found) => found,
            Err(e) => {
                return Err(e);
            },
        };
        append_deductions(all, &line_deductions);
        let ghost crossed = if self.config.use_cross_analysis {
            analysis_step(lines, cross_found(lines.grid, k, w, h), fault)
        } else {
            lines
        };
        if self.config.use_cross_analysis {
            let cross_deductions = match self.cross_analyzer.analyze(grid, constraints) {
                Ok(found) => found,
                Err(e) => {
                    return Err(e);
                },
            };
            self.absorb(grid, &cross_deductions, all);
            assert(all@ =~= logged + crossed.log);
        }
        if self.config.use_advanced_heuristics {
            let heuristic_deductions = match self.heuristics.apply(grid, constraints) {
                Ok(found) => found,
                Err(e) => {
                    return Err(e);
                },
            };
            let ghost kept = undecided_only(
                crossed.grid,
                heuristic_deductions@,
                heuristic_deductions@.len() as int,
            );
            self.absorb(grid, &heuristic_deductions, all);
            assert(all@ =~= logged + (crossed.log + kept));
        }
        Ok(())
    }

    /// Solves the grid as far as rounds of line solving, analysis and heuristics go, and
    /// returns the deductions in the order in which they were made.
    ///
    /// Rounds are made until one finds nothing or the limit of the configuration is
    /// reached. Every deduction is written into `grid`, also those made before a fault; the
    /// deductions are returned only where there is no fault. The grid keeps every cell that
    /// was decided before.
    ///
    /// A grid that is left without undecided cells is checked once more by line solving: a
    /// line of it that does not satisfy its run lengths is a fault. So a grid without
    /// undecided cells that comes back without a fault is a solution. Every deduction
    /// returned speaks of a cell that was undecided at first, and of each cell once; every
    /// cell that was decided is among them.
    ///
    /// The log is kept in the order of the work, as a log is: round after round, in a round
    /// the deductions of line solving, then those of the analysis, then those of the
    /// heuristics. It is one solving of a line, and one analysis, whose deductions come
    /// sorted by their cells.
    pub fn solve(&mut self, grid: &mut Grid, constraints: &Constraints) -> (res: Result<
        Vec<Deduction>,
        SolveError,
    >)
        requires
            old(self).wf(),
            old(grid).wf(),
        ensures
            final(self).wf(),
            final(self).spec_config() == old(self).spec_config(),
            final(grid).wf(),
            final(grid).spec_width() == old(grid).spec_width(),
            final(grid).spec_height() == old(grid).spec_height(),
            ({
                let out = crate::solver::solution_laws::confirmed(
                    advanced_rounds(
                        old(grid)@,
                        *constraints,
                        old(grid).spec_width() as int,
                        old(grid).spec_height() as int,
                        old(self).spec_config().use_cross_analysis,
                        old(self).spec_config().use_advanced_heuristics,
                        old(self).spec_config().max_iterations as int,
                        0,
                    ),
                    *constraints,
                    old(grid).spec_width() as int,
                    old(grid).spec_height() as int,
                );
                &&& final(grid)@ == out.grid
                &&& match res {
                    Ok(log) => out.error is None && log@ == out.log,
                    Err(e) => out.error == Some(e),
                }
                &&& grows(
                    fresh(old(grid)@),
                    plain(out),
                    old(grid).spec_width() as int,
                    old(grid).spec_height() as int,
                )
            }),
            match res {
                Ok(log) => crate::solver::outcome_laws::tells(
                    old(grid)@,
                    final(grid)@,
                    log@,
                    old(grid).spec_width() as int,
                    old(grid).spec_height() as int,
                ),
                Err(_) => true,
            },
            res is Ok && crate::grid::count_in_rows(final(grid)@, CellState::Empty) == 0
                ==> crate::solver::propagation::is_solution(
                final(grid)@,
                *constraints,
                old(grid).spec_width() as int,
                old(grid).spec_height() as int,
            ),
    {
        proof {
            crate::solver::outcome_laws::lemma_advanced_rounds_log(
                grid@,
                *constraints,
                grid.spec_width() as int,
                grid.spec_height() as int,
                self.spec_config().use_cross_analysis,
                self.spec_config().use_advanced_heuristics,
                self.spec_config().max_iterations as int,
                0,
            );
        }
        let ghost w = grid.spec_width() as int;
        let ghost h = grid.spec_height() as int;
        let ghost inner = advanced_rounds(
            grid@,
            *constraints,
            grid.spec_width() as int,
            grid.spec_height() as int,
            self.spec_config().use_cross_analysis,
            self.spec_config().use_advanced_heuristics,
            self.spec_config().max_iterations as int,
            0,
        );
        let res = self.run_rounds(grid, constraints);
        proof {
            let inner = inner;
            if crate::solver::solution_laws::confirmed(inner, *constraints, w, h).error is None
                && crate::grid::count_in_rows(inner.grid, CellState::Empty) == 0 {
                crate::solver::solution_laws::lemma_confirmed_solution(inner, *constraints, w, h);
            }
        }
        crate::solver::confirm(grid, constraints, res)
    }

    /// The rounds of [`AdvancedSolver::solve`].
    pub(crate) fn run_rounds(&mut self, grid: &mut Grid, constraints: &Constraints) -> (res: Result<
        Vec<Deduction>,
        SolveError,
    >)
        requires
            old(self).wf(),
            old(grid).wf(),
        ensures
            final(self).wf(),
            final(self).spec_config() == old(self).spec_config(),
            final(grid).wf(),
            final(grid).spec_width() == old(grid).spec_width(),
            final(grid).spec_height() == old(grid).spec_height(),
            ({
                let out = advanced_rounds(
                    old(grid)@,
                    *constraints,
                    old(grid).spec_width() as int,
                    old(grid).spec_height() as int,
                    old(self).spec_config().use_cross_analysis,
                    old(self).spec_config().use_advanced_heuristics,
                    old(self).spec_config().max_iterations as int,
                    0,
                );
                &&& final(grid)@ == out.grid
                &&& match res {
                    Ok(log) => out.error is None && log@ == out.log,
                    Err(e) => out.error == Some(e),
                }
                &&& grows(
                    fresh(old(grid)@),
                    plain(out),
                    old(grid).spec_width() as int,
                    old(grid).spec_height() as int,
                )
            }),
    {
        let ghost k = *constraints;
        let ghost w = grid.spec_width() as int;
        let ghost h = grid.spec_height() as int;
        let ghost cross = self.config.use_cross_analysis;
        let ghost heur = self.config.use_advanced_heuristics;
        let limit = self.config.max_iterations;
        let ghost out = advanced_rounds(grid@, k, w, h, cross, heur, limit as int, 0);
        proof {
            lemma_advanced_rounds_grow(grid@, k, w, h, cross, heur, limit as int, 0);
        }
        let mut all_deductions: Vec<Deduction> = Vec::new();
        let mut iteration: usize = 0;
        let mut changed = true;
        assert(all_deductions@ + out.log =~= out.log);
        while changed && iteration < limit
            invariant
                self.wf(),
                self.spec_config() == old(self).spec_config(),
                cross == self.spec_config().use_cross_analysis,
                heur == self.spec_config().use_advanced_heuristics,
                limit == self.spec_config().max_iterations,
                grid.wf(),
                w == grid.spec_width() == old(grid).spec_width(),
                h == grid.spec_height() == old(grid).spec_height(),
                k == *constraints,
                iteration <= limit,
                out == advanced_rounds(old(grid)@, k, w, h, cross, heur, limit as int, 0),
                grows(fresh(old(grid)@), plain(out), w, h),
                changed ==> out == preceded(
                    all_deductions@,
                    advanced_rounds(grid@, k, w, h, cross, heur, limit as int, iteration as int),
                ),
                !changed ==> out == (Progress { grid: grid@, log: all_deductions@, error: None }),
            decreases limit - iteration,
        {
            let ghost logged = all_deductions@;
            let ghost round = advanced_round(grid@, k, w, h, cross, heur);
            let before = all_deductions.len();
            match self.round(grid, constraints, &mut all_deductions) {
                Ok(()) => {},
                Err(e) => {
                    return Err(e);
                },
            }
            changed = all_deductions.len() > before;
            proof {
                if changed {
                    let rest = advanced_rounds(
                        round.grid,
                        k,
                        w,
                        h,
                        cross,
                        heur,
                        limit as int,
                        iteration + 1,
                    );
                    assert(logged + (round.log + rest.log) =~= (logged + round.log) + rest.log);
                } else {
                    assert(round.log =~= Seq::<Deduction>::empty());
                    assert(logged + round.log =~= logged);
                }
            }
            iteration += 1;
        }
        proof {
            if changed {
                assert(all_deductions@ + Seq::<Deduction>::empty() =~= all_deductions@);
            }
        }
        Ok(all_deductions)
    }

    /// Writes `deductions` into `grid`, one after the other.
    fn apply_deductions(&self, grid: &mut Grid, deductions: &Vec<Deduction>)
        requires
            old(grid).wf(),
            forall|i: int|
                0 <= i < deductions@.len() ==> (#[trigger] deductions@[i]).row < old(
                    grid,
                ).spec_height() && deductions@[i].col < old(grid).spec_width(),
        ensures
            final(grid).wf(),
            final(grid).spec_width() == old(grid).spec_width(),
            final(grid).spec_height() == old(grid).spec_height(),
            final(grid)@ == apply_log(old(grid)@, deductions@, deductions@.len() as int),
    {
        let mut i: usize = 0;
        while i < deductions.len()
            invariant
                i <= deductions@.len(),
                grid.wf(),
                grid.spec_width() == old(grid).spec_width(),
                grid.spec_height() == old(grid).spec_height(),
                forall|j: int|
                    0 <= j < deductions@.len() ==> (#[trigger] deductions@[j]).row
                        < grid.spec_height() && deductions@[j].col < grid.spec_width(),
                grid@ == apply_log(old(grid)@, deductions@, i as int),
            decreases deductions@.len() - i,
        {
            let d = deductions[i];
            let written = grid.set(d.row, d.col, d.state);
            assert(written is Ok);
            i += 1;
        }
    }

    /// Empties the memory of the line solver.
    pub fn clear_cache(&mut self)
        ensures
            final(self).wf(),
            final(self).spec_config() == old(self).spec_config(),
            final(self).cached() == Seq::<(Seq<CellState>, Seq<usize>)>::empty(),
    {
        self.base_solver.clear_cache();
    }
}

} // verus!
