//! Lists of deductions: from one line to the grid, and in the order of the cells.

use vstd::prelude::*;

use crate::grid::CellState;
use crate::solver::propagation::{column_log, row_log};
use crate::solver::Deduction;

verus! {

/// `a` speaks of a cell that comes before the cell of `b`, rows first.
pub open spec fn cell_before(a: Deduction, b: Deduction) -> bool {
    a.row < b.row || (a.row == b.row && a.col < b.col)
}

/// `a` and `b` speak of the same cell.
pub open spec fn same_cell(a: Deduction, b: Deduction) -> bool {
    a.row == b.row && a.col == b.col
}

/// `sorted` with `d` put in by its cell; where `sorted` speaks of the cell already, `d` is
/// dropped.
pub open spec fn insert_by_cell(sorted: Seq<Deduction>, d: Deduction) -> Seq<Deduction>
    decreases sorted.len(),
{
    if sorted.len() == 0 {
        seq![d]
    } else if same_cell(sorted.last(), d) {
        sorted
    } else if cell_before(sorted.last(), d) {
        sorted.push(d)
    } else {
        insert_by_cell(sorted.drop_last(), d).push(sorted.last())
    }
}

/// The deductions of `all` in the order of their cells, for each cell the one that comes
/// first in `all`.
pub open spec fn sort_first(all: Seq<Deduction>) -> Seq<Deduction>
    decreases all.len(),
{
    if all.len() == 0 {
        Seq::empty()
    } else {
        insert_by_cell(sort_first(all.drop_last()), all.last())
    }
}

/// `list` is in the order of its cells and speaks of no cell twice.
pub open spec fn ordered_by_cell(list: Seq<Deduction>) -> bool {
    forall|i: int, j: int|
        0 <= i < j < list.len() ==> cell_before(#[trigger] list[i], #[trigger] list[j])
}

/// `d` is the first deduction of `all` on its cell.
pub open spec fn first_on_cell(all: Seq<Deduction>, d: Deduction) -> bool {
    exists|j: int|
        0 <= j < all.len() && #[trigger] all[j] == d && forall|i: int|
            0 <= i < j ==> !same_cell(#[trigger] all[i], d)
}

/// `list` speaks of the cell of `d`.
pub open spec fn speaks_of(list: Seq<Deduction>, d: Deduction) -> bool {
    exists|i: int| 0 <= i < list.len() && same_cell(#[trigger] list[i], d)
}

/// What putting a deduction into an ordered list gives: an ordered list that holds what the
/// list held, and `d` where the list did not speak of its cell.
pub proof fn lemma_insert_by_cell(sorted: Seq<Deduction>, d: Deduction)
    requires
        ordered_by_cell(sorted),
    ensures
        ordered_by_cell(insert_by_cell(sorted, d)),
        forall|i: int|
            0 <= i < sorted.len() ==> insert_by_cell(sorted, d).contains(#[trigger] sorted[i]),
        forall|i: int|
            0 <= i < insert_by_cell(sorted, d).len() ==> sorted.contains(
                #[trigger] insert_by_cell(sorted, d)[i],
            ) || (insert_by_cell(sorted, d)[i] == d && !speaks_of(sorted, d)),
        speaks_of(insert_by_cell(sorted, d), d),
    decreases sorted.len(),
{
    let out = insert_by_cell(sorted, d);
    if sorted.len() == 0 {
        assert(out[0] == d);
        assert(same_cell(out[0], d));
    } else if same_cell(sorted.last(), d) {
        assert forall|i: int| 0 <= i < sorted.len() implies out.contains(#[trigger] sorted[i]) by {
            assert(out[i] == sorted[i]);
        }
        assert forall|i: int| 0 <= i < out.len() implies sorted.contains(#[trigger] out[i]) by {
            assert(sorted[i] == out[i]);
        }
        assert(same_cell(out[out.len() - 1], d));
    } else if cell_before(sorted.last(), d) {
        assert forall|i: int, j: int| 0 <= i < j < out.len() implies cell_before(
            #[trigger] out[i],
            #[trigger] out[j],
        ) by {
            if j == sorted.len() {
                if i < sorted.len() - 1 {
                    assert(cell_before(sorted[i], sorted[sorted.len() - 1]));
                }
            }
        }
        assert forall|i: int| 0 <= i < sorted.len() implies out.contains(#[trigger] sorted[i]) by {
            assert(out[i] == sorted[i]);
        }
        assert forall|i: int| 0 <= i < out.len() implies sorted.contains(#[trigger] out[i]) || (
        out[i] == d && !speaks_of(sorted, d)) by {
            if i < sorted.len() {
                assert(sorted[i] == out[i]);
            } else {
                assert forall|q: int| 0 <= q < sorted.len() implies !same_cell(
                    #[trigger] sorted[q],
                    d,
                ) by {
                    if q < sorted.len() - 1 {
                        assert(cell_before(sorted[q], sorted[sorted.len() - 1]));
                    }
                }
            }
        }
        assert(same_cell(out[out.len() - 1], d));
    } else {
        let init = sorted.drop_last();
        let last = sorted.last();
        let inner = insert_by_cell(init, d);
        assert(ordered_by_cell(init)) by {
            assert forall|i: int, j: int| 0 <= i < j < init.len() implies cell_before(
                #[trigger] init[i],
                #[trigger] init[j],
            ) by {
                assert(cell_before(sorted[i], sorted[j]));
            }
        }
        lemma_insert_by_cell(init, d);
        assert forall|i: int| 0 <= i < inner.len() implies cell_before(#[trigger] inner[i], last) by {
            if init.contains(inner[i]) {
                let q = choose|q: int| 0 <= q < init.len() && init[q] == inner[i];
                assert(cell_before(sorted[q], sorted[sorted.len() - 1]));
            }
        }
        assert forall|i: int, j: int| 0 <= i < j < out.len() implies cell_before(
            #[trigger] out[i],
            #[trigger] out[j],
        ) by {
            if j < inner.len() {
                assert(cell_before(inner[i], inner[j]));
            }
        }
        assert forall|i: int| 0 <= i < sorted.len() implies out.contains(#[trigger] sorted[i]) by {
            if i < init.len() {
                assert(inner.contains(init[i]));
                let q = choose|q: int| 0 <= q < inner.len() && inner[q] == init[i];
                assert(out[q] == sorted[i]);
            } else {
                assert(out[out.len() - 1] == sorted[i]);
            }
        }
        assert forall|i: int| 0 <= i < out.len() implies sorted.contains(#[trigger] out[i]) || (
        out[i] == d && !speaks_of(sorted, d)) by {
            if i < inner.len() {
                if init.contains(inner[i]) {
                    let q = choose|q: int| 0 <= q < init.len() && init[q] == inner[i];
                    assert(sorted[q] == out[i]);
                } else {
                    assert forall|q: int| 0 <= q < sorted.len() implies !same_cell(
                        #[trigger] sorted[q],
                        d,
                    ) by {
                        if q < init.len() {
                            assert(same_cell(init[q], d) ==> speaks_of(init, d));
                        }
                    }
                }
            } else {
                assert(sorted[sorted.len() - 1] == out[i]);
            }
        }
        let w = choose|w: int| 0 <= w < inner.len() && same_cell(#[trigger] inner[w], d);
        assert(same_cell(out[w], d));
    }
}

/// What [`sort_first`] gives: a list in the order of its cells that speaks of every cell of
/// `all` once, with the deduction that comes first in `all`.
pub proof fn lemma_sort_first(all: Seq<Deduction>)
    ensures
        ordered_by_cell(sort_first(all)),
        forall|i: int|
            0 <= i < sort_first(all).len() ==> first_on_cell(all, #[trigger] sort_first(all)[i]),
        forall|j: int| 0 <= j < all.len() ==> speaks_of(sort_first(all), #[trigger] all[j]),
    decreases all.len(),
{
    let out = sort_first(all);
    if all.len() > 0 {
        let init = all.drop_last();
        let d = all.last();
        let inner = sort_first(init);
        lemma_sort_first(init);
        lemma_insert_by_cell(inner, d);
        assert forall|i: int| 0 <= i < out.len() implies first_on_cell(all, #[trigger] out[i]) by {
            if inner.contains(out[i]) {
                let q = choose|q: int| 0 <= q < inner.len() && inner[q] == out[i];
                assert(first_on_cell(init, inner[q]));
                let j = choose|j: int|
                    0 <= j < init.len() && #[trigger] init[j] == out[i] && forall|a: int|
                        0 <= a < j ==> !same_cell(#[trigger] init[a], out[i]);
                assert(all[j] == out[i]);
                assert forall|a: int| 0 <= a < j implies !same_cell(#[trigger] all[a], out[i]) by {
                    assert(all[a] == init[a]);
                }
            } else {
                assert(out[i] == d && !speaks_of(inner, d));
                assert(all[all.len() - 1] == d);
                assert forall|a: int| 0 <= a < all.len() - 1 implies !same_cell(
                    #[trigger] all[a],
                    d,
                ) by {
                    assert(all[a] == init[a]);
                    if same_cell(init[a], d) {
                        assert(speaks_of(inner, init[a]));
                        let w = choose|w: int|
                            0 <= w < inner.len() && same_cell(#[trigger] inner[w], init[a]);
                        assert(same_cell(inner[w], d));
                    }
                }
            }
        }
        assert forall|j: int| 0 <= j < all.len() implies speaks_of(out, #[trigger] all[j]) by {
            if j < init.len() {
                assert(all[j] == init[j]);
                assert(speaks_of(inner, init[j]));
                let w = choose|w: int|
                    0 <= w < inner.len() && same_cell(#[trigger] inner[w], init[j]);
                assert(out.contains(inner[w]));
                let z = choose|z: int| 0 <= z < out.len() && out[z] == inner[w];
                assert(same_cell(out[z], all[j]));
            } else {
                let w = choose|w: int| 0 <= w < out.len() && same_cell(#[trigger] out[w], d);
                assert(same_cell(out[w], all[j]));
            }
        }
    }
}

/// Puts `d` into `sorted` by its cell; where `sorted` speaks of the cell already, `d` is
/// dropped.
pub fn insert_deduction(sorted: &mut Vec<Deduction>, d: Deduction)
    ensures
        final(sorted)@ == insert_by_cell(old(sorted)@, d),
{
    let ghost before = sorted@;
    let mut i: usize = sorted.len();
    proof {
        assert(before.take(i as int) =~= before);
        assert(insert_by_cell(before, d) + before.skip(i as int) =~= insert_by_cell(before, d));
    }
    while i > 0 && (d.row < sorted[i - 1].row || (d.row == sorted[i - 1].row && d.col < sorted[i
        - 1].col))
        invariant
            i <= sorted@.len(),
            sorted@ == before,
            insert_by_cell(before, d) == insert_by_cell(before.take(i as int), d) + before.skip(
                i as int,
            ),
        decreases i,
    {
        proof {
            let shorter = before.take(i as int);
            assert(shorter.last() == before[i - 1]);
            assert(shorter.drop_last() =~= before.take(i - 1));
            assert(insert_by_cell(before.take(i - 1), d).push(before[i - 1]) + before.skip(
                i as int,
            ) =~= insert_by_cell(before.take(i - 1), d) + before.skip(i - 1));
        }
        i -= 1;
    }
    proof {
        let shorter = before.take(i as int);
        if i > 0 {
            assert(shorter.last() == before[i - 1]);
        }
    }
    if i > 0 && sorted[i - 1].row == d.row && sorted[i - 1].col == d.col {
        assert(before.take(i as int) + before.skip(i as int) =~= before);
    } else {
        sorted.insert(i, d);
        assert(sorted@ =~= before.take(i as int).push(d) + before.skip(i as int));
        assert(seq![d] + before.skip(0) =~= before.take(0).push(d) + before.skip(0));
    }
}

/// The deductions of `all` in the order of their cells, for each cell the one that comes
/// first in `all`.
pub fn sort_by_cell(all: &Vec<Deduction>) -> (out: Vec<Deduction>)
    ensures
        out@ == sort_first(all@),
{
    let mut out: Vec<Deduction> = Vec::new();
    let mut j: usize = 0;
    while j < all.len()
        invariant
            j <= all@.len(),
            out@ == sort_first(all@.take(j as int)),
        decreases all@.len() - j,
    {
        assert(all@.take(j + 1).drop_last() =~= all@.take(j as int));
        insert_deduction(&mut out, all[j]);
        j += 1;
    }
    assert(all@.take(all@.len() as int) =~= all@);
    out
}

/// The deductions `found` on row `row`, as deductions on the grid.
pub fn on_row(row: usize, found: &Vec<(usize, CellState)>) -> (out: Vec<Deduction>)
    ensures
        out@ == row_log(row as int, found@),
{
    let mut out: Vec<Deduction> = Vec::new();
    let mut i: usize = 0;
    while i < found.len()
        invariant
            i <= found@.len(),
            out@ == row_log(row as int, found@).take(i as int),
        decreases found@.len() - i,
    {
        let (col, state) = found[i];
        out.push(Deduction { row, col, state });
        assert(out@ =~= row_log(row as int, found@).take(i + 1));
        i += 1;
    }
    assert(row_log(row as int, found@).take(found@.len() as int) =~= row_log(row as int, found@));
    out
}

/// The deductions `found` on column `col`, as deductions on the grid.
pub fn on_column(col: usize, found: &Vec<(usize, CellState)>) -> (out: Vec<Deduction>)
    ensures
        out@ == column_log(col as int, found@),
{
    let mut out: Vec<Deduction> = Vec::new();
    let mut i: usize = 0;
    while i < found.len()
        invariant
            i <= found@.len(),
            out@ == column_log(col as int, found@).take(i as int),
        decreases found@.len() - i,
    {
        let (row, state) = found[i];
        out.push(Deduction { row, col, state });
        assert(out@ =~= column_log(col as int, found@).take(i + 1));
        i += 1;
    }
    assert(column_log(col as int, found@).take(found@.len() as int) =~= column_log(
        col as int,
        found@,
    ));
    out
}

/// Adds the deductions of `more` to `all`.
pub fn append_deductions(all: &mut Vec<Deduction>, more: &Vec<Deduction>)
    ensures
        final(all)@ == old(all)@ + more@,
{
    let mut i: usize = 0;
    while i < more.len()
        invariant
            i <= more@.len(),
            all@ == old(all)@ + more@.take(i as int),
        decreases more@.len() - i,
    {
        all.push(more[i]);
        assert(all@ =~= old(all)@ + more@.take(i + 1));
        i += 1;
    }
    assert(more@.take(more@.len() as int) =~= more@);
}

} // verus!
