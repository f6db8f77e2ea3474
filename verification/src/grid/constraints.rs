//! Run-length constraints of a puzzle.

use vstd::prelude::*;

verus! {

/// Sum of the run lengths in `blocks`.
pub open spec fn sum_blocks(blocks: Seq<usize>) -> int
    decreases blocks.len(),
{
    if blocks.len() == 0 {
        0
    } else {
        sum_blocks(blocks.drop_last()) + blocks.last()
    }
}

/// Shortest line that can hold `blocks`: every run, and one cell between neighbours.
pub open spec fn min_length(blocks: Seq<usize>) -> int {
    if blocks.len() == 0 {
        0
    } else {
        sum_blocks(blocks) + blocks.len() - 1
    }
}

/// Every line of `lines` can be held by a line of `limit` cells.
pub open spec fn lines_fit(lines: Seq<Vec<usize>>, limit: int) -> bool {
    forall|i: int| 0 <= i < lines.len() ==> min_length(#[trigger] lines[i]@) <= limit
}

/// `i` is the first line of `lines` that a line of `limit` cells cannot hold.
pub open spec fn first_unfit(lines: Seq<Vec<usize>>, limit: int, i: int) -> bool {
    &&& 0 <= i < lines.len()
    &&& min_length(lines[i]@) > limit
    &&& lines_fit(lines.take(i), limit)
}

/// The sum of a prefix is at most the sum of the whole.
pub proof fn lemma_sum_blocks_prefix(blocks: Seq<usize>, n: int)
    requires
        0 <= n <= blocks.len(),
    ensures
        0 <= sum_blocks(blocks.take(n)) <= sum_blocks(blocks),
    decreases blocks.len() - n,
{
    if n == blocks.len() {
        assert(blocks.take(n) =~= blocks);
        lemma_sum_blocks_nonnegative(blocks);
    } else {
        lemma_sum_blocks_prefix(blocks, n + 1);
        assert(blocks.take(n + 1).drop_last() =~= blocks.take(n));
        lemma_sum_blocks_nonnegative(blocks.take(n));
    }
}

/// A sum of run lengths is never negative.
pub proof fn lemma_sum_blocks_nonnegative(blocks: Seq<usize>)
    ensures
        0 <= sum_blocks(blocks),
    decreases blocks.len(),
{
    if blocks.len() > 0 {
        lemma_sum_blocks_nonnegative(blocks.drop_last());
    }
}

/// The shortest line for a prefix is no longer than for the whole.
pub proof fn lemma_min_length_prefix(blocks: Seq<usize>, n: int)
    requires
        0 <= n <= blocks.len(),
    ensures
        0 <= min_length(blocks.take(n)) <= min_length(blocks),
{
    lemma_sum_blocks_prefix(blocks, n);
    lemma_sum_blocks_nonnegative(blocks.take(n));
}

/// Why a set of constraints was refused.
#[derive(Debug, Clone, Copy, PartialEq, Eq, Structural)]
pub enum ConstraintError {
    /// `given` row constraints for a grid of `height` rows.
    RowCountMismatch { given: usize, height: usize },
    /// `given` column constraints for a grid of `width` columns.
    ColumnCountMismatch { given: usize, width: usize },
    /// The runs of row `row` do not fit in the width of the grid.
    RowTooLong { row: usize },
    /// The runs of column `col` do not fit in the height of the grid.
    ColumnTooLong { col: usize },
}

/// The run lengths of every row and every column of a puzzle.
///
/// `rows[i]` lists the lengths of the runs of row `i`, left to right; `columns[j]` those of
/// column `j`, top to bottom. An empty list means that the line holds no filled cell.
#[derive(Debug, Clone)]
pub struct Constraints {
    /// Number of columns of the grid.
    pub width: usize,
    /// Number of rows of the grid.
    pub height: usize,
    /// Run lengths of each row.
    pub rows: Vec<Vec<usize>>,
    /// Run lengths of each column.
    pub columns: Vec<Vec<usize>>,
}

/// `res` is what checking `rows` and `columns` against the dimensions gives: the
/// constraints, or the first fault in the order of the number of rows, the number of columns,
/// the rows, the columns.
pub open spec fn checked(
    width: usize,
    height: usize,
    rows: Vec<Vec<usize>>,
    columns: Vec<Vec<usize>>,
    res: Result<Constraints, ConstraintError>,
) -> bool {
    match res {
        Ok(k) => {
            &&& k.wf()
            &&& k.width == width
            &&& k.height == height
            &&& k.rows == rows
            &&& k.columns == columns
        },
        Err(ConstraintError::RowCountMismatch { given, height: h }) => {
            &&& rows@.len() != height
            &&& given == rows@.len()
            &&& h == height
        },
        Err(ConstraintError::ColumnCountMismatch { given, width: w }) => {
            &&& rows@.len() == height
            &&& columns@.len() != width
            &&& given == columns@.len()
            &&& w == width
        },
        Err(ConstraintError::RowTooLong { row }) => {
            &&& rows@.len() == height
            &&& columns@.len() == width
            &&& first_unfit(rows@, width as int, row as int)
        },
        Err(ConstraintError::ColumnTooLong { col }) => {
            &&& rows@.len() == height
            &&& columns@.len() == width
            &&& lines_fit(rows@, width as int)
            &&& first_unfit(columns@, height as int, col as int)
        },
    }
}

impl Constraints {
    /// There is one list for each row and each column, and each fits in its line.
    pub open spec fn wf(&self) -> bool {
        &&& self.rows@.len() == self.height
        &&& self.columns@.len() == self.width
        &&& lines_fit(self.rows@, self.width as int)
        &&& lines_fit(self.columns@, self.height as int)
    }

    /// Run lengths of row `row`.
    pub open spec fn row(&self, row: int) -> Seq<usize> {
        self.rows@[row]@
    }

    /// Run lengths of column `col`.
    pub open spec fn column(&self, col: int) -> Seq<usize> {
        self.columns@[col]@
    }

    /// Checks the constraints against the dimensions and keeps them.
    ///
    /// The first fault found is reported: the number of rows, the number of columns, the
    /// first row that is too long, the first column that is too long.
    pub fn new(width: usize, height: usize, rows: Vec<Vec<usize>>, columns: Vec<Vec<usize>>) -> (res:
        Result<Constraints, ConstraintError>)
        ensures
            checked(width, height, rows, columns, res),
    {
        if rows.len() != height {
            return Err(ConstraintError::RowCountMismatch { given: rows.len(), height });
        }
        if columns.len() != width {
            return Err(ConstraintError::ColumnCountMismatch { given: columns.len(), width });
        }
        let mut i: usize = 0;
        while i < rows.len()
            invariant
                i <= rows@.len(),
                rows@.len() == height,
                columns@.len() == width,
                lines_fit(rows@.take(i as int), width as int),
            decreases rows@.len() - i,
        {
            if Self::exceeds(rows[i].as_slice(), width) {
                return Err(ConstraintError::RowTooLong { row: i });
            }
            assert forall|j: int| 0 <= j < i + 1 implies min_length(
                #[trigger] rows@.take(i + 1)[j]@,
            ) <= width by {
                if j < i {
                    assert(rows@.take(i + 1)[j] == rows@.take(i as int)[j]);
                }
            }
            i += 1;
        }
        assert(rows@.take(rows@.len() as int) =~= rows@);
        let mut j: usize = 0;
        while j < columns.len()
            invariant
                j <= columns@.len(),
                rows@.len() == height,
                columns@.len() == width,
                lines_fit(rows@, width as int),
                lines_fit(columns@.take(j as int), height as int),
            decreases columns@.len() - j,
        {
            if Self::exceeds(columns[j].as_slice(), height) {
                return Err(ConstraintError::ColumnTooLong { col: j });
            }
            assert forall|k: int| 0 <= k < j + 1 implies min_length(
                #[trigger] columns@.take(j + 1)[k]@,
            ) <= height by {
                if k < j {
                    assert(columns@.take(j + 1)[k] == columns@.take(j as int)[k]);
                }
            }
            j += 1;
        }
        assert(columns@.take(columns@.len() as int) =~= columns@);
        Ok(Constraints { width, height, rows, columns })
    }

    /// Whether a line of `limit` cells is too short for the runs of `constraint`.
    pub fn exceeds(constraint: &[usize], limit: usize) -> (too_long: bool)
        ensures
            too_long == (min_length(constraint@) > limit),
    {
        let mut needed: usize = 0;
        let mut i: usize = 0;
        while i < constraint.len()
            invariant
                i <= constraint@.len(),
                needed == min_length(constraint@.take(i as int)),
                needed <= limit,
            decreases constraint@.len() - i,
        {
            let ghost before = constraint@.take(i as int);
            let ghost after = constraint@.take(i + 1);
            assert(after.drop_last() =~= before);
            assert(after.last() == constraint@[i as int]);
            proof {
                lemma_sum_blocks_nonnegative(before);
                lemma_min_length_prefix(constraint@, i + 1);
            }
            let gap: usize = if i == 0 {
                0
            } else {
                1
            };
            let block = constraint[i];
            // needed + gap + block > limit, written without overflow
            if block > limit - needed || gap > limit - needed - block {
                return true;
            }
            needed = needed + gap + block;
            i += 1;
        }
        assert(constraint@.take(constraint@.len() as int) =~= constraint@);
        false
    }

    /// Length of the shortest line that can hold the runs of `constraint`, or `usize::MAX`
    /// where that length does not fit in a `usize`.
    pub fn min_line_length(constraint: &[usize]) -> (needed: usize)
        ensures
            needed == if min_length(constraint@) <= usize::MAX {
                min_length(constraint@)
            } else {
                usize::MAX as int
            },
    {
        let mut needed: usize = 0;
        let mut i: usize = 0;
        while i < constraint.len()
            invariant
                i <= constraint@.len(),
                needed == min_length(constraint@.take(i as int)),
            decreases constraint@.len() - i,
        {
            let ghost before = constraint@.take(i as int);
            let ghost after = constraint@.take(i + 1);
            assert(after.drop_last() =~= before);
            assert(after.last() == constraint@[i as int]);
            proof {
                lemma_sum_blocks_nonnegative(before);
                lemma_min_length_prefix(constraint@, i + 1);
            }
            let gap: usize = if i == 0 {
                0
            } else {
                1
            };
            let block = constraint[i];
            if block > usize::MAX - needed || gap > usize::MAX - needed - block {
                return usize::MAX;
            }
            needed = needed + gap + block;
            i += 1;
        }
        assert(constraint@.take(constraint@.len() as int) =~= constraint@);
        needed
    }

    /// The run lengths of row `row`; `None` if there is no such row.
    pub fn get_row_constraint(&self, row: usize) -> (constraint: Option<&Vec<usize>>)
        ensures
            match constraint {
                Some(c) => row < self.rows@.len() && *c == self.rows@[row as int],
                None => row >= self.rows@.len(),
            },
    {
        if row < self.rows.len() {
            Some(&self.rows[row])
        } else {
            None
        }
    }

    /// The run lengths of column `col`; `None` if there is no such column.
    pub fn get_column_constraint(&self, col: usize) -> (constraint: Option<&Vec<usize>>)
        ensures
            match constraint {
                Some(c) => col < self.columns@.len() && *c == self.columns@[col as int],
                None => col >= self.columns@.len(),
            },
    {
        if col < self.columns.len() {
            Some(&self.columns[col])
        } else {
            None
        }
    }
}

} // verus!
