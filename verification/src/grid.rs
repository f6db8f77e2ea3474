//! The puzzle grid and the state of its cells.

use vstd::prelude::*;

pub mod constraints;

pub use constraints::{ConstraintError, Constraints};

verus! {

/// State of one cell.
#[derive(Debug, Clone, Copy, PartialEq, Eq, Hash, Structural)]
pub enum CellState {
    /// Not decided yet.
    Empty,
    /// Proven to belong to a run.
    Filled,
    /// Proven to belong to no run.
    Crossed,
}

/// Why a grid refused a read or a write.
#[derive(Debug, Clone, Copy, PartialEq, Eq, Structural)]
pub enum GridError {
    /// The cell `(row, col)` lies outside the grid.
    OutOfBounds { row: usize, col: usize },
    /// There is no row `row`.
    RowOutOfBounds { row: usize },
    /// There is no column `col`.
    ColumnOutOfBounds { col: usize },
    /// A whole line was given with `given` cells where `expected` are needed.
    WrongLength { expected: usize, given: usize },
}

/// `rows` is a rectangle of `height` rows of `width` cells.
pub open spec fn rectangular(rows: Seq<Seq<CellState>>, width: int, height: int) -> bool {
    &&& rows.len() == height
    &&& forall|r: int| 0 <= r < rows.len() ==> (#[trigger] rows[r]).len() == width
}

/// Column `col` of `rows`, top to bottom.
pub open spec fn column_of(rows: Seq<Seq<CellState>>, col: int) -> Seq<CellState> {
    Seq::new(rows.len(), |r: int| rows[r][col])
}

/// `rows` with the cell `(row, col)` replaced by `state`.
pub open spec fn with_cell(rows: Seq<Seq<CellState>>, row: int, col: int, state: CellState) -> Seq<
    Seq<CellState>,
> {
    rows.update(row, rows[row].update(col, state))
}

/// `rows` with column `col` replaced by `states`.
pub open spec fn with_column(rows: Seq<Seq<CellState>>, col: int, states: Seq<CellState>) -> Seq<
    Seq<CellState>,
> {
    Seq::new(rows.len(), |r: int| rows[r].update(col, states[r]))
}

/// Number of cells of `line` that are in state `state`.
pub open spec fn count_in_line(line: Seq<CellState>, state: CellState) -> nat
    decreases line.len(),
{
    if line.len() == 0 {
        0
    } else {
        count_in_line(line.drop_last(), state) + if line.last() == state {
            1nat
        } else {
            0nat
        }
    }
}

/// Number of cells of `rows` that are in state `state`.
pub open spec fn count_in_rows(rows: Seq<Seq<CellState>>, state: CellState) -> nat
    decreases rows.len(),
{
    if rows.len() == 0 {
        0
    } else {
        count_in_rows(rows.drop_last(), state) + count_in_line(rows.last(), state)
    }
}

/// A line never holds more cells of one state than it has cells.
pub proof fn lemma_count_in_line_bound(line: Seq<CellState>, state: CellState)
    ensures
        count_in_line(line, state) <= line.len(),
    decreases line.len(),
{
    if line.len() > 0 {
        lemma_count_in_line_bound(line.drop_last(), state);
    }
}

/// A rectangle never holds more cells of one state than it has cells.
pub proof fn lemma_count_in_rows_bound(rows: Seq<Seq<CellState>>, width: int, state: CellState)
    requires
        rectangular(rows, width, rows.len() as int),
    ensures
        count_in_rows(rows, state) <= rows.len() * width,
    decreases rows.len(),
{
    if rows.len() > 0 {
        let init = rows.drop_last();
        lemma_count_in_rows_bound(init, width, state);
        lemma_count_in_line_bound(rows.last(), state);
        assert(rows.len() * width == init.len() * width + width) by (nonlinear_arith)
            requires
                rows.len() == init.len() + 1,
        ;
    }
}

/// Writing one cell of a line changes the count of a state by what leaves and what comes.
pub proof fn lemma_count_in_line_update(line: Seq<CellState>, i: int, written: CellState, state: CellState)
    requires
        0 <= i < line.len(),
    ensures
        count_in_line(line.update(i, written), state) == count_in_line(line, state) - (if line[i]
            == state {
            1int
        } else {
            0int
        }) + (if written == state {
            1int
        } else {
            0int
        }),
    decreases line.len(),
{
    let after = line.update(i, written);
    if i == line.len() - 1 {
        assert(after.drop_last() =~= line.drop_last());
    } else {
        assert(after.drop_last() =~= line.drop_last().update(i, written));
        lemma_count_in_line_update(line.drop_last(), i, written, state);
    }
}

/// Replacing one row changes the count of a state by what leaves and what comes.
pub proof fn lemma_count_in_rows_update(
    rows: Seq<Seq<CellState>>,
    r: int,
    line: Seq<CellState>,
    state: CellState,
)
    requires
        0 <= r < rows.len(),
    ensures
        count_in_rows(rows.update(r, line), state) == count_in_rows(rows, state) - count_in_line(
            rows[r],
            state,
        ) + count_in_line(line, state),
    decreases rows.len(),
{
    let after = rows.update(r, line);
    if r == rows.len() - 1 {
        assert(after.drop_last() =~= rows.drop_last());
    } else {
        assert(after.drop_last() =~= rows.drop_last().update(r, line));
        lemma_count_in_rows_update(rows.drop_last(), r, line, state);
    }
}

/// Deciding an undecided cell leaves one undecided cell less; undoing it brings it back.
pub proof fn lemma_count_with_cell(
    rows: Seq<Seq<CellState>>,
    row: int,
    col: int,
    written: CellState,
)
    requires
        0 <= row < rows.len(),
        0 <= col < rows[row].len(),
    ensures
        count_in_rows(with_cell(rows, row, col, written), CellState::Empty) == count_in_rows(
            rows,
            CellState::Empty,
        ) - (if rows[row][col] == CellState::Empty {
            1int
        } else {
            0int
        }) + (if written == CellState::Empty {
            1int
        } else {
            0int
        }),
{
    lemma_count_in_line_update(rows[row], col, written, CellState::Empty);
    lemma_count_in_rows_update(rows, row, rows[row].update(col, written), CellState::Empty);
}

/// Copies a line of cells.
pub fn copy_line(line: &[CellState]) -> (out: Vec<CellState>)
    ensures
        out@ == line@,
{
    let mut out: Vec<CellState> = Vec::new();
    let mut i: usize = 0;
    while i < line.len()
        invariant
            i <= line.len(),
            out@ == line@.take(i as int),
        decreases line.len() - i,
    {
        out.push(line[i]);
        i += 1;
    }
    out
}

/// A rectangular matrix of cells, `height` rows of `width` cells each.
///
/// The dimensions are fixed when the grid is made.
#[derive(Debug, Clone)]
pub struct Grid {
    width: usize,
    height: usize,
    cells: Vec<Vec<CellState>>,
}

impl View for Grid {
    type V = Seq<Seq<CellState>>;

    /// The rows of the grid, top to bottom.
    closed spec fn view(&self) -> Seq<Seq<CellState>> {
        Seq::new(self.cells@.len(), |r: int| self.cells@[r]@)
    }
}

impl Grid {
    /// Number of columns.
    pub closed spec fn spec_width(&self) -> usize {
        self.width
    }

    /// Number of rows.
    pub closed spec fn spec_height(&self) -> usize {
        self.height
    }

    /// The grid is a rectangle of its stated dimensions, and its cells can be counted in a
    /// `usize`.
    pub open spec fn wf(&self) -> bool {
        &&& rectangular(self@, self.spec_width() as int, self.spec_height() as int)
        &&& self.spec_width() * self.spec_height() <= usize::MAX
    }

    /// Makes a grid of `width` columns and `height` rows, every cell `Empty`.
    pub fn new(width: usize, height: usize) -> (grid: Grid)
        requires
            width * height <= usize::MAX,
        ensures
            grid.wf(),
            grid.spec_width() == width,
            grid.spec_height() == height,
            forall|r: int, c: int|
                0 <= r < height && 0 <= c < width ==> grid@[r][c] == CellState::Empty,
    {
        let mut row: Vec<CellState> = Vec::new();
        let mut c: usize = 0;
        while c < width
            invariant
                c <= width,
                row@.len() == c,
                forall|j: int| 0 <= j < c ==> row@[j] == CellState::Empty,
            decreases width - c,
        {
            row.push(CellState::Empty);
            c += 1;
        }
        let mut cells: Vec<Vec<CellState>> = Vec::new();
        let mut r: usize = 0;
        while r < height
            invariant
                r <= height,
                cells@.len() == r,
                row@.len() == width,
                forall|j: int| 0 <= j < width ==> row@[j] == CellState::Empty,
                forall|i: int| 0 <= i < r ==> (#[trigger] cells@[i])@ == row@,
            decreases height - r,
        {
            cells.push(copy_line(row.as_slice()));
            r += 1;
        }
        Grid { width, height, cells }
    }

    /// Number of columns.
    #[verifier::when_used_as_spec(spec_width)]
    pub fn width(&self) -> (w: usize)
        ensures
            w == self.spec_width(),
    {
        self.width
    }

    /// Number of rows.
    #[verifier::when_used_as_spec(spec_height)]
    pub fn height(&self) -> (h: usize)
        ensures
            h == self.spec_height(),
    {
        self.height
    }

    /// Reads the cell `(row, col)`; `None` outside the grid.
    pub fn get(&self, row: usize, col: usize) -> (cell: Option<CellState>)
        requires
            self.wf(),
        ensures
            cell == if row < self.spec_height() && col < self.spec_width() {
                Some(self@[row as int][col as int])
            } else {
                None
            },
    {
        if row < self.height && col < self.width {
            assert(self@[row as int] == self.cells@[row as int]@);
            Some(self.cells[row][col])
        } else {
            None
        }
    }

    /// Writes `state` to the cell `(row, col)`. Outside the grid nothing is written.
    pub fn set(&mut self, row: usize, col: usize, state: CellState) -> (res: Result<(), GridError>)
        requires
            old(self).wf(),
        ensures
            final(self).wf(),
            final(self).spec_width() == old(self).spec_width(),
            final(self).spec_height() == old(self).spec_height(),
            match res {
                Ok(()) => {
                    &&& row < old(self).spec_height()
                    &&& col < old(self).spec_width()
                    &&& final(self)@ == with_cell(old(self)@, row as int, col as int, state)
                },
                Err(e) => {
                    &&& !(row < old(self).spec_height() && col < old(self).spec_width())
                    &&& e == (GridError::OutOfBounds { row, col })
                    &&& final(self)@ == old(self)@
                },
            },
    {
        if row >= self.height || col >= self.width {
            return Err(GridError::OutOfBounds { row, col });
        }
        assert(old(self)@[row as int] == old(self).cells@[row as int]@);
        self.cells[row][col] = state;
        assert(self@ =~= with_cell(old(self)@, row as int, col as int, state));
        Ok(())
    }

    /// A copy of row `row`; `None` if there is no such row.
    pub fn get_row(&self, row: usize) -> (line: Option<Vec<CellState>>)
        requires
            self.wf(),
        ensures
            match line {
                Some(l) => row < self.spec_height() && l@ == self@[row as int],
                None => row >= self.spec_height(),
            },
    {
        if row < self.height {
            Some(copy_line(self.cells[row].as_slice()))
        } else {
            None
        }
    }

    /// A copy of column `col`, top to bottom; `None` if there is no such column.
    pub fn get_column(&self, col: usize) -> (line: Option<Vec<CellState>>)
        requires
            self.wf(),
        ensures
            match line {
                Some(l) => col < self.spec_width() && l@ == column_of(self@, col as int),
                None => col >= self.spec_width(),
            },
    {
        if col >= self.width {
            return None;
        }
        let mut out: Vec<CellState> = Vec::new();
        let mut r: usize = 0;
        while r < self.height
            invariant
                self.wf(),
                col < self.width,
                r <= self.height,
                self.height == self.cells@.len(),
                out@.len() == r,
                forall|i: int| 0 <= i < r ==> out@[i] == self@[i][col as int],
            decreases self.height - r,
        {
            assert(self@[r as int] == self.cells@[r as int]@);
            out.push(self.cells[r][col]);
            r += 1;
        }
        assert(out@ =~= column_of(self@, col as int));
        Some(out)
    }

    /// Replaces row `row` by `states`.
    pub fn set_row(&mut self, row: usize, states: Vec<CellState>) -> (res: Result<(), GridError>)
        requires
            old(self).wf(),
        ensures
            final(self).wf(),
            final(self).spec_width() == old(self).spec_width(),
            final(self).spec_height() == old(self).spec_height(),
            match res {
                Ok(()) => {
                    &&& row < old(self).spec_height()
                    &&& states@.len() == old(self).spec_width()
                    &&& final(self)@ == old(self)@.update(row as int, states@)
                },
                Err(e) => {
                    &&& final(self)@ == old(self)@
                    &&& e == if row >= old(self).spec_height() {
                        GridError::RowOutOfBounds { row }
                    } else {
                        GridError::WrongLength {
                            expected: old(self).spec_width(),
                            given: states@.len() as usize,
                        }
                    }
                    &&& row >= old(self).spec_height() || states@.len() != old(self).spec_width()
                },
            },
    {
        if row >= self.height {
            return Err(GridError::RowOutOfBounds { row });
        }
        if states.len() != self.width {
            return Err(GridError::WrongLength { expected: self.width, given: states.len() });
        }
        self.cells[row] = states;
        assert(self@ =~= old(self)@.update(row as int, states@));
        Ok(())
    }

    /// Replaces column `col` by `states`, top to bottom.
    pub fn set_column(&mut self, col: usize, states: Vec<CellState>) -> (res: Result<
        (),
        GridError,
    >)
        requires
            old(self).wf(),
        ensures
            final(self).wf(),
            final(self).spec_width() == old(self).spec_width(),
            final(self).spec_height() == old(self).spec_height(),
            match res {
                Ok(()) => {
                    &&& col < old(self).spec_width()
                    &&& states@.len() == old(self).spec_height()
                    &&& final(self)@ == with_column(old(self)@, col as int, states@)
                },
                Err(e) => {
                    &&& final(self)@ == old(self)@
                    &&& e == if col >= old(self).spec_width() {
                        GridError::ColumnOutOfBounds { col }
                    } else {
                        GridError::WrongLength {
                            expected: old(self).spec_height(),
                            given: states@.len() as usize,
                        }
                    }
                    &&& col >= old(self).spec_width() || states@.len() != old(self).spec_height()
                },
            },
    {
        if col >= self.width {
            return Err(GridError::ColumnOutOfBounds { col });
        }
        if states.len() != self.height {
            return Err(GridError::WrongLength { expected: self.height, given: states.len() });
        }
        let mut r: usize = 0;
        while r < self.height
            invariant
                self.wf(),
                self.width == old(self).width,
                self.height == old(self).height,
                self.height == self.cells@.len(),
                col < self.width,
                states@.len() == self.height,
                r <= self.height,
                forall|i: int|
                    0 <= i < r ==> (#[trigger] self@[i]) == old(self)@[i].update(
                        col as int,
                        states@[i],
                    ),
                forall|i: int| r <= i < self.height ==> (#[trigger] self@[i]) == old(self)@[i],
            decreases self.height - r,
        {
            let ghost before = self@;
            assert(self@[r as int] == self.cells@[r as int]@);
            self.cells[r][col] = states[r];
            assert(self@ =~= with_cell(before, r as int, col as int, states@[r as int]));
            r += 1;
        }
        assert(self@ =~= with_column(old(self)@, col as int, states@));
        Ok(())
    }

    fn count_cells(&self, state: CellState) -> (n: usize)
        requires
            self.wf(),
        ensures
            n == count_in_rows(self@, state),
    {
        let mut n: usize = 0;
        let mut r: usize = 0;
        while r < self.height
            invariant
                self.wf(),
                self.height == self.cells@.len(),
                r <= self.height,
                n == count_in_rows(self@.take(r as int), state),
            decreases self.height - r,
        {
            let ghost done = self@.take(r as int);
            let ghost row = self@[r as int];
            assert(row == self.cells@[r as int]@);
            proof {
                lemma_count_in_rows_bound(self@, self.width as int, state);
                lemma_count_in_rows_bound(done, self.width as int, state);
                assert(done.len() * self.width <= self.height * self.width - self.width)
                    by (nonlinear_arith)
                    requires
                        done.len() + 1 <= self.height,
                ;
                assert(self.height * self.width == self.width * self.height)
                    by (nonlinear_arith);
            }
            let mut c: usize = 0;
            let mut k: usize = 0;
            while c < self.width
                invariant
                    self.wf(),
                    r < self.height,
                    self.height == self.cells@.len(),
                    row == self@[r as int],
                    row == self.cells@[r as int]@,
                    c <= self.width,
                    k == count_in_line(row.take(c as int), state),
                    k <= c,
                decreases self.width - c,
            {
                assert(row.take(c as int + 1).drop_last() =~= row.take(c as int));
                if self.cells[r][c] == state {
                    k += 1;
                }
                c += 1;
            }
            assert(row.take(self.width as int) =~= row);
            assert(self@.take(r as int + 1).drop_last() =~= done);
            n += k;
            r += 1;
        }
        assert(self@.take(self.height as int) =~= self@);
        n
    }

    /// Number of cells that are still `Empty`.
    pub fn count_empty_cells(&self) -> (n: usize)
        requires
            self.wf(),
        ensures
            n == count_in_rows(self@, CellState::Empty),
    {
        self.count_cells(CellState::Empty)
    }

    /// Number of cells that are `Filled`.
    pub fn count_filled_cells(&self) -> (n: usize)
        requires
            self.wf(),
        ensures
            n == count_in_rows(self@, CellState::Filled),
    {
        self.count_cells(CellState::Filled)
    }

    /// Whether the grid can be worked on: any grid can, so this is always true.
    pub fn is_valid(&self) -> (ok: bool)
        ensures
            ok,
    {
        true
    }

    /// An independent copy of the grid.
    pub fn clone_grid(&self) -> (copy: Grid)
        requires
            self.wf(),
        ensures
            copy.wf(),
            copy@ == self@,
            copy.spec_width() == self.spec_width(),
            copy.spec_height() == self.spec_height(),
    {
        let mut cells: Vec<Vec<CellState>> = Vec::new();
        let mut r: usize = 0;
        while r < self.height
            invariant
                self.wf(),
                self.height == self.cells@.len(),
                r <= self.height,
                cells@.len() == r,
                forall|i: int| 0 <= i < r ==> (#[trigger] cells@[i])@ == self.cells@[i]@,
            decreases self.height - r,
        {
            cells.push(copy_line(self.cells[r].as_slice()));
            r += 1;
        }
        let copy = Grid { width: self.width, height: self.height, cells };
        assert(copy@ =~= self@);
        copy
    }
}

} // verus!
