//! A grid as text: one character for each cell, row after row.

use vstd::prelude::*;
use vstd::string::*;

use crate::grid::{CellState, Grid};

verus! {

/// The character that stands for a cell: `.` undecided, `#` filled, `X` crossed.
pub open spec fn cell_char(cell: CellState) -> char {
    match cell {
        CellState::Empty => '.',
        CellState::Filled => '#',
        CellState::Crossed => 'X',
    }
}

/// The characters of the first `n` cells of `line`.
pub open spec fn line_text(line: Seq<CellState>, n: int) -> Seq<char>
    decreases n,
{
    if n <= 0 {
        Seq::empty()
    } else {
        line_text(line, n - 1).push(cell_char(line[n - 1]))
    }
}

/// The characters of the first `n` rows of `rows`.
pub open spec fn rows_text(rows: Seq<Seq<CellState>>, n: int) -> Seq<char>
    decreases n,
{
    if n <= 0 {
        Seq::empty()
    } else {
        rows_text(rows, n - 1) + line_text(rows[n - 1], rows[n - 1].len() as int)
    }
}

/// The grid as text.
pub open spec fn serialized(rows: Seq<Seq<CellState>>) -> Seq<char> {
    rows_text(rows, rows.len() as int)
}

/// The cell that a character stands for, if it stands for one.
pub open spec fn char_cell(c: char) -> Option<CellState> {
    if c == '.' {
        Some(CellState::Empty)
    } else if c == '#' {
        Some(CellState::Filled)
    } else if c == 'X' {
        Some(CellState::Crossed)
    } else {
        None
    }
}

/// The grid of `width` by `height` cells that `text` stands for: the text must hold one
/// character for each cell, and each must stand for a cell.
pub open spec fn parsed(text: Seq<char>, width: int, height: int) -> Option<Seq<Seq<CellState>>> {
    if text.len() == width * height && forall|i: int|
        0 <= i < text.len() ==> char_cell(#[trigger] text[i]) is Some {
        Some(
            Seq::new(
                height as nat,
                |r: int| Seq::new(width as nat, |c: int| char_cell(text[r * width + c])->0),
            ),
        )
    } else {
        None
    }
}

/// The text of a line holds one character for each cell.
pub proof fn lemma_line_text(line: Seq<CellState>, n: int)
    requires
        0 <= n <= line.len(),
    ensures
        line_text(line, n).len() == n,
        forall|i: int| 0 <= i < n ==> #[trigger] line_text(line, n)[i] == cell_char(line[i]),
    decreases n,
{
    if n > 0 {
        lemma_line_text(line, n - 1);
    }
}

/// The text of the rows of a rectangle holds one character for each cell.
pub proof fn lemma_rows_text_len(rows: Seq<Seq<CellState>>, width: int, n: int)
    requires
        0 <= n <= rows.len(),
        0 <= width,
        forall|r: int| 0 <= r < rows.len() ==> (#[trigger] rows[r]).len() == width,
    ensures
        rows_text(rows, n).len() == n * width,
    decreases n,
{
    if n > 0 {
        lemma_rows_text_len(rows, width, n - 1);
        lemma_line_text(rows[n - 1], width);
        assert(n * width == (n - 1) * width + width) by (nonlinear_arith);
    } else {
        assert(n * width == 0) by (nonlinear_arith)
            requires
                n == 0,
        ;
    }
}

/// The text of the rows of a rectangle holds the character of the cell `(r, c)` after the
/// characters of the rows before it and of the cells before it in its row.
pub proof fn lemma_rows_text_at(rows: Seq<Seq<CellState>>, width: int, n: int, r: int, c: int)
    requires
        0 <= n <= rows.len(),
        0 <= width,
        forall|i: int| 0 <= i < rows.len() ==> (#[trigger] rows[i]).len() == width,
        0 <= r < n,
        0 <= c < width,
    ensures
        0 <= r * width + c < rows_text(rows, n).len(),
        rows_text(rows, n)[r * width + c] == cell_char(rows[r][c]),
    decreases n,
{
    lemma_rows_text_len(rows, width, n);
    lemma_rows_text_len(rows, width, n - 1);
    lemma_line_text(rows[n - 1], width);
    assert(n * width == (n - 1) * width + width) by (nonlinear_arith);
    assert(0 <= r * width) by (nonlinear_arith)
        requires
            0 <= r,
            0 <= width,
    ;
    if r < n - 1 {
        lemma_rows_text_at(rows, width, n - 1, r, c);
    } else {
        assert(r * width == (n - 1) * width);
    }
}

/// Every cell has a character, and the character stands for the cell.
pub proof fn lemma_cell_char(cell: CellState)
    ensures
        char_cell(cell_char(cell)) == Some(cell),
{
}

/// The text of a grid stands for the grid.
pub proof fn lemma_round_trip(grid: Seq<Seq<CellState>>, width: int, height: int)
    requires
        crate::grid::rectangular(grid, width, height),
        0 <= width,
        0 <= height,
    ensures
        parsed(serialized(grid), width, height) == Some(grid),
{
    let text = serialized(grid);
    lemma_rows_text_len(grid, width, height);
    assert(height * width == width * height) by (nonlinear_arith);
    assert forall|i: int| 0 <= i < text.len() implies char_cell(#[trigger] text[i]) is Some by {
        let r = i / width;
        let c = i % width;
        assert(width > 0) by (nonlinear_arith)
            requires
                0 <= i < height * width,
                0 <= width,
        ;
        assert(i == r * width + c && 0 <= c < width && 0 <= r < height) by (nonlinear_arith)
            requires
                r == i / width,
                c == i % width,
                0 <= i < height * width,
                width > 0,
        ;
        lemma_rows_text_at(grid, width, height, r, c);
        lemma_cell_char(grid[r][c]);
    }
    let back = parsed(text, width, height)->0;
    assert forall|r: int| 0 <= r < height implies #[trigger] back[r] == grid[r] by {
        assert forall|c: int| 0 <= c < width implies back[r][c] == grid[r][c] by {
            lemma_rows_text_at(grid, width, height, r, c);
            lemma_cell_char(grid[r][c]);
        }
        assert(back[r] =~= grid[r]);
    }
    assert(back =~= grid);
}

/// Reads a grid of `width` by `height` cells from its text; `None` where the text does not
/// hold one character for each cell, or holds a character that stands for no cell.
pub fn grid_from_string(text: &str, width: usize, height: usize) -> (res: Option<Grid>)
    ensures
        match res {
            Some(grid) => {
                &&& grid.wf()
                &&& grid.spec_width() == width
                &&& grid.spec_height() == height
                &&& parsed(text@, width as int, height as int) == Some(grid@)
            },
            None => parsed(text@, width as int, height as int) is None,
        },
{
    if !text.is_ascii() {
        proof {
            let bad = choose|i: int|
                0 <= i < text@.len() && !('\0' <= #[trigger] text@[i] <= '\u{7f}');
            assert(char_cell(text@[bad]) is None);
        }
        return None;
    }
    let count = text.unicode_len();
    let cells = match width.checked_mul(height) {
        Some(n) => n,
        None => {
            return None;
        },
    };
    if count != cells {
        return None;
    }
    let mut grid = Grid::new(width, height);
    let mut index: usize = 0;
    let mut row: usize = 0;
    while row < height
        invariant
            grid.wf(),
            grid.spec_width() == width,
            grid.spec_height() == height,
            text.is_ascii(),
            text@.len() == count,
            count == width * height,
            row <= height,
            index == row * width,
            forall|i: int| 0 <= i < index ==> char_cell(#[trigger] text@[i]) is Some,
            forall|r: int, c: int|
                0 <= r < row && 0 <= c < width ==> #[trigger] grid@[r][c] == char_cell(
                    text@[r * width + c],
                )->0,
        decreases height - row,
    {
        let mut col: usize = 0;
        proof {
            assert(row * width + width <= width * height) by (nonlinear_arith)
                requires
                    row < height,
                    0 <= width,
            ;
        }
        while col < width
            invariant
                grid.wf(),
                grid.spec_width() == width,
                grid.spec_height() == height,
                text.is_ascii(),
                text@.len() == count,
                count == width * height,
                row < height,
                col <= width,
                index == row * width + col,
                row * width + width <= width * height,
                forall|i: int| 0 <= i < index ==> char_cell(#[trigger] text@[i]) is Some,
                forall|r: int, c: int|
                    0 <= r < row && 0 <= c < width ==> #[trigger] grid@[r][c] == char_cell(
                        text@[r * width + c],
                    )->0,
                forall|c: int|
                    0 <= c < col ==> #[trigger] grid@[row as int][c] == char_cell(
                        text@[row * width + c],
                    )->0,
            decreases width - col,
        {
            let byte = text.get_ascii(index);
            let state = if byte == 46 {
                CellState::Empty
            } else if byte == 35 {
                CellState::Filled
            } else if byte == 88 {
                CellState::Crossed
            } else {
                assert(char_cell(text@[index as int]) is None);
                return None;
            };
            assert(char_cell(text@[index as int]) == Some(state));
            let written = grid.set(row, col, state);
            assert(written is Ok);
            index += 1;
            col += 1;
        }
        proof {
            assert((row + 1) * width == row * width + width) by (nonlinear_arith);
        }
        row += 1;
    }
    proof {
        assert(index == width * height) by (nonlinear_arith)
            requires
                index == row * width,
                row == height,
        ;
        let back = parsed(text@, width as int, height as int)->0;
        assert forall|r: int| 0 <= r < height implies #[trigger] back[r] == grid@[r] by {
            assert(back[r] =~= grid@[r]);
        }
        assert(back =~= grid@);
    }
    Some(grid)
}

/// The texts of `keys`.
pub open spec fn texts(keys: Seq<String>) -> Seq<Seq<char>> {
    Seq::new(keys.len(), |i: int| keys[i]@)
}

/// The grid as text: `.` for an undecided cell, `#` for a filled one, `X` for a crossed one,
/// row after row.
pub fn grid_to_string(grid: &Grid) -> (text: String)
    requires
        grid.wf(),
    ensures
        text@ == serialized(grid@),
{
    let mut result = String::new();
    let height = grid.height();
    let width = grid.width();
    proof {
        reveal_strlit(".");
        reveal_strlit("#");
        reveal_strlit("X");
    }
    let mut row: usize = 0;
    while row < height
        invariant
            grid.wf(),
            height == grid.spec_height(),
            width == grid.spec_width(),
            row <= height,
            result@ == rows_text(grid@, row as int),
            "."@ == seq!['.'],
            "#"@ == seq!['#'],
            "X"@ == seq!['X'],
        decreases height - row,
    {
        let ghost done = result@;
        let ghost line = grid@[row as int];
        let mut col: usize = 0;
        assert(result@ =~= done + line_text(line, 0));
        while col < width
            invariant
                grid.wf(),
                height == grid.spec_height(),
                width == grid.spec_width(),
                row < height,
                col <= width,
                line == grid@[row as int],
                result@ == done + line_text(line, col as int),
                "."@ == seq!['.'],
                "#"@ == seq!['#'],
                "X"@ == seq!['X'],
            decreases width - col,
        {
            let ghost so_far = result@;
            match grid.get(row, col) {
                Some(CellState::Empty) => {
                    result.append(".");
                },
                Some(CellState::Filled) => {
                    result.append("#");
                },
                Some(CellState::Crossed) => {
                    result.append("X");
                },
                None => {},
            }
            assert(result@ =~= done + line_text(line, col + 1));
            col += 1;
        }
        row += 1;
    }
    result
}

/// Whether `key` is among `keys`.
pub fn contains_key(keys: &Vec<String>, key: &String) -> (found: bool)
    ensures
        found == texts(keys@).contains(key@),
{
    let mut i: usize = 0;
    while i < keys.len()
        invariant
            i <= keys@.len(),
            forall|j: int| 0 <= j < i ==> texts(keys@)[j] != key@,
        decreases keys@.len() - i,
    {
        if keys[i] == *key {
            assert(texts(keys@)[i as int] == key@);
            return true;
        }
        i += 1;
    }
    false
}

} // verus!
