//! Grid lines found in a picture, and the choice among lines that lie close together.

use vstd::prelude::*;

use crate::image_parser::raster::Raster;

verus! {

/// `sorted` with `line` put in by its position, after the lines at the same position.
pub open spec fn insert_by_position(sorted: Seq<(usize, u32)>, line: (usize, u32)) -> Seq<
    (usize, u32),
>
    decreases sorted.len(),
{
    if sorted.len() == 0 {
        seq![line]
    } else if sorted.last().0 <= line.0 {
        sorted.push(line)
    } else {
        insert_by_position(sorted.drop_last(), line).push(sorted.last())
    }
}

/// `lines` by position; lines at the same position stay in their order.
pub open spec fn by_position(lines: Seq<(usize, u32)>) -> Seq<(usize, u32)>
    decreases lines.len(),
{
    if lines.len() == 0 {
        Seq::empty()
    } else {
        insert_by_position(by_position(lines.drop_last()), lines.last())
    }
}

/// `lines` come by position.
pub open spec fn positions_ordered(lines: Seq<(usize, u32)>) -> bool {
    forall|i: int, j: int| 0 <= i <= j < lines.len() ==> (#[trigger] lines[i]).0 <= (#[trigger] lines[j]).0
}

/// Putting a line into lines that come by position leaves them in that order.
pub proof fn lemma_insert_by_position(sorted: Seq<(usize, u32)>, line: (usize, u32))
    requires
        positions_ordered(sorted),
    ensures
        positions_ordered(insert_by_position(sorted, line)),
        insert_by_position(sorted, line).len() == sorted.len() + 1,
        forall|i: int|
            0 <= i < insert_by_position(sorted, line).len() ==> (#[trigger] insert_by_position(
                sorted,
                line,
            )[i]) == line || sorted.contains(insert_by_position(sorted, line)[i]),
    decreases sorted.len(),
{
    let out = insert_by_position(sorted, line);
    if sorted.len() == 0 {
    } else if sorted.last().0 <= line.0 {
        assert forall|i: int, j: int| 0 <= i <= j < out.len() implies (#[trigger] out[i]).0 <= (
        #[trigger] out[j]).0 by {
            if j == sorted.len() && i < sorted.len() {
                assert(sorted[i].0 <= sorted[sorted.len() - 1].0);
            }
        }
        assert forall|i: int| 0 <= i < out.len() implies (#[trigger] out[i]) == line
            || sorted.contains(out[i]) by {
            if i < sorted.len() {
                assert(sorted[i] == out[i]);
            }
        }
    } else {
        let init = sorted.drop_last();
        let inner = insert_by_position(init, line);
        assert(positions_ordered(init)) by {
            assert forall|i: int, j: int| 0 <= i <= j < init.len() implies (#[trigger] init[i]).0
                <= (#[trigger] init[j]).0 by {
                assert(sorted[i].0 <= sorted[j].0);
            }
        }
        lemma_insert_by_position(init, line);
        assert forall|i: int| 0 <= i < inner.len() implies (#[trigger] inner[i]).0
            <= sorted.last().0 by {
            if inner[i] != line {
                let q = choose|q: int| 0 <= q < init.len() && init[q] == inner[i];
                assert(sorted[q].0 <= sorted[sorted.len() - 1].0);
            }
        }
        assert forall|i: int, j: int| 0 <= i <= j < out.len() implies (#[trigger] out[i]).0 <= (
        #[trigger] out[j]).0 by {
            if j < inner.len() {
                assert(inner[i].0 <= inner[j].0);
            } else if i < inner.len() {
                assert(inner[i].0 <= sorted.last().0);
            }
        }
        assert forall|i: int| 0 <= i < out.len() implies (#[trigger] out[i]) == line
            || sorted.contains(out[i]) by {
            if i < inner.len() {
                if inner[i] != line {
                    let q = choose|q: int| 0 <= q < init.len() && init[q] == inner[i];
                    assert(sorted[q] == out[i]);
                }
            } else {
                assert(sorted[sorted.len() - 1] == out[i]);
            }
        }
    }
}

/// Lines by position come by position, and there are as many of them as before.
pub proof fn lemma_by_position(lines: Seq<(usize, u32)>)
    ensures
        positions_ordered(by_position(lines)),
        by_position(lines).len() == lines.len(),
    decreases lines.len(),
{
    if lines.len() > 0 {
        lemma_by_position(lines.drop_last());
        lemma_insert_by_position(by_position(lines.drop_last()), lines.last());
    }
}

/// Where the choice among close lines stands: the positions chosen, and of the group of
/// lines at hand its first position, and its best score and the position that has it.
pub struct Choice {
    pub chosen: Seq<usize>,
    pub first: usize,
    pub best_score: u32,
    pub best: usize,
}

/// The choice after the first `n` lines of `sorted`: a line closer than `min_distance` to
/// the first of its group joins the group, and takes the place of the best with a higher
/// score; any other line closes the group and opens the next.
pub open spec fn chosen_upto(sorted: Seq<(usize, u32)>, min_distance: int, n: int) -> Choice
    decreases n,
{
    if n <= 0 {
        Choice { chosen: Seq::empty(), first: sorted[0].0, best_score: sorted[0].1, best: sorted[0].0 }
    } else {
        let before = chosen_upto(sorted, min_distance, n - 1);
        let line = sorted[n - 1];
        if line.0 - before.first < min_distance {
            if line.1 > before.best_score {
                Choice {
                    chosen: before.chosen,
                    first: before.first,
                    best_score: line.1,
                    best: line.0,
                }
            } else {
                before
            }
        } else {
            Choice {
                chosen: before.chosen.push(before.best),
                first: line.0,
                best_score: line.1,
                best: line.0,
            }
        }
    }
}

/// Of lines that lie closer than `min_distance` to the first of their group, the one with
/// the highest score, the first of them; the positions that are left, in order.
pub open spec fn close_lines_filtered(lines: Seq<(usize, u32)>, min_distance: int) -> Seq<usize> {
    if lines.len() == 0 {
        Seq::empty()
    } else {
        let end = chosen_upto(by_position(lines), min_distance, lines.len() as int);
        end.chosen.push(end.best)
    }
}

/// Puts `line` into `sorted` by its position, after the lines at the same position.
pub fn insert_line(sorted: &mut Vec<(usize, u32)>, line: (usize, u32))
    ensures
        final(sorted)@ == insert_by_position(old(sorted)@, line),
{
    let ghost before = sorted@;
    let mut i: usize = sorted.len();
    proof {
        assert(before.take(i as int) =~= before);
        assert(insert_by_position(before, line) + before.skip(i as int) =~= insert_by_position(
            before,
            line,
        ));
    }
    while i > 0 && sorted[i - 1].0 > line.0
        invariant
            i <= sorted@.len(),
            sorted@ == before,
            insert_by_position(before, line) == insert_by_position(before.take(i as int), line)
                + before.skip(i as int),
        decreases i,
    {
        proof {
            let shorter = before.take(i as int);
            assert(shorter.last() == before[i - 1]);
            assert(shorter.drop_last() =~= before.take(i - 1));
            assert(insert_by_position(before.take(i - 1), line).push(before[i - 1]) + before.skip(
                i as int,
            ) =~= insert_by_position(before.take(i - 1), line) + before.skip(i - 1));
        }
        i -= 1;
    }
    proof {
        let shorter = before.take(i as int);
        if i > 0 {
            assert(shorter.last() == before[i - 1]);
        }
    }
    sorted.insert(i, line);
    assert(sorted@ =~= before.take(i as int).push(line) + before.skip(i as int));
    assert(seq![line] + before.skip(0) =~= before.take(0).push(line) + before.skip(0));
}

/// Number of the first `n` pixels of `line` that are brighter than 128.
pub open spec fn bright_upto(line: Seq<u8>, n: int) -> int
    decreases n,
{
    if n <= 0 {
        0
    } else {
        bright_upto(line, n - 1) + if line[n - 1] > 128 {
            1int
        } else {
            0int
        }
    }
}

/// Column `x` of `rows`, top to bottom.
pub open spec fn pixel_column(rows: Seq<Seq<u8>>, x: int) -> Seq<u8> {
    Seq::new(rows.len(), |y: int| rows[y][x])
}

/// The lines among the first `n` of `lines` of which more than a third is bright, each with
/// the number of its bright pixels.
pub open spec fn scored_lines(lines: Seq<Seq<u8>>, extent: int, n: int) -> Seq<(usize, u32)>
    decreases n,
{
    if n <= 0 {
        Seq::empty()
    } else {
        let before = scored_lines(lines, extent, n - 1);
        let score = bright_upto(lines[n - 1], extent);
        if score > extent / 3 {
            before.push(((n - 1) as usize, score as u32))
        } else {
            before
        }
    }
}

/// The columns of `rows`, left to right.
pub open spec fn pixel_columns(rows: Seq<Seq<u8>>, width: int) -> Seq<Seq<u8>> {
    Seq::new(width as nat, |x: int| pixel_column(rows, x))
}

/// Finds the lines of a grid in a picture.
pub struct GridDetector;

impl GridDetector {
    /// Makes a detector.
    pub fn new() -> (detector: GridDetector) {
        GridDetector
    }

    /// The rows of a picture of edges that are grid lines: the rows of which more than a
    /// third is bright, one for every group of rows that lie closer together than five.
    pub fn find_horizontal_lines(edges: &Raster<u8>) -> (lines: Vec<usize>)
        requires
            edges.wf(),
        ensures
            lines@ == close_lines_filtered(
                scored_lines(edges@, edges.spec_width() as int, edges.spec_height() as int),
                5,
            ),
    {
        let width = edges.width();
        let height = edges.height();
        let mut line_scores: Vec<(usize, u32)> = Vec::new();
        let mut y: usize = 0;
        while y < height
            invariant
                edges.wf(),
                width == edges.spec_width(),
                height == edges.spec_height(),
                y <= height,
                line_scores@ == scored_lines(edges@, width as int, y as int),
            decreases height - y,
        {
            let mut score: u32 = 0;
            let mut x: usize = 0;
            while x < width
                invariant
                    edges.wf(),
                    width == edges.spec_width(),
                    height == edges.spec_height(),
                    y < height,
                    x <= width,
                    score == bright_upto(edges@[y as int], x as int),
                    score <= x,
                decreases width - x,
            {
                match edges.get_pixel(x, y) {
                    Some(value) => {
                        if value > 128 {
                            score += 1;
                        }
                    },
                    None => {},
                }
                x += 1;
            }
            if score as usize > width / 3 {
                line_scores.push((y, score));
            }
            y += 1;
        }
        Self::filter_close_lines(line_scores, 5)
    }

    /// The columns of a picture of edges that are grid lines: the columns of which more
    /// than a third is bright, one for every group of columns that lie closer together
    /// than five.
    pub fn find_vertical_lines(edges: &Raster<u8>) -> (lines: Vec<usize>)
        requires
            edges.wf(),
        ensures
            lines@ == close_lines_filtered(
                scored_lines(
                    pixel_columns(edges@, edges.spec_width() as int),
                    edges.spec_height() as int,
                    edges.spec_width() as int,
                ),
                5,
            ),
    {
        let width = edges.width();
        let height = edges.height();
        let ghost columns = pixel_columns(edges@, width as int);
        let mut line_scores: Vec<(usize, u32)> = Vec::new();
        let mut x: usize = 0;
        while x < width
            invariant
                edges.wf(),
                width == edges.spec_width(),
                height == edges.spec_height(),
                columns == pixel_columns(edges@, width as int),
                x <= width,
                line_scores@ == scored_lines(columns, height as int, x as int),
            decreases width - x,
        {
            let mut score: u32 = 0;
            let mut y: usize = 0;
            while y < height
                invariant
                    edges.wf(),
                    width == edges.spec_width(),
                    height == edges.spec_height(),
                    columns == pixel_columns(edges@, width as int),
                    x < width,
                    y <= height,
                    score == bright_upto(columns[x as int], y as int),
                    score <= y,
                decreases height - y,
            {
                match edges.get_pixel(x, y) {
                    Some(value) => {
                        assert(columns[x as int][y as int] == value);
                        if value > 128 {
                            score += 1;
                        }
                    },
                    None => {},
                }
                y += 1;
            }
            if score as usize > height / 3 {
                line_scores.push((x, score));
            }
            x += 1;
        }
        Self::filter_close_lines(line_scores, 5)
    }

    /// Of lines, each a position and a score, keeps one for every group of lines that lie
    /// close together: the one with the highest score. The positions come in order.
    pub fn filter_close_lines(lines: Vec<(usize, u32)>, min_distance: usize) -> (filtered: Vec<
        usize,
    >)
        ensures
            filtered@ == close_lines_filtered(lines@, min_distance as int),
    {
        if lines.len() == 0 {
            return Vec::new();
        }
        let mut sorted: Vec<(usize, u32)> = Vec::new();
        let mut j: usize = 0;
        while j < lines.len()
            invariant
                j <= lines@.len(),
                sorted@ == by_position(lines@.take(j as int)),
            decreases lines@.len() - j,
        {
            assert(lines@.take(j + 1).drop_last() =~= lines@.take(j as int));
            insert_line(&mut sorted, lines[j]);
            j += 1;
        }
        proof {
            assert(lines@.take(lines@.len() as int) =~= lines@);
            lemma_by_position(lines@);
        }
        let mut filtered: Vec<usize> = Vec::new();
        let mut last_pos = sorted[0].0;
        let mut best_score = sorted[0].1;
        let mut best_pos = sorted[0].0;
        let mut i: usize = 0;
        while i < sorted.len()
            invariant
                i <= sorted@.len(),
                sorted@.len() > 0,
                positions_ordered(sorted@),
                (Choice { chosen: filtered@, first: last_pos, best_score, best: best_pos })
                    == chosen_upto(sorted@, min_distance as int, i as int),
                i > 0 ==> last_pos <= sorted@[i - 1].0,
                i == 0 ==> last_pos == sorted@[0].0,
            decreases sorted@.len() - i,
        {
            let (pos, score) = sorted[i];
            proof {
                if i > 0 {
                    assert(sorted@[i - 1].0 <= sorted@[i as int].0);
                }
            }
            if pos - last_pos < min_distance {
                if score > best_score {
                    best_score = score;
                    best_pos = pos;
                }
            } else {
                filtered.push(best_pos);
                last_pos = pos;
                best_score = score;
                best_pos = pos;
            }
            i += 1;
        }
        filtered.push(best_pos);
        filtered
    }
}

} // verus!
