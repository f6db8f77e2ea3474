//! Lines and crosses drawn into a raster of colours.
//!
//! A line is stated by its points: it takes as many steps as the longer of its two
//! extents, one pixel along that extent at every step, and along the other extent it keeps
//! to the whole number nearest the true line.

use vstd::prelude::*;

use crate::image_parser::raster::{Raster, Rgb};

verus! {

/// A point of the picture: column, then row.
pub type Point = (int, int);

/// The distance between `a` and `b`.
pub open spec fn span(a: int, b: int) -> int {
    if a < b {
        b - a
    } else {
        a - b
    }
}

/// The number `k` steps from `a` on the way to `b`: upward where `b` is greater, downward
/// otherwise.
pub open spec fn moved(a: int, b: int, k: int) -> int {
    if a < b {
        a + k
    } else {
        a - k
    }
}

/// The whole number nearest to `num / den`; of two equally near, the smaller. For a
/// positive `den`.
pub open spec fn nearest(num: int, den: int) -> int {
    (2 * num + den - 1) / (2 * den)
}

/// The number of steps from the first point of the line to its last.
pub open spec fn line_steps(start: Point, end: Point) -> int {
    if span(start.0, end.0) >= span(start.1, end.1) {
        span(start.0, end.0)
    } else {
        span(start.1, end.1)
    }
}

/// The point of the line from `start` to `end` that lies `i` steps from `start`.
pub open spec fn line_point(start: Point, end: Point, i: int) -> Point {
    let dx = span(start.0, end.0);
    let dy = span(start.1, end.1);
    if dx == 0 && dy == 0 {
        start
    } else if dx >= dy {
        (moved(start.0, end.0, i), moved(start.1, end.1, nearest(i * dy, dx)))
    } else {
        (moved(start.0, end.0, nearest(i * dx, dy)), moved(start.1, end.1, i))
    }
}

/// `p` is one of the first `n` points of the line from `start` to `end`.
pub open spec fn reached(start: Point, end: Point, n: int, p: Point) -> bool {
    exists|i: int| 0 <= i < n && #[trigger] line_point(start, end, i) == p
}

/// `pixels` with the first `n` points of the line from `start` to `end` in `color`.
pub open spec fn with_points(pixels: Seq<Seq<Rgb>>, start: Point, end: Point, n: int, color: Rgb) -> Seq<
    Seq<Rgb>,
> {
    Seq::new(
        pixels.len(),
        |y: int|
            Seq::new(
                pixels[y].len(),
                |x: int|
                    if reached(start, end, n, (x, y)) {
                        color
                    } else {
                        pixels[y][x]
                    },
            ),
    )
}

/// `pixels` with the line from `start` to `end` in `color`: the points of the line, both
/// ends included, take the colour where they lie in the picture; every other pixel stays.
pub open spec fn with_line(pixels: Seq<Seq<Rgb>>, start: Point, end: Point, color: Rgb) -> Seq<Seq<Rgb>> {
    with_points(pixels, start, end, line_steps(start, end) + 1, color)
}

/// `pixels` with a cross in `color`: the two diagonals of the square round `center` that
/// reaches half of `size` to every side.
pub open spec fn with_cross(pixels: Seq<Seq<Rgb>>, center: Point, size: int, color: Rgb) -> Seq<Seq<Rgb>> {
    let half = size / 2;
    with_line(
        with_line(
            pixels,
            (center.0 - half, center.1 - half),
            (center.0 + half, center.1 + half),
            color,
        ),
        (center.0 + half, center.1 - half),
        (center.0 - half, center.1 + half),
        color,
    )
}

/// The point that a pair of machine numbers stands for.
pub open spec fn point_of(p: (i32, i32)) -> Point {
    (p.0 as int, p.1 as int)
}

/// A whole number that lies within half of `num / den`, the upper half left out, is the
/// nearest one.
pub proof fn lemma_nearest(num: int, den: int, j: int)
    requires
        den > 0,
        -den <= 2 * (j * den) - 2 * num < den,
    ensures
        nearest(num, den) == j,
{
    let r = 2 * num + den - 1 - 2 * (j * den);
    assert(j * (2 * den) == 2 * (j * den)) by (nonlinear_arith);
    vstd::arithmetic::div_mod::lemma_fundamental_div_mod_converse_div(
        2 * num + den - 1,
        2 * den,
        j,
        r,
    );
}

/// The first `n + 1` points of a line are its first `n` points and the point `n` steps
/// from its start.
pub proof fn lemma_reached_next(start: Point, end: Point, n: int, p: Point)
    requires
        n >= 0,
    ensures
        reached(start, end, n + 1, p) <==> reached(start, end, n, p) || line_point(start, end, n) == p,
{
    if reached(start, end, n + 1, p) {
        let i = choose|i: int| 0 <= i < n + 1 && #[trigger] line_point(start, end, i) == p;
        if i < n {
            assert(reached(start, end, n, p));
        }
    }
    if reached(start, end, n, p) {
        let i = choose|i: int| 0 <= i < n && #[trigger] line_point(start, end, i) == p;
        assert(0 <= i < n + 1 && line_point(start, end, i) == p);
    }
    if line_point(start, end, n) == p {
        assert(0 <= n < n + 1 && line_point(start, end, n) == p);
    }
}

/// No point is among the first none of a line.
pub proof fn lemma_reached_none(pixels: Seq<Seq<Rgb>>, start: Point, end: Point, color: Rgb)
    ensures
        with_points(pixels, start, end, 0, color) =~= pixels,
{
    assert forall|y: int| 0 <= y < pixels.len() implies #[trigger] with_points(
        pixels,
        start,
        end,
        0,
        color,
    )[y] =~= pixels[y] by {
        assert forall|x: int| 0 <= x < pixels[y].len() implies !reached(start, end, 0, (x, y)) by {}
    }
}

/// Painting the point `n` steps from the start of a line, where it lies in the picture,
/// makes of the first `n` points drawn the first `n + 1`.
pub proof fn lemma_with_points_next(
    pixels: Seq<Seq<Rgb>>,
    start: Point,
    end: Point,
    n: int,
    color: Rgb,
    width: int,
)
    requires
        n >= 0,
        forall|y: int| 0 <= y < pixels.len() ==> (#[trigger] pixels[y]).len() == width,
    ensures
        ({
            let p = line_point(start, end, n);
            let before = with_points(pixels, start, end, n, color);
            with_points(pixels, start, end, n + 1, color) =~= if 0 <= p.0 < width && 0 <= p.1
                < pixels.len() {
                before.update(p.1, before[p.1].update(p.0, color))
            } else {
                before
            }
        }),
{
    let p = line_point(start, end, n);
    let before = with_points(pixels, start, end, n, color);
    let after = with_points(pixels, start, end, n + 1, color);
    let painted = if 0 <= p.0 < width && 0 <= p.1 < pixels.len() {
        before.update(p.1, before[p.1].update(p.0, color))
    } else {
        before
    };
    assert forall|y: int| 0 <= y < pixels.len() implies #[trigger] after[y] =~= painted[y] by {
        assert forall|x: int| 0 <= x < pixels[y].len() implies after[y][x] == painted[y][x] by {
            lemma_reached_next(start, end, n, (x, y));
        }
    }
}

/// Paints the pixel at `(x, y)` where the picture has one.
fn paint(image: &mut Raster<Rgb>, x: i64, y: i64, color: Rgb)
    requires
        old(image).wf(),
    ensures
        final(image).wf(),
        final(image).spec_width() == old(image).spec_width(),
        final(image).spec_height() == old(image).spec_height(),
        final(image)@ == if 0 <= x < old(image).spec_width() && 0 <= y < old(image).spec_height() {
            old(image)@.update(y as int, old(image)@[y as int].update(x as int, color))
        } else {
            old(image)@
        },
{
    if 0 <= x && x < image.width() as i64 && 0 <= y && y < image.height() as i64 {
        image.put_pixel(x as usize, y as usize, color);
    }
}

/// Where a walk along a line of extents `dx` and `dy` stands after `i` steps, `nx` of them
/// along the first extent and `ny` along the second, with the error term `err`: a step is
/// taken along the longer extent every time, and the error term keeps the walk within half
/// a pixel of the true line.
pub open spec fn on_track(dx: int, dy: int, i: int, nx: int, ny: int, err: int) -> bool {
    &&& 0 <= nx <= i
    &&& 0 <= ny <= i
    &&& err == dx - dy - nx * dy + ny * dx
    &&& if dx >= dy {
        nx == i && -dy < 2 * err && dx - 2 * dy <= 2 * err < 3 * dx - 2 * dy
    } else {
        ny == i && dy - 2 * dx <= -2 * err < 3 * dy - 2 * dx
    }
}

/// A walk starts on track.
pub proof fn lemma_track_start(dx: int, dy: int)
    requires
        0 <= dx,
        0 <= dy,
        dx + dy > 0,
    ensures
        on_track(dx, dy, 0, 0, 0, dx - dy),
{
    assert(0 * dy == 0 && 0 * dx == 0);
}

/// One more step keeps a walk on track: a step along the first extent where twice the
/// error term is above `-dy`, a step along the second where it is below `dx`.
pub proof fn lemma_track_step(dx: int, dy: int, i: int, nx: int, ny: int, err: int)
    requires
        0 <= dx,
        0 <= dy,
        dx + dy > 0,
        on_track(dx, dy, i, nx, ny, err),
    ensures
        ({
            let along = 2 * err > -dy;
            let across = 2 * err < dx;
            on_track(
                dx,
                dy,
                i + 1,
                if along {
                    nx + 1
                } else {
                    nx
                },
                if across {
                    ny + 1
                } else {
                    ny
                },
                err - (if along {
                    dy
                } else {
                    0
                }) + (if across {
                    dx
                } else {
                    0
                }),
            )
        }),
{
    assert((nx + 1) * dy == nx * dy + dy) by (nonlinear_arith);
    assert((ny + 1) * dx == ny * dx + dx) by (nonlinear_arith);
}

/// A walk on track stands on the point of the line that is as many steps from its start.
pub proof fn lemma_track_point(start: Point, end: Point, i: int, nx: int, ny: int, err: int)
    requires
        span(start.0, end.0) + span(start.1, end.1) > 0,
        on_track(span(start.0, end.0), span(start.1, end.1), i, nx, ny, err),
    ensures
        line_point(start, end, i) == (moved(start.0, end.0, nx), moved(start.1, end.1, ny)),
{
    let dx = span(start.0, end.0);
    let dy = span(start.1, end.1);
    if dx >= dy {
        assert(i * dy == nx * dy);
        lemma_nearest(i * dy, dx, ny);
    } else {
        assert(i * dx == ny * dx);
        lemma_nearest(i * dx, dy, nx);
    }
}

/// A line ends where it is meant to: its last point is `end`.
pub proof fn lemma_line_end(start: Point, end: Point)
    ensures
        line_point(start, end, line_steps(start, end)) == end,
{
    let dx = span(start.0, end.0);
    let dy = span(start.1, end.1);
    if dx == 0 && dy == 0 {
    } else if dx >= dy {
        assert(2 * (dy * dx) - 2 * (dx * dy) == 0) by (nonlinear_arith);
        lemma_nearest(dx * dy, dx, dy);
    } else {
        assert(2 * (dx * dy) - 2 * (dy * dx) == 0) by (nonlinear_arith);
        lemma_nearest(dy * dx, dy, dx);
    }
}

/// Draws the line from `start` to `end`, walking it pixel by pixel.
fn draw_segment(image: &mut Raster<Rgb>, start: (i64, i64), end: (i64, i64), color: Rgb)
    requires
        old(image).wf(),
        -0x1_0000_0000 <= start.0 <= 0x1_0000_0000,
        -0x1_0000_0000 <= start.1 <= 0x1_0000_0000,
        -0x1_0000_0000 <= end.0 <= 0x1_0000_0000,
        -0x1_0000_0000 <= end.1 <= 0x1_0000_0000,
    ensures
        final(image).wf(),
        final(image).spec_width() == old(image).spec_width(),
        final(image).spec_height() == old(image).spec_height(),
        final(image)@ == with_line(
            old(image)@,
            (start.0 as int, start.1 as int),
            (end.0 as int, end.1 as int),
            color,
        ),
{
    let (x1, y1) = end;
    let mut x: i64 = start.0;
    let mut y: i64 = start.1;
    let dx: i64 = if x < x1 {
        x1 - x
    } else {
        x - x1
    };
    let dy: i64 = if y < y1 {
        y1 - y
    } else {
        y - y1
    };
    let step_x: i64 = if x < x1 {
        1
    } else {
        -1
    };
    let step_y: i64 = if y < y1 {
        1
    } else {
        -1
    };
    let mut err: i64 = dx - dy;
    let ghost s: Point = (start.0 as int, start.1 as int);
    let ghost e: Point = (end.0 as int, end.1 as int);
    let ghost n = line_steps(s, e);
    let ghost mut i: int = 0;
    let ghost mut nx: int = 0;
    let ghost mut ny: int = 0;
    let ghost width = image.spec_width() as int;
    proof {
        lemma_reached_none(image@, s, e, color);
        lemma_with_points_next(image@, s, e, 0, color, width);
        if dx + dy > 0 {
            lemma_track_start(dx as int, dy as int);
            lemma_track_point(s, e, 0, 0, 0, dx - dy);
        }
    }
    paint(image, x, y, color);
    while !(x == x1 && y == y1)
        invariant
            image.wf(),
            image.spec_width() == old(image).spec_width() == width,
            image.spec_height() == old(image).spec_height(),
            old(image).wf(),
            s == (start.0 as int, start.1 as int),
            e == (end.0 as int, end.1 as int),
            x1 == end.0,
            y1 == end.1,
            -0x1_0000_0000 <= s.0 <= 0x1_0000_0000,
            -0x1_0000_0000 <= s.1 <= 0x1_0000_0000,
            -0x1_0000_0000 <= e.0 <= 0x1_0000_0000,
            -0x1_0000_0000 <= e.1 <= 0x1_0000_0000,
            dx == span(s.0, e.0),
            dy == span(s.1, e.1),
            step_x == if s.0 < e.0 { 1i64 } else { -1i64 },
            step_y == if s.1 < e.1 { 1i64 } else { -1i64 },
            n == line_steps(s, e),
            0 <= i <= n,
            dx + dy > 0 ==> on_track(dx as int, dy as int, i, nx, ny, err as int),
            dx + dy == 0 ==> nx == 0 && ny == 0,
            x == moved(s.0, e.0, nx),
            y == moved(s.1, e.1, ny),
            image@ == with_points(old(image)@, s, e, i + 1, color),
        decreases n - i,
    {
        proof {
            lemma_line_end(s, e);
            lemma_track_point(s, e, i, nx, ny, err as int);
            lemma_track_step(dx as int, dy as int, i, nx, ny, err as int);
        }
        let twice: i64 = 2 * err;
        if twice > -dy {
            err -= dy;
            x += step_x;
            proof {
                nx = nx + 1;
            }
        }
        if twice < dx {
            err += dx;
            y += step_y;
            proof {
                ny = ny + 1;
            }
        }
        proof {
            i = i + 1;
            lemma_track_point(s, e, i, nx, ny, err as int);
            lemma_with_points_next(old(image)@, s, e, i, color, width);
        }
        paint(image, x, y, color);
    }
    proof {
        if dx + dy > 0 {
            lemma_track_point(s, e, i, nx, ny, err as int);
        }
    }
}

/// Draws the line from `start` to `end` in `color`, both ends included. The part of the
/// line outside the picture is left out.
pub fn draw_line_mut(image: &mut Raster<Rgb>, start: (i32, i32), end: (i32, i32), color: Rgb)
    requires
        old(image).wf(),
    ensures
        final(image).wf(),
        final(image).spec_width() == old(image).spec_width(),
        final(image).spec_height() == old(image).spec_height(),
        final(image)@ == with_line(old(image)@, point_of(start), point_of(end), color),
{
    draw_segment(image, (start.0 as i64, start.1 as i64), (end.0 as i64, end.1 as i64), color);
}

/// Draws a cross in `color`: the two diagonals of the square round `center` that reaches
/// half of `size` to every side.
pub fn draw_cross_mut(image: &mut Raster<Rgb>, center: (i32, i32), size: u32, color: Rgb)
    requires
        old(image).wf(),
    ensures
        final(image).wf(),
        final(image).spec_width() == old(image).spec_width(),
        final(image).spec_height() == old(image).spec_height(),
        final(image)@ == with_cross(old(image)@, point_of(center), size as int, color),
{
    let cx: i64 = center.0 as i64;
    let cy: i64 = center.1 as i64;
    let half: i64 = (size / 2) as i64;
    draw_segment(image, (cx - half, cy - half), (cx + half, cy + half), color);
    draw_segment(image, (cx + half, cy - half), (cx - half, cy + half), color);
}

} // verus!
