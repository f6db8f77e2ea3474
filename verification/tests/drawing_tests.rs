use nonogram_solver::drawing::{draw_cross_mut, draw_line_mut};
use nonogram_solver::edge_detection::gaussian_blur;
use nonogram_solver::image_parser::{Raster, Rgb};

const BLACK: Rgb = (0, 0, 0);
const WHITE: Rgb = (255, 255, 255);

fn blank(width: usize, height: usize) -> Raster<Rgb> {
    Raster::from_rows(vec![vec![BLACK; width]; height]).unwrap()
}

/// The white pixels of `image`, row by row, as (column, row).
fn white_pixels(image: &Raster<Rgb>) -> Vec<(i64, i64)> {
    let mut found = Vec::new();
    for y in 0..image.height() {
        for x in 0..image.width() {
            if image.get_pixel(x, y) == Some(WHITE) {
                found.push((x as i64, y as i64));
            }
        }
    }
    found
}

/// The whole number nearest to `num / den`, a half rounded down.
fn nearest(num: i64, den: i64) -> i64 {
    (2 * num + den - 1).div_euclid(2 * den)
}

/// The points of a line by the rule: one step along the longer extent at a time, and
/// along the other the whole number nearest the true line.
fn points_by_rule(start: (i64, i64), end: (i64, i64)) -> Vec<(i64, i64)> {
    let dx = (end.0 - start.0).abs();
    let dy = (end.1 - start.1).abs();
    let sx = if start.0 < end.0 { 1 } else { -1 };
    let sy = if start.1 < end.1 { 1 } else { -1 };
    if dx == 0 && dy == 0 {
        return vec![start];
    }
    (0..=dx.max(dy))
        .map(|i| {
            if dx >= dy {
                (start.0 + sx * i, start.1 + sy * nearest(i * dy, dx))
            } else {
                (start.0 + sx * nearest(i * dx, dy), start.1 + sy * i)
            }
        })
        .collect()
}

/// The points of a line by the walk with an error term.
fn points_by_walk(start: (i64, i64), end: (i64, i64)) -> Vec<(i64, i64)> {
    let (mut x, mut y) = start;
    let dx = (end.0 - x).abs();
    let dy = (end.1 - y).abs();
    let sx = if x < end.0 { 1 } else { -1 };
    let sy = if y < end.1 { 1 } else { -1 };
    let mut err = dx - dy;
    let mut points = vec![(x, y)];
    while (x, y) != end {
        let twice = 2 * err;
        if twice > -dy {
            err -= dy;
            x += sx;
        }
        if twice < dx {
            err += dx;
            y += sy;
        }
        points.push((x, y));
    }
    points
}

fn inside(points: Vec<(i64, i64)>, width: i64, height: i64) -> Vec<(i64, i64)> {
    let mut kept: Vec<(i64, i64)> =
        points.into_iter().filter(|p| 0 <= p.0 && p.0 < width && 0 <= p.1 && p.1 < height).collect();
    kept.sort_by_key(|p| (p.1, p.0));
    kept.dedup();
    kept
}

#[test]
fn test_draw_cross() {
    let mut img = blank(100, 100);

    draw_cross_mut(&mut img, (50, 50), 20, WHITE);

    assert_eq!(img.get_pixel(50, 50), Some(WHITE));
}

#[test]
fn test_draw_line() {
    let mut img = blank(100, 100);

    draw_line_mut(&mut img, (10, 10), (90, 90), WHITE);

    assert_eq!(img.get_pixel(10, 10), Some(WHITE));
    assert_eq!(img.get_pixel(90, 90), Some(WHITE));
}

#[test]
fn put_pixel_writes_one_pixel_and_nothing_outside() {
    let mut img = blank(3, 2);
    img.put_pixel(2, 1, WHITE);
    img.put_pixel(3, 1, WHITE);
    img.put_pixel(0, 2, WHITE);
    assert_eq!(white_pixels(&img), vec![(2, 1)]);
    assert_eq!((img.width(), img.height()), (3, 2));
}

#[test]
fn a_shallow_line_keeps_nearest_to_the_true_line() {
    let mut img = blank(8, 4);
    draw_line_mut(&mut img, (0, 0), (6, 2), WHITE);
    assert_eq!(
        white_pixels(&img),
        vec![(0, 0), (1, 0), (2, 1), (3, 1), (4, 1), (5, 2), (6, 2)]
    );
}

#[test]
fn a_steep_line_drawn_backwards() {
    let mut img = blank(4, 6);
    draw_line_mut(&mut img, (2, 5), (0, 0), WHITE);
    assert_eq!(white_pixels(&img), vec![(0, 0), (0, 1), (1, 2), (1, 3), (2, 4), (2, 5)]);
}

#[test]
fn a_line_of_one_point() {
    let mut img = blank(3, 3);
    draw_line_mut(&mut img, (1, 2), (1, 2), WHITE);
    assert_eq!(white_pixels(&img), vec![(1, 2)]);
}

#[test]
fn a_line_is_cut_at_the_border() {
    let mut img = blank(3, 3);
    draw_line_mut(&mut img, (-2, 1), (5, 1), WHITE);
    assert_eq!(white_pixels(&img), vec![(0, 1), (1, 1), (2, 1)]);
    let mut far = blank(3, 3);
    draw_line_mut(&mut far, (-5, -5), (-1, -3), WHITE);
    assert_eq!(white_pixels(&far), vec![]);
}

#[test]
fn every_short_line_is_drawn_by_the_rule() {
    for x0 in -2..7 {
        for y0 in -2..7 {
            for x1 in -2..7 {
                for y1 in -2..7 {
                    let mut img = blank(5, 5);
                    draw_line_mut(&mut img, (x0, y0), (x1, y1), WHITE);
                    let start = (x0 as i64, y0 as i64);
                    let end = (x1 as i64, y1 as i64);
                    let drawn = white_pixels(&img);
                    assert_eq!(drawn, inside(points_by_rule(start, end), 5, 5));
                    assert_eq!(drawn, inside(points_by_walk(start, end), 5, 5));
                }
            }
        }
    }
}

#[test]
fn a_cross_is_two_diagonals() {
    let mut img = blank(5, 5);
    draw_cross_mut(&mut img, (2, 2), 5, WHITE);
    assert_eq!(
        white_pixels(&img),
        vec![(0, 0), (4, 0), (1, 1), (3, 1), (2, 2), (1, 3), (3, 3), (0, 4), (4, 4)]
    );
    let mut small = blank(5, 5);
    draw_cross_mut(&mut small, (2, 2), 1, WHITE);
    assert_eq!(white_pixels(&small), vec![(2, 2)]);
}

#[test]
fn a_cross_near_the_end_of_the_numbers() {
    let mut img = blank(4, 4);
    draw_cross_mut(&mut img, (i32::MAX, i32::MIN), 9, WHITE);
    draw_line_mut(&mut img, (i32::MIN, 2), (i32::MIN + 40, 3), WHITE);
    draw_cross_mut(&mut img, (1, 1), 2, WHITE);
    assert_eq!(white_pixels(&img), vec![(0, 0), (2, 0), (1, 1), (0, 2), (2, 2)]);
}

#[test]
fn test_gaussian_blur() {
    let mut img: Raster<u8> = Raster::uniform(10, 10, 0);

    img.put_pixel(5, 5, 255);

    let blurred = gaussian_blur(&img);

    assert!(blurred.get_pixel(5, 5).unwrap() < 255);
}

#[test]
fn smoothing_takes_the_mean_of_nine_and_blackens_the_border() {
    let img = Raster::from_rows(vec![
        vec![9u8, 9, 9, 9],
        vec![9, 255, 0, 9],
        vec![9, 0, 100, 9],
        vec![9, 9, 9, 200],
    ])
    .unwrap();
    let blurred = gaussian_blur(&img);
    let rows: Vec<Vec<u8>> = (0..4)
        .map(|y| (0..4).map(|x| blurred.get_pixel(x, y).unwrap()).collect())
        .collect();
    assert_eq!(
        rows,
        vec![vec![0, 0, 0, 0], vec![0, 44, 44, 0], vec![0, 44, 65, 0], vec![0, 0, 0, 0]]
    );
}

#[test]
fn smoothing_a_picture_without_inner_pixels() {
    let thin = Raster::from_rows(vec![vec![200u8, 200], vec![200, 200], vec![200, 200]]).unwrap();
    let blurred = gaussian_blur(&thin);
    assert_eq!((blurred.width(), blurred.height()), (2, 3));
    assert_eq!(blurred.get_pixel(1, 1), Some(0));
    let none: Raster<u8> = Raster::from_rows(vec![]).unwrap();
    assert_eq!(gaussian_blur(&none).height(), 0);
}

#[test]
fn a_uniform_raster_holds_one_value() {
    let img: Raster<Rgb> = Raster::uniform(2, 3, WHITE);
    assert_eq!((img.width(), img.height()), (2, 3));
    assert_eq!(white_pixels(&img).len(), 6);
    assert_eq!(img.get_pixel(2, 0), None);
}
