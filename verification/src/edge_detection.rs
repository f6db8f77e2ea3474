//! The smoothing that goes before the search for edges in a picture of grey values.

use vstd::prelude::*;

use crate::image_parser::raster::Raster;

verus! {

/// The sum of the three pixels of row `y` round column `x`.
pub open spec fn sum_of_three(pixels: Seq<Seq<u8>>, x: int, y: int) -> int {
    pixels[y][x - 1] + pixels[y][x] + pixels[y][x + 1]
}

/// The mean of the nine pixels round `(x, y)`, rounded down.
pub open spec fn mean_of_nine(pixels: Seq<Seq<u8>>, x: int, y: int) -> int {
    (sum_of_three(pixels, x, y - 1) + sum_of_three(pixels, x, y) + sum_of_three(pixels, x, y + 1)) / 9
}

/// The pixel `(x, y)` of a picture of `width` by `height` pixels has a neighbour on every
/// side.
pub open spec fn inner(width: int, height: int, x: int, y: int) -> bool {
    1 <= x < width - 1 && 1 <= y < height - 1
}

/// The picture smoothed as far as row `rows` and, in that row, column `columns`: an inner
/// pixel before that place holds the mean of the nine pixels round it, every other pixel
/// is black.
pub open spec fn smoothed_upto(pixels: Seq<Seq<u8>>, width: int, height: int, rows: int, columns: int) -> Seq<
    Seq<u8>,
> {
    Seq::new(
        height as nat,
        |y: int|
            Seq::new(
                width as nat,
                |x: int|
                    if inner(width, height, x, y) && (y < rows || (y == rows && x < columns)) {
                        mean_of_nine(pixels, x, y) as u8
                    } else {
                        0u8
                    },
            ),
    )
}

/// The picture smoothed: every inner pixel holds the mean of the nine pixels round it, and
/// the pixels of the border are black.
pub open spec fn smoothed(pixels: Seq<Seq<u8>>, width: int, height: int) -> Seq<Seq<u8>> {
    smoothed_upto(pixels, width, height, height, 0)
}

/// The grey value at `(x, y)`.
fn grey_at(image: &Raster<u8>, x: usize, y: usize) -> (grey: u8)
    requires
        image.wf(),
        x < image.spec_width(),
        y < image.spec_height(),
    ensures
        grey == image@[y as int][x as int],
{
    match image.get_pixel(x, y) {
        Some(grey) => grey,
        None => 0,
    }
}

/// The sum of the three pixels of row `y` round column `x`.
fn three_at(image: &Raster<u8>, x: usize, y: usize) -> (sum: u32)
    requires
        image.wf(),
        1 <= x < image.spec_width() - 1,
        y < image.spec_height(),
    ensures
        sum == sum_of_three(image@, x as int, y as int),
        sum <= 765,
{
    let left: u32 = grey_at(image, x - 1, y) as u32;
    let middle: u32 = grey_at(image, x, y) as u32;
    let right: u32 = grey_at(image, x + 1, y) as u32;
    left + middle + right
}

/// Smooths a picture: every pixel with a neighbour on every side takes the mean of the
/// nine pixels round it; the border is left black.
pub fn gaussian_blur(image: &Raster<u8>) -> (blurred: Raster<u8>)
    requires
        image.wf(),
    ensures
        blurred.wf(),
        blurred.spec_width() == image.spec_width(),
        blurred.spec_height() == image.spec_height(),
        blurred@ == smoothed(image@, image.spec_width() as int, image.spec_height() as int),
{
    let width = image.width();
    let height = image.height();
    let ghost w = width as int;
    let ghost h = height as int;
    let mut blurred: Raster<u8> = Raster::uniform(width as u32, height as u32, 0);
    assert(blurred@ =~~= smoothed_upto(image@, w, h, 1, 1));
    if width < 3 || height < 3 {
        assert(blurred@ =~~= smoothed(image@, w, h));
        return blurred;
    }
    let mut y: usize = 1;
    while y < height - 1
        invariant
            image.wf(),
            blurred.wf(),
            width == image.spec_width() == blurred.spec_width() == w,
            height == image.spec_height() == blurred.spec_height() == h,
            width >= 3,
            height >= 3,
            1 <= y <= height - 1,
            blurred@ == smoothed_upto(image@, w, h, y as int, 1),
        decreases height - y,
    {
        let mut x: usize = 1;
        while x < width - 1
            invariant
                image.wf(),
                blurred.wf(),
                width == image.spec_width() == blurred.spec_width() == w,
                height == image.spec_height() == blurred.spec_height() == h,
                width >= 3,
                1 <= y < height - 1,
                1 <= x <= width - 1,
                blurred@ == smoothed_upto(image@, w, h, y as int, x as int),
            decreases width - x,
        {
            let above = three_at(image, x, y - 1);
            let beside = three_at(image, x, y);
            let below = three_at(image, x, y + 1);
            let mean: u32 = (above + beside + below) / 9;
            blurred.put_pixel(x, y, mean as u8);
            assert(blurred@ =~~= smoothed_upto(image@, w, h, y as int, x + 1));
            x += 1;
        }
        assert(blurred@ =~~= smoothed_upto(image@, w, h, y + 1, 1));
        y += 1;
    }
    assert(blurred@ =~~= smoothed(image@, w, h));
    blurred
}

} // verus!
