//! Pixels as plain values: a rectangle of colours or of grey values.

use vstd::prelude::*;

verus! {

/// A colour: red, green and blue.
pub type Rgb = (u8, u8, u8);

/// A rectangle of pixels, `height` rows of `width` pixels each, no side longer than a
/// 32-bit number can say.
pub struct Raster<T> {
    width: usize,
    height: usize,
    rows: Vec<Vec<T>>,
}

impl<T> View for Raster<T> {
    type V = Seq<Seq<T>>;

    /// The rows of pixels, top to bottom.
    closed spec fn view(&self) -> Seq<Seq<T>> {
        Seq::new(self.rows@.len(), |y: int| self.rows@[y]@)
    }
}

/// `rows` is a rectangle of `height` rows of `width` pixels.
pub open spec fn rectangle<T>(rows: Seq<Seq<T>>, width: int, height: int) -> bool {
    &&& rows.len() == height
    &&& forall|y: int| 0 <= y < rows.len() ==> (#[trigger] rows[y]).len() == width
}

/// The width of the rectangle that `rows` make: the length of the first row, zero where
/// there is none.
pub open spec fn width_of<T>(rows: Seq<Vec<T>>) -> int {
    if rows.len() == 0 {
        0
    } else {
        rows[0]@.len() as int
    }
}

/// `rows` can be taken for a raster: every row is as long as the first, and no side is
/// longer than a 32-bit number can say.
pub open spec fn well_shaped<T>(rows: Seq<Vec<T>>) -> bool {
    &&& rows.len() <= u32::MAX
    &&& width_of(rows) <= u32::MAX
    &&& forall|y: int| 0 <= y < rows.len() ==> (#[trigger] rows[y])@.len() == width_of(rows)
}

impl<T: Copy> Raster<T> {
    /// Number of pixels in a row.
    pub closed spec fn spec_width(&self) -> usize {
        self.width
    }

    /// Number of rows.
    pub closed spec fn spec_height(&self) -> usize {
        self.height
    }

    /// The raster is a rectangle of its stated measures.
    pub open spec fn wf(&self) -> bool {
        &&& rectangle(self@, self.spec_width() as int, self.spec_height() as int)
        &&& self.spec_width() <= u32::MAX
        &&& self.spec_height() <= u32::MAX
    }

    /// Takes rows of pixels for a raster; `None` where the rows are not equally long or a
    /// side is too long.
    pub fn from_rows(rows: Vec<Vec<T>>) -> (raster: Option<Raster<T>>)
        ensures
            match raster {
                Some(r) => {
                    &&& well_shaped(rows@)
                    &&& r.wf()
                    &&& r.spec_height() == rows@.len()
                    &&& r.spec_width() == width_of(rows@)
                    &&& r@ == Seq::new(rows@.len(), |y: int| rows@[y]@)
                },
                None => !well_shaped(rows@),
            },
    {
        let height = rows.len();
        let width = if height == 0 {
            0
        } else {
            rows[0].len()
        };
        if height > 0xffff_ffff || width > 0xffff_ffff {
            return None;
        }
        let mut y: usize = 0;
        while y < height
            invariant
                y <= height == rows@.len(),
                width == width_of(rows@),
                forall|i: int| 0 <= i < y ==> (#[trigger] rows@[i])@.len() == width,
            decreases height - y,
        {
            if rows[y].len() != width {
                return None;
            }
            y += 1;
        }
        Some(Raster { width, height, rows })
    }

    /// A raster of `width` by `height` pixels, every one of them `pixel`.
    pub fn uniform(width: u32, height: u32, pixel: T) -> (raster: Raster<T>)
        ensures
            raster.wf(),
            raster.spec_width() == width,
            raster.spec_height() == height,
            forall|x: int, y: int| 0 <= x < width && 0 <= y < height ==> raster@[y][x] == pixel,
    {
        let mut rows: Vec<Vec<T>> = Vec::new();
        let mut y: u32 = 0;
        while y < height
            invariant
                y <= height,
                rows@.len() == y,
                forall|j: int| 0 <= j < y ==> (#[trigger] rows@[j])@.len() == width,
                forall|j: int, i: int| 0 <= j < y && 0 <= i < width ==> #[trigger] rows@[j]@[i] == pixel,
            decreases height - y,
        {
            let mut row: Vec<T> = Vec::new();
            let mut x: u32 = 0;
            while x < width
                invariant
                    x <= width,
                    row@.len() == x,
                    forall|i: int| 0 <= i < x ==> row@[i] == pixel,
                decreases width - x,
            {
                row.push(pixel);
                x += 1;
            }
            rows.push(row);
            y += 1;
        }
        Raster { width: width as usize, height: height as usize, rows }
    }

    /// Number of pixels in a row.
    #[verifier::when_used_as_spec(spec_width)]
    pub fn width(&self) -> (w: usize)
        ensures
            w == self.spec_width(),
    {
        self.width
    }

    /// Number of rows.
    #[verifier::when_used_as_spec(spec_height)]
    pub fn height(&self) -> (h: usize)
        ensures
            h == self.spec_height(),
    {
        self.height
    }

    /// Writes `pixel` at column `x` of row `y`. Outside the raster nothing is written.
    pub fn put_pixel(&mut self, x: usize, y: usize, pixel: T)
        requires
            old(self).wf(),
        ensures
            final(self).wf(),
            final(self).spec_width() == old(self).spec_width(),
            final(self).spec_height() == old(self).spec_height(),
            final(self)@ == if x < old(self).spec_width() && y < old(self).spec_height() {
                old(self)@.update(y as int, old(self)@[y as int].update(x as int, pixel))
            } else {
                old(self)@
            },
    {
        if x < self.width && y < self.height {
            assert(old(self)@[y as int] == old(self).rows@[y as int]@);
            self.rows[y][x] = pixel;
            assert(self@ =~= old(self)@.update(y as int, old(self)@[y as int].update(x as int, pixel)));
        }
    }

    /// The pixel at column `x` of row `y`; `None` outside the raster.
    pub fn get_pixel(&self, x: usize, y: usize) -> (pixel: Option<T>)
        requires
            self.wf(),
        ensures
            pixel == if x < self.spec_width() && y < self.spec_height() {
                Some(self@[y as int][x as int])
            } else {
                None
            },
    {
        if x < self.width && y < self.height {
            assert(self@[y as int] == self.rows@[y as int]@);
            Some(self.rows[y][x])
        } else {
            None
        }
    }
}

} // verus!
