//! Reading the cells of a puzzle from the pixels of a picture.
//!
//! The picture itself stays outside: what is decided here is decided on the colours of
//! sampled pixels and on the measures of the picture.

use vstd::prelude::*;

use crate::grid::{CellState, Grid};

pub mod grid_detector;
pub mod raster;

pub use grid_detector::GridDetector;
pub use raster::{Raster, Rgb};

verus! {

/// Where the grid lies in the picture, and what counts as dark.
#[derive(Debug, Clone, Copy, PartialEq, Eq, Structural)]
pub struct ParserConfig {
    /// Side of a cell, in pixels.
    pub cell_size: u32,
    /// Pixels above the grid.
    pub margin_top: u32,
    /// Pixels left of the grid.
    pub margin_left: u32,
    /// A pixel darker than this, from 0 to 255, is taken as black.
    pub black_threshold: u8,
}

impl Default for ParserConfig {
    fn default() -> (config: ParserConfig)
        ensures
            config == (ParserConfig {
                cell_size: 20,
                margin_top: 50,
                margin_left: 50,
                black_threshold: 128,
            }),
    {
        ParserConfig { cell_size: 20, margin_top: 50, margin_left: 50, black_threshold: 128 }
    }
}

/// Brightness of a colour: the mean of its red, green and blue, rounded down.
pub open spec fn brightness(r: u8, g: u8, b: u8) -> int {
    (r + g + b) / 3
}

/// Distance of two colour values.
pub open spec fn apart(a: u8, b: u8) -> int {
    if a >= b {
        a - b
    } else {
        b - a
    }
}

/// How far a colour is from grey: the distances of its red, green and blue from one another,
/// added up.
pub open spec fn variance(r: u8, g: u8, b: u8) -> int {
    apart(r, g) + apart(g, b) + apart(r, b)
}

/// The state that a pixel speaks for: filled where it is darker than the threshold; else
/// crossed where it is coloured and brighter than the threshold; else undecided.
pub open spec fn pixel_state(threshold: u8, r: u8, g: u8, b: u8) -> CellState {
    if brightness(r, g, b) < threshold {
        CellState::Filled
    } else if variance(r, g, b) > 50 && brightness(r, g, b) > threshold {
        CellState::Crossed
    } else {
        CellState::Empty
    }
}

/// The state that most of `samples` speak for: filled where more than half of them are
/// filled, else crossed where more than half are crossed, else undecided.
pub open spec fn majority(samples: Seq<CellState>) -> CellState {
    if crate::grid::count_in_line(samples, CellState::Filled) > samples.len() / 2 {
        CellState::Filled
    } else if crate::grid::count_in_line(samples, CellState::Crossed) > samples.len() / 2 {
        CellState::Crossed
    } else {
        CellState::Empty
    }
}

/// The middle of the cell `(row, col)` in the picture.
pub open spec fn centre(config: ParserConfig, row: int, col: int) -> (int, int) {
    (
        config.margin_left + col * config.cell_size + config.cell_size / 2,
        config.margin_top + row * config.cell_size + config.cell_size / 2,
    )
}

/// Where the grid of `width` by `height` cells is taken to lie in a picture of `img_width`
/// by `img_height` pixels when its lines are not found: in the middle, with room for five
/// more cells in each direction.
pub open spec fn fallback(img_width: u32, img_height: u32, width: usize, height: usize) -> ParserConfig {
    let across = img_width as int / (width + 5);
    let down = img_height as int / (height + 5);
    let cell = if across <= down {
        across
    } else {
        down
    };
    ParserConfig {
        cell_size: cell as u32,
        margin_top: ((img_height - cell * height) / 2) as u32,
        margin_left: ((img_width - cell * width) / 2) as u32,
        black_threshold: 128,
    }
}

/// Cells of the size of an equal share for five more cells than there are fit side by side.
pub proof fn lemma_share_fits(extent: int, count: int, cell: int)
    requires
        0 <= extent,
        0 <= count,
        0 <= cell <= extent / (count + 5),
    ensures
        cell * count <= extent,
{
    let share = extent / (count + 5);
    vstd::arithmetic::div_mod::lemma_fundamental_div_mod(extent, count + 5);
    vstd::arithmetic::div_mod::lemma_mod_bound(extent, count + 5);
    assert(share * (count + 5) <= extent) by (nonlinear_arith)
        requires
            extent == (count + 5) * share + extent % (count + 5),
            0 <= extent % (count + 5),
    ;
    assert(cell * count <= share * (count + 5)) by (nonlinear_arith)
        requires
            0 <= cell <= share,
            0 <= count,
    ;
}

/// Why a picture gave no grid.
#[derive(Debug, Clone, Copy, PartialEq, Eq, Structural)]
pub enum ParseError {
    /// The grid has more cells than can be counted.
    GridTooLarge,
    /// The middle of the cell `(row, col)` lies outside the picture.
    OutsidePicture { row: usize, col: usize },
}

/// The `i`-th of the five points at which a cell is sampled: its middle, and the points a
/// quarter of a cell to the left, to the right, above and below.
pub open spec fn sample_point(config: ParserConfig, row: int, col: int, i: int) -> (int, int) {
    let middle = centre(config, row, col);
    let quarter = config.cell_size as int / 4;
    if i == 0 {
        middle
    } else if i == 1 {
        (middle.0 - quarter, middle.1)
    } else if i == 2 {
        (middle.0 + quarter, middle.1)
    } else if i == 3 {
        (middle.0, middle.1 - quarter)
    } else {
        (middle.0, middle.1 + quarter)
    }
}

/// The states that the first `n` sample points of a cell speak for; a point outside the
/// picture is passed over.
pub open spec fn samples_upto(
    config: ParserConfig,
    picture: Seq<Seq<Rgb>>,
    width: int,
    height: int,
    row: int,
    col: int,
    n: int,
) -> Seq<CellState>
    decreases n,
{
    if n <= 0 {
        Seq::empty()
    } else {
        let before = samples_upto(config, picture, width, height, row, col, n - 1);
        let point = sample_point(config, row, col, n - 1);
        if 0 <= point.0 < width && 0 <= point.1 < height {
            let colour = picture[point.1][point.0];
            before.push(pixel_state(config.black_threshold, colour.0, colour.1, colour.2))
        } else {
            before
        }
    }
}

/// The state of the cell `(row, col)` as the picture shows it: what most of its sample
/// points speak for; `None` where the middle of the cell lies outside the picture.
pub open spec fn cell_state(
    config: ParserConfig,
    picture: Seq<Seq<Rgb>>,
    width: int,
    height: int,
    row: int,
    col: int,
) -> Option<CellState> {
    let middle = centre(config, row, col);
    if middle.0 >= width || middle.1 >= height {
        None
    } else {
        Some(majority(samples_upto(config, picture, width, height, row, col, 5)))
    }
}

/// `(row, col)` comes before `(other_row, other_col)`, row by row.
pub open spec fn cell_precedes(row: int, col: int, other_row: int, other_col: int) -> bool {
    row < other_row || (row == other_row && col < other_col)
}

/// Reads cell states from sampled pixels.
pub struct ImageParser {
    config: ParserConfig,
}

impl ImageParser {
    /// Where the parser takes the grid to lie.
    pub closed spec fn spec_config(&self) -> ParserConfig {
        self.config
    }

    /// Makes a parser for a grid that lies as `config` says.
    pub fn new(config: ParserConfig) -> (parser: ImageParser)
        ensures
            parser.spec_config() == config,
    {
        ImageParser { config }
    }

    /// Makes a parser for cells of 20 pixels behind margins of 50 pixels.
    pub fn with_default_config() -> (parser: ImageParser)
        ensures
            parser.spec_config() == (ParserConfig {
                cell_size: 20,
                margin_top: 50,
                margin_left: 50,
                black_threshold: 128,
            }),
    {
        Self::new(ParserConfig::default())
    }

    /// Where the parser takes the grid to lie.
    pub fn config(&self) -> (config: ParserConfig)
        ensures
            config == self.spec_config(),
    {
        self.config
    }

    /// Where the grid of `width` by `height` cells is taken to lie in a picture of
    /// `img_width` by `img_height` pixels when its lines are not found.
    pub fn fallback_config(img_width: u32, img_height: u32, width: usize, height: usize) -> (config:
        ParserConfig)
        requires
            width + 5 <= u32::MAX,
            height + 5 <= u32::MAX,
        ensures
            config == fallback(img_width, img_height, width, height),
    {
        let columns: u32 = width as u32;
        let rows: u32 = height as u32;
        let estimated_cell_width = img_width / (columns + 5);
        let estimated_cell_height = img_height / (rows + 5);
        let cell_size = if estimated_cell_width <= estimated_cell_height {
            estimated_cell_width
        } else {
            estimated_cell_height
        };
        proof {
            lemma_share_fits(img_width as int, columns as int, cell_size as int);
            lemma_share_fits(img_height as int, rows as int, cell_size as int);
        }
        let margin_left = (img_width - cell_size * columns) / 2;
        let margin_top = (img_height - cell_size * rows) / 2;
        ParserConfig { cell_size, margin_top, margin_left, black_threshold: 128 }
    }

    /// Reads the grid of `width` by `height` cells from `picture`. The first cell, row by
    /// row, whose middle lies outside the picture is a fault.
    pub fn parse_image(&self, picture: &Raster<Rgb>, width: usize, height: usize) -> (res: Result<
        Grid,
        ParseError,
    >)
        requires
            picture.wf(),
        ensures
            match res {
                Ok(grid) => {
                    &&& grid.wf()
                    &&& grid.spec_width() == width
                    &&& grid.spec_height() == height
                    &&& forall|r: int, c: int|
                        0 <= r < height && 0 <= c < width ==> cell_state(
                            self.spec_config(),
                            picture@,
                            picture.spec_width() as int,
                            picture.spec_height() as int,
                            r,
                            c,
                        ) == Some(#[trigger] grid@[r][c])
                },
                Err(ParseError::GridTooLarge) => width * height > usize::MAX,
                Err(ParseError::OutsidePicture { row, col }) => {
                    &&& width * height <= usize::MAX
                    &&& row < height
                    &&& col < width
                    &&& cell_state(
                        self.spec_config(),
                        picture@,
                        picture.spec_width() as int,
                        picture.spec_height() as int,
                        row as int,
                        col as int,
                    ) is None
                    &&& forall|r: int, c: int|
                        0 <= r < height && 0 <= c < width && cell_precedes(
                            r,
                            c,
                            row as int,
                            col as int,
                        ) ==> (#[trigger] cell_state(
                            self.spec_config(),
                            picture@,
                            picture.spec_width() as int,
                            picture.spec_height() as int,
                            r,
                            c,
                        )) is Some
                },
            },
    {
        if width.checked_mul(height).is_none() {
            return Err(ParseError::GridTooLarge);
        }
        let ghost config = self.spec_config();
        let ghost pw = picture.spec_width() as int;
        let ghost ph = picture.spec_height() as int;
        let mut grid = Grid::new(width, height);
        let mut row: usize = 0;
        while row < height
            invariant
                picture.wf(),
                config == self.spec_config(),
                pw == picture.spec_width(),
                ph == picture.spec_height(),
                grid.wf(),
                grid.spec_width() == width,
                grid.spec_height() == height,
                width * height <= usize::MAX,
                row <= height,
                forall|r: int, c: int|
                    0 <= r < row && 0 <= c < width ==> cell_state(config, picture@, pw, ph, r, c)
                        == Some(#[trigger] grid@[r][c]),
            decreases height - row,
        {
            let mut col: usize = 0;
            while col < width
                invariant
                    picture.wf(),
                    config == self.spec_config(),
                    pw == picture.spec_width(),
                    ph == picture.spec_height(),
                    grid.wf(),
                    grid.spec_width() == width,
                    grid.spec_height() == height,
                    width * height <= usize::MAX,
                    row < height,
                    col <= width,
                    forall|r: int, c: int|
                        0 <= r < row && 0 <= c < width ==> cell_state(
                            config,
                            picture@,
                            pw,
                            ph,
                            r,
                            c,
                        ) == Some(#[trigger] grid@[r][c]),
                    forall|c: int|
                        0 <= c < col ==> cell_state(config, picture@, pw, ph, row as int, c)
                            == Some(#[trigger] grid@[row as int][c]),
                decreases width - col,
            {
                let state = match self.detect_cell_state(picture, row, col) {
                    Some(s) => s,
                    None => {
                        assert forall|r: int, c: int|
                            0 <= r < height && 0 <= c < width && cell_precedes(
                                r,
                                c,
                                row as int,
                                col as int,
                            ) implies (#[trigger] cell_state(config, picture@, pw, ph, r, c))
                            is Some by {
                            if r < row {
                                assert(cell_state(config, picture@, pw, ph, r, c) == Some(
                                    grid@[r][c],
                                ));
                            } else {
                                assert(cell_state(config, picture@, pw, ph, row as int, c)
                                    == Some(grid@[row as int][c]));
                            }
                        }
                        return Err(ParseError::OutsidePicture { row, col });
                    },
                };
                let written = grid.set(row, col, state);
                assert(written is Ok);
                col += 1;
            }
            row += 1;
        }
        Ok(grid)
    }

    /// The state of the cell `(row, col)` as `picture` shows it; `None` where the middle of
    /// the cell lies outside the picture.
    pub fn detect_cell_state(&self, picture: &Raster<Rgb>, row: usize, col: usize) -> (state:
        Option<CellState>)
        requires
            picture.wf(),
        ensures
            state == cell_state(
                self.spec_config(),
                picture@,
                picture.spec_width() as int,
                picture.spec_height() as int,
                row as int,
                col as int,
            ),
    {
        let (center_x, center_y) = match self.cell_centre(row, col) {
            Some(point) => point,
            None => {
                return None;
            },
        };
        let width = picture.width();
        let height = picture.height();
        if center_x as usize >= width || center_y as usize >= height {
            return None;
        }
        let quarter: u32 = self.config.cell_size / 4;
        let ghost config = self.spec_config();
        let ghost pw = width as int;
        let ghost ph = height as int;
        let ghost r = row as int;
        let ghost c = col as int;
        let mut samples: Vec<CellState> = Vec::new();
        assert(samples@ == samples_upto(config, picture@, pw, ph, r, c, 0));
        self.take_sample(picture, center_x as u64, center_y as u64, &mut samples);
        assert(samples@ == samples_upto(config, picture@, pw, ph, r, c, 1));
        self.take_sample(picture, (center_x - quarter) as u64, center_y as u64, &mut samples);
        assert(samples@ == samples_upto(config, picture@, pw, ph, r, c, 2));
        self.take_sample(picture, center_x as u64 + quarter as u64, center_y as u64, &mut samples);
        assert(samples@ == samples_upto(config, picture@, pw, ph, r, c, 3));
        self.take_sample(picture, center_x as u64, (center_y - quarter) as u64, &mut samples);
        assert(samples@ == samples_upto(config, picture@, pw, ph, r, c, 4));
        self.take_sample(picture, center_x as u64, center_y as u64 + quarter as u64, &mut samples);
        assert(samples@ == samples_upto(config, picture@, pw, ph, r, c, 5));
        Some(self.majority_state(samples.as_slice()))
    }

    /// Adds to `samples` the state that the pixel at `(x, y)` speaks for; nothing where the
    /// point lies outside the picture.
    fn take_sample(&self, picture: &Raster<Rgb>, x: u64, y: u64, samples: &mut Vec<CellState>)
        requires
            picture.wf(),
        ensures
            final(samples)@ == if x < picture.spec_width() && y < picture.spec_height() {
                let colour = picture@[y as int][x as int];
                old(samples)@.push(
                    pixel_state(self.spec_config().black_threshold, colour.0, colour.1, colour.2),
                )
            } else {
                old(samples)@
            },
    {
        let width = picture.width();
        let height = picture.height();
        if x < width as u64 && y < height as u64 {
            match picture.get_pixel(x as usize, y as usize) {
                Some(colour) => {
                    samples.push(self.classify_pixel(colour.0, colour.1, colour.2));
                },
                None => {},
            }
        }
    }

    /// The state that a pixel of the colour `(r, g, b)` speaks for.
    pub fn classify_pixel(&self, r: u8, g: u8, b: u8) -> (state: CellState)
        ensures
            state == pixel_state(self.spec_config().black_threshold, r, g, b),
    {
        let light: u32 = (r as u32 + g as u32 + b as u32) / 3;
        let threshold: u32 = self.config.black_threshold as u32;
        if light < threshold {
            return CellState::Filled;
        }
        let rg: u32 = if r >= g {
            (r - g) as u32
        } else {
            (g - r) as u32
        };
        let gb: u32 = if g >= b {
            (g - b) as u32
        } else {
            (b - g) as u32
        };
        let rb: u32 = if r >= b {
            (r - b) as u32
        } else {
            (b - r) as u32
        };
        if rg + gb + rb > 50 && light > threshold {
            return CellState::Crossed;
        }
        CellState::Empty
    }

    /// The state of a cell, given the states that its sampled pixels speak for.
    pub fn majority_state(&self, samples: &[CellState]) -> (state: CellState)
        ensures
            state == majority(samples@),
    {
        let black_count = crate::solver::contradiction_detector::count_state(
            samples,
            CellState::Filled,
        );
        let crossed_count = crate::solver::contradiction_detector::count_state(
            samples,
            CellState::Crossed,
        );
        let half = samples.len() / 2;
        if black_count > half {
            CellState::Filled
        } else if crossed_count > half {
            CellState::Crossed
        } else {
            CellState::Empty
        }
    }

    /// The middle of the cell `(row, col)` in the picture; `None` where it cannot be
    /// counted in 32 bits.
    pub fn cell_centre(&self, row: usize, col: usize) -> (point: Option<(u32, u32)>)
        ensures
            match point {
                Some(p) => (p.0 as int, p.1 as int) == centre(
                    self.spec_config(),
                    row as int,
                    col as int,
                ),
                None => centre(self.spec_config(), row as int, col as int).0 > u32::MAX || centre(
                    self.spec_config(),
                    row as int,
                    col as int,
                ).1 > u32::MAX,
            },
    {
        let size: u128 = self.config.cell_size as u128;
        assert(col * size <= 0xffff_ffff_ffff_ffff * 0xffff_ffff) by (nonlinear_arith)
            requires
                0 <= col <= 0xffff_ffff_ffff_ffff,
                0 <= size <= 0xffff_ffff,
        ;
        assert(row * size <= 0xffff_ffff_ffff_ffff * 0xffff_ffff) by (nonlinear_arith)
            requires
                0 <= row <= 0xffff_ffff_ffff_ffff,
                0 <= size <= 0xffff_ffff,
        ;
        let x: u128 = self.config.margin_left as u128 + (col as u128) * size + size / 2;
        let y: u128 = self.config.margin_top as u128 + (row as u128) * size + size / 2;
        if x > 0xffff_ffff || y > 0xffff_ffff {
            return None;
        }
        Some((x as u32, y as u32))
    }
}

} // verus!
