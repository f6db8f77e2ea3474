//! Run lengths guessed from the dark stretches of a line of pixels.

use vstd::prelude::*;

verus! {

/// Where the scan of a line of pixels stands: the run lengths found, and the length of the
/// dark stretch at hand, zero outside a dark stretch.
pub struct Scan {
    pub found: Seq<usize>,
    pub dark: int,
}

/// The run length that a dark stretch of `dark` pixels is taken for: one for every
/// `segment` pixels, at least one.
pub open spec fn estimated(dark: int, segment: int) -> int {
    if dark / segment >= 1 {
        dark / segment
    } else {
        1
    }
}

/// The scan after the first `n` pixels: a pixel darker than 128 lengthens the dark stretch;
/// any other pixel ends it, and a stretch of more than a quarter of `segment` pixels is
/// taken for a run.
pub open spec fn scanned(pixels: Seq<u8>, segment: int, n: int) -> Scan
    decreases n,
{
    if n <= 0 {
        Scan { found: Seq::empty(), dark: 0 }
    } else {
        let before = scanned(pixels, segment, n - 1);
        if pixels[n - 1] < 128 {
            Scan { found: before.found, dark: before.dark + 1 }
        } else if before.dark > segment / 4 {
            Scan { found: before.found.push(estimated(before.dark, segment) as usize), dark: 0 }
        } else {
            Scan { found: before.found, dark: 0 }
        }
    }
}

/// The run lengths guessed from a line of pixels; a single run of one where none is found.
pub open spec fn guessed_runs(pixels: Seq<u8>, segment: int) -> Seq<usize> {
    let end = scanned(pixels, segment, pixels.len() as int);
    let all = if end.dark > segment / 4 {
        end.found.push(estimated(end.dark, segment) as usize)
    } else {
        end.found
    };
    if all.len() == 0 {
        seq![1usize]
    } else {
        all
    }
}

/// Guesses the run lengths of a line from the picture of its numbers.
pub struct ConstraintExtractor;

impl ConstraintExtractor {
    /// Makes an extractor.
    pub fn new() -> (extractor: ConstraintExtractor) {
        ConstraintExtractor
    }

    /// The run lengths guessed from the grey values of a line of pixels, where `segment`
    /// pixels of darkness stand for one cell.
    pub fn estimate_runs(pixels: &[u8], segment: u32) -> (runs: Vec<usize>)
        requires
            segment > 0,
        ensures
            runs@ == guessed_runs(pixels@, segment as int),
    {
        let mut constraints: Vec<usize> = Vec::new();
        let mut current_block_size: usize = 0;
        let mut x: usize = 0;
        while x < pixels.len()
            invariant
                x <= pixels@.len(),
                segment > 0,
                (Scan { found: constraints@, dark: current_block_size as int }) == scanned(
                    pixels@,
                    segment as int,
                    x as int,
                ),
                current_block_size <= x,
            decreases pixels@.len() - x,
        {
            if pixels[x] < 128 {
                current_block_size += 1;
            } else {
                if current_block_size > (segment / 4) as usize {
                    let per_cell = current_block_size / (segment as usize);
                    let estimated_size = if per_cell >= 1 {
                        per_cell
                    } else {
                        1
                    };
                    constraints.push(estimated_size);
                }
                current_block_size = 0;
            }
            x += 1;
        }
        if current_block_size > (segment / 4) as usize {
            let per_cell = current_block_size / (segment as usize);
            let estimated_size = if per_cell >= 1 {
                per_cell
            } else {
                1
            };
            constraints.push(estimated_size);
        }
        if constraints.len() == 0 {
            constraints.push(1);
        }
        constraints
    }
}

} // verus!
