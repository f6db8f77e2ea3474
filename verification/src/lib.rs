//! Deductive solver for nonogram puzzles.
//!
//! A puzzle is a rectangular [`grid::Grid`] of cells together with
//! [`grid::Constraints`]: for every row and every column the ordered lengths of
//! its runs of filled cells. The solvers in [`solver`] prove cell states one
//! [`solver::Deduction`] at a time.
//!
//! What surrounds the solvers decides on plain values only: [`image_parser`] on
//! the colours of sampled pixels, [`drawing`] and [`edge_detection`] on rasters
//! of pixels, [`extraction`] and [`ocr`] on pixels and text read beside the
//! grid, [`history`] on the list of past solves.

pub mod drawing;
pub mod edge_detection;
pub mod extraction;
pub mod grid;
pub mod history;
pub mod image_parser;
pub mod ocr;
pub mod solver;
