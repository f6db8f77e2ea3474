use nonogram_solver::extraction::ConstraintExtractor;
use nonogram_solver::grid::CellState;
use nonogram_solver::history::{History, HistoryEntry, MAX_ENTRIES};
use nonogram_solver::image_parser::{
    GridDetector, ImageParser, ParseError, ParserConfig, Raster, Rgb,
};
use nonogram_solver::ocr::{
    parse_number, AdvancedConstraintExtractor, ConstraintExtractor as TextReader, GridFrame, OcrError,
};

#[test]
fn test_filter_close_lines() {
    let lines = vec![(10, 100), (12, 90), (30, 110), (50, 95)];
    let filtered = GridDetector::filter_close_lines(lines, 5);

    assert_eq!(filtered.len(), 3);
    assert_eq!(filtered[0], 10);
    assert_eq!(filtered[1], 30);
    assert_eq!(filtered[2], 50);
}

#[test]
fn test_parser_config_default() {
    let config = ParserConfig::default();
    assert_eq!(config.cell_size, 20);
    assert_eq!(config.black_threshold, 128);
}

#[test]
fn test_classify_pixel() {
    let parser = ImageParser::with_default_config();

    assert_eq!(parser.classify_pixel(0, 0, 0), CellState::Filled);

    assert_eq!(parser.classify_pixel(255, 255, 255), CellState::Empty);
}

#[test]
fn test_extract_basic() {
    let mut pixels = vec![255u8; 40];
    for x in 5..25 {
        pixels[x] = 0;
    }
    assert_eq!(ConstraintExtractor::estimate_runs(&pixels, 10), vec![2]);
}

#[test]
fn close_lines_keep_the_best_of_each_group() {
    let lines = vec![(52, 7), (10, 1), (12, 9), (50, 8), (14, 5), (30, 3)];
    assert_eq!(GridDetector::filter_close_lines(lines, 5), vec![12, 30, 50]);
    assert_eq!(GridDetector::filter_close_lines(Vec::new(), 5), Vec::<usize>::new());
    assert_eq!(GridDetector::filter_close_lines(vec![(7, 1)], 1), vec![7]);
}

#[test]
fn close_lines_are_measured_from_the_first_of_the_group() {
    // 14 is within 5 of 10, 18 is not: it opens the next group although it is within 5 of 14.
    let lines = vec![(10, 1), (14, 2), (18, 3)];
    assert_eq!(GridDetector::filter_close_lines(lines, 5), vec![14, 18]);
}

#[test]
fn coloured_bright_pixels_are_crossed() {
    let parser = ImageParser::with_default_config();
    assert_eq!(parser.classify_pixel(255, 100, 100), CellState::Crossed);
    assert_eq!(parser.classify_pixel(200, 190, 185), CellState::Empty);
    assert_eq!(parser.classify_pixel(127, 127, 127), CellState::Filled);
    assert_eq!(parser.classify_pixel(128, 128, 128), CellState::Empty);
    // brightness (255 + 128 + 1) / 3 = 128 is not above the threshold
    assert_eq!(parser.classify_pixel(255, 128, 1), CellState::Empty);
    let dark = ImageParser::new(ParserConfig {
        cell_size: 10,
        margin_top: 0,
        margin_left: 0,
        black_threshold: 10,
    });
    assert_eq!(dark.classify_pixel(20, 20, 20), CellState::Empty);
    assert_eq!(dark.config().cell_size, 10);
}

#[test]
fn majority_of_samples_decides_the_cell() {
    let parser = ImageParser::with_default_config();
    let f = CellState::Filled;
    let x = CellState::Crossed;
    let e = CellState::Empty;
    assert_eq!(parser.majority_state(&[f, f, f, x, e]), f);
    assert_eq!(parser.majority_state(&[f, f, x, x, x]), x);
    assert_eq!(parser.majority_state(&[f, f, x, x, e]), e);
    assert_eq!(parser.majority_state(&[]), e);
    assert_eq!(parser.majority_state(&[f, e]), e);
}

#[test]
fn cell_centre_is_counted_from_the_margins() {
    let parser = ImageParser::with_default_config();
    assert_eq!(parser.cell_centre(0, 0), Some((60, 60)));
    assert_eq!(parser.cell_centre(2, 3), Some((120, 100)));
    assert_eq!(parser.cell_centre(0, usize::MAX), None);
}

#[test]
fn dark_stretches_become_runs() {
    // segment 8: a stretch counts from 3 dark pixels on
    let mut pixels = vec![200u8; 60];
    for x in 0..2 {
        pixels[x] = 10;
    }
    for x in 10..13 {
        pixels[x] = 10;
    }
    for x in 20..44 {
        pixels[x] = 10;
    }
    for x in 55..60 {
        pixels[x] = 127;
    }
    assert_eq!(ConstraintExtractor::estimate_runs(&pixels, 8), vec![1, 3, 1]);
    assert_eq!(ConstraintExtractor::estimate_runs(&[255, 255], 8), vec![1]);
    assert_eq!(ConstraintExtractor::estimate_runs(&[], 1), vec![1]);
}

fn entry(n: usize) -> HistoryEntry {
    HistoryEntry {
        file_path: format!("puzzle{}.png", n),
        timestamp: format!("2024-01-{:02}", n + 1),
        solver_mode: "ultimate".to_string(),
        deductions_count: n,
    }
}

#[test]
fn history_keeps_the_newest_first() {
    let mut history = History::new();
    assert!(history.entries.is_empty());
    history.add_entry(entry(1));
    history.add_entry(entry(2));
    history.add_entry(entry(3));
    let recent = history.get_recent(2);
    assert_eq!(recent.len(), 2);
    assert_eq!(recent[0].deductions_count, 3);
    assert_eq!(recent[1].file_path, "puzzle2.png");
    assert_eq!(history.get_recent(10).len(), 3);
    assert_eq!(history.get_recent(0).len(), 0);
    history.clear();
    assert!(history.entries.is_empty());
}

#[test]
fn history_drops_the_oldest_beyond_the_limit() {
    let mut history = History::default();
    for n in 0..25 {
        history.add_entry(entry(n));
    }
    assert_eq!(MAX_ENTRIES, 20);
    assert_eq!(history.entries.len(), 20);
    assert_eq!(history.entries[0].deductions_count, 24);
    assert_eq!(history.entries[19].deductions_count, 5);
}

#[test]
fn test_parse_constraints_from_text() {
    let text = "1 2\n3\n4 5\n6\n7\n8";
    let result = TextReader::parse_constraints_from_text(text, 3, 3);

    // A line break is white space: the numbers of the text form one group, where six are
    // needed.
    assert!(result.is_err());
    assert_eq!(result.unwrap_err(), OcrError::TooFewGroups { found: 1 });
    let one = TextReader::parse_constraints_from_text(text, 0, 1);
    // The one group is taken for the row, which is too long for a grid without columns.
    assert_eq!(
        one.unwrap_err(),
        OcrError::Invalid(nonogram_solver::grid::ConstraintError::RowTooLong { row: 0 })
    );
}

#[test]
fn groups_of_numbers_become_columns_then_rows() {
    let text = "cols: 1 1 | 3 | 2; rows: 2, 1  1, 3 and 7";
    let constraints = TextReader::parse_constraints_from_text(text, 3, 3).unwrap();
    assert_eq!(constraints.columns, vec![vec![1, 1], vec![3], vec![2]]);
    assert_eq!(constraints.rows, vec![vec![2], vec![1, 1], vec![3]]);
    assert_eq!(constraints.width, 3);
    assert_eq!(constraints.height, 3);
    assert_eq!(
        TextReader::parse_constraints_from_text(text, 4, 4).unwrap_err(),
        OcrError::TooFewGroups { found: 7 }
    );
    assert_eq!(
        TextReader::parse_constraints_from_text("5 | 1", 1, 1).unwrap_err(),
        OcrError::Invalid(nonogram_solver::grid::ConstraintError::ColumnTooLong { col: 0 })
    );
    // a number that no usize holds is passed over, and with it a group that holds nothing else
    let text = "99999999999999999999999999 | 1 99999999999999999999999999 | 1";
    let constraints = TextReader::parse_constraints_from_text(text, 1, 1).unwrap();
    assert_eq!(constraints.columns, vec![vec![1]]);
    assert_eq!(constraints.rows, vec![vec![1]]);
}

#[test]
fn numbers_are_read_as_the_standard_library_reads_them() {
    for word in ["0", "7", "42", "+42", "007", "", "+", "-1", "4 2", "4a", "a4", "++1", "1+", "٣"] {
        assert_eq!(parse_number(word), word.parse::<usize>().ok(), "{:?}", word);
    }
    let most = usize::MAX.to_string();
    assert_eq!(parse_number(&most), Some(usize::MAX));
    let more = format!("{}0", most);
    assert_eq!(parse_number(&more), None);
    let next = format!("{}", usize::MAX as u128 + 1);
    assert_eq!(parse_number(&next), None);
}

#[test]
fn fallback_puts_the_grid_in_the_middle() {
    // 300 / (5 + 5) = 30 and 200 / (3 + 5) = 25: cells of 25 pixels
    let config = ImageParser::fallback_config(300, 200, 5, 3);
    assert_eq!(
        config,
        ParserConfig { cell_size: 25, margin_top: 62, margin_left: 87, black_threshold: 128 }
    );
    let tiny = ImageParser::fallback_config(3, 3, 10, 10);
    assert_eq!(tiny, ParserConfig { cell_size: 0, margin_top: 1, margin_left: 1, black_threshold: 128 });
}

#[test]
fn grid_frame_from_lines() {
    let frame = AdvancedConstraintExtractor::detect_grid(&[40, 60, 81, 100], &[10, 35, 60]);
    assert_eq!(
        frame,
        Some(GridFrame { grid_x: 10, grid_y: 40, cell_size: 22, grid_width: 2, grid_height: 3 })
    );
    assert_eq!(AdvancedConstraintExtractor::detect_grid(&[40], &[10, 35, 60]), None);
    assert_eq!(AdvancedConstraintExtractor::detect_grid(&[40, 50], &[]), None);
}

#[test]
fn constraint_list_is_cut_or_filled_up() {
    let text = "1 1 | 3 | 2";
    assert_eq!(
        AdvancedConstraintExtractor::parse_constraint_list(text, 2),
        Ok(vec![vec![1, 1], vec![3]])
    );
    assert_eq!(
        AdvancedConstraintExtractor::parse_constraint_list(text, 5),
        Ok(vec![vec![1, 1], vec![3], vec![2], vec![], vec![]])
    );
    assert_eq!(AdvancedConstraintExtractor::parse_constraint_list("", 1), Ok(vec![vec![]]));
}

const WHITE: Rgb = (255, 255, 255);
const BLACK: Rgb = (0, 0, 0);
const RED: Rgb = (255, 150, 150);

/// A picture of cells of 8 pixels behind margins of 4 pixels, each cell in one colour.
fn picture_of(cells: &[&[Rgb]]) -> Raster<Rgb> {
    let height = 4 + 8 * cells.len() + 4;
    let width = 4 + 8 * cells[0].len() + 4;
    let mut rows = vec![vec![WHITE; width]; height];
    for (r, line) in cells.iter().enumerate() {
        for (c, colour) in line.iter().enumerate() {
            for y in 0..8 {
                for x in 0..8 {
                    rows[4 + 8 * r + y][4 + 8 * c + x] = *colour;
                }
            }
        }
    }
    Raster::from_rows(rows).unwrap()
}

#[test]
fn cells_are_read_from_the_colours_of_a_picture() {
    let picture = picture_of(&[&[BLACK, WHITE, RED], &[RED, BLACK, WHITE]]);
    assert_eq!(picture.width(), 32);
    assert_eq!(picture.height(), 24);
    assert_eq!(picture.get_pixel(5, 5), Some(BLACK));
    assert_eq!(picture.get_pixel(32, 0), None);
    let parser = ImageParser::new(ParserConfig {
        cell_size: 8,
        margin_top: 4,
        margin_left: 4,
        black_threshold: 128,
    });
    let grid = parser.parse_image(&picture, 3, 2).unwrap();
    assert_eq!(
        grid.get_row(0).unwrap(),
        vec![CellState::Filled, CellState::Empty, CellState::Crossed]
    );
    assert_eq!(
        grid.get_row(1).unwrap(),
        vec![CellState::Crossed, CellState::Filled, CellState::Empty]
    );
    assert_eq!(parser.detect_cell_state(&picture, 1, 1), Some(CellState::Filled));
    assert_eq!(parser.detect_cell_state(&picture, 1, 2), Some(CellState::Empty));
    // the middle of a cell of the third row lies 4 + 2 * 8 + 4 = 24 pixels down
    assert_eq!(parser.detect_cell_state(&picture, 2, 0), None);
    assert_eq!(
        parser.parse_image(&picture, 4, 2).unwrap_err(),
        ParseError::OutsidePicture { row: 0, col: 3 }
    );
    assert_eq!(
        parser.parse_image(&picture, 3, 3).unwrap_err(),
        ParseError::OutsidePicture { row: 2, col: 0 }
    );
    assert_eq!(parser.parse_image(&picture, usize::MAX, 2).unwrap_err(), ParseError::GridTooLarge);
}

#[test]
fn a_cell_takes_the_state_of_most_of_its_sample_points() {
    // The cell is black but for a white stripe that three of the five sample points hit.
    let mut rows = vec![vec![BLACK; 16]; 16];
    for x in 0..16 {
        for y in 7..10 {
            rows[y][x] = WHITE;
        }
    }
    let picture = Raster::from_rows(rows).unwrap();
    let parser = ImageParser::new(ParserConfig {
        cell_size: 16,
        margin_top: 0,
        margin_left: 0,
        black_threshold: 128,
    });
    assert_eq!(parser.detect_cell_state(&picture, 0, 0), Some(CellState::Empty));
}

#[test]
fn rasters_are_rectangles() {
    assert!(Raster::from_rows(vec![vec![1u8, 2], vec![3]]).is_none());
    let empty = Raster::<u8>::from_rows(Vec::new()).unwrap();
    assert_eq!((empty.width(), empty.height()), (0, 0));
    assert_eq!(empty.get_pixel(0, 0), None);
}

#[test]
fn grid_lines_are_the_bright_rows_and_columns_of_the_edges() {
    let mut rows = vec![vec![0u8; 30]; 20];
    for y in [2usize, 3, 10, 18] {
        for x in 0..30 {
            rows[y][x] = 255;
        }
    }
    // row 3 is brighter than row 2: of the two close rows it is kept
    for x in 0..12 {
        rows[2][x] = 100;
    }
    // a third of a row is not more than a third
    for x in 0..10 {
        rows[14][x] = 255;
    }
    for x in [5usize, 25] {
        for y in 0..20 {
            rows[y][x] = 200;
        }
    }
    let edges = Raster::from_rows(rows).unwrap();
    assert_eq!(GridDetector::find_horizontal_lines(&edges), vec![3, 10, 18]);
    assert_eq!(GridDetector::find_vertical_lines(&edges), vec![5, 25]);
}

fn white_space_by_the_list(c: char) -> bool {
    matches!(
        c,
        '\u{9}'..='\u{d}'
            | ' '
            | '\u{85}'
            | '\u{a0}'
            | '\u{1680}'
            | '\u{2000}'..='\u{200a}'
            | '\u{2028}'
            | '\u{2029}'
            | '\u{202f}'
            | '\u{205f}'
            | '\u{3000}'
    )
}

#[test]
fn the_white_space_of_the_library_is_that_of_the_text_splitter() {
    for code in 0..=0x10ffffu32 {
        if let Some(c) = char::from_u32(code) {
            assert_eq!(c.is_whitespace(), white_space_by_the_list(c), "U+{:04X}", code);
            let text = format!("1{}2", c);
            let words: Vec<&str> = text.split_whitespace().collect();
            assert_eq!(words.len() == 2, white_space_by_the_list(c), "U+{:04X}", code);
        }
    }
}

#[test]
fn run_lengths_are_parted_by_any_white_space() {
    assert_eq!(
        AdvancedConstraintExtractor::parse_constraint_list("1\u{a0}2\u{3000}3\t4", 1),
        Ok(vec![vec![1, 2, 3, 4]])
    );
    assert_eq!(
        AdvancedConstraintExtractor::parse_constraint_list("  7 \r\n 8  ", 1),
        Ok(vec![vec![7, 8]])
    );
}
