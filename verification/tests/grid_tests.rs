use nonogram_solver::grid::{CellState, ConstraintError, Constraints, Grid, GridError};

#[test]
fn test_new_grid() {
    let grid = Grid::new(5, 5);
    assert_eq!(grid.width(), 5);
    assert_eq!(grid.height(), 5);
    assert_eq!(grid.get(0, 0), Some(CellState::Empty));
}

#[test]
fn test_set_get() {
    let mut grid = Grid::new(5, 5);
    grid.set(2, 3, CellState::Filled).unwrap();
    assert_eq!(grid.get(2, 3), Some(CellState::Filled));
}

#[test]
fn test_get_row() {
    let mut grid = Grid::new(5, 5);
    grid.set(1, 2, CellState::Filled).unwrap();
    let row = grid.get_row(1).unwrap();
    assert_eq!(row[2], CellState::Filled);
    assert_eq!(row.len(), 5);
}

#[test]
fn test_get_column() {
    let mut grid = Grid::new(5, 5);
    grid.set(2, 1, CellState::Crossed).unwrap();
    let col = grid.get_column(1).unwrap();
    assert_eq!(col[2], CellState::Crossed);
    assert_eq!(col.len(), 5);
}

#[test]
fn test_new_constraints() {
    let rows = vec![vec![3], vec![1, 1], vec![2]];
    let columns = vec![vec![1], vec![2], vec![1, 1]];
    let constraints = Constraints::new(3, 3, rows, columns).unwrap();
    assert_eq!(constraints.width, 3);
    assert_eq!(constraints.height, 3);
}

#[test]
fn test_invalid_constraints() {
    let rows = vec![vec![10]];
    let columns = vec![vec![1], vec![1], vec![1]];
    let result = Constraints::new(3, 1, rows, columns);
    assert!(result.is_err());
}

#[test]
fn test_min_line_length() {
    assert_eq!(Constraints::min_line_length(&[3]), 3);
    assert_eq!(Constraints::min_line_length(&[3, 2]), 6);
    assert_eq!(Constraints::min_line_length(&[1, 1, 1]), 5);
    assert_eq!(Constraints::min_line_length(&[]), 0);
}

#[test]
fn grid_reads_outside_are_none() {
    let grid = Grid::new(3, 2);
    assert_eq!(grid.get(2, 0), None);
    assert_eq!(grid.get(0, 3), None);
    assert_eq!(grid.get(1, 2), Some(CellState::Empty));
    assert!(grid.get_row(2).is_none());
    assert!(grid.get_column(3).is_none());
}

#[test]
fn grid_write_outside_is_refused_and_changes_nothing() {
    let mut grid = Grid::new(3, 2);
    assert_eq!(
        grid.set(2, 1, CellState::Filled),
        Err(GridError::OutOfBounds { row: 2, col: 1 })
    );
    assert_eq!(
        grid.set(0, 3, CellState::Filled),
        Err(GridError::OutOfBounds { row: 0, col: 3 })
    );
    assert_eq!(grid.count_empty_cells(), 6);
}

#[test]
fn grid_counts_cells_by_state() {
    let mut grid = Grid::new(4, 3);
    assert_eq!(grid.count_empty_cells(), 12);
    assert_eq!(grid.count_filled_cells(), 0);
    grid.set(0, 0, CellState::Filled).unwrap();
    grid.set(2, 3, CellState::Filled).unwrap();
    grid.set(1, 1, CellState::Crossed).unwrap();
    assert_eq!(grid.count_empty_cells(), 9);
    assert_eq!(grid.count_filled_cells(), 2);
    assert!(grid.is_valid());
}

#[test]
fn grid_set_row_and_column() {
    let mut grid = Grid::new(3, 2);
    grid.set_row(1, vec![CellState::Filled, CellState::Crossed, CellState::Filled]).unwrap();
    assert_eq!(
        grid.get_row(1).unwrap(),
        vec![CellState::Filled, CellState::Crossed, CellState::Filled]
    );
    grid.set_column(1, vec![CellState::Filled, CellState::Filled]).unwrap();
    assert_eq!(grid.get_column(1).unwrap(), vec![CellState::Filled, CellState::Filled]);
    assert_eq!(grid.get(1, 0), Some(CellState::Filled));
    assert_eq!(
        grid.set_row(2, vec![CellState::Empty; 3]),
        Err(GridError::RowOutOfBounds { row: 2 })
    );
    assert_eq!(
        grid.set_row(0, vec![CellState::Empty; 2]),
        Err(GridError::WrongLength { expected: 3, given: 2 })
    );
    assert_eq!(
        grid.set_column(3, vec![CellState::Empty; 2]),
        Err(GridError::ColumnOutOfBounds { col: 3 })
    );
    assert_eq!(
        grid.set_column(0, vec![CellState::Empty; 3]),
        Err(GridError::WrongLength { expected: 2, given: 3 })
    );
}

#[test]
fn grid_clone_is_independent() {
    let mut grid = Grid::new(2, 2);
    grid.set(0, 1, CellState::Filled).unwrap();
    let mut copy = grid.clone_grid();
    assert_eq!(copy.get(0, 1), Some(CellState::Filled));
    copy.set(1, 1, CellState::Crossed).unwrap();
    assert_eq!(grid.get(1, 1), Some(CellState::Empty));
    assert_eq!(copy.width(), 2);
    assert_eq!(copy.height(), 2);
}

#[test]
fn constraints_errors_name_the_first_fault() {
    assert_eq!(
        Constraints::new(2, 2, vec![vec![1]], vec![vec![1], vec![1]]).unwrap_err(),
        ConstraintError::RowCountMismatch { given: 1, height: 2 }
    );
    assert_eq!(
        Constraints::new(2, 2, vec![vec![1], vec![1]], vec![vec![1]]).unwrap_err(),
        ConstraintError::ColumnCountMismatch { given: 1, width: 2 }
    );
    assert_eq!(
        Constraints::new(2, 2, vec![vec![1], vec![1, 1]], vec![vec![3], vec![1]]).unwrap_err(),
        ConstraintError::RowTooLong { row: 1 }
    );
    assert_eq!(
        Constraints::new(2, 2, vec![vec![1], vec![2]], vec![vec![2], vec![1, 1]]).unwrap_err(),
        ConstraintError::ColumnTooLong { col: 1 }
    );
}

#[test]
fn constraints_accept_lines_that_just_fit() {
    let k = Constraints::new(3, 1, vec![vec![1, 1]], vec![vec![1], vec![], vec![1]]).unwrap();
    assert_eq!(k.get_row_constraint(0), Some(&vec![1, 1]));
    assert_eq!(k.get_row_constraint(1), None);
    assert_eq!(k.get_column_constraint(1), Some(&vec![]));
    assert_eq!(k.get_column_constraint(3), None);
}

#[test]
fn min_line_length_saturates() {
    assert_eq!(Constraints::min_line_length(&[usize::MAX, 5]), usize::MAX);
    assert_eq!(Constraints::min_line_length(&[0, 0]), 1);
}
