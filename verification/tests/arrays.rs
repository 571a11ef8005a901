use regression_forest::arrays::{Matrix, Vector};
use regression_forest::error::ForestError;

#[test]
fn from_shape_vec_lays_cells_out_row_by_row() {
    let m = Matrix::from_shape_vec(2, 3, vec![1, 2, 3, 4, 5, 6]).unwrap();
    assert_eq!(m.nrows(), 2);
    assert_eq!(m.ncols(), 3);
    assert_eq!(m.get(0, 0), Some(1));
    assert_eq!(m.get(0, 2), Some(3));
    assert_eq!(m.get(1, 0), Some(4));
    assert_eq!(m.get(1, 2), Some(6));
    assert_eq!(m.at(1, 1), 5);
}

#[test]
fn from_shape_vec_refuses_a_wrong_cell_count() {
    let short = Matrix::from_shape_vec(2, 3, vec![1, 2, 3, 4, 5]);
    assert!(matches!(short, Err(ForestError::InvalidInput)));
    let long = Matrix::from_shape_vec(2, 2, vec![1, 2, 3, 4, 5]);
    assert!(matches!(long, Err(ForestError::InvalidInput)));
}

#[test]
fn from_shape_vec_refuses_a_shape_beyond_the_container() {
    let huge = Matrix::from_shape_vec(0, usize::MAX, Vec::new());
    assert!(matches!(huge, Err(ForestError::InvalidInput)));
}

#[test]
fn from_shape_vec_accepts_empty_tables() {
    let no_rows = Matrix::from_shape_vec(0, 4, Vec::new()).unwrap();
    assert_eq!(no_rows.nrows(), 0);
    assert_eq!(no_rows.ncols(), 4);
    let no_cols = Matrix::from_shape_vec(3, 0, Vec::new()).unwrap();
    assert_eq!(no_cols.nrows(), 3);
    assert_eq!(no_cols.ncols(), 0);
}

#[test]
fn get_is_none_outside_the_table() {
    let m = Matrix::from_shape_vec(2, 2, vec![1, 2, 3, 4]).unwrap();
    assert_eq!(m.get(2, 0), None);
    assert_eq!(m.get(0, 2), None);
}

#[test]
fn row_copies_one_row() {
    let m = Matrix::from_shape_vec(3, 2, vec![1, 2, 3, 4, 5, 6]).unwrap();
    assert_eq!(m.row(0).to_vec(), vec![1, 2]);
    assert_eq!(m.row(2).to_vec(), vec![5, 6]);
}

#[test]
fn select_rows_keeps_the_order_of_the_picks() {
    let m = Matrix::from_shape_vec(3, 2, vec![1, 2, 3, 4, 5, 6]).unwrap();
    let picked = m.select_rows(&vec![2, 0]);
    assert_eq!(picked.nrows(), 2);
    assert_eq!(picked.ncols(), 2);
    assert_eq!(picked.row(0).to_vec(), vec![5, 6]);
    assert_eq!(picked.row(1).to_vec(), vec![1, 2]);
}

#[test]
fn select_rows_of_nothing_keeps_the_width() {
    let m = Matrix::from_shape_vec(3, 2, vec![1, 2, 3, 4, 5, 6]).unwrap();
    let picked = m.select_rows(&Vec::new());
    assert_eq!(picked.nrows(), 0);
    assert_eq!(picked.ncols(), 2);
}

#[test]
fn select_cols_keeps_the_order_of_the_picks() {
    let m = Matrix::from_shape_vec(2, 3, vec![1, 2, 3, 4, 5, 6]).unwrap();
    let picked = m.select_cols(&vec![2, 0]);
    assert_eq!(picked.nrows(), 2);
    assert_eq!(picked.ncols(), 2);
    assert_eq!(picked.row(0).to_vec(), vec![3, 1]);
    assert_eq!(picked.row(1).to_vec(), vec![6, 4]);
}

#[test]
fn vector_round_trip() {
    let v = Vector::from_vec(vec![7, -8, 9]);
    assert_eq!(v.len(), 3);
    assert_eq!(v.get(0), Some(7));
    assert_eq!(v.get(1), Some(-8));
    assert_eq!(v.get(3), None);
    assert_eq!(v.at(2), 9);
    assert_eq!(v.to_vec(), vec![7, -8, 9]);
}

#[test]
fn vector_select_keeps_the_order_of_the_picks() {
    let v = Vector::from_vec(vec![10, 20, 30, 40]);
    assert_eq!(v.select(&vec![3, 1]).to_vec(), vec![40, 20]);
    assert_eq!(v.select(&Vec::new()).len(), 0);
}

#[test]
fn error_messages_name_the_failure() {
    assert_eq!(ForestError::InvalidInput.message(), "invalid input");
    assert_eq!(ForestError::UntrainedModel.message(), "untrained model");
}
