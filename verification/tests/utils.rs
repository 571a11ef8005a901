use regression_forest::arrays::Matrix;
use regression_forest::utils::{span_of, train_test_split, x_y_split};

#[test]
fn x_y_split_takes_the_last_column_as_targets() {
    let data = Matrix::from_shape_vec(3, 3, vec![1, 2, 3, 4, 5, 6, 7, 8, 9]).unwrap();
    let (x, y) = x_y_split(&data);
    assert_eq!(x.nrows(), 3);
    assert_eq!(x.ncols(), 2);
    assert_eq!(x.row(0).to_vec(), vec![1, 2]);
    assert_eq!(x.row(1).to_vec(), vec![4, 5]);
    assert_eq!(x.row(2).to_vec(), vec![7, 8]);
    assert_eq!(y.to_vec(), vec![3, 6, 9]);
}

#[test]
fn x_y_split_of_one_column_leaves_no_features() {
    let data = Matrix::from_shape_vec(2, 1, vec![5, 6]).unwrap();
    let (x, y) = x_y_split(&data);
    assert_eq!(x.nrows(), 2);
    assert_eq!(x.ncols(), 0);
    assert_eq!(y.to_vec(), vec![5, 6]);
}

#[test]
fn x_y_split_of_an_empty_table_is_empty() {
    let data = Matrix::from_shape_vec(0, 0, Vec::new()).unwrap();
    let (x, y) = x_y_split(&data);
    assert_eq!(x.nrows(), 0);
    assert_eq!(y.len(), 0);
}

#[test]
fn train_test_split_cuts_after_the_training_rows() {
    let data = Matrix::from_shape_vec(5, 2, vec![1, 2, 3, 4, 5, 6, 7, 8, 9, 10]).unwrap();
    let (train, test) = train_test_split(&data, 3);
    assert_eq!(train.nrows(), 3);
    assert_eq!(train.ncols(), 2);
    assert_eq!(train.row(0).to_vec(), vec![1, 2]);
    assert_eq!(train.row(2).to_vec(), vec![5, 6]);
    assert_eq!(test.nrows(), 2);
    assert_eq!(test.ncols(), 2);
    assert_eq!(test.row(0).to_vec(), vec![7, 8]);
    assert_eq!(test.row(1).to_vec(), vec![9, 10]);
}

#[test]
fn train_test_split_may_leave_a_side_empty() {
    let data = Matrix::from_shape_vec(2, 2, vec![1, 2, 3, 4]).unwrap();
    let (train, test) = train_test_split(&data, 0);
    assert_eq!(train.nrows(), 0);
    assert_eq!(train.ncols(), 2);
    assert_eq!(test.nrows(), 2);
    let (all, none) = train_test_split(&data, 2);
    assert_eq!(all.nrows(), 2);
    assert_eq!(none.nrows(), 0);
    assert_eq!(none.ncols(), 2);
}

#[test]
fn span_of_counts_up() {
    assert_eq!(span_of(2, 5), vec![2, 3, 4]);
    assert_eq!(span_of(3, 3), Vec::<usize>::new());
}
