use regression_forest::arrays::{Matrix, Vector};
use regression_forest::error::ForestError;
use regression_forest::forest::tree::{check_training_input, DecisionTree, Node};

const TENTHS: f64 = 10.0;

fn to_fixed(value: f64) -> i32 {
    (value * TENTHS).round() as i32
}

fn from_fixed(raw: i32) -> f64 {
    raw as f64 / TENTHS
}

fn table(rows: &[Vec<f64>]) -> Matrix {
    let cols = if rows.is_empty() { 0 } else { rows[0].len() };
    let mut cells: Vec<i32> = Vec::new();
    for row in rows {
        for &v in row {
            cells.push(to_fixed(v));
        }
    }
    Matrix::from_shape_vec(rows.len(), cols, cells).unwrap()
}

fn column(values: &[f64]) -> Vector {
    Vector::from_vec(values.iter().map(|&v| to_fixed(v)).collect())
}

fn new_tree(min_samples_to_split: usize, max_depth: u8, num_cols_to_use: usize) -> DecisionTree {
    DecisionTree { root: None, min_samples_to_split, max_depth, num_cols_to_use, num_total_cols: None }
}

fn height(node: &Node) -> usize {
    match node {
        Node::Leaf { .. } => 0,
        Node::Split { left, right, .. } => 1 + height(left).max(height(right)),
    }
}

// Walks the tree with the training rows that reach each node, and checks what
// must hold there.
fn check_grown(node: &Node, rows: &[(Vec<i32>, i32)], depth: u8, tree: &DecisionTree) {
    match node {
        Node::Leaf { pred_val } => {
            let sum: i64 = rows.iter().map(|r| r.1 as i64).sum();
            assert_eq!(*pred_val as i64, sum.div_euclid(rows.len() as i64));
            assert!(depth <= tree.max_depth);
        }
        Node::Split { split_col, split_val, left, right } => {
            assert!(rows.len() >= tree.min_samples_to_split);
            assert!(depth < tree.max_depth);
            assert!(*split_col < tree.num_total_cols.unwrap());
            let sum: i64 = rows.iter().map(|r| r.0[*split_col] as i64).sum();
            assert_eq!(*split_val as i64, sum.div_euclid(rows.len() as i64));
            let l: Vec<(Vec<i32>, i32)> =
                rows.iter().filter(|r| r.0[*split_col] <= *split_val).cloned().collect();
            let r: Vec<(Vec<i32>, i32)> =
                rows.iter().filter(|r| r.0[*split_col] > *split_val).cloned().collect();
            assert!(!l.is_empty());
            assert!(!r.is_empty());
            assert_eq!(l.len() + r.len(), rows.len());
            check_grown(left, &l, depth + 1, tree);
            check_grown(right, &r, depth + 1, tree);
        }
    }
}

fn sample_rows() -> (Vec<Vec<i32>>, Vec<i32>) {
    let mut rows: Vec<Vec<i32>> = Vec::new();
    let mut targets: Vec<i32> = Vec::new();
    let mut state: u32 = 12345;
    for _ in 0..60 {
        let mut row: Vec<i32> = Vec::new();
        for _ in 0..4 {
            state = state.wrapping_mul(1664525).wrapping_add(1013904223);
            row.push(((state >> 16) % 2001) as i32 - 1000);
        }
        targets.push(3 * row[0] - 2 * row[1] + row[3] / 7);
        rows.push(row);
    }
    (rows, targets)
}

#[test]
fn four_rows_one_column_depth_one() {
    let x = table(&[vec![1.0], vec![2.0], vec![3.0], vec![4.0]]);
    let y = column(&[1.0, 2.0, 3.0, 4.0]);
    let mut tree = new_tree(2, 1, 1);
    assert_eq!(tree.fit(&x, &y), Ok(()));
    assert_eq!(tree.num_total_cols, Some(1));
    match tree.root.as_ref().unwrap() {
        Node::Split { split_col, split_val, left, right } => {
            assert_eq!(*split_col, 0);
            assert_eq!(from_fixed(*split_val), 2.5);
            match &**left {
                Node::Leaf { pred_val } => assert_eq!(from_fixed(*pred_val), 1.5),
                other => panic!("left child is {:?}", other),
            }
            match &**right {
                Node::Leaf { pred_val } => assert_eq!(from_fixed(*pred_val), 3.5),
                other => panic!("right child is {:?}", other),
            }
        }
        other => panic!("root is {:?}", other),
    }
    let preds: Vec<f64> = tree.predict(&x).unwrap().to_vec().into_iter().map(from_fixed).collect();
    assert_eq!(preds, vec![1.5, 1.5, 3.5, 3.5]);
}

#[test]
fn too_few_rows_give_a_single_leaf() {
    let x = table(&[vec![1.0], vec![2.0], vec![3.0], vec![4.0]]);
    let y = column(&[1.0, 2.0, 3.0, 4.0]);
    for max_depth in [0u8, 1, 5, 255] {
        let mut tree = new_tree(5, max_depth, 1);
        assert_eq!(tree.fit(&x, &y), Ok(()));
        match tree.root.as_ref().unwrap() {
            Node::Leaf { pred_val } => assert_eq!(from_fixed(*pred_val), 2.5),
            other => panic!("root is {:?}", other),
        }
    }
}

#[test]
fn depth_zero_gives_a_single_leaf() {
    let x = table(&[vec![1.0], vec![2.0], vec![3.0], vec![4.0]]);
    let y = column(&[1.0, 2.0, 3.0, 5.0]);
    let mut tree = new_tree(1, 0, 1);
    assert_eq!(tree.fit(&x, &y), Ok(()));
    match tree.root.as_ref().unwrap() {
        Node::Leaf { pred_val } => assert_eq!(*pred_val, 27),
        other => panic!("root is {:?}", other),
    }
}

#[test]
fn equal_targets_still_split_until_a_bound_stops_them() {
    let x = table(&[vec![1.0], vec![2.0], vec![3.0], vec![4.0]]);
    let y = column(&[7.0, 7.0, 7.0, 7.0]);
    let mut tree = new_tree(2, 3, 1);
    assert_eq!(tree.fit(&x, &y), Ok(()));
    let root = tree.root.as_ref().unwrap();
    assert!(!root.is_leaf());
    // {1,2,3,4} parts into {1,2} and {3,4}, and each of those once more
    assert_eq!(height(root), 2);
    let preds = tree.predict(&x).unwrap().to_vec();
    assert_eq!(preds, vec![70, 70, 70, 70]);
}

#[test]
fn a_column_of_equal_entries_ends_in_a_leaf() {
    let x = table(&[vec![5.0], vec![5.0], vec![5.0]]);
    let y = column(&[1.0, 2.0, 6.0]);
    let mut tree = new_tree(1, 4, 1);
    assert_eq!(tree.fit(&x, &y), Ok(()));
    match tree.root.as_ref().unwrap() {
        Node::Leaf { pred_val } => assert_eq!(from_fixed(*pred_val), 3.0),
        other => panic!("root is {:?}", other),
    }
}

#[test]
fn grown_trees_keep_the_rules() {
    let (rows, targets) = sample_rows();
    let cells: Vec<i32> = rows.iter().flatten().cloned().collect();
    let x = Matrix::from_shape_vec(rows.len(), 4, cells).unwrap();
    let y = Vector::from_vec(targets.clone());
    let pairs: Vec<(Vec<i32>, i32)> = rows.iter().cloned().zip(targets.iter().cloned()).collect();
    for (min_samples, max_depth, draw) in [(2usize, 3u8, 2usize), (5, 10, 3), (1, 6, 4), (10, 2, 1)] {
        let mut tree = new_tree(min_samples, max_depth, draw);
        assert_eq!(tree.fit(&x, &y), Ok(()));
        assert_eq!(tree.num_total_cols, Some(4));
        let root = tree.root.as_ref().unwrap();
        assert!(height(root) <= max_depth as usize);
        check_grown(root, &pairs, 0, &tree);
    }
}

#[test]
fn predictions_are_the_means_of_the_rows_that_share_the_leaf() {
    let (rows, targets) = sample_rows();
    let cells: Vec<i32> = rows.iter().flatten().cloned().collect();
    let x = Matrix::from_shape_vec(rows.len(), 4, cells).unwrap();
    let y = Vector::from_vec(targets.clone());
    let mut tree = new_tree(4, 5, 4);
    assert_eq!(tree.fit(&x, &y), Ok(()));
    let preds = tree.predict(&x).unwrap().to_vec();
    let root = tree.root.as_ref().unwrap();
    let path = |row: &Vec<i32>| -> Vec<bool> {
        let mut turns = Vec::new();
        let mut node = root;
        while let Node::Split { split_col, split_val, left, right } = node {
            let go_left = row[*split_col] <= *split_val;
            turns.push(go_left);
            node = if go_left { &**left } else { &**right };
        }
        turns
    };
    for i in 0..rows.len() {
        let here = path(&rows[i]);
        let mut sum: i64 = 0;
        let mut count: i64 = 0;
        for j in 0..rows.len() {
            if path(&rows[j]) == here {
                sum += targets[j] as i64;
                count += 1;
            }
        }
        assert_eq!(preds[i] as i64, sum.div_euclid(count));
    }
}

#[test]
fn refitting_replaces_the_tree() {
    let x = table(&[vec![1.0], vec![2.0], vec![3.0], vec![4.0]]);
    let y = column(&[1.0, 2.0, 3.0, 4.0]);
    let mut tree = new_tree(2, 1, 1);
    assert_eq!(tree.fit(&x, &y), Ok(()));
    let other = column(&[10.0, 10.0, 20.0, 20.0]);
    assert_eq!(tree.fit(&x, &other), Ok(()));
    assert_eq!(tree.predict(&x).unwrap().to_vec(), vec![100, 100, 200, 200]);
}

#[test]
fn fit_refuses_data_without_rows() {
    let x = Matrix::from_shape_vec(0, 2, Vec::new()).unwrap();
    let y = Vector::from_vec(Vec::new());
    let mut tree = new_tree(2, 3, 1);
    assert_eq!(tree.fit(&x, &y), Err(ForestError::InvalidInput));
    assert!(tree.root.is_none());
    assert_eq!(tree.num_total_cols, None);
}

#[test]
fn fit_refuses_data_without_columns() {
    let x = Matrix::from_shape_vec(3, 0, Vec::new()).unwrap();
    let y = column(&[1.0, 2.0, 3.0]);
    let mut tree = new_tree(2, 3, 1);
    assert_eq!(tree.fit(&x, &y), Err(ForestError::InvalidInput));
}

#[test]
fn fit_refuses_targets_that_do_not_match_the_rows() {
    let x = table(&[vec![1.0], vec![2.0], vec![3.0]]);
    let mut tree = new_tree(2, 3, 1);
    assert_eq!(tree.fit(&x, &column(&[1.0, 2.0])), Err(ForestError::InvalidInput));
    assert_eq!(tree.fit(&x, &column(&[1.0, 2.0, 3.0, 4.0])), Err(ForestError::InvalidInput));
    assert!(tree.root.is_none());
}

#[test]
fn fit_refuses_a_draw_of_no_columns_or_too_many() {
    let x = table(&[vec![1.0, 2.0], vec![2.0, 3.0], vec![3.0, 4.0]]);
    let y = column(&[1.0, 2.0, 3.0]);
    assert_eq!(new_tree(2, 3, 0).fit(&x, &y), Err(ForestError::InvalidInput));
    assert_eq!(new_tree(2, 3, 3).fit(&x, &y), Err(ForestError::InvalidInput));
    assert_eq!(new_tree(2, 3, 2).fit(&x, &y), Ok(()));
}

#[test]
fn a_refused_fit_keeps_the_earlier_tree() {
    let x = table(&[vec![1.0], vec![2.0], vec![3.0], vec![4.0]]);
    let y = column(&[1.0, 2.0, 3.0, 4.0]);
    let mut tree = new_tree(2, 1, 1);
    assert_eq!(tree.fit(&x, &y), Ok(()));
    assert_eq!(tree.fit(&x, &column(&[1.0])), Err(ForestError::InvalidInput));
    assert_eq!(tree.predict(&x).unwrap().to_vec(), vec![15, 15, 35, 35]);
}

#[test]
fn check_training_input_reports_the_width() {
    let x = table(&[vec![1.0, 2.0, 3.0], vec![2.0, 3.0, 4.0]]);
    let y = column(&[1.0, 2.0]);
    assert_eq!(check_training_input(&x, &y, 1), Ok(3));
    assert_eq!(check_training_input(&x, &y, 3), Ok(3));
    assert_eq!(check_training_input(&x, &y, 4), Err(ForestError::InvalidInput));
    assert_eq!(check_training_input(&x, &y, 0), Err(ForestError::InvalidInput));
}

#[test]
fn predict_before_fit_is_untrained() {
    let x = table(&[vec![1.0]]);
    let tree = new_tree(2, 3, 1);
    assert!(matches!(tree.predict(&x), Err(ForestError::UntrainedModel)));
    assert_eq!(tree.predict_one_obs(&column(&[1.0])), Err(ForestError::UntrainedModel));
}

#[test]
fn predict_refuses_rows_that_lack_a_tested_column() {
    let tree = DecisionTree {
        root: Some(Node::new_node(1, 5, Node::new_leaf(10), Node::new_leaf(20))),
        min_samples_to_split: 2,
        max_depth: 3,
        num_cols_to_use: 1,
        num_total_cols: Some(2),
    };
    let narrow = Matrix::from_shape_vec(2, 1, vec![1, 2]).unwrap();
    assert!(matches!(tree.predict(&narrow), Err(ForestError::InvalidInput)));
    assert_eq!(tree.predict_one_obs(&Vector::from_vec(vec![1])), Err(ForestError::InvalidInput));
    let wide = Matrix::from_shape_vec(2, 2, vec![0, 5, 0, 6]).unwrap();
    assert_eq!(tree.predict(&wide).unwrap().to_vec(), vec![10, 20]);
}

#[test]
fn predict_of_no_rows_is_empty() {
    let tree = DecisionTree {
        root: Some(Node::new_leaf(3)),
        min_samples_to_split: 2,
        max_depth: 3,
        num_cols_to_use: 1,
        num_total_cols: Some(1),
    };
    let x = Matrix::from_shape_vec(0, 1, Vec::new()).unwrap();
    assert_eq!(tree.predict(&x).unwrap().len(), 0);
}

#[test]
fn predict_one_obs_goes_left_on_equality() {
    let tree = DecisionTree {
        root: Some(Node::new_node(
            0,
            5,
            Node::new_leaf(-1),
            Node::new_node(1, 0, Node::new_leaf(2), Node::new_leaf(3)),
        )),
        min_samples_to_split: 2,
        max_depth: 3,
        num_cols_to_use: 1,
        num_total_cols: Some(2),
    };
    assert_eq!(tree.predict_one_obs(&Vector::from_vec(vec![5, 9])), Ok(-1));
    assert_eq!(tree.predict_one_obs(&Vector::from_vec(vec![4, 9])), Ok(-1));
    assert_eq!(tree.predict_one_obs(&Vector::from_vec(vec![6, 0])), Ok(2));
    assert_eq!(tree.predict_one_obs(&Vector::from_vec(vec![6, 1])), Ok(3));
    // a leaf on the left is reached without looking at column 1
    assert_eq!(tree.predict_one_obs(&Vector::from_vec(vec![5])), Ok(-1));
    assert_eq!(tree.predict_one_obs(&Vector::from_vec(vec![6])), Err(ForestError::InvalidInput));
}

#[test]
fn nodes_know_whether_they_are_leaves() {
    let leaf = Node::new_leaf(4);
    assert!(leaf.is_leaf());
    let split = Node::new_node(0, 1, Node::new_leaf(1), Node::new_leaf(2));
    assert!(!split.is_leaf());
    match split {
        Node::Split { split_col, split_val, left, right } => {
            assert_eq!(split_col, 0);
            assert_eq!(split_val, 1);
            assert!(left.is_leaf());
            assert!(right.is_leaf());
        }
        Node::Leaf { .. } => panic!("a split was built"),
    }
}
