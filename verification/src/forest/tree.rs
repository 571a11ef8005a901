//! One regression tree: its nodes, how it is grown and how it predicts.

use vstd::prelude::*;
use crate::array_ext::{mean, mean_of, MAX_ROWS};
use crate::arrays::{rectangular, Matrix, Vector};
use crate::error::ForestError;
use crate::forest::split::{
    best_candidate,
    best_split,
    has_column,
    has_columns,
    lemma_best_candidate,
    lemma_side_picks_in_range,
    side_rows,
    side_targets,
    threshold_of,
    SplitResult,
};
use crate::sampling::{draw_columns, is_draw};

verus! {

/// A node of a regression tree: a leaf with the value it predicts, or a split with
/// the column and threshold it tests and the two subtrees it sends rows to.
#[derive(Debug)]
pub enum Node {
    Leaf { pred_val: i32 },
    Split { split_col: usize, split_val: i32, left: Box<Node>, right: Box<Node> },
}

impl Node {
    /// The number of edges on the longest way from this node down to a leaf.
    pub open spec fn height(self) -> nat
        decreases self,
    {
        match self {
            Node::Leaf { .. } => 0,
            Node::Split { left, right, .. } => {
                let l = left.height();
                let r = right.height();
                1 + if l >= r {
                    l
                } else {
                    r
                }
            },
        }
    }

    /// The value of the leaf that `row` comes to when, at every split, it goes left
    /// if its entry in the split's column is at most the threshold and right
    /// otherwise. There is none if `row` lacks a column that a split on its way
    /// tests.
    pub open spec fn route(self, row: Seq<i32>) -> Option<i32>
        decreases self,
    {
        match self {
            Node::Leaf { pred_val } => Some(pred_val),
            Node::Split { split_col, split_val, left, right } => if split_col < row.len() {
                if row[split_col as int] <= split_val {
                    left.route(row)
                } else {
                    right.route(row)
                }
            } else {
                None
            },
        }
    }

    /// Every split in this subtree tests a column below `width`.
    pub open spec fn columns_below(self, width: int) -> bool
        decreases self,
    {
        match self {
            Node::Leaf { .. } => true,
            Node::Split { split_col, left, right, .. } => split_col < width && left.columns_below(
                width,
            ) && right.columns_below(width),
        }
    }

    /// A split on `split_col` at `split_val` above the subtrees `left` and `right`.
    pub fn new_node(split_col: usize, split_val: i32, left: Node, right: Node) -> (node: Node)
        ensures
            node == (Node::Split { split_col, split_val, left: Box::new(left), right: Box::new(right) }),
    {
        Node::Split { split_col, split_val, left: Box::new(left), right: Box::new(right) }
    }

    /// A leaf that predicts `pred_val`.
    pub fn new_leaf(pred_val: i32) -> (node: Node)
        ensures
            node == (Node::Leaf { pred_val }),
    {
        Node::Leaf { pred_val }
    }

    /// Whether this node is a leaf.
    pub fn is_leaf(&self) -> (leaf: bool)
        ensures
            leaf == (*self is Leaf),
    {
        match self {
            Node::Leaf { .. } => true,
            Node::Split { .. } => false,
        }
    }
}

/// A row wide enough for every split of a tree comes to a leaf.
pub proof fn lemma_wide_rows_reach_a_leaf(node: Node, width: int, row: Seq<i32>)
    requires
        node.columns_below(width),
        row.len() >= width,
    ensures
        node.route(row) is Some,
    decreases node,
{
    match node {
        Node::Leaf { .. } => {},
        Node::Split { left, right, .. } => {
            lemma_wide_rows_reach_a_leaf(*left, width, row);
            lemma_wide_rows_reach_a_leaf(*right, width, row);
        },
    }
}

/// A regression tree with the rules it is grown by. `root` is `None` until the tree
/// has been fitted; `num_total_cols` then holds the number of feature columns.
#[derive(Debug)]
pub struct DecisionTree {
    pub root: Option<Node>,
    pub min_samples_to_split: usize,
    pub max_depth: u8,
    pub num_cols_to_use: usize,
    pub num_total_cols: Option<usize>,
}

/// The rules that a tree is grown by, with the number of feature columns of the
/// data it is grown from.
pub struct Rules {
    pub min_samples_to_split: usize,
    pub max_depth: u8,
    pub num_cols_to_use: usize,
    pub num_total_cols: usize,
}

/// Some draw of `num_cols_to_use` columns holds no column that splits `(x, y)`.
pub open spec fn may_find_none(rules: Rules, x: Seq<Seq<i32>>, y: Seq<i32>) -> bool {
    exists|cols: Seq<usize>|
        #[trigger] is_draw(cols, rules.num_cols_to_use as int, rules.num_total_cols as int)
            && best_candidate(x, y, cols) is None
}

/// Some draw of `num_cols_to_use` columns has column `c` as the best to split
/// `(x, y)` on.
pub open spec fn may_choose(rules: Rules, x: Seq<Seq<i32>>, y: Seq<i32>, c: int) -> bool {
    exists|cols: Seq<usize>|
        #[trigger] is_draw(cols, rules.num_cols_to_use as int, rules.num_total_cols as int) && (
        best_candidate(x, y, cols) matches Some(i) && cols[i] == c)
}

/// `node` is a subtree that `rules` can grow at `depth` from the rows `x` with
/// targets `y`.
///
/// A leaf predicts the mean of `y`, and stands only where the rows are fewer than
/// `min_samples_to_split`, the depth is `max_depth`, or a draw of columns can come
/// up without a split. A split stands only where neither bound stops the growth;
/// its column is the best of some draw, its threshold is the mean of that column,
/// and its subtrees are grown one level down from the rows that go left and from
/// those that go right.
pub open spec fn grown(rules: Rules, node: Node, x: Seq<Seq<i32>>, y: Seq<i32>, depth: int) -> bool
    decreases node,
{
    match node {
        Node::Leaf { pred_val } => {
            &&& pred_val == mean(y)
            &&& (y.len() < rules.min_samples_to_split || depth == rules.max_depth
                || may_find_none(rules, x, y))
        },
        Node::Split { split_col, split_val, left, right } => {
            &&& y.len() >= rules.min_samples_to_split
            &&& depth < rules.max_depth
            &&& may_choose(rules, x, y, split_col as int)
            &&& split_val == threshold_of(x, split_col as int)
            &&& grown(
                rules,
                *left,
                side_rows(x, split_col as int, split_val as int, true),
                side_targets(x, y, split_col as int, split_val as int, true),
                depth + 1,
            )
            &&& grown(
                rules,
                *right,
                side_rows(x, split_col as int, split_val as int, false),
                side_targets(x, y, split_col as int, split_val as int, false),
                depth + 1,
            )
        },
    }
}

/// A data set that a tree can be fitted to: between one and `MAX_ROWS` rows, one
/// target for each row, and at least `draw` columns, where `draw` is positive.
pub open spec fn trainable(x: Seq<Seq<i32>>, y: Seq<i32>, draw: int) -> bool {
    &&& 0 < x.len() <= MAX_ROWS
    &&& y.len() == x.len()
    &&& 0 < draw <= x[0].len()
}

/// Checks that a tree can be fitted to `(x, y)` with `draw` columns looked at for
/// each split, and returns the number of columns of `x` if so.
pub fn check_training_input(x: &Matrix, y: &Vector, draw: usize) -> (res: Result<usize, ForestError>)
    ensures
        res is Ok <==> trainable(x@, y@, draw as int),
        res is Err ==> res == Err::<usize, ForestError>(ForestError::InvalidInput),
        res matches Ok(width) ==> width == x@[0].len() && rectangular(x@, width as int),
{
    let rows: usize = x.nrows();
    let cols: usize = x.ncols();
    if rows == 0 || rows > MAX_ROWS || y.len() != rows || draw == 0 || draw > cols {
        Err(ForestError::InvalidInput)
    } else {
        Ok(cols)
    }
}

impl DecisionTree {
    /// The number of feature columns that the tree was fitted to; 0 before that.
    pub open spec fn width(self) -> int {
        match self.num_total_cols {
            Some(w) => w as int,
            None => 0,
        }
    }

    /// The rules of this tree, with the width it was fitted to.
    pub open spec fn rules(self) -> Rules {
        Rules {
            min_samples_to_split: self.min_samples_to_split,
            max_depth: self.max_depth,
            num_cols_to_use: self.num_cols_to_use,
            num_total_cols: self.width() as usize,
        }
    }

    /// What the tree answers for `row`: the value of the leaf that the row comes to.
    /// An unfitted tree answers `UntrainedModel`, and a row that lacks a column which
    /// a split on its way tests is `InvalidInput`.
    pub open spec fn answer(self, row: Seq<i32>) -> Result<i32, ForestError> {
        match self.root {
            None => Err(ForestError::UntrainedModel),
            Some(root) => match root.route(row) {
                Some(v) => Ok(v),
                None => Err(ForestError::InvalidInput),
            },
        }
    }

    /// Draws the columns that one split search looks at.
    fn pick_cols(&self) -> (cols: Vec<usize>)
        requires
            self.num_cols_to_use <= self.width(),
        ensures
            is_draw(cols@, self.num_cols_to_use as int, self.width()),
    {
        match self.num_total_cols {
            Some(total) => draw_columns(total, self.num_cols_to_use),
            None => Vec::new(),
        }
    }

    /// Searches a fresh draw of columns for the best split of `(x, y)`.
    fn find_best_split(&self, x: &Matrix, y: &Vector) -> (res: Option<SplitResult>)
        requires
            self.num_cols_to_use <= self.width(),
            y@.len() == x@.len(),
            x@.len() <= MAX_ROWS,
            rectangular(x@, self.width()),
        ensures
            res is None ==> may_find_none(self.rules(), x@, y@),
            res matches Some(sr) ==> may_choose(self.rules(), x@, y@, sr.col as int) && sr.splits(
                x@,
                y@,
                sr.col as int,
                threshold_of(x@, sr.col as int),
            ) && sr.col < self.width(),
    {
        let cols = self.pick_cols();
        assert(has_columns(x@, cols@)) by {
            assert forall|k: int| 0 <= k < cols@.len() implies has_column(
                x@,
                #[trigger] cols@[k] as int,
            ) by {}
        }
        let res = best_split(x, y, &cols);
        proof {
            lemma_best_candidate(x@, y@, cols@);
            assert(is_draw(
                cols@,
                self.rules().num_cols_to_use as int,
                self.rules().num_total_cols as int,
            ));
        }
        res
    }

    /// Grows the subtree for the rows `x` with targets `y` at `depth`.
    fn build_tree(&self, x: &Matrix, y: &Vector, depth: u8) -> (node: Node)
        requires
            self.num_cols_to_use <= self.width(),
            y@.len() == x@.len(),
            x@.len() <= MAX_ROWS,
            rectangular(x@, self.width()),
            depth <= self.max_depth,
        ensures
            grown(self.rules(), node, x@, y@, depth as int),
            node.columns_below(self.width()),
            depth + node.height() <= self.max_depth,
        decreases self.max_depth - depth,
    {
        if x.nrows() < self.min_samples_to_split || depth == self.max_depth {
            Node::new_leaf(mean_of(y))
        } else {
            match self.find_best_split(x, y) {
                None => Node::new_leaf(mean_of(y)),
                Some(bs) => {
                    proof {
                        let c = bs.col as int;
                        let t = bs.split_val as int;
                        lemma_side_picks_in_range(x@, c, t, true);
                        lemma_side_picks_in_range(x@, c, t, false);
                    }
                    let left = self.build_tree(&bs.x_left, &bs.y_left, depth + 1);
                    let right = self.build_tree(&bs.x_right, &bs.y_right, depth + 1);
                    Node::new_node(bs.col, bs.split_val, left, right)
                },
            }
        }
    }

    /// Fits the tree to the rows `x` with targets `y`, replacing any earlier fit.
    /// Data that is not `trainable` is refused and leaves the tree as it was.
    pub fn fit(&mut self, x: &Matrix, y: &Vector) -> (res: Result<(), ForestError>)
        ensures
            res is Ok <==> trainable(x@, y@, old(self).num_cols_to_use as int),
            res is Err ==> res == Err::<(), ForestError>(ForestError::InvalidInput) && *final(self)
                == *old(self),
            res is Ok ==> {
                &&& final(self).min_samples_to_split == old(self).min_samples_to_split
                &&& final(self).max_depth == old(self).max_depth
                &&& final(self).num_cols_to_use == old(self).num_cols_to_use
                &&& final(self).num_total_cols == Some(x@[0].len() as usize)
                &&& final(self).root is Some
                &&& grown(final(self).rules(), final(self).root.unwrap(), x@, y@, 0)
                &&& final(self).root.unwrap().columns_below(x@[0].len() as int)
                &&& final(self).root.unwrap().height() <= old(self).max_depth
            },
    {
        match check_training_input(x, y, self.num_cols_to_use) {
            Err(e) => Err(e),
            Ok(cols) => {
                self.num_total_cols = Some(cols);
                let root = self.build_tree(x, y, 0);
                self.root = Some(root);
                Ok(())
            },
        }
    }

    /// Predicts the target of one observation.
    pub fn predict_one_obs(&self, row: &Vector) -> (res: Result<i32, ForestError>)
        ensures
            res == self.answer(row@),
    {
        match &self.root {
            None => Err(ForestError::UntrainedModel),
            Some(root) => {
                let width: usize = row.len();
                let mut current: &Node = root;
                loop
                    invariant
                        width == row@.len(),
                        self.root == Some(*root),
                        current.route(row@) == root.route(row@),
                    decreases current,
                {
                    match current {
                        Node::Leaf { pred_val } => {
                            return Ok(*pred_val);
                        },
                        Node::Split { split_col, split_val, left, right } => {
                            if *split_col >= width {
                                return Err(ForestError::InvalidInput);
                            }
                            if row.at(*split_col) <= *split_val {
                                current = &**left;
                            } else {
                                current = &**right;
                            }
                        },
                    }
                }
            },
        }
    }

    /// Predicts the target of every row of `x`. An unfitted tree answers
    /// `UntrainedModel`; otherwise a row that cannot be answered makes the whole call
    /// `InvalidInput`.
    pub fn predict(&self, x: &Matrix) -> (res: Result<Vector, ForestError>)
        ensures
            self.root is None ==> res == Err::<Vector, ForestError>(ForestError::UntrainedModel),
            self.root is Some ==> (res is Ok <==> forall|r: int|
                0 <= r < x@.len() ==> self.answer(#[trigger] x@[r]) is Ok),
            self.root is Some && res is Err ==> res == Err::<Vector, ForestError>(
                ForestError::InvalidInput,
            ),
            res matches Ok(preds) ==> preds@.len() == x@.len() && forall|r: int|
                0 <= r < x@.len() ==> self.answer(#[trigger] x@[r]) == Ok::<i32, ForestError>(
                    preds@[r],
                ),
    {
        if self.root.is_none() {
            return Err(ForestError::UntrainedModel);
        }
        let rows: usize = x.nrows();
        let mut preds: Vec<i32> = Vec::new();
        let mut r: usize = 0;
        while r < rows
            invariant
                rows == x@.len(),
                r <= rows,
                self.root is Some,
                preds@.len() == r,
                forall|i: int|
                    0 <= i < r ==> self.answer(#[trigger] x@[i]) == Ok::<i32, ForestError>(
                        preds@[i],
                    ),
            decreases rows - r,
        {
            match self.predict_one_obs(&x.row(r)) {
                Ok(value) => {
                    preds.push(value);
                },
                Err(_) => {
                    return Err(ForestError::InvalidInput);
                },
            }
            r += 1;
        }
        Ok(Vector::from_vec(preds))
    }
}

} // verus!
