//! Forests of regression trees: many trees grown from the same data, each with its
//! own random draws of columns, whose predictions are averaged.

pub mod growth;
pub mod split;
pub mod tree;

use vstd::prelude::*;
use crate::array_ext::floor_div;
use crate::arrays::{Matrix, Vector};
use crate::error::ForestError;
use crate::forest::tree::{check_training_input, grown, trainable, DecisionTree};

verus! {

/// A forest: the rules that its trees are grown by, and the trees once fitted.
#[derive(Debug)]
pub struct RandomForest {
    pub n_trees: usize,
    pub min_samples_to_split: usize,
    pub max_depth: u8,
    pub num_cols_to_use: usize,
    pub trees: Vec<DecisionTree>,
}

/// The sum of what the trees answer for `row`; a tree without an answer adds 0.
pub open spec fn total_answer(trees: Seq<DecisionTree>, row: Seq<i32>) -> int
    decreases trees.len(),
{
    if trees.len() == 0 {
        0
    } else {
        total_answer(trees.drop_last(), row) + match trees.last().answer(row) {
            Ok(v) => v as int,
            Err(_) => 0,
        }
    }
}

/// The mean of what the trees answer for `row`, rounded down.
pub open spec fn mean_answer(trees: Seq<DecisionTree>, row: Seq<i32>) -> int {
    total_answer(trees, row) / (trees.len() as int)
}

/// There is no tree, or some tree has not been fitted.
pub open spec fn untrained(trees: Seq<DecisionTree>) -> bool {
    trees.len() == 0 || exists|t: int| 0 <= t < trees.len() && (#[trigger] trees[t]).root is None
}

/// Every tree has an answer for every row of `x`.
pub open spec fn all_answered(trees: Seq<DecisionTree>, x: Seq<Seq<i32>>) -> bool {
    forall|t: int, r: int|
        0 <= t < trees.len() && 0 <= r < x.len() ==> (#[trigger] trees[t].answer(x[r])) is Ok
}

/// The sum of the answers of `len` trees lies between `len` times the least and
/// `len` times the greatest `i32`.
pub proof fn lemma_total_answer_bounds(trees: Seq<DecisionTree>, row: Seq<i32>)
    ensures
        trees.len() * (i32::MIN as int) <= total_answer(trees, row) <= trees.len() * (
        i32::MAX as int),
    decreases trees.len(),
{
    if trees.len() > 0 {
        lemma_total_answer_bounds(trees.drop_last(), row);
        assert(trees.len() * (i32::MIN as int) == trees.drop_last().len() * (i32::MIN as int)
            + i32::MIN as int) by (nonlinear_arith)
            requires
                trees.len() == trees.drop_last().len() + 1,
        ;
        assert(trees.len() * (i32::MAX as int) == trees.drop_last().len() * (i32::MAX as int)
            + i32::MAX as int) by (nonlinear_arith)
            requires
                trees.len() == trees.drop_last().len() + 1,
        ;
    } else {
        assert(trees.len() * (i32::MIN as int) == 0 && trees.len() * (i32::MAX as int) == 0)
            by (nonlinear_arith)
            requires
                trees.len() == 0,
        ;
    }
}

/// The mean of the answers of one tree or more is an `i32`.
pub proof fn lemma_mean_answer_is_i32(trees: Seq<DecisionTree>, row: Seq<i32>)
    requires
        trees.len() > 0,
    ensures
        i32::MIN <= mean_answer(trees, row) <= i32::MAX,
{
    lemma_total_answer_bounds(trees, row);
    let n = trees.len() as int;
    let s = total_answer(trees, row);
    assert(i32::MIN <= s / n <= i32::MAX) by (nonlinear_arith)
        requires
            n > 0,
            n * (i32::MIN as int) <= s <= n * (i32::MAX as int),
    ;
}

impl RandomForest {
    /// Grows `n_trees` trees, each from all of `(x, y)` and by the forest's rules, and
    /// keeps them in place of any trees it held. Data that is not `trainable` is
    /// refused and leaves the forest as it was.
    pub fn fit(&mut self, x: &Matrix, y: &Vector) -> (res: Result<(), ForestError>)
        ensures
            res is Ok <==> trainable(x@, y@, old(self).num_cols_to_use as int),
            res is Err ==> res == Err::<(), ForestError>(ForestError::InvalidInput) && *final(self)
                == *old(self),
            res is Ok ==> {
                &&& final(self).n_trees == old(self).n_trees
                &&& final(self).min_samples_to_split == old(self).min_samples_to_split
                &&& final(self).max_depth == old(self).max_depth
                &&& final(self).num_cols_to_use == old(self).num_cols_to_use
                &&& final(self).trees@.len() == old(self).n_trees
                &&& forall|t: int|
                    0 <= t < final(self).trees@.len() ==> fitted_by(
                        old(self).min_samples_to_split,
                        old(self).max_depth,
                        old(self).num_cols_to_use,
                        #[trigger] final(self).trees@[t],
                        x@,
                        y@,
                    )
            },
    {
        if check_training_input(x, y, self.num_cols_to_use).is_err() {
            return Err(ForestError::InvalidInput);
        }
        let mut trees: Vec<DecisionTree> = Vec::new();
        let mut t: usize = 0;
        while t < self.n_trees
            invariant
                t <= self.n_trees,
                *self == *old(self),
                trainable(x@, y@, self.num_cols_to_use as int),
                trees@.len() == t,
                forall|i: int|
                    0 <= i < trees@.len() ==> fitted_by(
                        self.min_samples_to_split,
                        self.max_depth,
                        self.num_cols_to_use,
                        #[trigger] trees@[i],
                        x@,
                        y@,
                    ),
            decreases self.n_trees - t,
        {
            let mut tree = DecisionTree {
                root: None,
                min_samples_to_split: self.min_samples_to_split,
                max_depth: self.max_depth,
                num_cols_to_use: self.num_cols_to_use,
                num_total_cols: None,
            };
            let fitted = tree.fit(x, y);
            assert(fitted is Ok);
            trees.push(tree);
            t += 1;
        }
        self.trees = trees;
        Ok(())
    }

    /// Predicts the target of every row of `x` as the mean, rounded down, of what the
    /// trees predict for it. A forest without trees, or with a tree that has not been
    /// fitted, answers `UntrainedModel`; otherwise a row that some tree cannot answer
    /// makes the whole call `InvalidInput`.
    pub fn predict(&self, x: &Matrix) -> (res: Result<Vector, ForestError>)
        ensures
            untrained(self.trees@) ==> res == Err::<Vector, ForestError>(
                ForestError::UntrainedModel,
            ),
            !untrained(self.trees@) ==> (res is Ok <==> all_answered(self.trees@, x@)),
            !untrained(self.trees@) && res is Err ==> res == Err::<Vector, ForestError>(
                ForestError::InvalidInput,
            ),
            res matches Ok(preds) ==> preds@.len() == x@.len() && forall|r: int|
                0 <= r < x@.len() ==> (#[trigger] preds@[r]) == mean_answer(self.trees@, x@[r]),
    {
        let count: usize = self.trees.len();
        if count == 0 {
            return Err(ForestError::UntrainedModel);
        }
        let mut t: usize = 0;
        while t < count
            invariant
                count == self.trees@.len(),
                t <= count,
                forall|i: int| 0 <= i < t ==> (#[trigger] self.trees@[i]).root is Some,
            decreases count - t,
        {
            if self.trees[t].root.is_none() {
                return Err(ForestError::UntrainedModel);
            }
            t += 1;
        }
        let rows: usize = x.nrows();
        let mut sums: Vec<i128> = Vec::new();
        let mut r: usize = 0;
        while r < rows
            invariant
                r <= rows,
                sums@.len() == r,
                forall|i: int| 0 <= i < r ==> (#[trigger] sums@[i]) == 0,
            decreases rows - r,
        {
            sums.push(0);
            r += 1;
        }
        t = 0;
        while t < count
            invariant
                count == self.trees@.len(),
                rows == x@.len(),
                t <= count,
                !untrained(self.trees@),
                sums@.len() == rows,
                all_answered(self.trees@.take(t as int), x@),
                forall|i: int|
                    0 <= i < rows ==> (#[trigger] sums@[i]) == total_answer(
                        self.trees@.take(t as int),
                        x@[i],
                    ),
            decreases count - t,
        {
            let ghost before = self.trees@.take(t as int);
            let ghost after = self.trees@.take(t + 1);
            proof {
                assert(after.drop_last() =~= before);
                assert(after.last() == self.trees@[t as int]);
            }
            match self.trees[t].predict(x) {
                Err(_) => {
                    proof {
                        let bad = choose|bad: int|
                            0 <= bad < x@.len() && !(self.trees@[t as int].answer(
                                #[trigger] x@[bad],
                            ) is Ok);
                        assert(!(self.trees@[t as int].answer(x@[bad]) is Ok));
                    }
                    return Err(ForestError::InvalidInput);
                },
                Ok(preds) => {
                    r = 0;
                    while r < rows
                        invariant
                            rows == x@.len(),
                            r <= rows,
                            sums@.len() == rows,
                            preds@.len() == rows,
                            t < count,
                            count == self.trees@.len(),
                            before.len() == t,
                            after.len() == t + 1,
                            after.drop_last() == before,
                            after.last() == self.trees@[t as int],
                            forall|i: int|
                                0 <= i < rows ==> self.trees@[t as int].answer(#[trigger] x@[i])
                                    == Ok::<i32, ForestError>(preds@[i]),
                            forall|i: int|
                                0 <= i < r ==> (#[trigger] sums@[i]) == total_answer(after, x@[i]),
                            forall|i: int|
                                r <= i < rows ==> (#[trigger] sums@[i]) == total_answer(
                                    before,
                                    x@[i],
                                ),
                        decreases rows - r,
                    {
                        proof {
                            lemma_total_answer_bounds(before, x@[r as int]);
                        }
                        let s: i128 = sums[r] + preds.at(r) as i128;
                        sums.set(r, s);
                        r += 1;
                    }
                    proof {
                        assert forall|i: int, j: int|
                            0 <= i < after.len() && 0 <= j < x@.len() implies (
                        #[trigger] after[i].answer(x@[j])) is Ok by {
                            if i < t {
                                assert(after[i] == before[i]);
                            }
                        }
                    }
                },
            }
            t += 1;
        }
        proof {
            assert(self.trees@.take(count as int) =~= self.trees@);
        }
        let mut out: Vec<i32> = Vec::new();
        r = 0;
        while r < rows
            invariant
                count == self.trees@.len(),
                count > 0,
                rows == x@.len(),
                r <= rows,
                sums@.len() == rows,
                out@.len() == r,
                forall|i: int|
                    0 <= i < rows ==> (#[trigger] sums@[i]) == total_answer(self.trees@, x@[i]),
                forall|i: int|
                    0 <= i < r ==> (#[trigger] out@[i]) == mean_answer(self.trees@, x@[i]),
            decreases rows - r,
        {
            proof {
                lemma_total_answer_bounds(self.trees@, x@[r as int]);
                lemma_mean_answer_is_i32(self.trees@, x@[r as int]);
            }
            let m: i128 = floor_div(sums[r], count);
            out.push(m as i32);
            r += 1;
        }
        Ok(Vector::from_vec(out))
    }
}

/// `tree` carries the given rules and has been grown by them from all of `(x, y)`.
pub open spec fn fitted_by(
    min_samples_to_split: usize,
    max_depth: u8,
    num_cols_to_use: usize,
    tree: DecisionTree,
    x: Seq<Seq<i32>>,
    y: Seq<i32>,
) -> bool {
    &&& tree.min_samples_to_split == min_samples_to_split
    &&& tree.max_depth == max_depth
    &&& tree.num_cols_to_use == num_cols_to_use
    &&& tree.num_total_cols == Some(x[0].len() as usize)
    &&& tree.root is Some
    &&& grown(tree.rules(), tree.root.unwrap(), x, y, 0)
    &&& tree.root.unwrap().columns_below(x[0].len() as int)
    &&& tree.root.unwrap().height() <= max_depth
}

} // verus!
