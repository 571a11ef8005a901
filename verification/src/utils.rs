//! Cutting a table of observations into the parts that training and testing use.

use vstd::prelude::*;
use crate::arrays::{pick_items, pick_rows, rectangular, Matrix, Vector};

verus! {

/// The indices `from..to` in rising order.
pub open spec fn span(from: int, to: int) -> Seq<usize> {
    Seq::new((to - from) as nat, |k: int| (from + k) as usize)
}

/// The indices `from..to` in rising order.
pub fn span_of(from: usize, to: usize) -> (picks: Vec<usize>)
    requires
        from <= to,
    ensures
        picks@ == span(from as int, to as int),
{
    let mut picks: Vec<usize> = Vec::new();
    let mut i: usize = from;
    while i < to
        invariant
            from <= i <= to,
            picks@ == span(from as int, i as int),
        decreases to - i,
    {
        picks.push(i);
        assert(picks@ =~= span(from as int, i + 1));
        i += 1;
    }
    picks
}

/// Parts a table into its features and its targets: the last column holds the
/// targets, the columns before it the features. A table without rows and without
/// columns gives a table without rows and no targets.
pub fn x_y_split(data: &Matrix) -> (parts: (Matrix, Vector))
    requires
        data@.len() > 0 ==> data.width() > 0,
    ensures
        parts.0@.len() == data@.len(),
        parts.1@.len() == data@.len(),
        forall|r: int|
            0 <= r < data@.len() ==> (#[trigger] parts.0@[r]) == data@[r].drop_last()
                && parts.1@[r] == data@[r].last(),
{
    let rows: usize = data.nrows();
    let cols: usize = data.ncols();
    if cols == 0 {
        return (data.select_cols(&Vec::new()), Vector::from_vec(Vec::new()));
    }
    let target_col: usize = cols - 1;
    let features = span_of(0, target_col);
    let x = data.select_cols(&features);
    let mut targets: Vec<i32> = Vec::new();
    let mut r: usize = 0;
    while r < rows
        invariant
            rows == data@.len(),
            r <= rows,
            target_col + 1 == data.width(),
            rectangular(data@, data.width() as int),
            targets@.len() == r,
            forall|i: int| 0 <= i < r ==> (#[trigger] targets@[i]) == data@[i].last(),
        decreases rows - r,
    {
        targets.push(data.at(r, target_col));
        r += 1;
    }
    proof {
        assert forall|i: int| 0 <= i < data@.len() implies (#[trigger] x@[i])
            == data@[i].drop_last() by {
            assert(x@[i] == pick_items(data@[i], features@));
            assert(x@[i] =~= data@[i].drop_last());
        }
    }
    (x, Vector::from_vec(targets))
}

/// Parts a table into its first `train_rows` rows, for training, and the rows after
/// them, for testing.
pub fn train_test_split(data: &Matrix, train_rows: usize) -> (parts: (Matrix, Matrix))
    requires
        train_rows <= data@.len(),
    ensures
        parts.0@ == data@.take(train_rows as int),
        parts.1@ == data@.skip(train_rows as int),
        parts.0.width() == data.width(),
        parts.1.width() == data.width(),
{
    let rows: usize = data.nrows();
    let head = span_of(0, train_rows);
    let tail = span_of(train_rows, rows);
    let train = data.select_rows(&head);
    let test = data.select_rows(&tail);
    proof {
        assert(pick_rows(data@, head@) =~= data@.take(train_rows as int));
        assert(pick_rows(data@, tail@) =~= data@.skip(train_rows as int));
    }
    (train, test)
}

} // verus!
