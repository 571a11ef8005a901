//! The search for the split of a data set that reduces the variance of the targets
//! the most.

use vstd::prelude::*;
use crate::array_ext::{
    floor_div,
    lemma_mean_is_i32,
    lemma_sum_bounds,
    lemma_variance_bound,
    mean,
    sample_variance,
    sum,
    ArrayExt,
    MAX_ROWS,
};
use crate::arrays::{pick_items, pick_rows, picks_below, Matrix, Vector};

verus! {

/// Column `c` of a table, top to bottom.
pub open spec fn column(x: Seq<Seq<i32>>, c: int) -> Seq<i32> {
    Seq::new(x.len(), |r: int| x[r][c])
}

/// Every row of the table has a column `c`.
pub open spec fn has_column(x: Seq<Seq<i32>>, c: int) -> bool {
    forall|r: int| 0 <= r < x.len() ==> 0 <= c < (#[trigger] x[r]).len()
}

/// A row goes left when its entry in column `c` is at most the threshold, and right
/// otherwise.
pub open spec fn goes_left(row: Seq<i32>, c: int, threshold: int) -> bool {
    row[c] <= threshold
}

/// The indices of the rows of `x` that go to one side of a split, in rising order:
/// the left side when `left` holds, the right side otherwise.
pub open spec fn side_picks(x: Seq<Seq<i32>>, c: int, threshold: int, left: bool) -> Seq<usize>
    decreases x.len(),
{
    if x.len() == 0 {
        Seq::empty()
    } else {
        let rest = side_picks(x.drop_last(), c, threshold, left);
        if goes_left(x.last(), c, threshold) == left {
            rest.push((x.len() - 1) as usize)
        } else {
            rest
        }
    }
}

/// The rows of `x` that go to one side of a split.
pub open spec fn side_rows(x: Seq<Seq<i32>>, c: int, threshold: int, left: bool) -> Seq<
    Seq<i32>,
> {
    pick_rows(x, side_picks(x, c, threshold, left))
}

/// The targets of the rows of `x` that go to one side of a split.
pub open spec fn side_targets(
    x: Seq<Seq<i32>>,
    y: Seq<i32>,
    c: int,
    threshold: int,
    left: bool,
) -> Seq<i32> {
    pick_items(y, side_picks(x, c, threshold, left))
}

/// How much a split lowers the variance: the parent's variance less the children's
/// variances weighted by their sizes, that weighted sum divided by the parent's size
/// and rounded down.
pub open spec fn variance_reduction(
    parent_len: int,
    parent_var: int,
    child_a: Seq<i32>,
    child_b: Seq<i32>,
) -> int {
    parent_var - (child_a.len() * sample_variance(child_a) + child_b.len() * sample_variance(
        child_b,
    )) / parent_len
}

/// One split of a data set: the column and threshold, and the two parts.
pub struct SplitResult {
    pub col: usize,
    pub split_val: i32,
    pub x_left: Matrix,
    pub y_left: Vector,
    pub x_right: Matrix,
    pub y_right: Vector,
}

impl SplitResult {
    /// This is the split of `(x, y)` on column `c` at `threshold`.
    pub open spec fn splits(self, x: Seq<Seq<i32>>, y: Seq<i32>, c: int, threshold: int) -> bool {
        &&& self.col == c
        &&& self.split_val == threshold
        &&& self.x_left@ == side_rows(x, c, threshold, true)
        &&& self.y_left@ == side_targets(x, y, c, threshold, true)
        &&& self.x_right@ == side_rows(x, c, threshold, false)
        &&& self.y_right@ == side_targets(x, y, c, threshold, false)
    }
}

/// The picks of one side are as many as the rows at most, and each names a row.
pub proof fn lemma_side_picks_in_range(x: Seq<Seq<i32>>, c: int, threshold: int, left: bool)
    requires
        x.len() <= usize::MAX,
    ensures
        side_picks(x, c, threshold, left).len() <= x.len(),
        picks_below(side_picks(x, c, threshold, left), x.len() as int),
    decreases x.len(),
{
    if x.len() > 0 {
        lemma_side_picks_in_range(x.drop_last(), c, threshold, left);
    }
}

/// The picks of one side name, in rising order and each once, exactly the rows
/// that go to that side.
pub proof fn lemma_side_picks_exact(x: Seq<Seq<i32>>, c: int, threshold: int, left: bool)
    requires
        x.len() <= usize::MAX,
    ensures
        forall|a: int, b: int|
            0 <= a < b < side_picks(x, c, threshold, left).len() ==> side_picks(
                x,
                c,
                threshold,
                left,
            )[a] < side_picks(x, c, threshold, left)[b],
        forall|k: int|
            0 <= k < side_picks(x, c, threshold, left).len() ==> {
                let i = #[trigger] side_picks(x, c, threshold, left)[k];
                i < x.len() && goes_left(x[i as int], c, threshold) == left
            },
        forall|i: int|
            0 <= i < x.len() && goes_left(#[trigger] x[i], c, threshold) == left ==> side_picks(
                x,
                c,
                threshold,
                left,
            ).contains(i as usize),
    decreases x.len(),
{
    if x.len() > 0 {
        let init = x.drop_last();
        let n = x.len() as int;
        let rest = side_picks(init, c, threshold, left);
        let picks = side_picks(x, c, threshold, left);
        lemma_side_picks_exact(init, c, threshold, left);
        lemma_side_picks_in_range(init, c, threshold, left);
        assert(x.last() == x[n - 1]);
        assert forall|k: int| 0 <= k < picks.len() implies {
            let i = #[trigger] picks[k];
            i < x.len() && goes_left(x[i as int], c, threshold) == left
        } by {
            if k < rest.len() {
                assert(picks[k] == rest[k]);
                assert(init[rest[k] as int] == x[rest[k] as int]);
            }
        }
        assert forall|i: int|
            0 <= i < x.len() && goes_left(#[trigger] x[i], c, threshold) == left implies picks.contains(
            i as usize,
        ) by {
            if i < n - 1 {
                assert(init[i] == x[i]);
                assert(rest.contains(i as usize));
                let k = choose|k: int| 0 <= k < rest.len() && rest[k] == i as usize;
                assert(picks[k] == i as usize);
            } else {
                assert(picks[picks.len() - 1] == i as usize);
            }
        }
    }
}

/// A split sends every row to one side and to one side only: the two sides have as
/// many rows together as the table, and a row is picked for the left side exactly
/// when its entry is at most the threshold, for the right side exactly when it is
/// not.
pub proof fn lemma_split_parts(x: Seq<Seq<i32>>, c: int, threshold: int)
    requires
        x.len() <= usize::MAX,
    ensures
        side_picks(x, c, threshold, true).len() + side_picks(x, c, threshold, false).len()
            == x.len(),
        forall|i: int|
            0 <= i < x.len() ==> (side_picks(x, c, threshold, true).contains(i as usize) <==> (
            #[trigger] x[i])[c] <= threshold),
        forall|i: int|
            0 <= i < x.len() ==> (side_picks(x, c, threshold, false).contains(i as usize) <==> (
            #[trigger] x[i])[c] > threshold),
    decreases x.len(),
{
    lemma_side_picks_exact(x, c, threshold, true);
    lemma_side_picks_exact(x, c, threshold, false);
    let l = side_picks(x, c, threshold, true);
    let r = side_picks(x, c, threshold, false);
    assert forall|i: int| 0 <= i < x.len() implies (l.contains(i as usize) <==> (#[trigger] x[i])[c]
        <= threshold) by {
        if l.contains(i as usize) {
            let k = choose|k: int| 0 <= k < l.len() && l[k] == i as usize;
            assert(goes_left(x[l[k] as int], c, threshold));
        }
    }
    assert forall|i: int| 0 <= i < x.len() implies (r.contains(i as usize) <==> (#[trigger] x[i])[c]
        > threshold) by {
        if r.contains(i as usize) {
            let k = choose|k: int| 0 <= k < r.len() && r[k] == i as usize;
            assert(!goes_left(x[r[k] as int], c, threshold));
        }
    }
    if x.len() > 0 {
        lemma_split_parts(x.drop_last(), c, threshold);
    }
}

/// Extending a table by one row extends the picks of the side that the row goes to.
proof fn lemma_side_picks_step(x: Seq<Seq<i32>>, i: int, c: int, threshold: int, left: bool)
    requires
        0 <= i < x.len(),
    ensures
        side_picks(x.take(i + 1), c, threshold, left) == if goes_left(x[i], c, threshold)
            == left {
            side_picks(x.take(i), c, threshold, left).push(i as usize)
        } else {
            side_picks(x.take(i), c, threshold, left)
        },
{
    assert(x.take(i + 1).drop_last() =~= x.take(i));
    assert(x.take(i + 1).last() == x[i]);
}

/// Splits the rows of `x`, and the targets `y` with them, on column `split_col` at
/// `split_val`: rows whose entry is at most `split_val` go left, the others right,
/// each side keeping the order of the rows. No split is returned when one side
/// would be empty.
pub fn make_split(x: &Matrix, y: &Vector, split_col: &usize, split_val: i32) -> (res: Option<
    SplitResult,
>)
    requires
        y@.len() == x@.len(),
        has_column(x@, *split_col as int),
    ensures
        res is None <==> (side_picks(x@, *split_col as int, split_val as int, true).len() == 0
            || side_picks(x@, *split_col as int, split_val as int, false).len() == 0),
        res matches Some(sr) ==> sr.splits(x@, y@, *split_col as int, split_val as int),
{
    let c: usize = *split_col;
    let rows: usize = x.nrows();
    let mut left: Vec<usize> = Vec::new();
    let mut right: Vec<usize> = Vec::new();
    let mut r: usize = 0;
    while r < rows
        invariant
            rows == x@.len(),
            r <= rows,
            has_column(x@, c as int),
            left@ == side_picks(x@.take(r as int), c as int, split_val as int, true),
            right@ == side_picks(x@.take(r as int), c as int, split_val as int, false),
        decreases rows - r,
    {
        proof {
            lemma_side_picks_step(x@, r as int, c as int, split_val as int, true);
            lemma_side_picks_step(x@, r as int, c as int, split_val as int, false);
        }
        if x.at(r, c) <= split_val {
            left.push(r);
        } else {
            right.push(r);
        }
        r += 1;
    }
    proof {
        assert(x@.take(rows as int) =~= x@);
        lemma_side_picks_in_range(x@, c as int, split_val as int, true);
        lemma_side_picks_in_range(x@, c as int, split_val as int, false);
    }
    if left.len() == 0 || right.len() == 0 {
        None
    } else {
        Some(
            SplitResult {
                col: c,
                split_val,
                x_left: x.select_rows(&left),
                y_left: y.select(&left),
                x_right: x.select_rows(&right),
                y_right: y.select(&right),
            },
        )
    }
}

/// The variance reduction of a split into `child_a` and `child_b`, for a parent of
/// `parent_len` rows whose targets have variance `parent_var`.
pub fn var_reduction(parent_len: usize, parent_var: u64, child_a: &Vector, child_b: &Vector) -> (gain:
    i128)
    requires
        parent_len > 0,
        child_a@.len() <= MAX_ROWS,
        child_b@.len() <= MAX_ROWS,
    ensures
        gain == variance_reduction(parent_len as int, parent_var as int, child_a@, child_b@),
{
    let len_a: i128 = child_a.len() as i128;
    let len_b: i128 = child_b.len() as i128;
    let var_a: i128 = child_a.sample_var() as i128;
    let var_b: i128 = child_b.sample_var() as i128;
    proof {
        lemma_variance_bound(child_a@);
        lemma_variance_bound(child_b@);
        assert(0 <= len_a * var_a <= 0x8000_0000_0000_0000_0000_0000) by (nonlinear_arith)
            requires
                0 <= len_a <= 0xFFFF_FFFF,
                0 <= var_a <= 0x8000_0000_0000_0000,
        ;
        assert(0 <= len_b * var_b <= 0x8000_0000_0000_0000_0000_0000) by (nonlinear_arith)
            requires
                0 <= len_b <= 0xFFFF_FFFF,
                0 <= var_b <= 0x8000_0000_0000_0000,
        ;
    }
    let weighted: i128 = len_a * var_a + len_b * var_b;
    let child_var: i128 = floor_div(weighted, parent_len);
    proof {
        assert(0 <= child_var <= weighted) by (nonlinear_arith)
            requires
                child_var == (weighted as int) / (parent_len as int),
                parent_len > 0,
                weighted >= 0,
        ;
    }
    parent_var as i128 - child_var
}

/// The mean of column `col_num` of `x`, rounded down; 0 for a table without rows.
pub fn get_col_mean(x: &Matrix, col_num: &usize) -> (m: i32)
    requires
        has_column(x@, *col_num as int),
    ensures
        m == mean(column(x@, *col_num as int)),
{
    let c: usize = *col_num;
    let rows: usize = x.nrows();
    if rows == 0 {
        return 0;
    }
    let ghost col = column(x@, c as int);
    let mut s: i128 = 0;
    let mut r: usize = 0;
    while r < rows
        invariant
            rows == x@.len(),
            r <= rows,
            has_column(x@, c as int),
            col == column(x@, c as int),
            s == sum(col.take(r as int)),
        decreases rows - r,
    {
        proof {
            lemma_sum_bounds(col.take(r as int));
            assert(col.take(r + 1).drop_last() =~= col.take(r as int));
        }
        s = s + x.at(r, c) as i128;
        r += 1;
    }
    proof {
        assert(col.take(rows as int) =~= col);
        lemma_sum_bounds(col);
        lemma_mean_is_i32(col);
    }
    let m: i128 = floor_div(s, rows);
    m as i32
}

/// The threshold that a split on column `c` uses: the mean of the column.
pub open spec fn threshold_of(x: Seq<Seq<i32>>, c: int) -> int {
    mean(column(x, c))
}

/// A split on column `c` at the column's mean would leave one side empty.
pub open spec fn degenerate(x: Seq<Seq<i32>>, c: int) -> bool {
    side_picks(x, c, threshold_of(x, c), true).len() == 0 || side_picks(
        x,
        c,
        threshold_of(x, c),
        false,
    ).len() == 0
}

/// The variance reduction of the split on column `c` at the column's mean.
pub open spec fn split_gain(x: Seq<Seq<i32>>, y: Seq<i32>, c: int) -> int {
    variance_reduction(
        y.len() as int,
        sample_variance(y),
        side_targets(x, y, c, threshold_of(x, c), true),
        side_targets(x, y, c, threshold_of(x, c), false),
    )
}

/// The position in `cols` of the column to split on: among the columns whose split
/// leaves no side empty, the one with the greatest variance reduction, and the
/// earliest of those in `cols` if several reach it. `None` if every column's split
/// leaves a side empty.
pub open spec fn best_candidate(x: Seq<Seq<i32>>, y: Seq<i32>, cols: Seq<usize>) -> Option<int>
    decreases cols.len(),
{
    if cols.len() == 0 {
        None
    } else {
        let earlier = best_candidate(x, y, cols.drop_last());
        let last = cols.len() - 1;
        if degenerate(x, cols[last] as int) {
            earlier
        } else {
            match earlier {
                None => Some(last),
                Some(i) => if split_gain(x, y, cols[last] as int) > split_gain(
                    x,
                    y,
                    cols[i] as int,
                ) {
                    Some(last)
                } else {
                    Some(i)
                },
            }
        }
    }
}

/// Every column that `cols` names exists in every row of `x`.
pub open spec fn has_columns(x: Seq<Seq<i32>>, cols: Seq<usize>) -> bool {
    forall|k: int| 0 <= k < cols.len() ==> has_column(x, #[trigger] cols[k] as int)
}

/// What `best_candidate` picks is a position in `cols` whose split leaves no side
/// empty, no other such split reduces the variance more, and none before it
/// reduces it as much. It picks nothing only if every split leaves a side empty.
pub proof fn lemma_best_candidate(x: Seq<Seq<i32>>, y: Seq<i32>, cols: Seq<usize>)
    ensures
        best_candidate(x, y, cols) is None <==> forall|k: int|
            0 <= k < cols.len() ==> degenerate(x, #[trigger] cols[k] as int),
        best_candidate(x, y, cols) matches Some(i) ==> {
            &&& 0 <= i < cols.len()
            &&& !degenerate(x, cols[i] as int)
            &&& forall|k: int|
                0 <= k < cols.len() && !degenerate(x, #[trigger] cols[k] as int) ==> split_gain(
                    x,
                    y,
                    cols[k] as int,
                ) <= split_gain(x, y, cols[i] as int)
            &&& forall|k: int|
                0 <= k < i && !degenerate(x, #[trigger] cols[k] as int) ==> split_gain(
                    x,
                    y,
                    cols[k] as int,
                ) < split_gain(x, y, cols[i] as int)
        },
    decreases cols.len(),
{
    if cols.len() > 0 {
        let init = cols.drop_last();
        lemma_best_candidate(x, y, init);
        assert(forall|k: int| 0 <= k < init.len() ==> init[k] == cols[k]);
    }
}

/// Searches the columns that `cols` names, in that order, for the split of `(x, y)`
/// at the column's mean that reduces the variance of the targets the most. A later
/// column replaces an earlier one only if it reduces the variance strictly more;
/// a reduction of zero or less still counts. Columns whose split would leave one
/// side empty are passed over, and `None` is returned if all are.
pub fn best_split(x: &Matrix, y: &Vector, cols: &Vec<usize>) -> (res: Option<SplitResult>)
    requires
        y@.len() == x@.len(),
        x@.len() <= MAX_ROWS,
        has_columns(x@, cols@),
    ensures
        best_candidate(x@, y@, cols@) is None <==> res is None,
        res matches Some(sr) ==> {
            let c = cols@[best_candidate(x@, y@, cols@).unwrap()] as int;
            sr.splits(x@, y@, c, threshold_of(x@, c))
        },
{
    let mut best: Option<SplitResult> = None;
    let mut best_gain: i128 = 0;
    let y_len: usize = y.len();
    let y_var: u64 = y.sample_var();
    let mut k: usize = 0;
    while k < cols.len()
        invariant
            k <= cols.len(),
            y@.len() == x@.len(),
            x@.len() <= MAX_ROWS,
            has_columns(x@, cols@),
            y_len == y@.len(),
            y_var == sample_variance(y@),
            best_candidate(x@, y@, cols@.take(k as int)) is None <==> best is None,
            best matches Some(sr) ==> {
                let c = cols@[best_candidate(x@, y@, cols@.take(k as int)).unwrap()] as int;
                &&& sr.splits(x@, y@, c, threshold_of(x@, c))
                &&& best_gain == split_gain(x@, y@, c)
            },
        decreases cols.len() - k,
    {
        let col: usize = cols[k];
        proof {
            assert(cols@.take(k + 1).drop_last() =~= cols@.take(k as int));
            assert(cols@.take(k + 1).last() == cols@[k as int]);
            assert(has_column(x@, cols@[k as int] as int));
            lemma_best_candidate(x@, y@, cols@.take(k as int));
            lemma_side_picks_in_range(x@, col as int, threshold_of(x@, col as int), true);
            lemma_side_picks_in_range(x@, col as int, threshold_of(x@, col as int), false);
        }
        let col_mean: i32 = get_col_mean(x, &col);
        match make_split(x, y, &col, col_mean) {
            None => {},
            Some(sr) => {
                let gain: i128 = var_reduction(y_len, y_var, &sr.y_left, &sr.y_right);
                if best.is_none() || gain > best_gain {
                    best_gain = gain;
                    best = Some(sr);
                }
            },
        }
        k += 1;
    }
    proof {
        assert(cols@.take(cols@.len() as int) =~= cols@);
    }
    best
}

} // verus!
