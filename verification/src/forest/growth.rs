//! What holds of every tree that the growth rules allow, whatever columns were
//! drawn while it grew.

use vstd::prelude::*;
use crate::array_ext::mean;
use crate::arrays::{pick_items, pick_rows, picks_below};
use crate::forest::split::{
    goes_left,
    lemma_side_picks_in_range,
    side_picks,
    side_rows,
    side_targets,
};
use crate::forest::tree::{grown, Node, Rules};

verus! {

/// The indices of the rows of `x` that `keep` accepts, in rising order.
pub open spec fn picks_where(x: Seq<Seq<i32>>, keep: spec_fn(Seq<i32>) -> bool) -> Seq<usize>
    decreases x.len(),
{
    if x.len() == 0 {
        Seq::empty()
    } else {
        let rest = picks_where(x.drop_last(), keep);
        if keep(x.last()) {
            rest.push((x.len() - 1) as usize)
        } else {
            rest
        }
    }
}

/// The picks are as many as the rows at most, and each names a row.
pub proof fn lemma_picks_where_in_range(x: Seq<Seq<i32>>, keep: spec_fn(Seq<i32>) -> bool)
    requires
        x.len() <= usize::MAX,
    ensures
        picks_where(x, keep).len() <= x.len(),
        picks_below(picks_where(x, keep), x.len() as int),
    decreases x.len(),
{
    if x.len() > 0 {
        lemma_picks_where_in_range(x.drop_last(), keep);
    }
}

/// Two tests that agree on every row of `x` pick the same rows.
pub proof fn lemma_picks_where_agree(
    x: Seq<Seq<i32>>,
    f: spec_fn(Seq<i32>) -> bool,
    g: spec_fn(Seq<i32>) -> bool,
)
    requires
        forall|i: int| 0 <= i < x.len() ==> f(#[trigger] x[i]) == g(x[i]),
    ensures
        picks_where(x, f) == picks_where(x, g),
    decreases x.len(),
{
    if x.len() > 0 {
        let init = x.drop_last();
        assert forall|i: int| 0 <= i < init.len() implies f(#[trigger] init[i]) == g(init[i]) by {
            assert(init[i] == x[i]);
        }
        lemma_picks_where_agree(init, f, g);
        assert(x.last() == x[x.len() - 1]);
    }
}

/// A test that accepts every row picks every row.
pub proof fn lemma_picks_where_all(x: Seq<Seq<i32>>, keep: spec_fn(Seq<i32>) -> bool)
    requires
        x.len() <= usize::MAX,
        forall|i: int| 0 <= i < x.len() ==> keep(#[trigger] x[i]),
    ensures
        picks_where(x, keep) == Seq::new(x.len(), |i: int| i as usize),
    decreases x.len(),
{
    if x.len() > 0 {
        let init = x.drop_last();
        assert forall|i: int| 0 <= i < init.len() implies keep(#[trigger] init[i]) by {
            assert(init[i] == x[i]);
        }
        lemma_picks_where_all(init, keep);
        assert(x.last() == x[x.len() - 1]);
        assert(picks_where(x, keep) =~= Seq::new(x.len(), |i: int| i as usize));
    } else {
        assert(picks_where(x, keep) =~= Seq::new(x.len(), |i: int| i as usize));
    }
}

/// The rows on one side of a split are the rows that the side's test accepts.
pub proof fn lemma_side_picks_are_picks_where(
    x: Seq<Seq<i32>>,
    c: int,
    threshold: int,
    left: bool,
    keep: spec_fn(Seq<i32>) -> bool,
)
    requires
        forall|i: int|
            0 <= i < x.len() ==> keep(#[trigger] x[i]) == (goes_left(x[i], c, threshold) == left),
    ensures
        side_picks(x, c, threshold, left) == picks_where(x, keep),
    decreases x.len(),
{
    if x.len() > 0 {
        let init = x.drop_last();
        assert forall|i: int| 0 <= i < init.len() implies keep(#[trigger] init[i]) == (goes_left(
            init[i],
            c,
            threshold,
        ) == left) by {
            assert(init[i] == x[i]);
        }
        lemma_side_picks_are_picks_where(init, c, threshold, left, keep);
        assert(x.last() == x[x.len() - 1]);
    }
}

/// Picking by `first`, and then among the picked rows by `second`, picks the rows
/// that pass both tests: entry `k` of the second picks names, among the first
/// picks, the index that picking by both tests puts at `k`.
pub proof fn lemma_picks_compose(
    x: Seq<Seq<i32>>,
    first: spec_fn(Seq<i32>) -> bool,
    second: spec_fn(Seq<i32>) -> bool,
    both: spec_fn(Seq<i32>) -> bool,
)
    requires
        x.len() <= usize::MAX,
        forall|i: int|
            0 <= i < x.len() ==> both(#[trigger] x[i]) == (first(x[i]) && second(x[i])),
    ensures
        ({
            let a = picks_where(x, first);
            let b = picks_where(pick_rows(x, a), second);
            let c = picks_where(x, both);
            &&& c.len() == b.len()
            &&& forall|k: int| 0 <= k < c.len() ==> (#[trigger] c[k]) == a[b[k] as int]
        }),
    decreases x.len(),
{
    if x.len() > 0 {
        let init = x.drop_last();
        let last = x.last();
        let n = x.len() as int;
        assert(last == x[n - 1]);
        assert forall|i: int| 0 <= i < init.len() implies both(#[trigger] init[i]) == (first(
            init[i],
        ) && second(init[i])) by {
            assert(init[i] == x[i]);
        }
        lemma_picks_compose(init, first, second, both);
        lemma_picks_where_in_range(init, first);
        let a0 = picks_where(init, first);
        let xa0 = pick_rows(init, a0);
        let b0 = picks_where(xa0, second);
        let c0 = picks_where(init, both);
        let a = picks_where(x, first);
        let xa = pick_rows(x, a);
        let b = picks_where(xa, second);
        let c = picks_where(x, both);
        lemma_picks_where_in_range(xa0, second);
        if first(last) {
            assert(a == a0.push((n - 1) as usize));
            assert(xa.drop_last() =~= xa0) by {
                assert forall|k: int| 0 <= k < xa0.len() implies xa.drop_last()[k] == xa0[k] by {
                    assert(a[k] == a0[k]);
                    assert(init[a0[k] as int] == x[a0[k] as int]);
                }
            }
            assert(xa.last() == last);
            if second(last) {
                assert(b == b0.push((xa.len() - 1) as usize));
                assert(c == c0.push((n - 1) as usize));
                assert forall|k: int| 0 <= k < c.len() implies (#[trigger] c[k]) == a[b[k] as int] by {
                    if k < c0.len() {
                        assert(c0[k] == a0[b0[k] as int]);
                    }
                }
            } else {
                assert(b == b0);
                assert(c == c0);
                assert forall|k: int| 0 <= k < c.len() implies (#[trigger] c[k]) == a[b[k] as int] by {
                    assert(c0[k] == a0[b0[k] as int]);
                }
            }
        } else {
            assert(a == a0);
            assert(xa =~= xa0) by {
                assert forall|k: int| 0 <= k < xa0.len() implies xa[k] == xa0[k] by {
                    assert(init[a0[k] as int] == x[a0[k] as int]);
                }
            }
            assert(c == c0);
        }
    }
}

/// The turns that `row` takes on its way from `node` down to a leaf, `true` for
/// left and `false` for right. Two rows come to the same leaf exactly when they take
/// the same turns.
pub open spec fn path(node: Node, row: Seq<i32>) -> Seq<bool>
    decreases node,
{
    match node {
        Node::Leaf { .. } => Seq::empty(),
        Node::Split { split_col, split_val, left, right } => if goes_left(
            row,
            split_col as int,
            split_val as int,
        ) {
            seq![true] + path(*left, row)
        } else {
            seq![false] + path(*right, row)
        },
    }
}

/// The test that accepts the rows which come to the same leaf of `node` as `row`.
pub open spec fn same_leaf_as(node: Node, row: Seq<i32>) -> spec_fn(Seq<i32>) -> bool {
    |other: Seq<i32>| path(node, other) == path(node, row)
}

/// The test that accepts the rows which go to one side of a split.
pub open spec fn on_side(c: int, threshold: int, left: bool) -> spec_fn(Seq<i32>) -> bool {
    |other: Seq<i32>| goes_left(other, c, threshold) == left
}

/// The test that accepts every row.
pub open spec fn any_row() -> spec_fn(Seq<i32>) -> bool {
    |other: Seq<i32>| true
}

/// The indices of the rows of `x` that come to the same leaf of `node` as `row`.
pub open spec fn companions(node: Node, x: Seq<Seq<i32>>, row: Seq<i32>) -> Seq<usize> {
    picks_where(x, same_leaf_as(node, row))
}

/// Two paths that start with the same turn are equal exactly when their rests are.
proof fn lemma_same_first_turn(turn: bool, a: Seq<bool>, b: Seq<bool>)
    ensures
        (seq![turn] + a == seq![turn] + b) <==> a == b,
{
    if seq![turn] + a == seq![turn] + b {
        assert((seq![turn] + a).subrange(1, 1 + a.len() as int) =~= a);
        assert((seq![turn] + b).subrange(1, 1 + b.len() as int) =~= b);
        assert((seq![turn] + a).len() == 1 + a.len());
        assert((seq![turn] + b).len() == 1 + b.len());
    }
}

/// Two paths that start with different turns differ.
proof fn lemma_different_first_turn(a: Seq<bool>, b: Seq<bool>)
    ensures
        seq![true] + a != seq![false] + b,
{
    assert((seq![true] + a)[0] == true);
    assert((seq![false] + b)[0] == false);
}

/// Below a split, a row comes to the same leaf as `row` exactly when it goes to the
/// same side as `row` and, in the subtree of that side, to the same leaf as `row`.
proof fn lemma_same_leaf_below_split(node: Node, other: Seq<i32>, row: Seq<i32>)
    requires
        node is Split,
    ensures
        ({
            let c = node->split_col as int;
            let t = node->split_val as int;
            let side = goes_left(row, c, t);
            let sub = if side {
                *node->left
            } else {
                *node->right
            };
            same_leaf_as(node, row)(other) == (on_side(c, t, side)(other) && same_leaf_as(sub, row)(
                other,
            ))
        }),
{
    let c = node->split_col as int;
    let t = node->split_val as int;
    let l = *node->left;
    let r = *node->right;
    if goes_left(row, c, t) {
        if goes_left(other, c, t) {
            lemma_same_first_turn(true, path(l, other), path(l, row));
        } else {
            lemma_different_first_turn(path(l, row), path(r, other));
        }
    } else {
        if goes_left(other, c, t) {
            lemma_different_first_turn(path(l, other), path(r, row));
        } else {
            lemma_same_first_turn(false, path(r, other), path(r, row));
        }
    }
}

/// In a grown tree, the value that a row is answered with is the mean of the
/// targets of the training rows that come to the same leaf as that row.
pub proof fn lemma_leaf_value_is_mean_of_its_rows(
    rules: Rules,
    node: Node,
    x: Seq<Seq<i32>>,
    y: Seq<i32>,
    depth: int,
    row: Seq<i32>,
)
    requires
        grown(rules, node, x, y, depth),
        x.len() == y.len(),
        x.len() <= usize::MAX,
        node.route(row) is Some,
    ensures
        node.route(row).unwrap() == mean(pick_items(y, companions(node, x, row))),
    decreases node,
{
    match node {
        Node::Leaf { .. } => {
            lemma_picks_where_all(x, same_leaf_as(node, row));
            assert(pick_items(y, companions(node, x, row)) =~= y);
        },
        Node::Split { split_col, split_val, left, right } => {
            let c = split_col as int;
            let t = split_val as int;
            let side = goes_left(row, c, t);
            let sub = if side {
                *left
            } else {
                *right
            };
            let first = on_side(c, t, side);
            let second = same_leaf_as(sub, row);
            let both = same_leaf_as(node, row);
            let a = side_picks(x, c, t, side);
            let sx = side_rows(x, c, t, side);
            let sy = side_targets(x, y, c, t, side);
            lemma_side_picks_are_picks_where(x, c, t, side, first);
            lemma_side_picks_in_range(x, c, t, side);
            lemma_leaf_value_is_mean_of_its_rows(rules, sub, sx, sy, depth + 1, row);
            assert forall|i: int| 0 <= i < x.len() implies both(#[trigger] x[i]) == (first(x[i])
                && second(x[i])) by {
                lemma_same_leaf_below_split(node, x[i], row);
            }
            lemma_picks_compose(x, first, second, both);
            lemma_picks_where_in_range(sx, second);
            let b = companions(sub, sx, row);
            let picks = companions(node, x, row);
            assert(pick_items(y, picks) =~= pick_items(sy, b)) by {
                assert forall|k: int| 0 <= k < picks.len() implies pick_items(y, picks)[k]
                    == pick_items(sy, b)[k] by {
                    assert(picks[k] == a[b[k] as int]);
                }
            }
        },
    }
}

/// The subtree that a list of turns leads to from `node`, with the rows and targets
/// that take those turns; `None` if the turns run past a leaf.
pub open spec fn descend(node: Node, x: Seq<Seq<i32>>, y: Seq<i32>, turns: Seq<bool>) -> Option<
    (Node, Seq<Seq<i32>>, Seq<i32>),
>
    decreases turns.len(),
{
    if turns.len() == 0 {
        Some((node, x, y))
    } else {
        match node {
            Node::Leaf { .. } => None,
            Node::Split { split_col, split_val, left, right } => descend(
                if turns[0] {
                    *left
                } else {
                    *right
                },
                side_rows(x, split_col as int, split_val as int, turns[0]),
                side_targets(x, y, split_col as int, split_val as int, turns[0]),
                turns.drop_first(),
            ),
        }
    }
}

/// Every subtree of a grown tree is itself grown, at its own depth, from the rows
/// that take the turns to it; and it has one target for each of those rows.
pub proof fn lemma_subtrees_are_grown(
    rules: Rules,
    node: Node,
    x: Seq<Seq<i32>>,
    y: Seq<i32>,
    depth: int,
    turns: Seq<bool>,
)
    requires
        grown(rules, node, x, y, depth),
        x.len() == y.len(),
    ensures
        descend(node, x, y, turns) matches Some(at) ==> grown(
            rules,
            at.0,
            at.1,
            at.2,
            depth + turns.len(),
        ) && at.1.len() == at.2.len(),
    decreases turns.len(),
{
    if turns.len() > 0 {
        match node {
            Node::Leaf { .. } => {},
            Node::Split { split_col, split_val, left, right } => {
                lemma_subtrees_are_grown(
                    rules,
                    if turns[0] {
                        *left
                    } else {
                        *right
                    },
                    side_rows(x, split_col as int, split_val as int, turns[0]),
                    side_targets(x, y, split_col as int, split_val as int, turns[0]),
                    depth + 1,
                    turns.drop_first(),
                );
            },
        }
    }
}

/// In a grown tree, no leaf lies more than `max_depth` edges below the root.
pub proof fn lemma_height_within_max_depth(
    rules: Rules,
    node: Node,
    x: Seq<Seq<i32>>,
    y: Seq<i32>,
    depth: int,
)
    requires
        grown(rules, node, x, y, depth),
        depth <= rules.max_depth,
    ensures
        depth + node.height() <= rules.max_depth,
    decreases node,
{
    match node {
        Node::Leaf { .. } => {},
        Node::Split { split_col, split_val, left, right } => {
            let c = split_col as int;
            let t = split_val as int;
            lemma_height_within_max_depth(
                rules,
                *left,
                side_rows(x, c, t, true),
                side_targets(x, y, c, t, true),
                depth + 1,
            );
            lemma_height_within_max_depth(
                rules,
                *right,
                side_rows(x, c, t, false),
                side_targets(x, y, c, t, false),
                depth + 1,
            );
        },
    }
}

/// In a grown tree, every split has at least `min_samples_to_split` rows coming to
/// it, and lies less than `max_depth` edges below the root.
pub proof fn lemma_splits_have_enough_rows(
    rules: Rules,
    root: Node,
    x: Seq<Seq<i32>>,
    y: Seq<i32>,
    turns: Seq<bool>,
)
    requires
        grown(rules, root, x, y, 0),
        x.len() == y.len(),
    ensures
        descend(root, x, y, turns) matches Some(at) ==> (at.0 is Split ==> at.1.len()
            >= rules.min_samples_to_split && turns.len() < rules.max_depth),
{
    lemma_subtrees_are_grown(rules, root, x, y, 0, turns);
}

} // verus!
