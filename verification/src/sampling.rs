//! Random draws of feature columns.

use vstd::prelude::*;

verus! {

/// `cols` is a draw of `count` different columns out of the columns `0..total`.
pub open spec fn is_draw(cols: Seq<usize>, count: int, total: int) -> bool {
    &&& cols.len() == count
    &&& cols.no_duplicates()
    &&& forall|k: int| 0 <= k < cols.len() ==> (#[trigger] cols[k]) < total
}

/// The columns `0..total` in rising order.
pub open spec fn all_columns(total: int) -> Seq<usize> {
    Seq::new(total as nat, |j: int| j as usize)
}

/// `SliceRandom::shuffle` driven by `rand::thread_rng()`: the entries are swapped
/// about in place, so afterwards the vector holds the same entries, each as often
/// as before, in an order that nothing is said about.
#[verifier::external_body]
fn shuffle(cols: &mut Vec<usize>)
    ensures
        final(cols)@.to_multiset() == old(cols)@.to_multiset(),
{
    rand::seq::SliceRandom::shuffle(cols.as_mut_slice(), &mut rand::thread_rng());
}

/// Any reordering of the columns `0..total` names each of them once.
pub proof fn lemma_reordered_columns(cols: Seq<usize>, total: int)
    requires
        0 <= total <= usize::MAX,
        cols.to_multiset() == all_columns(total).to_multiset(),
    ensures
        is_draw(cols, total, total),
{
    broadcast use vstd::seq_lib::group_to_multiset_ensures;

    let all = all_columns(total);
    assert(all.no_duplicates());
    all.lemma_multiset_has_no_duplicates();
    cols.lemma_multiset_has_no_duplicates_conv();
    assert(cols.len() == cols.to_multiset().len());
    assert(all.len() == all.to_multiset().len());
    assert forall|k: int| 0 <= k < cols.len() implies (#[trigger] cols[k]) < total by {
        assert(cols.contains(cols[k]));
        assert(cols.to_multiset().count(cols[k]) > 0);
        assert(all.contains(cols[k]));
        let j = choose|j: int| 0 <= j < all.len() && all[j] == cols[k];
        assert(all[j] == j as usize);
    }
}

/// Draws `count` different columns out of `0..total`, at random and in random
/// order: all columns are shuffled and the first `count` are kept.
pub fn draw_columns(total: usize, count: usize) -> (cols: Vec<usize>)
    requires
        count <= total,
    ensures
        is_draw(cols@, count as int, total as int),
{
    let mut cols: Vec<usize> = Vec::new();
    let mut j: usize = 0;
    while j < total
        invariant
            j <= total,
            cols@ == all_columns(j as int),
        decreases total - j,
    {
        cols.push(j);
        assert(cols@ =~= all_columns(j + 1));
        j += 1;
    }
    shuffle(&mut cols);
    proof {
        lemma_reordered_columns(cols@, total as int);
    }
    cols.truncate(count);
    cols
}

} // verus!
