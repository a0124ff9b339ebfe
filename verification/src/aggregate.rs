use vstd::prelude::*;

use crate::color::{lemma_sum_concat, mean_color, spec_mean, sum_b, sum_g, sum_r, Rgb};

verus! {

/// The dataset-wide mean: each channel of the per-annotation means is summed
/// with identity `(0, 0, 0)` and elementwise addition, then divided by the
/// number of annotations, truncating. The reduction operator is commutative
/// and associative, so the result does not depend on how the parallel tasks
/// were scheduled or grouped — see [`lemma_sum_partition`],
/// [`lemma_sum_permutation`] and [`lemma_partition_totals`].
pub fn dataset_mean(means: &Vec<Rgb>) -> (m: Rgb)
    requires
        means@.len() >= 1,
    ensures
        m == spec_mean(means@),
{
    mean_color(means)
}

/// The channel sums of a partition: group by group, in order.
pub open spec fn group_sums_r(gs: Seq<Seq<Rgb>>) -> int
    decreases gs.len(),
{
    if gs.len() == 0 {
        0
    } else {
        sum_r(gs.first()) + group_sums_r(gs.drop_first())
    }
}

/// The green-channel sums of a partition, group by group.
pub open spec fn group_sums_g(gs: Seq<Seq<Rgb>>) -> int
    decreases gs.len(),
{
    if gs.len() == 0 {
        0
    } else {
        sum_g(gs.first()) + group_sums_g(gs.drop_first())
    }
}

/// The blue-channel sums of a partition, group by group.
pub open spec fn group_sums_b(gs: Seq<Seq<Rgb>>) -> int
    decreases gs.len(),
{
    if gs.len() == 0 {
        0
    } else {
        sum_b(gs.first()) + group_sums_b(gs.drop_first())
    }
}

/// Law (associativity): summing within each group of a partition and then
/// summing the group sums equals summing the concatenation directly.
pub proof fn lemma_sum_partition(gs: Seq<Seq<Rgb>>)
    ensures
        sum_r(gs.flatten()) == group_sums_r(gs),
        sum_g(gs.flatten()) == group_sums_g(gs),
        sum_b(gs.flatten()) == group_sums_b(gs),
    decreases gs.len(),
{
    if gs.len() == 0 {
        assert(gs.flatten() =~= Seq::<Rgb>::empty());
        assert(sum_r(Seq::<Rgb>::empty()) == 0);
        assert(sum_g(Seq::<Rgb>::empty()) == 0);
        assert(sum_b(Seq::<Rgb>::empty()) == 0);
    } else {
        lemma_sum_partition(gs.drop_first());
        lemma_sum_concat(gs.first(), gs.drop_first().flatten());
    }
}

/// One element's contribution can be split off a channel sum at any index.
proof fn lemma_sum_remove(t: Seq<Rgb>, j: int)
    requires
        0 <= j < t.len(),
    ensures
        sum_r(t) == sum_r(t.remove(j)) + t[j].r,
        sum_g(t) == sum_g(t.remove(j)) + t[j].g,
        sum_b(t) == sum_b(t.remove(j)) + t[j].b,
{
    let fore = t.take(j);
    let mid = seq![t[j]];
    let aft = t.skip(j + 1);
    assert(t =~= fore + mid + aft);
    assert(t.remove(j) =~= fore + aft);
    lemma_sum_concat(fore + mid, aft);
    lemma_sum_concat(fore, mid);
    lemma_sum_concat(fore, aft);
    assert(mid.drop_last() =~= Seq::<Rgb>::empty());
    assert(sum_r(Seq::<Rgb>::empty()) == 0);
    assert(sum_g(Seq::<Rgb>::empty()) == 0);
    assert(sum_b(Seq::<Rgb>::empty()) == 0);
}

/// Law (commutativity): channel sums are invariant under reordering — two
/// sequences holding the same samples, each the same number of times, have
/// the same sums.
pub proof fn lemma_sum_permutation(s: Seq<Rgb>, t: Seq<Rgb>)
    requires
        s.to_multiset() == t.to_multiset(),
    ensures
        sum_r(s) == sum_r(t),
        sum_g(s) == sum_g(t),
        sum_b(s) == sum_b(t),
    decreases s.len(),
{
    broadcast use vstd::seq_lib::group_to_multiset_ensures;

    if s.len() == 0 {
        assert(s.to_multiset().len() == s.len());
        assert(t.to_multiset().len() == t.len());
        assert(t.len() == 0);
    } else {
        let a = s.last();
        assert(s.contains(a));
        assert(t.to_multiset().count(a) > 0);
        assert(t.contains(a));
        let j = choose|j: int| 0 <= j < t.len() && t[j] == a;
        lemma_sum_remove(t, j);
        lemma_sum_remove(s, s.len() - 1);
        assert(s.remove(s.len() - 1).to_multiset() =~= t.remove(j).to_multiset());
        lemma_sum_permutation(s.remove(s.len() - 1), t.remove(j));
    }
}

/// Law: any partition of the annotation set — groups in any order, each
/// group in any order — totals to the same channel sums as one direct pass
/// over the whole set.
pub proof fn lemma_partition_totals(s: Seq<Rgb>, gs: Seq<Seq<Rgb>>)
    requires
        gs.flatten().to_multiset() == s.to_multiset(),
    ensures
        group_sums_r(gs) == sum_r(s),
        group_sums_g(gs) == sum_g(s),
        group_sums_b(gs) == sum_b(s),
{
    lemma_sum_partition(gs);
    lemma_sum_permutation(gs.flatten(), s);
}

} // verus!
