use vstd::prelude::*;

verus! {

use crate::{VALUE_MAX, WEIGHT_TOTAL_MAX};

/// A single summary point: a representative position and the total weight
/// collapsed into it, both in raw fixed-point ticks.
#[derive(Clone, Copy, PartialEq, Eq, Structural, Debug)]
pub struct Centroid {
    pub value: i64,
    pub weight: u64,
}

impl Centroid {
    /// Explicit three-way comparison on position alone; weight carries no
    /// ordering meaning. The fixed-point domain is totally ordered as the
    /// integers are, so no undefined comparisons arise.
    pub fn cmp(&self, other: &Centroid) -> (r: core::cmp::Ordering)
        ensures
            r is Less <==> self.value < other.value,
            r is Equal <==> self.value == other.value,
            r is Greater <==> self.value > other.value,
    {
        if self.value < other.value {
            core::cmp::Ordering::Less
        } else if self.value == other.value {
            core::cmp::Ordering::Equal
        } else {
            core::cmp::Ordering::Greater
        }
    }

    /// Logical deletion: the centroid is cleared to the origin with no weight.
    pub fn reset(&mut self)
        ensures
            final(self).value == 0,
            final(self).weight == 0,
    {
        self.value = 0;
        self.weight = 0;
    }
}

/// A live centroid: it carries at least one tick of weight and its position
/// lies within the supported range.
pub open spec fn wf_centroid(c: Centroid) -> bool {
    &&& 1 <= c.weight <= WEIGHT_TOTAL_MAX
    &&& -(VALUE_MAX as int) <= c.value as int <= VALUE_MAX as int
}

/// Every centroid of the sequence is live.
pub open spec fn all_wf(s: Seq<Centroid>) -> bool {
    forall|i: int| 0 <= i < s.len() ==> wf_centroid(#[trigger] s[i])
}

/// Positions are non-decreasing along the sequence.
pub open spec fn sorted_by_value(s: Seq<Centroid>) -> bool {
    forall|i: int, j: int|
        0 <= i <= j < s.len() ==> #[trigger] s[i].value <= #[trigger] s[j].value
}

/// Total weight held by a sequence of centroids.
pub open spec fn sum_weights(s: Seq<Centroid>) -> int
    decreases s.len(),
{
    if s.len() == 0 {
        0
    } else {
        sum_weights(s.drop_last()) + s.last().weight
    }
}

pub proof fn lemma_sum_nonneg(s: Seq<Centroid>)
    ensures
        sum_weights(s) >= 0,
    decreases s.len(),
{
    if s.len() > 0 {
        lemma_sum_nonneg(s.drop_last());
    }
}

pub proof fn lemma_sum_push(s: Seq<Centroid>, c: Centroid)
    ensures
        sum_weights(s.push(c)) == sum_weights(s) + c.weight,
{
    assert(s.push(c).drop_last() =~= s);
    assert(s.push(c).last() == c);
}

/// Replacing the last element changes the sum by the weight difference.
pub proof fn lemma_sum_update_last(s: Seq<Centroid>, c: Centroid)
    requires
        s.len() > 0,
    ensures
        sum_weights(s.update(s.len() - 1, c)) == sum_weights(s) - s.last().weight + c.weight,
{
    let t = s.update(s.len() - 1, c);
    assert(t.drop_last() =~= s.drop_last());
    assert(t.last() == c);
}

pub proof fn lemma_sum_take_succ(s: Seq<Centroid>, i: int)
    requires
        0 <= i < s.len(),
    ensures
        sum_weights(s.take(i + 1)) == sum_weights(s.take(i)) + s[i].weight,
{
    assert(s.take(i + 1).drop_last() =~= s.take(i));
    assert(s.take(i + 1).last() == s[i]);
}

pub proof fn lemma_sum_split(s: Seq<Centroid>, i: int)
    requires
        0 <= i <= s.len(),
    ensures
        sum_weights(s) == sum_weights(s.take(i)) + sum_weights(s.skip(i)),
    decreases s.len(),
{
    if i == s.len() {
        assert(s.take(i) =~= s);
        assert(s.skip(i) =~= Seq::<Centroid>::empty());
    } else {
        let d = s.drop_last();
        lemma_sum_split(d, i);
        assert(s.take(i) =~= d.take(i));
        assert(s.skip(i).drop_last() =~= d.skip(i));
        assert(s.skip(i).last() == s.last());
    }
}

/// Head decomposition of the tail sum.
pub proof fn lemma_sum_skip_succ(s: Seq<Centroid>, i: int)
    requires
        0 <= i < s.len(),
    ensures
        sum_weights(s.skip(i)) == s[i].weight + sum_weights(s.skip(i + 1)),
{
    lemma_sum_split(s, i);
    lemma_sum_split(s, i + 1);
    lemma_sum_take_succ(s, i);
}

/// One element's weight never exceeds the whole sum.
pub proof fn lemma_weight_le_sum(s: Seq<Centroid>, i: int)
    requires
        0 <= i < s.len(),
    ensures
        s[i].weight <= sum_weights(s),
        sum_weights(s.take(i)) + s[i].weight <= sum_weights(s),
{
    lemma_sum_split(s, i + 1);
    lemma_sum_take_succ(s, i);
    lemma_sum_nonneg(s.take(i));
    lemma_sum_nonneg(s.skip(i + 1));
}

pub proof fn lemma_sum_add(a: Seq<Centroid>, b: Seq<Centroid>)
    ensures
        sum_weights(a + b) == sum_weights(a) + sum_weights(b),
    decreases b.len(),
{
    if b.len() == 0 {
        assert(a + b =~= a);
    } else {
        lemma_sum_add(a, b.drop_last());
        assert((a + b).drop_last() =~= a + b.drop_last());
        assert((a + b).last() == b.last());
    }
}

/// Inserting an element adds its weight to the sum.
pub proof fn lemma_sum_insert(s: Seq<Centroid>, i: int, c: Centroid)
    requires
        0 <= i <= s.len(),
    ensures
        sum_weights(s.insert(i, c)) == sum_weights(s) + c.weight,
{
    assert(s.insert(i, c) =~= s.take(i).push(c) + s.skip(i));
    lemma_sum_add(s.take(i).push(c), s.skip(i));
    lemma_sum_push(s.take(i), c);
    lemma_sum_split(s, i);
}

} // verus!
