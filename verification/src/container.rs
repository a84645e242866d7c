use vstd::prelude::*;

verus! {

use crate::centroid::{all_wf, Centroid};

/// How a container treats its capacity: a soft threshold that only triggers
/// merging, or a hard limit that pushes must never exceed.
#[derive(Clone, Copy, PartialEq, Eq, Structural, Debug)]
pub enum CapacityPolicy {
    Growable,
    Fixed,
}

/// An ordered collection of centroids with capacity bookkeeping.
pub struct Container {
    pub capacity: usize,
    pub policy: CapacityPolicy,
    pub centroids: Vec<Centroid>,
}

impl View for Container {
    type V = Seq<Centroid>;

    open spec fn view(&self) -> Seq<Centroid> {
        self.centroids@
    }
}

impl Container {
    /// Every held centroid is live, and a hard-limit container is within its
    /// capacity.
    pub open spec fn wf(self) -> bool {
        &&& all_wf(self@)
        &&& (self.policy is Fixed ==> self@.len() <= self.capacity)
    }

    pub fn new(capacity: usize, policy: CapacityPolicy) -> (r: Container)
        ensures
            r@ == Seq::<Centroid>::empty(),
            r.capacity == capacity,
            r.policy == policy,
            r.wf(),
    {
        Container { capacity, policy, centroids: Vec::new() }
    }

    pub fn size(&self) -> (r: usize)
        ensures
            r == self@.len(),
    {
        self.centroids.len()
    }

    pub fn is_full(&self) -> (r: bool)
        ensures
            r == (self@.len() == self.capacity),
    {
        self.centroids.len() == self.capacity
    }

    /// Total weight of the held centroids, by a linear scan.
    pub fn weigh(&self) -> (r: u64)
        requires
            crate::centroid::sum_weights(self@) <= crate::WEIGHT_TOTAL_MAX,
        ensures
            r as int == crate::centroid::sum_weights(self@),
    {
        let n = self.centroids.len();
        let mut out: u64 = 0;
        let mut i: usize = 0;
        proof {
            assert(self@.take(0) =~= Seq::<Centroid>::empty());
        }
        while i < n
            invariant
                n == self@.len(),
                i <= n,
                crate::centroid::sum_weights(self@) <= crate::WEIGHT_TOTAL_MAX,
                out as int == crate::centroid::sum_weights(self@.take(i as int)),
            decreases n - i,
        {
            proof {
                crate::centroid::lemma_sum_take_succ(self@, i as int);
                crate::centroid::lemma_sum_split(self@, i + 1);
                crate::centroid::lemma_sum_nonneg(self@.skip(i + 1));
                crate::centroid::lemma_sum_nonneg(self@.take(i as int));
            }
            out = out + self.centroids[i].weight;
            i += 1;
        }
        proof {
            assert(self@.take(n as int) =~= self@);
        }
        out
    }

    /// Appends a centroid. Exceeding a hard capacity limit is a fatal caller
    /// error, excluded by precondition.
    pub fn push(&mut self, centroid: Centroid)
        requires
            old(self).policy is Fixed ==> old(self)@.len() < old(self).capacity,
        ensures
            final(self)@ == old(self)@.push(centroid),
            final(self).capacity == old(self).capacity,
            final(self).policy == old(self).policy,
    {
        self.centroids.push(centroid);
    }
}

} // verus!
