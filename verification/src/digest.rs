use vstd::prelude::*;

verus! {

use crate::centroid::{
    all_wf, lemma_sum_nonneg, lemma_sum_push, lemma_sum_skip_succ, lemma_sum_update_last,
    lemma_weight_le_sum, sorted_by_value, sum_weights, wf_centroid, Centroid,
};
use crate::container::{CapacityPolicy, Container};
use crate::sort::{sort_by_value, sort_two};
use crate::{DELTA_MAX, SCALE, VALUE_MAX, VARIANCE_MAX, WEIGHT_TOTAL_MAX};
use vstd::arithmetic::div_mod::{lemma_div_is_ordered, lemma_div_pos_is_pos};
use vstd::arithmetic::power2::{lemma2_to64, lemma_pow2_unfold, pow2};

/// Floor of the base-two logarithm.
pub open spec fn lg(n: nat) -> nat
    decreases n,
{
    if n < 2 {
        0
    } else {
        1 + lg(n / 2)
    }
}

/// `0 <= x*y/d <= x` whenever the factor `y/d` is at most one.
pub proof fn lemma_mul_div_le(x: int, y: int, d: int)
    requires
        0 <= x,
        0 <= y <= d,
        0 < d,
    ensures
        0 <= x * y / d <= x,
{
    assert(0 <= x * y && x * y <= x * d) by (nonlinear_arith)
        requires
            0 <= x,
            0 <= y <= d,
    ;
    lemma_div_pos_is_pos(x * y, d);
    lemma_div_is_ordered(x * y, x * d, d);
    assert(x * d / d == x) by (nonlinear_arith)
        requires
            0 < d,
    ;
}

/// Two weights that are exactly equal, or whose ratio is below one part in
/// ten billion, are always allowed to collapse.
pub open spec fn close_weights(wo: int, wi: int) -> bool {
    wi == wo || wi * 10000000000 < wo
}

/// The size-limiting scale bound: a proposed collapse of `prop` weight is
/// admitted at cumulative position `cum` when, on both sides of the absorbed
/// range, `prop` stays below the local budget
/// `delta / (two_pi * total * ln total)`, evaluated here in fixed point with
/// `ln` approximated from the floored base-two logarithm of the total tick
/// count (`lg total - 20` whole bits, i.e. the logarithm of the total in
/// units, times `ln 2` in sixteen fractional bits).
pub open spec fn within_size_bound(total: int, cum: int, prop: int, delta: int) -> bool {
    let l = lg(total as nat);
    l < 20 || {
        let f = 285420 * (l - 20);
        &&& prop * delta * total * 65536 <= f * cum * (total - cum)
        &&& prop * delta * total * 65536 <= f * (cum + prop) * (total - (cum + prop))
    }
}

/// The merge sweep collapses the next centroid into the open one when the
/// weights are degenerate-close or the scale bound admits the union. A
/// vanishing-weight test is not needed on top: every live centroid carries
/// at least one tick of weight.
pub open spec fn should_collapse(total: int, cum: int, o: Centroid, c: Centroid, delta: int) -> bool {
    ||| close_weights(o.weight as int, c.weight as int)
    ||| within_size_bound(total, cum, o.weight + c.weight, delta)
}

/// The union of two centroids: weights add, and the position moves from the
/// open centroid toward the absorbed one by the absorbed share.
pub open spec fn collapse_centroid(o: Centroid, c: Centroid) -> Centroid {
    let w = o.weight + c.weight;
    let v = o.value + (c.value - o.value) * (c.weight as int) / w;
    Centroid { value: v as i64, weight: w as u64 }
}

/// One left-to-right pass over the sorted sequence `s` from index `j`,
/// carrying the compacted prefix `out` (whose last centroid is still open)
/// and the cumulative weight `cum` of the closed centroids before it.
pub open spec fn sweep(
    s: Seq<Centroid>,
    j: int,
    out: Seq<Centroid>,
    cum: int,
    total: int,
    delta: int,
) -> (Seq<Centroid>, int)
    decreases s.len() - j,
{
    if j < 1 || j >= s.len() || out.len() == 0 {
        (out, cum)
    } else {
        let o = out.last();
        let c = s[j];
        if should_collapse(total, cum, o, c, delta) {
            sweep(s, j + 1, out.update(out.len() - 1, collapse_centroid(o, c)), cum, total, delta)
        } else {
            sweep(s, j + 1, out.push(c), cum + o.weight, total, delta)
        }
    }
}

/// The compacted form of a sorted centroid sequence, and the cumulative
/// weight of all centroids closed before the final open one.
pub open spec fn merge_result(s: Seq<Centroid>, delta: int) -> (Seq<Centroid>, int) {
    if s.len() == 0 {
        (s, 0)
    } else {
        sweep(s, 1, seq![s[0]], 0, sum_weights(s), delta)
    }
}

/// The abstract state of a digest.
pub ghost struct DigestView {
    pub delta: int,
    pub mean: int,
    pub variance: int,
    pub weight: int,
    pub processed: bool,
    pub capacity: int,
    pub fixed: bool,
    pub merged: Seq<Centroid>,
    pub unmerged: Seq<Centroid>,
}

/// What merging does to the abstract state: nothing on an empty inbox;
/// otherwise the inbox is drained, the union is sorted and compacted, and the
/// closed cumulative weight is recorded.
pub open spec fn spec_merge(v: DigestView) -> DigestView {
    if v.unmerged.len() == 0 {
        v
    } else {
        let r = merge_result(sort_by_value(v.merged + v.unmerged), v.delta);
        DigestView {
            merged: r.0,
            unmerged: Seq::<Centroid>::empty(),
            weight: r.1,
            processed: true,
            ..v
        }
    }
}

/// The eager trigger: merge before a push whenever the digest is marked
/// processed or either buffer has reached its soft capacity.
pub open spec fn spec_should_merge(v: DigestView) -> bool {
    v.processed || v.merged.len() == v.capacity || v.unmerged.len() == v.capacity
}

/// Incremental update of the running mean, with exact tick arithmetic
/// (the fractional step is truncated toward the old mean).
pub open spec fn mean_update(mean: int, value: int, w: int, mtot: int) -> int {
    if value >= mean {
        mean + (value - mean) * w / (w + mtot)
    } else {
        mean - (mean - value) * w / (w + mtot)
    }
}

/// Incremental update of the running variance estimate, with exact tick
/// arithmetic; each division is truncated.
pub open spec fn variance_update(var: int, mean: int, value: int, w: int, mtot: int) -> int {
    let dv = if value >= mean {
        value - mean
    } else {
        mean - value
    };
    let q = dv * dv / (SCALE as int);
    let t = var + w * q / (w + mtot);
    mtot * t / (w + mtot)
}

/// What one push does to the abstract state: merge if the trigger fires,
/// update the running moments against the merged total, and append the new
/// observation to the inbox.
pub open spec fn spec_push(v: DigestView, value: int, weight: int) -> DigestView {
    let m = if spec_should_merge(v) {
        spec_merge(v)
    } else {
        v
    };
    let mtot = sum_weights(m.merged);
    DigestView {
        mean: mean_update(m.mean, value, weight, mtot),
        variance: variance_update(m.variance, m.mean, value, weight, mtot),
        unmerged: m.unmerged.push(Centroid { value: value as i64, weight: weight as u64 }),
        processed: false,
        ..m
    }
}

/// Repeated pushes of a batch of positions, all with the same weight.
pub open spec fn spec_append(v: DigestView, values: Seq<i64>, weight: int) -> DigestView
    decreases values.len(),
{
    if values.len() == 0 {
        v
    } else {
        spec_push(spec_append(v, values.drop_last(), weight), values.last() as int, weight)
    }
}

/// The bounded-memory streaming summary: an inbox of raw observations, a
/// compacted sorted summary, and running aggregate statistics.
pub struct Digest {
    pub delta: u64,
    pub mean: i64,
    pub variance: u64,
    pub weight: u64,
    pub processed: bool,
    pub merged: Container,
    pub unmerged: Container,
}

impl View for Digest {
    type V = DigestView;

    open spec fn view(&self) -> DigestView {
        DigestView {
            delta: self.delta as int,
            mean: self.mean as int,
            variance: self.variance as int,
            weight: self.weight as int,
            processed: self.processed,
            capacity: self.merged.capacity as int,
            fixed: self.merged.policy is Fixed,
            merged: self.merged@,
            unmerged: self.unmerged@,
        }
    }
}

impl Digest {
    pub open spec fn wf(self) -> bool {
        &&& 1 <= self.delta <= DELTA_MAX
        &&& self.merged.wf()
        &&& self.unmerged.wf()
        &&& self.merged.policy == self.unmerged.policy
        &&& self.merged.capacity == self.unmerged.capacity
        &&& sorted_by_value(self.merged@)
        &&& sum_weights(self.merged@) + sum_weights(self.unmerged@) <= WEIGHT_TOTAL_MAX
        &&& (self.processed ==> self.unmerged@.len() == 0)
        &&& -(VALUE_MAX as int) <= self.mean as int <= VALUE_MAX as int
        &&& self.variance <= VARIANCE_MAX
        &&& self.weight <= WEIGHT_TOTAL_MAX
        &&& (self.merged.policy is Fixed ==> self.merged@.len() + self.unmerged@.len()
            <= self.merged.capacity)
    }

    /// Room for one more observation under the hard-limit policy; always true
    /// for a growable digest.
    pub open spec fn can_push(self) -> bool {
        self.merged.policy is Fixed ==> self.merged@.len() + self.unmerged@.len()
            < self.merged.capacity
    }

    /// A growable digest with capacity threshold sized from the compression
    /// parameter.
    pub fn new(delta: u64) -> (r: Digest)
        requires
            1 <= delta <= DELTA_MAX,
        ensures
            r.wf(),
            r@.delta == delta,
            r@.mean == 0,
            r@.variance == SCALE,
            r@.weight == SCALE,
            r@.processed,
            r@.merged.len() == 0,
            r@.unmerged.len() == 0,
            !r@.fixed,
            r@.capacity == 6 * delta + 10,
    {
        Digest::with_policy(delta, CapacityPolicy::Growable)
    }

    /// A digest under an explicit capacity policy; the capacity threshold is
    /// sized from the compression parameter either way.
    pub fn with_policy(delta: u64, policy: CapacityPolicy) -> (r: Digest)
        requires
            1 <= delta <= DELTA_MAX,
        ensures
            r.wf(),
            r@.delta == delta,
            r@.mean == 0,
            r@.variance == SCALE,
            r@.weight == SCALE,
            r@.processed,
            r@.merged.len() == 0,
            r@.unmerged.len() == 0,
            r@.fixed == (policy is Fixed),
            r@.capacity == 6 * delta + 10,
    {
        let capacity: usize = (6 * delta + 10) as usize;
        Digest {
            delta,
            mean: 0,
            variance: SCALE,
            weight: SCALE,
            processed: true,
            merged: Container::new(capacity, policy),
            unmerged: Container::new(capacity, policy),
        }
    }

    /// The eager auto-merge trigger.
    pub fn should_merge(&self) -> (r: bool)
        requires
            self.wf(),
        ensures
            r == spec_should_merge(self@),
    {
        if self.processed {
            true
        } else {
            self.merged.is_full() || self.unmerged.is_full()
        }
    }
}

/// Floor of the base-two logarithm, by repeated halving.
pub fn log2_floor(x: u64) -> (r: u64)
    requires
        x >= 1,
    ensures
        r == lg(x as nat),
        r <= 63,
        pow2(r as nat) <= x,
{
    let mut n: u64 = x;
    let mut r: u64 = 0;
    proof {
        lemma2_to64();
    }
    while n >= 2
        invariant
            1 <= n <= x,
            lg(x as nat) == r + lg(n as nat),
            pow2(r as nat) * n <= x,
            r <= 63,
        decreases n,
    {
        proof {
            lemma_pow2_unfold((r + 1) as nat);
            assert(pow2((r + 1) as nat) * ((n as int) / 2) <= pow2(r as nat) * (n as int))
                by (nonlinear_arith)
                requires
                    pow2((r + 1) as nat) == 2 * pow2(r as nat),
                    n >= 2,
                    pow2(r as nat) >= 0,
            ;
            if r + 1 > 63 {
                lemma2_to64();
                assert(pow2((r + 1) as nat) * ((n as int) / 2) >= pow2((r + 1) as nat))
                    by (nonlinear_arith)
                    requires
                        n >= 2,
                        pow2((r + 1) as nat) >= 1,
                ;
                assert(false);
            }
        }
        n = n / 2;
        r = r + 1;
    }
    proof {
        assert(pow2(r as nat) <= pow2(r as nat) * n) by (nonlinear_arith)
            requires
                n >= 1,
                pow2(r as nat) >= 0,
        ;
    }
    r
}

/// The executable form of the scale bound, in 128-bit exact arithmetic.
pub fn size_within_bound(total: u64, cum: u64, prop: u64, delta: u64) -> (r: bool)
    requires
        1 <= total <= WEIGHT_TOTAL_MAX,
        cum + prop <= total,
        1 <= delta <= DELTA_MAX,
    ensures
        r == within_size_bound(total as int, cum as int, prop as int, delta as int),
{
    let l = log2_floor(total);
    if l < 20 {
        return true;
    }
    proof {
        assert((prop as int) * (delta as int) <= 0x10000000000 * 0x100000) by (nonlinear_arith)
            requires
                0 <= prop <= 0x10000000000,
                0 <= delta <= 0x100000,
        ;
        assert((prop as int) * (delta as int) * (total as int)
            <= 0x1000000000000000 * 0x10000000000) by (nonlinear_arith)
            requires
                0 <= (prop as int) * (delta as int) <= 0x1000000000000000,
                0 <= total <= 0x10000000000,
        ;
    }
    let pd: u128 = (prop as u128) * (delta as u128);
    let pdt: u128 = pd * (total as u128);
    let lhs: u128 = pdt * 65536;
    let f: u128 = 285420 * ((l - 20) as u128);
    let c2: u64 = cum + prop;
    proof {
        assert((f as int) * (cum as int) <= 0x2000000 * 0x10000000000) by (nonlinear_arith)
            requires
                0 <= f <= 0x2000000,
                0 <= cum <= 0x10000000000,
        ;
        assert((f as int) * (cum as int) * ((total - cum) as int)
            <= 0x20000000000000000 * 0x10000000000) by (nonlinear_arith)
            requires
                0 <= (f as int) * (cum as int) <= 0x20000000000000000,
                0 <= total - cum <= 0x10000000000,
        ;
        assert((f as int) * (c2 as int) <= 0x2000000 * 0x10000000000) by (nonlinear_arith)
            requires
                0 <= f <= 0x2000000,
                0 <= c2 <= 0x10000000000,
        ;
        assert((f as int) * (c2 as int) * ((total - c2) as int)
            <= 0x20000000000000000 * 0x10000000000) by (nonlinear_arith)
            requires
                0 <= (f as int) * (c2 as int) <= 0x20000000000000000,
                0 <= total - c2 <= 0x10000000000,
        ;
    }
    let rhs0: u128 = f * (cum as u128) * ((total - cum) as u128);
    let rhs2: u128 = f * (c2 as u128) * ((total - c2) as u128);
    lhs <= rhs0 && lhs <= rhs2
}

impl Digest {
    /// Drains the inbox into the summary, sorts it, and collapses adjacent
    /// centroids in one left-to-right sweep under the scale bound. A no-op
    /// when the inbox is empty, which makes a second call right after a
    /// merge leave the digest unchanged.
    pub fn merge(&mut self)
        requires
            old(self).wf(),
        ensures
            final(self).wf(),
            final(self)@ == spec_merge(old(self)@),
            old(self).unmerged@.len() == 0 ==> *final(self) == *old(self),
            sum_weights(final(self).merged@) == sum_weights(old(self).merged@) + sum_weights(
                old(self).unmerged@,
            ),
            sorted_by_value(final(self).merged@),
            final(self).unmerged@.len() == 0,
            final(self).merged@.len() <= old(self).merged@.len() + old(self).unmerged@.len(),
            final(self).merged.capacity == old(self).merged.capacity,
            final(self).merged.policy == old(self).merged.policy,
            final(self).unmerged.capacity == old(self).unmerged.capacity,
            final(self).unmerged.policy == old(self).unmerged.policy,
            final(self).delta == old(self).delta,
            final(self).mean == old(self).mean,
            final(self).variance == old(self).variance,
    {
        if self.unmerged.size() == 0 {
            proof {
                assert(self.unmerged@ =~= Seq::<Centroid>::empty());
            }
            return;
        }
        let combined: Vec<Centroid> = sort_two(&self.merged.centroids, &self.unmerged.centroids);
        let ghost s0 = combined@;
        proof {
            lemma_sum_nonneg(self.merged@);
            lemma_sum_nonneg(self.unmerged@);
        }
        let total: u64 = self.merged.weigh() + self.unmerged.weigh();
        let delta: u64 = self.delta;
        proof {
            assert(s0.len() >= 1);
            assert(wf_centroid(s0[0]));
            lemma_sum_skip_succ(s0, 0);
            lemma_sum_nonneg(s0.skip(1));
            assert(s0.skip(0) =~= s0);
        }
        let mut out: Vec<Centroid> = Vec::new();
        out.push(combined[0]);
        let mut cum: u64 = 0;
        let mut j: usize = 1;
        proof {
            assert(out@ =~= seq![s0[0]]);
            lemma_sum_push(Seq::<Centroid>::empty(), s0[0]);
        }
        while j < combined.len()
            invariant
                combined@ == s0,
                1 <= j <= s0.len(),
                sorted_by_value(s0),
                all_wf(s0),
                sum_weights(s0) == total as int,
                1 <= total <= WEIGHT_TOTAL_MAX,
                1 <= delta <= DELTA_MAX,
                1 <= out@.len() <= j,
                sorted_by_value(out@),
                all_wf(out@),
                cum as int == sum_weights(out@) - out@.last().weight,
                0 <= cum <= total,
                sum_weights(out@) + sum_weights(s0.skip(j as int)) == total as int,
                j < s0.len() ==> out@.last().value <= s0[j as int].value,
                merge_result(s0, delta as int) == sweep(
                    s0,
                    j as int,
                    out@,
                    cum as int,
                    total as int,
                    delta as int,
                ),
            decreases s0.len() - j,
        {
            let ghost out0 = out@;
            let oi = out.len() - 1;
            let o = out[oi];
            let c = combined[j];
            proof {
                assert(o == out@.last());
                assert(wf_centroid(c)) by {
                    assert(c == s0[j as int]);
                }
                lemma_weight_le_sum(out@, out@.len() - 1);
                lemma_sum_skip_succ(s0, j as int);
                lemma_sum_nonneg(s0.skip(j as int + 1));
                lemma_sum_nonneg(out@);
                assert(o.weight + c.weight <= total);
                assert(cum + (o.weight + c.weight) <= total);
            }
            let prop: u64 = o.weight + c.weight;
            let is_close: bool = (c.weight == o.weight) || ((c.weight as u128) * 10000000000
                < (o.weight as u128));
            proof {
                assert(is_close == close_weights(o.weight as int, c.weight as int));
            }
            let coll: bool = is_close || size_within_bound(total, cum, prop, delta);
            if coll {
                let dvi: i64 = c.value - o.value;
                proof {
                    assert(dvi >= 0);
                    lemma_mul_div_le(dvi as int, c.weight as int, prop as int);
                    assert((dvi as int) * (c.weight as int) <= 0x10000000000 * 0x10000000000)
                        by (nonlinear_arith)
                        requires
                            0 <= dvi <= 0x10000000000,
                            0 <= c.weight <= 0x10000000000,
                    ;
                }
                let step128: u128 = (dvi as u128) * (c.weight as u128) / (prop as u128);
                let step: i64 = step128 as i64;
                let vnew: i64 = o.value + step;
                let merged_c = Centroid { value: vnew, weight: prop };
                out.pop();
                out.push(merged_c);
                proof {
                    assert(merged_c == collapse_centroid(o, c));
                    assert(out@ =~= out0.update(out0.len() - 1, merged_c));
                    lemma_sum_update_last(out0, merged_c);
                    assert(sorted_by_value(out@)) by {
                        assert(forall|k: int|
                            0 <= k < out0.len() - 1 ==> #[trigger] out0[k].value <= o.value);
                        assert(vnew >= o.value);
                    }
                    assert(j + 1 < s0.len() ==> out@.last().value <= s0[j as int + 1].value) by {
                        assert(vnew <= c.value);
                        assert(c == s0[j as int]);
                    }
                }
            } else {
                cum = cum + o.weight;
                out.push(c);
                proof {
                    lemma_sum_push(out0, c);
                    assert(sorted_by_value(out@)) by {
                        assert(forall|k: int|
                            0 <= k < out0.len() ==> #[trigger] out0[k].value <= o.value);
                    }
                }
            }
            j += 1;
            proof {
                assert(s0.skip(j - 1).drop_first() =~= s0.skip(j as int));
                lemma_sum_skip_succ(s0, j - 1);
            }
        }
        proof {
            assert(s0.skip(s0.len() as int) =~= Seq::<Centroid>::empty());
            lemma_sum_nonneg(out@);
        }
        self.merged.centroids = out;
        self.unmerged.centroids.clear();
        self.weight = cum;
        self.processed = true;
        proof {
            assert(self.unmerged@ =~= Seq::<Centroid>::empty());
            assert(self@ == spec_merge(old(self)@));
        }
    }

    /// Ingests one weighted observation: merges first when the eager trigger
    /// fires, updates the running moments against the merged total, and
    /// appends the observation to the inbox.
    pub fn push(&mut self, value: i64, weight: u64)
        requires
            old(self).wf(),
            -VALUE_MAX <= value <= VALUE_MAX,
            1 <= weight,
            sum_weights(old(self).merged@) + sum_weights(old(self).unmerged@) + weight
                <= WEIGHT_TOTAL_MAX,
            old(self).can_push(),
        ensures
            final(self).wf(),
            final(self)@ == spec_push(old(self)@, value as int, weight as int),
            !final(self).processed,
            sum_weights(final(self).merged@) + sum_weights(final(self).unmerged@) == sum_weights(
                old(self).merged@,
            ) + sum_weights(old(self).unmerged@) + weight,
            final(self).merged@.len() + final(self).unmerged@.len() <= old(self).merged@.len()
                + old(self).unmerged@.len() + 1,
            final(self).merged.capacity == old(self).merged.capacity,
            final(self).merged.policy == old(self).merged.policy,
            final(self).unmerged.capacity == old(self).unmerged.capacity,
            final(self).unmerged.policy == old(self).unmerged.policy,
    {
        if self.should_merge() {
            self.merge();
        }
        proof {
            lemma_sum_nonneg(self.merged@);
            lemma_sum_nonneg(self.unmerged@);
            lemma_sum_nonneg(old(self).unmerged@);
        }
        let mtot: u64 = self.merged.weigh();
        let denom: u64 = weight + mtot;
        let m: i64 = self.mean;
        let var: u64 = self.variance;
        let dv: u64 = if value >= m {
            (value - m) as u64
        } else {
            (m - value) as u64
        };
        proof {
            lemma_mul_div_le(dv as int, weight as int, denom as int);
            assert((dv as int) * (weight as int) <= 0x10000000000 * 0x10000000000)
                by (nonlinear_arith)
                requires
                    0 <= dv <= 0x10000000000,
                    0 <= weight <= 0x10000000000,
            ;
        }
        let step128: u128 = (dv as u128) * (weight as u128) / (denom as u128);
        let step: i64 = step128 as i64;
        let new_mean: i64 = if value >= m {
            m + step
        } else {
            m - step
        };
        proof {
            assert((dv as int) * (dv as int) <= 0x10000000000 * 0x10000000000)
                by (nonlinear_arith)
                requires
                    0 <= dv <= 0x10000000000,
            ;
            lemma_div_is_ordered(
                (dv as int) * (dv as int),
                (0x10000000000 * 0x10000000000) as int,
                SCALE as int,
            );
            assert((0x10000000000 * 0x10000000000) as int / (SCALE as int)
                == 0x1000000000000000);
            lemma_div_pos_is_pos((dv as int) * (dv as int), SCALE as int);
        }
        let q128: u128 = (dv as u128) * (dv as u128) / (SCALE as u128);
        proof {
            assert((weight as int) * (q128 as int) <= 0x10000000000 * 0x1000000000000000)
                by (nonlinear_arith)
                requires
                    0 <= weight <= 0x10000000000,
                    0 <= q128 <= 0x1000000000000000,
            ;
            lemma_mul_div_le(q128 as int, weight as int, denom as int);
            vstd::arithmetic::mul::lemma_mul_is_commutative(weight as int, q128 as int);
        }
        let wq128: u128 = (weight as u128) * q128;
        let t128: u128 = (var as u128) + wq128 / (denom as u128);
        proof {
            assert((mtot as int) * (t128 as int) <= 0x10000000000 * 0x4000000000000000)
                by (nonlinear_arith)
                requires
                    0 <= mtot <= 0x10000000000,
                    0 <= t128 <= 0x4000000000000000,
            ;
            lemma_variance_step_bounded(
                var as int,
                q128 as int,
                weight as int,
                mtot as int,
            );
        }
        let nv128: u128 = (mtot as u128) * t128 / (denom as u128);
        let new_var: u64 = nv128 as u64;
        self.unmerged.push(Centroid { value, weight });
        self.mean = new_mean;
        self.variance = new_var;
        self.processed = false;
        proof {
            lemma_sum_push(old(self).unmerged@, Centroid { value, weight });
            lemma_sum_push(
                spec_merge(old(self)@).unmerged,
                Centroid { value, weight },
            );
            assert(self@ == spec_push(old(self)@, value as int, weight as int));
        }
    }

    /// Pushes every position of the batch in order, all with the same
    /// weight.
    pub fn append(&mut self, values: &Vec<i64>, weight: u64)
        requires
            old(self).wf(),
            1 <= weight,
            forall|i: int|
                0 <= i < values@.len() ==> -VALUE_MAX <= #[trigger] values@[i] <= VALUE_MAX,
            sum_weights(old(self).merged@) + sum_weights(old(self).unmerged@) + values@.len()
                * weight <= WEIGHT_TOTAL_MAX,
            old(self).merged.policy is Fixed ==> old(self).merged@.len()
                + old(self).unmerged@.len() + values@.len() <= old(self).merged.capacity,
        ensures
            final(self).wf(),
            final(self)@ == spec_append(old(self)@, values@, weight as int),
            final(self).merged.capacity == old(self).merged.capacity,
            final(self).merged.policy == old(self).merged.policy,
            final(self).unmerged.capacity == old(self).unmerged.capacity,
            final(self).unmerged.policy == old(self).unmerged.policy,
    {
        let n = values.len();
        let mut i: usize = 0;
        proof {
            assert(values@.take(0) =~= Seq::<i64>::empty());
        }
        while i < n
            invariant
                n == values@.len(),
                i <= n,
                1 <= weight,
                forall|k: int|
                    0 <= k < values@.len() ==> -VALUE_MAX <= #[trigger] values@[k] <= VALUE_MAX,
                self.wf(),
                self@ == spec_append(old(self)@, values@.take(i as int), weight as int),
                sum_weights(self.merged@) + sum_weights(self.unmerged@) + (n - i) * weight
                    <= WEIGHT_TOTAL_MAX,
                self.merged.policy is Fixed ==> self.merged@.len() + self.unmerged@.len() + (n
                    - i) <= self.merged.capacity,
                self.merged.capacity == old(self).merged.capacity,
                self.merged.policy == old(self).merged.policy,
                self.unmerged.capacity == old(self).unmerged.capacity,
                self.unmerged.policy == old(self).unmerged.policy,
            decreases n - i,
        {
            proof {
                assert((n - i) * weight == weight + (n - (i + 1)) * weight) by (nonlinear_arith)
                    requires
                        i < n,
                ;
            }
            self.push(values[i], weight);
            i += 1;
            proof {
                assert(values@.take(i as int).drop_last() =~= values@.take(i - 1));
                assert(values@.take(i as int).last() == values@[i - 1]);
            }
        }
        proof {
            assert(values@.take(n as int) =~= values@);
        }
    }
}

/// Merging is idempotent: a merge leaves the inbox empty, so a second merge
/// with no intervening push changes nothing — not the summary, not the
/// recorded weight, not the processed flag.
pub proof fn lemma_merge_idempotent(v: DigestView)
    ensures
        spec_merge(spec_merge(v)) == spec_merge(v),
{
}

/// The variance step keeps the estimate within the larger of the old
/// estimate and the squared deviation: the update is a convex combination
/// before truncation, and truncation only shrinks it.
pub proof fn lemma_variance_step_bounded(var: int, q: int, w: int, mt: int)
    requires
        0 <= var,
        0 <= q,
        1 <= w,
        0 <= mt,
    ensures
        0 <= mt * (var + w * q / (w + mt)) / (w + mt),
        mt * (var + w * q / (w + mt)) / (w + mt) <= if var >= q {
            var
        } else {
            q
        },
{
    let d = w + mt;
    let b = w * q / d;
    let t = var + b;
    assert(0 <= w * q) by (nonlinear_arith)
        requires
            0 <= q,
            1 <= w,
    ;
    lemma_div_pos_is_pos(w * q, d);
    vstd::arithmetic::div_mod::lemma_fundamental_div_mod(w * q, d);
    assert(0 <= (w * q) % d) by (nonlinear_arith)
        requires
            0 < d,
            0 <= w * q,
    ;
    assert(mt * b <= w * q) by (nonlinear_arith)
        requires
            0 <= b,
            0 <= mt,
            mt <= d,
            w * q == d * b + (w * q) % d,
            0 <= (w * q) % d,
    ;
    assert(0 <= mt * t) by (nonlinear_arith)
        requires
            0 <= mt,
            0 <= t,
    ;
    lemma_div_pos_is_pos(mt * t, d);
    if var >= q {
        assert(mt * t <= d * var) by (nonlinear_arith)
            requires
                t == var + b,
                mt * b <= w * q,
                0 <= q,
                q <= var,
                1 <= w,
                0 <= mt,
                d == w + mt,
        ;
        lemma_div_is_ordered(mt * t, d * var, d);
        vstd::arithmetic::div_mod::lemma_div_multiples_vanish(var, d);
    } else {
        assert(mt * t <= d * q) by (nonlinear_arith)
            requires
                t == var + b,
                mt * b <= w * q,
                0 <= var,
                var <= q,
                1 <= w,
                0 <= mt,
                d == w + mt,
        ;
        lemma_div_is_ordered(mt * t, d * q, d);
        vstd::arithmetic::div_mod::lemma_div_multiples_vanish(q, d);
    }
}

} // verus!
