use vstd::prelude::*;

use rayon::iter::IntoParallelRefIterator;
use rayon::iter::ParallelIterator;

verus! {

use crate::centroid::{
    all_wf, lemma_sum_nonneg, lemma_sum_split, lemma_sum_take_succ, lemma_weight_le_sum,
    sorted_by_value, sum_weights, Centroid,
};
use crate::digest::{spec_merge, Digest};
use crate::{CDF_ONE, VALUE_MAX};
use vstd::arithmetic::div_mod::{lemma_div_is_ordered, lemma_div_pos_is_pos,
    lemma_multiply_divide_le};

/// Index of the first centroid whose position is at least `v`; the length of
/// the sequence when every position is below `v`.
pub open spec fn first_ge(s: Seq<Centroid>, v: i64) -> int
    decreases s.len(),
{
    if s.len() == 0 {
        0
    } else if s[0].value >= v {
        0
    } else {
        1 + first_ge(s.drop_first(), v)
    }
}

pub proof fn lemma_first_ge_at(s: Seq<Centroid>, v: i64, p: int)
    requires
        0 <= p <= s.len(),
        forall|k: int| 0 <= k < p ==> #[trigger] s[k].value < v,
        p < s.len() ==> s[p].value >= v,
    ensures
        first_ge(s, v) == p,
    decreases p,
{
    if p == 0 {
    } else {
        assert(s[0].value < v);
        lemma_first_ge_at(s.drop_first(), v, p - 1);
    }
}

/// The tie window at an exact position match: total weight of the run of
/// centroids from `j` on whose weight does not exceed `w0`.
pub open spec fn tie_weights(s: Seq<Centroid>, j: int, w0: int) -> int
    decreases s.len() - j,
{
    if j < 0 || j >= s.len() {
        0
    } else if s[j].weight > w0 {
        0
    } else {
        s[j].weight + tie_weights(s, j + 1, w0)
    }
}

/// The approximate cumulative distribution at `v` over a sorted summary:
/// none on an empty summary; one past the largest position; at an exact
/// position match, the closed weight before the match plus half the tie
/// window, over the total; otherwise the linear interpolation between the
/// two neighboring centroids, all in exact fixed-point arithmetic scaled by
/// `CDF_ONE`.
pub open spec fn spec_cdf(s: Seq<Centroid>, v: i64) -> Option<u64> {
    let total = sum_weights(s);
    if s.len() == 0 {
        None
    } else {
        let i = first_ge(s, v);
        if i == s.len() {
            Some(CDF_ONE)
        } else if v == s[i].value {
            let num = 2 * sum_weights(s.take(i)) + s[i].weight + tie_weights(
                s,
                i + 1,
                s[i].weight as int,
            );
            Some((num * (CDF_ONE as int) / (2 * total)) as u64)
        } else if i == 0 {
            Some(0u64)
        } else {
            let k = sum_weights(s.take(i));
            let lv = s[i - 1].value as int;
            let lw = s[i - 1].weight as int;
            let rv = s[i].value as int;
            let rw = s[i].weight as int;
            let num = (2 * k - lw) * (rv - lv) + (v - lv) * (lw + rw);
            let den = 2 * total * (rv - lv);
            Some((num * (CDF_ONE as int) / den) as u64)
        }
    }
}

impl Digest {
    /// The point query over the merged summary alone; it does not look at
    /// the inbox.
    pub fn cdf_merged(&self, value: i64) -> (r: Option<u64>)
        requires
            self.wf(),
            -VALUE_MAX <= value <= VALUE_MAX,
        ensures
            r == spec_cdf(self.merged@, value),
            r is Some ==> r->0 <= CDF_ONE,
            r is None <==> self.merged@.len() == 0,
    {
        let ghost sq = self.merged@;
        let n = self.merged.centroids.len();
        if n == 0 {
            return None;
        }
        proof {
            lemma_sum_nonneg(self.unmerged@);
            lemma_weight_le_sum(sq, 0);
        }
        let total: u64 = self.merged.weigh();
        let mut k: u64 = 0;
        let mut i: usize = 0;
        proof {
            assert(sq.take(0) =~= Seq::<Centroid>::empty());
        }
        while i < n && self.merged.centroids[i].value < value
            invariant
                n == sq.len(),
                sq == self.merged@,
                i <= n,
                self.wf(),
                total as int == sum_weights(sq),
                k as int == sum_weights(sq.take(i as int)),
                0 <= k <= total,
                forall|t: int| 0 <= t < i ==> #[trigger] sq[t].value < value,
            decreases n - i,
        {
            proof {
                lemma_sum_take_succ(sq, i as int);
                lemma_sum_split(sq, i as int + 1);
                lemma_sum_nonneg(sq.skip(i as int + 1));
            }
            k = k + self.merged.centroids[i].weight;
            i += 1;
        }
        proof {
            lemma_first_ge_at(sq, value, i as int);
        }
        if i == n {
            return Some(CDF_ONE);
        }
        let c = self.merged.centroids[i];
        if value == c.value {
            let w0 = c.weight;
            let mut tie: u64 = w0;
            let mut j = i + 1;
            proof {
                lemma_sum_take_succ(sq, i as int);
                lemma_sum_split(sq, i as int + 1);
                lemma_sum_nonneg(sq.skip(i as int + 1));
            }
            while j < n && self.merged.centroids[j].weight <= w0
                invariant
                    n == sq.len(),
                    sq == self.merged@,
                    self.wf(),
                    i < n,
                    i + 1 <= j <= n,
                    total as int == sum_weights(sq),
                    k as int == sum_weights(sq.take(i as int)),
                    w0 == sq[i as int].weight,
                    tie as int == sum_weights(sq.take(j as int)) - k,
                    tie as int + tie_weights(sq, j as int, w0 as int) == w0 + tie_weights(
                        sq,
                        i as int + 1,
                        w0 as int,
                    ),
                    0 <= tie,
                    k + tie <= total,
                decreases n - j,
            {
                proof {
                    lemma_sum_take_succ(sq, j as int);
                    lemma_sum_split(sq, j as int + 1);
                    lemma_sum_nonneg(sq.skip(j as int + 1));
                }
                tie = tie + self.merged.centroids[j].weight;
                j += 1;
            }
            let num: u128 = 2 * (k as u128) + (tie as u128);
            let den: u128 = 2 * (total as u128);
            proof {
                assert(num * (CDF_ONE as u128) <= den * (CDF_ONE as u128)) by (nonlinear_arith)
                    requires
                        num <= den,
                ;
                lemma_multiply_divide_le(
                    (num * (CDF_ONE as u128)) as int,
                    den as int,
                    CDF_ONE as int,
                );
                lemma_div_pos_is_pos((num * (CDF_ONE as u128)) as int, den as int);
            }
            let q: u128 = num * (CDF_ONE as u128) / den;
            return Some(q as u64);
        }
        if i == 0 {
            return Some(0);
        }
        let left = self.merged.centroids[i - 1];
        proof {
            lemma_sum_take_succ(sq, i as int - 1);
            lemma_sum_nonneg(sq.take(i as int - 1));
            lemma_sum_take_succ(sq, i as int);
            lemma_sum_split(sq, i as int + 1);
            lemma_sum_nonneg(sq.skip(i as int + 1));
        }
        proof {
            assert(sq[i as int - 1].value < value);
            assert(c.value > value);
        }
        let a: u128 = 2 * (k as u128) - (left.weight as u128);
        let dr: u128 = ((c.value - left.value) as u64) as u128;
        let dq: u128 = ((value - left.value) as u64) as u128;
        let ws: u128 = (left.weight as u128) + (c.weight as u128);
        proof {
            assert(1 <= dr);
            assert(1 <= dq);
            assert(dq < dr);
        }
        proof {
            assert(a * dr <= 0x40000000000 * 0x20000000000) by (nonlinear_arith)
                requires
                    0 <= a <= 0x40000000000,
                    0 <= dr <= 0x20000000000,
            ;
            assert(dq * ws <= 0x20000000000 * 0x20000000000) by (nonlinear_arith)
                requires
                    0 <= dq <= 0x20000000000,
                    0 <= ws <= 0x20000000000,
            ;
        }
        let num: u128 = a * dr + dq * ws;
        proof {
            assert((2 * (total as int)) * (dr as int) <= 0x20000000000 * 0x20000000000)
                by (nonlinear_arith)
                requires
                    0 <= total <= 0x10000000000,
                    0 <= dr <= 0x20000000000,
            ;
        }
        let den: u128 = 2 * (total as u128) * dr;
        proof {
            assert(den >= 2) by (nonlinear_arith)
                requires
                    total >= 1,
                    dr >= 1,
                    den == 2 * (total as u128) * dr,
            ;
            assert(num <= den) by (nonlinear_arith)
                requires
                    num == a * dr + dq * ws,
                    den == 2 * (total as u128) * dr,
                    0 < dr,
                    dq < dr,
                    0 <= a,
                    a + ws <= 2 * (total as u128),
                    0 <= ws,
            ;
            assert(num * (CDF_ONE as u128) <= den * (CDF_ONE as u128)) by (nonlinear_arith)
                requires
                    num <= den,
            ;
            assert(num * (CDF_ONE as u128) <= 0x800000000000000000000 * 0x100000000)
                by (nonlinear_arith)
                requires
                    0 <= num <= 0x800000000000000000000,
            ;
            lemma_multiply_divide_le(
                (num * (CDF_ONE as u128)) as int,
                den as int,
                CDF_ONE as int,
            );
            lemma_div_pos_is_pos((num * (CDF_ONE as u128)) as int, den as int);
        }
        let q: u128 = num * (CDF_ONE as u128) / den;
        Some(q as u64)
    }

    /// The cumulative-distribution query: brings the summary up to date
    /// first when observations are pending, then reads the merged summary.
    pub fn cdf(&mut self, value: i64) -> (r: Option<u64>)
        requires
            old(self).wf(),
            -VALUE_MAX <= value <= VALUE_MAX,
        ensures
            final(self).wf(),
            final(self)@ == spec_merge(old(self)@),
            r == spec_cdf(spec_merge(old(self)@).merged, value),
            r is Some ==> r->0 <= CDF_ONE,
            r is None <==> final(self).merged@.len() == 0,
    {
        if !self.processed {
            self.merge();
        }
        self.cdf_merged(value)
    }

    /// The batch query: every input position is answered independently
    /// against the same up-to-date summary, in input order, so the parallel
    /// and the sequential mode return element-for-element equal results.
    pub fn cdfs(&mut self, values: &Vec<i64>, multithreaded: bool) -> (r: Vec<Option<u64>>)
        requires
            old(self).wf(),
            forall|t: int|
                0 <= t < values@.len() ==> -VALUE_MAX <= #[trigger] values@[t] <= VALUE_MAX,
        ensures
            final(self).wf(),
            final(self)@ == spec_merge(old(self)@),
            r@.len() == values@.len(),
            forall|t: int|
                0 <= t < values@.len() ==> #[trigger] r@[t] == spec_cdf(
                    spec_merge(old(self)@).merged,
                    values@[t],
                ),
    {
        if !self.processed {
            self.merge();
        }
        if multithreaded {
            cdfs_parallel(self, values)
        } else {
            let n = values.len();
            let mut out: Vec<Option<u64>> = Vec::new();
            let mut i: usize = 0;
            while i < n
                invariant
                    n == values@.len(),
                    i <= n,
                    self.wf(),
                    self@ == spec_merge(old(self)@),
                    forall|t: int|
                        0 <= t < values@.len() ==> -VALUE_MAX <= #[trigger] values@[t]
                            <= VALUE_MAX,
                    out@.len() == i,
                    forall|t: int|
                        0 <= t < i ==> #[trigger] out@[t] == spec_cdf(
                            self.merged@,
                            values@[t],
                        ),
                decreases n - i,
            {
                let r = self.cdf_merged(values[i]);
                out.push(r);
                i += 1;
            }
            out
        }
    }
}

/// Relies on rayon's parallel iterator pipeline: `par_iter().map(f).collect()`
/// into a `Vec` applies `f` independently to every element and collects the
/// results in input order; `f` here is the digest's own verified point query.
#[verifier::external_body]
fn cdfs_parallel(d: &Digest, values: &Vec<i64>) -> (r: Vec<Option<u64>>)
    requires
        d.wf(),
        forall|t: int|
            0 <= t < values@.len() ==> -VALUE_MAX <= #[trigger] values@[t] <= VALUE_MAX,
    ensures
        r@.len() == values@.len(),
        forall|t: int|
            0 <= t < values@.len() ==> #[trigger] r@[t] == spec_cdf(d.merged@, values@[t]),
{
    values.par_iter().map(|value: &i64| d.cdf_merged(*value)).collect()
}

pub proof fn lemma_first_ge_props(s: Seq<Centroid>, v: i64)
    ensures
        0 <= first_ge(s, v) <= s.len(),
        forall|k: int| 0 <= k < first_ge(s, v) ==> #[trigger] s[k].value < v,
        first_ge(s, v) < s.len() ==> s[first_ge(s, v)].value >= v,
    decreases s.len(),
{
    if s.len() == 0 {
    } else if s[0].value >= v {
    } else {
        let d = s.drop_first();
        lemma_first_ge_props(d, v);
        assert(forall|k: int|
            1 <= k < first_ge(s, v) ==> #[trigger] s[k].value == d[k - 1].value);
    }
}

/// Prefix sums of weights are monotone in the prefix length.
proof fn lemma_sum_take_monotone(s: Seq<Centroid>, i: int, j: int)
    requires
        0 <= i <= j <= s.len(),
    ensures
        sum_weights(s.take(i)) <= sum_weights(s.take(j)),
{
    assert(s.take(j).take(i) =~= s.take(i));
    lemma_sum_split(s.take(j), i);
    lemma_sum_nonneg(s.take(j).skip(i));
}

/// Division respects rational order: if `n1/d1 <= n2/d2` as exact fractions,
/// the floored scaled quotients are ordered the same way.
pub proof fn lemma_rational_div_le(n1: int, d1: int, n2: int, d2: int, c: int)
    requires
        0 <= n1,
        0 < d1,
        0 < d2,
        0 <= c,
        n1 * d2 <= n2 * d1,
    ensures
        n1 * c / d1 <= n2 * c / d2,
{
    let q1 = n1 * c / d1;
    assert(0 <= n1 * c) by (nonlinear_arith)
        requires
            0 <= n1,
            0 <= c,
    ;
    lemma_div_pos_is_pos(n1 * c, d1);
    vstd::arithmetic::div_mod::lemma_fundamental_div_mod(n1 * c, d1);
    assert(0 <= (n1 * c) % d1) by (nonlinear_arith)
        requires
            0 < d1,
            0 <= n1 * c,
    ;
    assert(q1 * d1 <= n1 * c) by (nonlinear_arith)
        requires
            n1 * c == d1 * q1 + (n1 * c) % d1,
            0 <= (n1 * c) % d1,
    ;
    assert(q1 * d1 * d2 <= n2 * d1 * c) by (nonlinear_arith)
        requires
            q1 * d1 <= n1 * c,
            n1 * d2 <= n2 * d1,
            0 <= c,
            0 < d2,
            0 <= n1 * c,
    ;
    assert(q1 * d2 <= n2 * c) by (nonlinear_arith)
        requires
            q1 * d1 * d2 <= n2 * d1 * c,
            0 < d1,
    ;
    lemma_div_is_ordered(q1 * d2, n2 * c, d2);
    vstd::arithmetic::mul::lemma_mul_is_commutative(q1, d2);
    vstd::arithmetic::div_mod::lemma_div_multiples_vanish(q1, d2);
}

/// Exact bounds on the interpolated cell value: it lies between the closed
/// weight before the cell (less half the left weight) and the same plus the
/// right weight, scaled over the total.
proof fn lemma_cell_bounds(s: Seq<Centroid>, v: i64)
    requires
        sorted_by_value(s),
        all_wf(s),
        0 < first_ge(s, v) < s.len(),
        v != s[first_ge(s, v)].value,
    ensures
        ({
            let i = first_ge(s, v);
            let total = sum_weights(s);
            let k = sum_weights(s.take(i));
            let lw = s[i - 1].weight as int;
            let rw = s[i].weight as int;
            let lv = s[i - 1].value as int;
            let rv = s[i].value as int;
            let num = (2 * k - lw) * (rv - lv) + (v - lv) * (lw + rw);
            let den = 2 * total * (rv - lv);
            &&& 0 < rv - lv
            &&& lw <= k
            &&& k + rw <= total
            &&& 0 < den
            &&& 0 <= num * (CDF_ONE as int) / den <= CDF_ONE as int
            &&& num * (CDF_ONE as int) / den <= ((2 * k + rw) * (CDF_ONE as int)) / (2 * total)
            &&& ((2 * k - lw) * (CDF_ONE as int)) / (2 * total) <= num * (CDF_ONE as int) / den
        }),
{
    lemma_first_ge_props(s, v);
    let i = first_ge(s, v);
    let total = sum_weights(s);
    let k = sum_weights(s.take(i));
    let lw = s[i - 1].weight as int;
    let rw = s[i].weight as int;
    let lv = s[i - 1].value as int;
    let rv = s[i].value as int;
    let num = (2 * k - lw) * (rv - lv) + (v - lv) * (lw + rw);
    let den = 2 * total * (rv - lv);
    let c = CDF_ONE as int;
    assert(lv < v);
    assert(v < rv);
    lemma_sum_take_succ(s, i - 1);
    lemma_sum_nonneg(s.take(i - 1));
    lemma_sum_take_succ(s, i);
    lemma_sum_split(s, i + 1);
    lemma_sum_nonneg(s.skip(i + 1));
    assert(0 < den) by (nonlinear_arith)
        requires
            den == 2 * total * (rv - lv),
            total >= 1,
            rv - lv >= 1,
    ;
    assert((2 * k - lw) * (rv - lv) <= num && num <= (rv - lv) * (2 * k + rw) && 0 <= num)
        by (nonlinear_arith)
        requires
            num == (2 * k - lw) * (rv - lv) + (v - lv) * (lw + rw),
            lv < v < rv,
            1 <= lw <= k,
            1 <= rw,
    ;
    assert(num * (2 * total) <= (2 * k + rw) * den) by (nonlinear_arith)
        requires
            num <= (rv - lv) * (2 * k + rw),
            den == 2 * total * (rv - lv),
            total >= 1,
            rv - lv >= 1,
            0 <= 2 * k + rw,
    ;
    lemma_rational_div_le(num, den, 2 * k + rw, 2 * total, c);
    assert((2 * k - lw) * den <= num * (2 * total)) by (nonlinear_arith)
        requires
            (2 * k - lw) * (rv - lv) <= num,
            den == 2 * total * (rv - lv),
            total >= 1,
            rv - lv >= 1,
            0 <= 2 * k - lw,
    ;
    lemma_rational_div_le(2 * k - lw, 2 * total, num, den, c);
    assert(0 <= num * c) by (nonlinear_arith)
        requires
            0 <= num,
            0 <= c,
    ;
    lemma_div_pos_is_pos(num * c, den);
    assert((2 * k + rw) * c <= (2 * total) * c) by (nonlinear_arith)
        requires
            2 * k + rw <= 2 * total,
            0 <= c,
    ;
    lemma_multiply_divide_le((2 * k + rw) * c, 2 * total, c);
}

/// Monotonicity of the distribution query: between two positions that match
/// no centroid exactly, the lower position never gets the larger answer.
/// At a position exactly equal to a centroid's, the symmetric tie-break can
/// answer above the neighboring interpolation, so those positions are
/// excluded.
pub proof fn lemma_cdf_monotone(s: Seq<Centroid>, a: i64, b: i64)
    requires
        sorted_by_value(s),
        all_wf(s),
        a <= b,
        forall|k: int| 0 <= k < s.len() ==> #[trigger] s[k].value != a,
        forall|k: int| 0 <= k < s.len() ==> #[trigger] s[k].value != b,
    ensures
        s.len() == 0 ==> spec_cdf(s, a) is None && spec_cdf(s, b) is None,
        s.len() > 0 ==> spec_cdf(s, a)->0 <= spec_cdf(s, b)->0,
{
    if s.len() == 0 {
        return;
    }
    let n = s.len() as int;
    let total = sum_weights(s);
    let c = CDF_ONE as int;
    lemma_first_ge_props(s, a);
    lemma_first_ge_props(s, b);
    lemma_weight_le_sum(s, 0);
    let ia = first_ge(s, a);
    let ib = first_ge(s, b);
    if ib < ia {
        assert(s[ib].value >= b);
        assert(s[ib].value < a);
        assert(false);
    }
    if ia == ib {
        if ia == n || ia == 0 {
        } else {
            lemma_cell_bounds(s, a);
            lemma_cell_bounds(s, b);
            let i = ia;
            let k = sum_weights(s.take(i));
            let lw = s[i - 1].weight as int;
            let rw = s[i].weight as int;
            let lv = s[i - 1].value as int;
            let rv = s[i].value as int;
            let numa = (2 * k - lw) * (rv - lv) + (a - lv) * (lw + rw);
            let numb = (2 * k - lw) * (rv - lv) + (b - lv) * (lw + rw);
            let den = 2 * total * (rv - lv);
            assert(numa * c <= numb * c) by (nonlinear_arith)
                requires
                    numa == (2 * k - lw) * (rv - lv) + (a - lv) * (lw + rw),
                    numb == (2 * k - lw) * (rv - lv) + (b - lv) * (lw + rw),
                    a <= b,
                    1 <= lw,
                    1 <= rw,
                    0 <= c,
            ;
            lemma_div_is_ordered(numa * c, numb * c, den);
        }
    } else {
        // ia < ib: bound the left value above by the cell's closing weight
        // and the right value below by its cell's opening weight.
        let mida = if ia == 0 {
            0
        } else {
            sum_weights(s.take(ia)) * 2 + s[ia].weight
        };
        let midb = if ib == n {
            2 * total
        } else {
            sum_weights(s.take(ib)) * 2 - s[ib - 1].weight
        };
        if ia > 0 {
            lemma_cell_bounds(s, a);
        }
        if ib < n {
            lemma_cell_bounds(s, b);
        }
        // mida <= midb through the prefix sums.
        lemma_sum_take_succ(s, ia);
        lemma_sum_nonneg(s.take(ia));
        if ib < n {
            lemma_sum_take_succ(s, ib - 1);
            lemma_sum_take_monotone(s, ia + 1, ib);
            lemma_sum_take_monotone(s, ia, ib - 1);
            if ia > 0 {
                assert(mida <= midb);
            }
        } else {
            lemma_sum_take_monotone(s, ia + 1, n);
            assert(s.take(n) =~= s);
            lemma_sum_take_succ(s, ia);
            if ia > 0 {
                assert(mida <= 2 * total);
            }
        }
        assert(0 <= mida);
        assert(mida * c <= midb * c) by (nonlinear_arith)
            requires
                mida <= midb,
                0 <= c,
        ;
        lemma_div_is_ordered(mida * c, midb * c, 2 * total);
        if ia == 0 {
            assert(spec_cdf(s, a) == Some(0u64));
        }
        if ib == n {
            vstd::arithmetic::div_mod::lemma_div_multiples_vanish(c, 2 * total);
            assert((2 * total) * c == c * (2 * total)) by (nonlinear_arith);
            assert(midb * c / (2 * total) == c);
        } else {
            assert(0 <= midb * c) by (nonlinear_arith)
                requires
                    0 <= midb,
                    0 <= c,
            ;
            lemma_div_pos_is_pos(midb * c, 2 * total);
        }
    }
}

/// Boundary behavior of the distribution query: undefined on an empty
/// summary, zero strictly below the smallest position, one strictly above
/// the largest.
pub proof fn lemma_cdf_boundaries(s: Seq<Centroid>, v: i64)
    requires
        sorted_by_value(s),
    ensures
        s.len() == 0 ==> spec_cdf(s, v) is None,
        s.len() > 0 && v < s[0].value ==> spec_cdf(s, v) == Some(0u64),
        s.len() > 0 && v > s.last().value ==> spec_cdf(s, v) == Some(CDF_ONE),
{
    if s.len() > 0 {
        if v < s[0].value {
            lemma_first_ge_at(s, v, 0);
        } else if v > s.last().value {
            assert(forall|k: int| 0 <= k < s.len() ==> #[trigger] s[k].value < v);
            lemma_first_ge_at(s, v, s.len() as int);
        }
    }
}

} // verus!
