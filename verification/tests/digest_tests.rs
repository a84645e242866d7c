use tdigest::centroid::Centroid;
use tdigest::container::CapacityPolicy;
use tdigest::digest::Digest;
use tdigest::{CDF_ONE, SCALE};

const S: i64 = SCALE as i64;
const W: u64 = SCALE;

#[test]
fn empty_digest_has_undefined_cdf() {
    let mut d: Digest = Digest::new(100);
    assert_eq!(d.cdf(5 * S), None);
}

#[test]
fn single_point_scenario() {
    let mut d: Digest = Digest::new(100);
    d.push(5 * S, 2 * W);
    d.merge();
    assert_eq!(d.cdf(5 * S), Some(CDF_ONE / 2));
    assert_eq!(d.cdf(4 * S), Some(0));
    assert_eq!(d.cdf(6 * S), Some(CDF_ONE));
    // The recorded weight is the cumulative weight of the closed centroids,
    // which excludes the final still-open one; with a single centroid it is
    // zero, while the summary itself carries the full weight.
    assert_eq!(d.weight, 0);
    assert_eq!(d.merged.weigh(), 2 * W);
}

#[test]
fn concrete_scenario_weight_conservation() {
    let mut d: Digest = Digest::new(100);
    d.push(1 * S, W);
    d.push(4 * S, W);
    d.push(3 * S, W);
    d.push(2 * S, W);
    d.push(1 * S, W);
    d.append(&vec![1 * S], W);
    d.merge();
    let total: u64 = d.merged.weigh();
    assert_eq!(total, 6 * W);
    let at_one: u64 = d.cdf(1 * S).unwrap();
    let at_four: u64 = d.cdf(4 * S).unwrap();
    assert!(at_one <= CDF_ONE);
    assert_eq!(at_four, CDF_ONE);
    assert!(at_one < at_four);
}

#[test]
fn merge_is_idempotent() {
    let mut d: Digest = Digest::new(100);
    d.push(1 * S, W);
    d.push(2 * S, 3 * W);
    d.push(7 * S, W);
    d.merge();
    let weight_first: u64 = d.weight;
    let size_first: usize = d.merged.size();
    let values_first: Vec<(i64, u64)> =
        d.merged.centroids.iter().map(|c: &Centroid| (c.value, c.weight)).collect();
    assert!(d.processed);
    d.merge();
    assert_eq!(d.weight, weight_first);
    assert_eq!(d.merged.size(), size_first);
    let values_second: Vec<(i64, u64)> =
        d.merged.centroids.iter().map(|c: &Centroid| (c.value, c.weight)).collect();
    assert_eq!(values_first, values_second);
    assert!(d.processed);
}

#[test]
fn merged_centroids_are_sorted_and_positive() {
    let mut d: Digest = Digest::new(5);
    let batch: Vec<i64> = vec![9 * S, -3 * S, 4 * S, 0, 4 * S, -7 * S, 2 * S, 2 * S];
    d.append(&batch, W);
    d.merge();
    let cs: &Vec<Centroid> = &d.merged.centroids;
    assert!(cs.len() >= 1);
    for i in 1..cs.len() {
        assert!(cs[i - 1].value <= cs[i].value);
    }
    let mut total: u64 = 0;
    for c in cs.iter() {
        assert!(c.weight >= 1);
        total += c.weight;
    }
    assert_eq!(total, 8 * W);
}

#[test]
fn interpolation_exact_value() {
    let mut d: Digest = Digest::new(100);
    d.push(1 * S, W);
    d.push(3 * S, 2 * W);
    d.merge();
    assert_eq!(d.merged.size(), 2);
    // Between the two centroids the query interpolates linearly:
    // (k - lw/2 + (v-lv)*(lw+rw)/2/(rv-lv)) / total = 5/12 at v = 2.
    let expected: u64 = (5u64 * CDF_ONE as u64) / 12;
    assert_eq!(d.cdf(2 * S), Some(expected));
}

#[test]
fn cdf_is_monotone_on_samples() {
    let mut d: Digest = Digest::new(50);
    let batch: Vec<i64> = vec![-5 * S, -2 * S, 0, S / 2, S, 3 * S, 8 * S, 8 * S, 9 * S];
    d.append(&batch, W);
    d.merge();
    // Off-grid queries: at a position exactly equal to a centroid's, the
    // symmetric tie-break can answer above the neighboring interpolation, so
    // monotonicity is stated between positions that match no centroid.
    let queries: Vec<i64> = (-12..=12).map(|x: i64| x * S / 2 + 1).collect();
    let mut last: u64 = 0;
    for q in queries {
        let v: u64 = d.cdf(q).unwrap();
        assert!(v >= last, "cdf must not decrease");
        assert!(v <= CDF_ONE);
        last = v;
    }
}

#[test]
fn parallel_and_sequential_cdfs_agree() {
    let mut d: Digest = Digest::new(100);
    let batch: Vec<i64> = vec![1 * S, 2 * S, 2 * S, 5 * S, -4 * S, 7 * S];
    d.append(&batch, 2 * W);
    let queries: Vec<i64> = vec![-10 * S, -4 * S, 0, 1 * S, 3 * S, 5 * S, 7 * S, 20 * S];
    let sequential: Vec<Option<u64>> = d.cdfs(&queries, false);
    let parallel: Vec<Option<u64>> = d.cdfs(&queries, true);
    assert_eq!(sequential.len(), queries.len());
    assert_eq!(sequential, parallel);
    // The parallel path must produce real query answers, not echoes.
    assert_eq!(parallel[0], Some(0));
    assert_eq!(parallel[7], Some(CDF_ONE));
    assert!(parallel[3].unwrap() > 0);
}

#[test]
fn append_matches_repeated_push() {
    let mut a: Digest = Digest::new(30);
    let mut b: Digest = Digest::new(30);
    let batch: Vec<i64> = vec![2 * S, -1 * S, 4 * S, 4 * S];
    a.append(&batch, W);
    for v in &batch {
        b.push(*v, W);
    }
    let queries: Vec<i64> = vec![-2 * S, 0, 2 * S, 3 * S, 5 * S];
    assert_eq!(a.cdfs(&queries, false), b.cdfs(&queries, false));
    assert_eq!(a.mean, b.mean);
    assert_eq!(a.variance, b.variance);
}

#[test]
fn fixed_policy_digest_works_within_capacity() {
    let mut d: Digest = Digest::with_policy(10, CapacityPolicy::Fixed);
    d.push(1 * S, W);
    d.push(2 * S, W);
    d.push(3 * S, W);
    d.merge();
    assert_eq!(d.merged.weigh(), 3 * W);
    assert!(d.cdf(2 * S).unwrap() > 0);
}

#[test]
fn query_on_stale_digest_merges_first() {
    let mut d: Digest = Digest::new(100);
    d.push(1 * S, W);
    d.push(2 * S, W);
    assert!(!d.processed);
    let r: Option<u64> = d.cdf(3 * S);
    assert_eq!(r, Some(CDF_ONE));
    assert!(d.processed);
}

#[test]
fn capacity_trigger_merges_inside_push() {
    // delta = 1 gives capacity 16, so a long run of pushes crosses the soft
    // threshold and forces merges from inside push; no weight may be lost.
    let mut d: Digest = Digest::new(1);
    for x in 0..40 {
        let v: i64 = ((x * 7) % 11 - 5) * S;
        d.push(v, W);
    }
    d.merge();
    assert_eq!(d.merged.weigh(), 40 * W);
    assert!(d.merged.size() <= 16);
    let cs: &Vec<Centroid> = &d.merged.centroids;
    for i in 1..cs.len() {
        assert!(cs[i - 1].value <= cs[i].value);
    }
}

#[test]
fn centroid_order_ignores_weight() {
    let a: Centroid = Centroid { value: 1 * S, weight: 9 * W };
    let b: Centroid = Centroid { value: 2 * S, weight: W };
    let c: Centroid = Centroid { value: 1 * S, weight: W };
    assert_eq!(a.cmp(&b), std::cmp::Ordering::Less);
    assert_eq!(b.cmp(&a), std::cmp::Ordering::Greater);
    assert_eq!(a.cmp(&c), std::cmp::Ordering::Equal);
}

#[test]
fn running_moments_track_pushes() {
    let mut d: Digest = Digest::new(100);
    assert_eq!(d.mean, 0);
    assert_eq!(d.variance, SCALE);
    d.push(4 * S, W);
    // First push against an empty summary moves the mean all the way.
    assert_eq!(d.mean, 4 * S);
    d.push(8 * S, W);
    d.merge();
    assert!(d.mean > 4 * S);
    assert!(d.mean <= 8 * S);
}
