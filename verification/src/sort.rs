use vstd::prelude::*;

verus! {

use crate::centroid::{
    all_wf, lemma_sum_insert, sorted_by_value, sum_weights, wf_centroid, Centroid,
};

/// Insertion of one centroid into a position-sorted sequence, keeping it
/// sorted; the new element goes before the first strictly larger position.
pub open spec fn insert_sorted_spec(s: Seq<Centroid>, c: Centroid) -> Seq<Centroid>
    decreases s.len(),
{
    if s.len() == 0 {
        seq![c]
    } else if c.value < s[0].value {
        seq![c] + s
    } else {
        seq![s[0]] + insert_sorted_spec(s.drop_first(), c)
    }
}

/// Insertion sort of a centroid sequence by position.
pub open spec fn sort_by_value(s: Seq<Centroid>) -> Seq<Centroid>
    decreases s.len(),
{
    if s.len() == 0 {
        Seq::<Centroid>::empty()
    } else {
        insert_sorted_spec(sort_by_value(s.drop_last()), s.last())
    }
}

/// The recursive insertion lands exactly at the scan position: the first
/// index whose position is strictly larger than the inserted one.
pub proof fn lemma_insert_sorted_at(s: Seq<Centroid>, c: Centroid, p: int)
    requires
        0 <= p <= s.len(),
        forall|k: int| 0 <= k < p ==> #[trigger] s[k].value <= c.value,
        p < s.len() ==> c.value < s[p].value,
    ensures
        insert_sorted_spec(s, c) == s.insert(p, c),
    decreases p,
{
    if p == 0 {
        if s.len() == 0 {
            assert(insert_sorted_spec(s, c) =~= s.insert(0, c));
        } else {
            assert(c.value < s[0].value);
            assert(seq![c] + s =~= s.insert(0, c));
        }
    } else {
        assert(s[0].value <= c.value);
        let d = s.drop_first();
        lemma_insert_sorted_at(d, c, p - 1);
        assert(seq![s[0]] + d.insert(p - 1, c) =~= s.insert(p, c));
    }
}

/// Inserts one centroid into a sorted vector, keeping it sorted.
pub fn insert_sorted(v: &mut Vec<Centroid>, c: Centroid)
    requires
        sorted_by_value(old(v)@),
    ensures
        final(v)@ == insert_sorted_spec(old(v)@, c),
        sorted_by_value(final(v)@),
        final(v)@.len() == old(v)@.len() + 1,
        sum_weights(final(v)@) == sum_weights(old(v)@) + c.weight,
        all_wf(old(v)@) && wf_centroid(c) ==> all_wf(final(v)@),
{
    let n = v.len();
    let mut i: usize = 0;
    while i < n && v[i].value <= c.value
        invariant
            n == v@.len(),
            i <= n,
            v@ == old(v)@,
            forall|k: int| 0 <= k < i ==> #[trigger] v@[k].value <= c.value,
        decreases n - i,
    {
        i += 1;
    }
    proof {
        lemma_insert_sorted_at(v@, c, i as int);
        lemma_sum_insert(v@, i as int, c);
        old(v)@.insert_ensures(i as int, c);
    }
    v.insert(i, c);
}

/// Builds the sorted concatenation of two centroid vectors.
pub fn sort_two(a: &Vec<Centroid>, b: &Vec<Centroid>) -> (r: Vec<Centroid>)
    ensures
        r@ == sort_by_value(a@ + b@),
        sorted_by_value(r@),
        r@.len() == a@.len() + b@.len(),
        sum_weights(r@) == sum_weights(a@) + sum_weights(b@),
        all_wf(a@) && all_wf(b@) ==> all_wf(r@),
{
    let ghost s = a@ + b@;
    let mut r: Vec<Centroid> = Vec::new();
    let mut i: usize = 0;
    proof {
        assert(s.take(0) =~= Seq::<Centroid>::empty());
        crate::centroid::lemma_sum_nonneg(Seq::<Centroid>::empty());
    }
    while i < a.len()
        invariant
            i <= a@.len(),
            s == a@ + b@,
            r@ == sort_by_value(s.take(i as int)),
            sorted_by_value(r@),
            r@.len() == i,
            sum_weights(r@) == sum_weights(a@.take(i as int)),
            all_wf(a@) ==> all_wf(r@),
        decreases a@.len() - i,
    {
        let c = a[i];
        proof {
            assert(s.take(i + 1).drop_last() =~= s.take(i as int));
            assert(s.take(i + 1).last() == c);
            assert(a@.take(i + 1).drop_last() =~= a@.take(i as int));
            assert(a@.take(i + 1).last() == c);
            if all_wf(a@) {
                assert(wf_centroid(a@[i as int]));
            }
        }
        insert_sorted(&mut r, c);
        i += 1;
    }
    proof {
        assert(a@.take(a@.len() as int) =~= a@);
        assert(s.take(a@.len() as int) =~= a@);
    }
    let mut j: usize = 0;
    while j < b.len()
        invariant
            j <= b@.len(),
            s == a@ + b@,
            r@ == sort_by_value(s.take(a@.len() + j)),
            sorted_by_value(r@),
            r@.len() == a@.len() + j,
            sum_weights(r@) == sum_weights(a@) + sum_weights(b@.take(j as int)),
            all_wf(a@) && all_wf(b@) ==> all_wf(r@),
        decreases b@.len() - j,
    {
        let c = b[j];
        proof {
            assert(s.take(a@.len() + j + 1).drop_last() =~= s.take(a@.len() + j));
            assert(s.take(a@.len() + j + 1).last() == c);
            assert(b@.take(j + 1).drop_last() =~= b@.take(j as int));
            assert(b@.take(j + 1).last() == c);
            if all_wf(b@) {
                assert(wf_centroid(b@[j as int]));
            }
        }
        insert_sorted(&mut r, c);
        j += 1;
    }
    proof {
        assert(s.take(a@.len() + b@.len() as int) =~= s);
        assert(b@.take(b@.len() as int) =~= b@);
    }
    r
}

} // verus!
