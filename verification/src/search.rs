//! Sorted integer sequences: building one from arbitrary values, locating a
//! value, and counting the entries below a bound.
use vstd::prelude::*;
use crate::sort::{SortKey, sort_keys, sorted_keys, key_le};

verus! {

pub open spec fn strictly_increasing(s: Seq<i32>) -> bool {
    forall|i: int, j: int| 0 <= i < j < s.len() ==> s[i] < s[j]
}

/// The key of value `v` at position `i`, for sorting values.
pub open spec fn value_key(v: i32, i: int) -> SortKey {
    (v as i64, 0i64, 0i64, 0i64, i as usize)
}

/// Every position of a sorted permutation holds one of the input keys, and
/// every input key occurs at some position.
pub proof fn lemma_perm_members(orig: Seq<SortKey>, sorted: Seq<SortKey>)
    requires
        sorted.to_multiset() == orig.to_multiset(),
    ensures
        forall|p: int| 0 <= p < sorted.len() ==> orig.contains(#[trigger] sorted[p]),
        forall|k: int| 0 <= k < orig.len() ==> sorted.contains(#[trigger] orig[k]),
{
    assert forall|p: int| 0 <= p < sorted.len() implies orig.contains(#[trigger] sorted[p]) by {
        assert(sorted.contains(sorted[p]));
        vstd::seq_lib::to_multiset_contains(sorted, sorted[p]);
        vstd::seq_lib::to_multiset_contains(orig, sorted[p]);
    }
    assert forall|k: int| 0 <= k < orig.len() implies sorted.contains(#[trigger] orig[k]) by {
        assert(orig.contains(orig[k]));
        vstd::seq_lib::to_multiset_contains(sorted, orig[k]);
        vstd::seq_lib::to_multiset_contains(orig, orig[k]);
    }
}

/// A permutation of distinct keys has distinct keys.
pub proof fn lemma_perm_distinct(orig: Seq<SortKey>, sorted: Seq<SortKey>)
    requires
        sorted.to_multiset() == orig.to_multiset(),
        forall|a: int, b: int| 0 <= a < b < orig.len() ==> orig[a] != orig[b],
    ensures
        forall|a: int, b: int| 0 <= a < b < sorted.len() ==> sorted[a] != sorted[b],
{
    assert(orig.no_duplicates());
    orig.lemma_multiset_has_no_duplicates();
    sorted.lemma_multiset_has_no_duplicates_conv();
}

/// The distinct values of `xs`, in increasing order.
pub fn sorted_distinct(xs: &Vec<i32>) -> (r: Vec<i32>)
    ensures
        strictly_increasing(r@),
        forall|v: i32| r@.contains(v) <==> xs@.contains(v),
        r@.len() <= xs@.len(),
{
    let mut keys: Vec<SortKey> = Vec::new();
    let mut i: usize = 0;
    while i < xs.len()
        invariant
            i <= xs.len(),
            keys@.len() == i,
            forall|k: int| 0 <= k < i ==> #[trigger] keys@[k] == value_key(xs@[k], k),
        decreases xs.len() - i,
    {
        keys.push((xs[i] as i64, 0, 0, 0, i));
        i = i + 1;
    }
    let sk = sort_keys(&keys);
    proof {
        lemma_perm_members(keys@, sk@);
    }
    let mut r: Vec<i32> = Vec::new();
    let mut p: usize = 0;
    while p < sk.len()
        invariant
            p <= sk@.len(),
            sk@.len() == xs@.len(),
            keys@.len() == xs@.len(),
            sorted_keys(sk@),
            forall|k: int| 0 <= k < keys@.len() ==> #[trigger] keys@[k] == value_key(xs@[k], k),
            forall|q: int| 0 <= q < sk@.len() ==> keys@.contains(#[trigger] sk@[q]),
            forall|k: int| 0 <= k < keys@.len() ==> sk@.contains(#[trigger] keys@[k]),
            strictly_increasing(r@),
            r@.len() <= p,
            p > 0 ==> r@.len() > 0 && r@.last() as i64 == sk@[p - 1].0,
            forall|t: int| 0 <= t < r@.len() ==> exists|q: int| 0 <= q < p && sk@[q].0 == #[trigger] r@[t] as i64,
            forall|q: int| 0 <= q < p ==> r@.contains(#[trigger] sk@[q].0 as i32),
            forall|q: int| 0 <= q < sk@.len() ==> i32::MIN <= #[trigger] sk@[q].0 <= i32::MAX,
        decreases sk.len() - p,
    {
        let v = sk[p].0 as i32;
        let ghost old_r = r@;
        if r.len() == 0 || r[r.len() - 1] != v {
            proof {
                if p > 0 {
                    assert(key_le(sk@[p - 1], sk@[p as int]));
                }
            }
            r.push(v);
            proof {
                assert forall|q: int| 0 <= q < p implies r@.contains(#[trigger] sk@[q].0 as i32) by {
                    let t = choose|t: int| 0 <= t < old_r.len() && old_r[t] == sk@[q].0 as i32;
                    assert(r@[t] == old_r[t]);
                }
                assert(r@[r@.len() - 1] == v);
            }
        } else {
            proof {
                assert(r@[r@.len() - 1] == v);
            }
        }
        proof {
            assert forall|t: int| 0 <= t < r@.len() implies exists|q: int| 0 <= q < p + 1 && sk@[q].0 == #[trigger] r@[t] as i64 by {
                if t < old_r.len() {
                    assert(r@[t] == old_r[t]);
                    let q = choose|q: int| 0 <= q < p && sk@[q].0 == old_r[t] as i64;
                } else {
                    assert(sk@[p as int].0 == r@[t] as i64);
                }
            }
        }
        p = p + 1;
    }
    proof {
        assert forall|v: i32| r@.contains(v) <==> xs@.contains(v) by {
            if r@.contains(v) {
                let t = choose|t: int| 0 <= t < r@.len() && r@[t] == v;
                let q = choose|q: int| 0 <= q < p && sk@[q].0 == r@[t] as i64;
                let k = choose|k: int| 0 <= k < keys@.len() && keys@[k] == sk@[q];
                assert(xs@[k] == v);
            }
            if xs@.contains(v) {
                let k = choose|k: int| 0 <= k < xs@.len() && xs@[k] == v;
                assert(sk@.contains(keys@[k]));
                let q = choose|q: int| 0 <= q < sk@.len() && sk@[q] == keys@[k];
                assert(sk@[q].0 == v as i64);
                assert(r@.contains(sk@[q].0 as i32));
            }
        }
    }
    r
}

/// Position of `v` in a strictly increasing sequence that holds it.
pub fn index_of(s: &Vec<i32>, v: i32) -> (r: usize)
    requires
        strictly_increasing(s@),
        s@.contains(v),
    ensures
        r < s@.len(),
        s@[r as int] == v,
{
    let mut lo: usize = 0;
    let mut hi: usize = s.len();
    while lo + 1 < hi
        invariant
            strictly_increasing(s@),
            lo < hi <= s@.len(),
            exists|k: int| lo <= k < hi && s@[k] == v,
        decreases hi - lo,
    {
        let mid = lo + (hi - lo) / 2;
        if s[mid] <= v {
            lo = mid;
        } else {
            hi = mid;
        }
    }
    lo
}

/// Number of entries below `bound`: the first position whose entry is not below it.
pub fn count_below(s: &Vec<i32>, bound: i32) -> (r: usize)
    requires
        strictly_increasing(s@),
    ensures
        r <= s@.len(),
        forall|k: int| 0 <= k < r ==> s@[k] < bound,
        forall|k: int| r <= k < s@.len() ==> s@[k] >= bound,
{
    let mut lo: usize = 0;
    let mut hi: usize = s.len();
    while lo < hi
        invariant
            strictly_increasing(s@),
            lo <= hi <= s@.len(),
            forall|k: int| 0 <= k < lo ==> s@[k] < bound,
            forall|k: int| hi <= k < s@.len() ==> s@[k] >= bound,
        decreases hi - lo,
    {
        let mid = lo + (hi - lo) / 2;
        if s[mid] < bound {
            lo = mid + 1;
        } else {
            hi = mid;
        }
    }
    lo
}

} // verus!
