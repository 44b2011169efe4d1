//! A verified merge sort over integer sort keys.
//!
//! Every ordering the statistics need is lexicographic over a few integers
//! (times, dates, counts, negated where larger is better) followed by the
//! position of the row the key stands for, so one sort serves them all.
use vstd::prelude::*;
use vstd::multiset::Multiset;

verus! {

/// Four integer sort fields and the position of the row they describe.
pub type SortKey = (i64, i64, i64, i64, usize);

/// Lexicographic order on all five components.
pub open spec fn key_le(a: SortKey, b: SortKey) -> bool {
    ||| a.0 < b.0
    ||| a.0 == b.0 && a.1 < b.1
    ||| a.0 == b.0 && a.1 == b.1 && a.2 < b.2
    ||| a.0 == b.0 && a.1 == b.1 && a.2 == b.2 && a.3 < b.3
    ||| a.0 == b.0 && a.1 == b.1 && a.2 == b.2 && a.3 == b.3 && a.4 <= b.4
}

pub open spec fn sorted_keys(s: Seq<SortKey>) -> bool {
    forall|i: int, j: int| 0 <= i < j < s.len() ==> key_le(#[trigger] s[i], #[trigger] s[j])
}

fn le(a: &SortKey, b: &SortKey) -> (r: bool)
    ensures
        r == key_le(*a, *b),
{
    a.0 < b.0 || (a.0 == b.0 && (a.1 < b.1 || (a.1 == b.1 && (a.2 < b.2 || (a.2 == b.2
        && (a.3 < b.3 || (a.3 == b.3 && a.4 <= b.4)))))))
}

/// Sorts the keys into lexicographic order, keeping every key exactly as
/// often as it occurs.
pub fn sort_keys(v: &Vec<SortKey>) -> (r: Vec<SortKey>)
    ensures
        r@.to_multiset() == v@.to_multiset(),
        r@.len() == v@.len(),
        sorted_keys(r@),
{
    let r = msort(v, 0, v.len());
    proof {
        assert(v@.subrange(0, v@.len() as int) =~= v@);
        r@.to_multiset_ensures();
        v@.to_multiset_ensures();
    }
    r
}

fn msort(v: &Vec<SortKey>, lo: usize, hi: usize) -> (r: Vec<SortKey>)
    requires
        lo <= hi <= v.len(),
    ensures
        r@.to_multiset() == v@.subrange(lo as int, hi as int).to_multiset(),
        sorted_keys(r@),
    decreases hi - lo,
{
    if hi - lo <= 1 {
        let mut r: Vec<SortKey> = Vec::new();
        if hi - lo == 1 {
            r.push(v[lo]);
            proof {
                assert(r@ =~= v@.subrange(lo as int, hi as int));
            }
        } else {
            proof {
                assert(r@ =~= v@.subrange(lo as int, hi as int));
            }
        }
        r
    } else {
        let mid = lo + (hi - lo) / 2;
        let a = msort(v, lo, mid);
        let b = msort(v, mid, hi);
        let r = merge(&a, &b);
        proof {
            let s = v@.subrange(lo as int, hi as int);
            assert(s =~= v@.subrange(lo as int, mid as int) + v@.subrange(mid as int, hi as int));
            vstd::seq_lib::lemma_multiset_commutative(
                v@.subrange(lo as int, mid as int),
                v@.subrange(mid as int, hi as int),
            );
        }
        r
    }
}

fn merge(a: &Vec<SortKey>, b: &Vec<SortKey>) -> (r: Vec<SortKey>)
    requires
        sorted_keys(a@),
        sorted_keys(b@),
    ensures
        r@.to_multiset() == a@.to_multiset().add(b@.to_multiset()),
        sorted_keys(r@),
{
    let mut r: Vec<SortKey> = Vec::new();
    let mut i: usize = 0;
    let mut j: usize = 0;
    proof {
        broadcast use vstd::multiset::group_multiset_axioms;

        assert(a@.subrange(0, 0) =~= Seq::<SortKey>::empty());
        assert(b@.subrange(0, 0) =~= Seq::<SortKey>::empty());
        assert(r@ =~= Seq::<SortKey>::empty());
        Seq::<SortKey>::empty().to_multiset_ensures();
        assert(Seq::<SortKey>::empty().to_multiset() =~= Multiset::<SortKey>::empty());
        assert(r@.to_multiset() =~= a@.subrange(0, 0).to_multiset().add(
            b@.subrange(0, 0).to_multiset(),
        ));
    }
    while i < a.len() || j < b.len()
        invariant
            sorted_keys(a@),
            sorted_keys(b@),
            i <= a.len(),
            j <= b.len(),
            r@.to_multiset() == a@.subrange(0, i as int).to_multiset().add(
                b@.subrange(0, j as int).to_multiset(),
            ),
            r@.len() == i + j,
            sorted_keys(r@),
            r@.len() > 0 && i < a.len() ==> key_le(r@.last(), a@[i as int]),
            r@.len() > 0 && j < b.len() ==> key_le(r@.last(), b@[j as int]),
        decreases a.len() + b.len() - i - j,
    {
        let take_a = j >= b.len() || (i < a.len() && le(&a[i], &b[j]));
        if take_a {
            let x = a[i];
            proof {
                assert(a@.subrange(0, i + 1) =~= a@.subrange(0, i as int).push(x));
                vstd::seq_lib::to_multiset_build(r@, x);
                vstd::seq_lib::to_multiset_build(a@.subrange(0, i as int), x);
            }
            r.push(x);
            i = i + 1;
        } else {
            let x = b[j];
            proof {
                assert(b@.subrange(0, j + 1) =~= b@.subrange(0, j as int).push(x));
                vstd::seq_lib::to_multiset_build(r@, x);
                vstd::seq_lib::to_multiset_build(b@.subrange(0, j as int), x);
            }
            r.push(x);
            j = j + 1;
        }
        proof {
            broadcast use vstd::multiset::group_multiset_axioms;

            assert(r@.to_multiset() =~= a@.subrange(0, i as int).to_multiset().add(
                b@.subrange(0, j as int).to_multiset(),
            ));
        }
    }
    proof {
        assert(a@.subrange(0, i as int) =~= a@);
        assert(b@.subrange(0, j as int) =~= b@);
    }
    r
}

pub open spec fn ascending(s: Seq<i32>) -> bool {
    forall|i: int, j: int| 0 <= i < j < s.len() ==> s[i] <= s[j]
}

/// Insertion sort of a short list of values into ascending order.
pub fn sort_values(v: &Vec<i32>) -> (r: Vec<i32>)
    ensures
        ascending(r@),
        r@.to_multiset() == v@.to_multiset(),
        r@.len() == v@.len(),
{
    let mut r: Vec<i32> = Vec::new();
    let mut i: usize = 0;
    proof {
        assert(v@.subrange(0, 0) =~= r@);
    }
    while i < v.len()
        invariant
            i <= v@.len(),
            ascending(r@),
            r@.to_multiset() == v@.subrange(0, i as int).to_multiset(),
            r@.len() == i,
        decreases v.len() - i,
    {
        let x = v[i];
        let mut j: usize = 0;
        while j < r.len() && r[j] <= x
            invariant
                j <= r@.len(),
                forall|k: int| 0 <= k < j ==> r@[k] <= x,
            decreases r.len() - j,
        {
            j = j + 1;
        }
        let ghost before = r@;
        r.insert(j, x);
        proof {
            vstd::seq_lib::to_multiset_insert(before, j as int, x);
            assert(v@.subrange(0, i + 1) =~= v@.subrange(0, i as int).push(x));
            vstd::seq_lib::to_multiset_build(v@.subrange(0, i as int), x);
            assert forall|a: int, b: int| 0 <= a < b < r@.len() implies r@[a] <= r@[b] by {
                if b < j {
                } else if b == j {
                } else if a < j {
                    assert(before[a] <= x);
                    if j < before.len() {
                        assert(x < before[j as int]);
                    }
                } else if a == j {
                    assert(x < before[j as int]);
                }
            }
        }
        i = i + 1;
    }
    proof {
        assert(v@.subrange(0, v@.len() as int) =~= v@);
    }
    r
}

} // verus!
