//! Record progressions: from rows of (day, value), where lower values are
//! better, the rows that set a new record, one per improving day.
use vstd::prelude::*;
use crate::sort::{SortKey, sort_keys, sorted_keys, key_le};

verus! {

/// Row `k` sets a record: it is the best row of its day (lowest value, earliest
/// row among equal values) and beats every row of every earlier day.
pub open spec fn improves(s: Seq<(i32, i32)>, k: int) -> bool {
    &&& 0 <= k < s.len()
    &&& s[k].1 < i32::MAX
    &&& forall|m: int|
        0 <= m < s.len() && s[m].0 == s[k].0 ==> (s[k].1 < s[m].1 || (s[k].1 == s[m].1 && k
            <= m))
    &&& forall|m: int| 0 <= m < s.len() && s[m].0 < s[k].0 ==> s[k].1 < s[m].1
}

pub open spec fn row_key(s: Seq<(i32, i32)>, k: int) -> SortKey {
    (s[k].0 as i64, s[k].1 as i64, 0i64, 0i64, k as usize)
}

/// Positions of the record-setting rows, in day order.
pub fn progression(s: &Vec<(i32, i32)>) -> (idx: Vec<usize>)
    ensures
        forall|t: int| 0 <= t < idx@.len() ==> improves(s@, #[trigger] idx@[t] as int),
        forall|a: int, b: int|
            0 <= a < b < idx@.len() ==> s@[idx@[a] as int].0 < s@[idx@[b] as int].0 && s@[idx@[b] as int].1
                < s@[idx@[a] as int].1,
        forall|k: int| improves(s@, k) ==> idx@.contains(k as usize),
{
    let mut keys: Vec<SortKey> = Vec::new();
    let mut k: usize = 0;
    while k < s.len()
        invariant
            k <= s@.len(),
            keys@.len() == k,
            forall|j: int| 0 <= j < k ==> #[trigger] keys@[j] == row_key(s@, j),
        decreases s.len() - k,
    {
        keys.push((s[k].0 as i64, s[k].1 as i64, 0, 0, k));
        k = k + 1;
    }
    let sk = sort_keys(&keys);
    proof {
        crate::search::lemma_perm_members(keys@, sk@);
        crate::search::lemma_perm_distinct(keys@, sk@);
        assert forall|q: int| 0 <= q < sk@.len() implies #[trigger] sk@[q] == row_key(s@, sk@[q].4 as int)
            && sk@[q].4 < s@.len() by {
            let j = choose|j: int| 0 <= j < keys@.len() && keys@[j] == sk@[q];
        }
    }
    let mut idx: Vec<usize> = Vec::new();
    let mut cur_best = i32::MAX;
    let mut i: usize = 0;
    while i < sk.len()
        invariant
            sk@.len() == s@.len(),
            keys@.len() == s@.len(),
            sorted_keys(sk@),
            forall|a: int, b: int| 0 <= a < b < sk@.len() ==> sk@[a] != sk@[b],
            forall|q: int| 0 <= q < sk@.len() ==> #[trigger] sk@[q] == row_key(s@, sk@[q].4 as int) && sk@[q].4 < s@.len(),
            forall|j: int| 0 <= j < keys@.len() ==> #[trigger] keys@[j] == row_key(s@, j),
            forall|j: int| 0 <= j < keys@.len() ==> sk@.contains(#[trigger] keys@[j]),
            i <= sk@.len(),
            i > 0 && i < sk@.len() ==> sk@[i - 1].0 < sk@[i as int].0,
            forall|q: int| 0 <= q < i ==> cur_best <= #[trigger] sk@[q].1,
            cur_best == i32::MAX || exists|q: int| 0 <= q < i && sk@[q].1 == cur_best,
            forall|t: int| 0 <= t < idx@.len() ==> improves(s@, #[trigger] idx@[t] as int),
            forall|a: int, b: int|
                0 <= a < b < idx@.len() ==> s@[idx@[a] as int].0 < s@[idx@[b] as int].0 && s@[idx@[b] as int].1
                    < s@[idx@[a] as int].1,
            idx@.len() > 0 ==> s@[idx@.last() as int].1 == cur_best,
            idx@.len() > 0 && i > 0 ==> s@[idx@.last() as int].0 <= sk@[i - 1].0,
            forall|q: int| 0 <= q < i && improves(s@, #[trigger] sk@[q].4 as int) ==> idx@.contains(sk@[q].4),
        decreases sk.len() - i,
    {
        let jdn = sk[i].0;
        let day_best = sk[i].4;
        let ghost gi: int = i as int;
        proof {
            let kb = day_best as int;
            assert(sk@[gi] == row_key(s@, kb));
            assert forall|m: int| 0 <= m < s@.len() && s@[m].0 == s@[kb].0 implies (s@[kb].1 < s@[m].1 || (
            s@[kb].1 == s@[m].1 && kb <= m)) by {
                assert(keys@[m] == row_key(s@, m));
                assert(sk@.contains(keys@[m]));
                let q = choose|q: int| 0 <= q < sk@.len() && sk@[q] == keys@[m];
                if q < gi {
                    assert(key_le(sk@[q], sk@[gi - 1]));
                } else if q > gi {
                    assert(key_le(sk@[gi], sk@[q]));
                }
            }
            assert forall|m: int| 0 <= m < s@.len() && s@[m].0 < s@[kb].0 implies cur_best <= s@[m].1 by {
                assert(keys@[m] == row_key(s@, m));
                assert(sk@.contains(keys@[m]));
                let q = choose|q: int| 0 <= q < sk@.len() && sk@[q] == keys@[m];
                if q > gi {
                    assert(key_le(sk@[gi], sk@[q]));
                }
                if q < gi {
                    assert(cur_best <= sk@[q].1);
                }
            }
        }
        let ghost old_idx = idx@;
        if s[day_best].1 < cur_best {
            cur_best = s[day_best].1;
            idx.push(day_best);
            proof {
                assert(improves(s@, day_best as int));
                assert forall|q: int| 0 <= q < gi && improves(s@, #[trigger] sk@[q].4 as int) implies idx@.contains(sk@[q].4) by {
                    assert(old_idx.contains(sk@[q].4));
                    let t = choose|t: int| 0 <= t < old_idx.len() && old_idx[t] == sk@[q].4;
                    assert(idx@[t] == old_idx[t]);
                }
                assert(idx@[idx@.len() - 1] == day_best);
            }
        } else {
            proof {
                if cur_best != i32::MAX {
                    let q = choose|q: int| 0 <= q < gi && sk@[q].1 == cur_best;
                    assert(key_le(sk@[q], sk@[gi - 1]));
                    assert(s@[sk@[q].4 as int].0 < s@[day_best as int].0);
                }
                assert(!improves(s@, day_best as int));
            }
        }
        i = i + 1;
        while i < sk.len() && sk[i].0 == jdn
            invariant
                sk@.len() == s@.len(),
                sorted_keys(sk@),
                forall|a: int, b: int| 0 <= a < b < sk@.len() ==> sk@[a] != sk@[b],
                forall|q: int| 0 <= q < sk@.len() ==> #[trigger] sk@[q] == row_key(s@, sk@[q].4 as int) && sk@[q].4 < s@.len(),
                0 <= gi < i <= sk@.len(),
                forall|q: int| gi <= q < i ==> #[trigger] sk@[q].0 == jdn,
                jdn == sk@[gi].0,
                forall|q: int| gi < q < i ==> !improves(s@, #[trigger] sk@[q].4 as int),
                forall|q: int| gi <= q < i ==> cur_best <= #[trigger] sk@[q].1,
            decreases sk.len() - i,
        {
            proof {
                let ii = i as int;
                assert(key_le(sk@[gi], sk@[ii]));
                assert(sk@[gi] != sk@[ii]);
                assert(sk@[gi].4 != sk@[ii].4);
            }
            i = i + 1;
        }
        proof {
            if i < sk@.len() {
                assert(key_le(sk@[i - 1], sk@[i as int]));
            }
        }
    }
    proof {
        assert forall|k: int| improves(s@, k) implies idx@.contains(k as usize) by {
            assert(sk@.contains(keys@[k]));
            let q = choose|q: int| 0 <= q < sk@.len() && sk@[q] == keys@[k];
            assert(sk@[q].4 == k);
        }
    }
    idx
}

} // verus!
