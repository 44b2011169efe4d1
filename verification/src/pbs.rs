//! Personal bests as results come in: the best value of each person over a
//! prefix of a result stream, and how many of those bests beat a bound.
use vstd::prelude::*;

verus! {

/// A result in a stream: (day number, person, value). Lower values are better.
pub type PoolEntry = (i32, u32, i32);

/// Each person's best value over the first `n` entries.
pub open spec fn pb_map(pool: Seq<PoolEntry>, n: int) -> Map<u32, i32>
    decreases n,
{
    if n <= 0 {
        Map::empty()
    } else {
        let m = pb_map(pool, n - 1);
        let e = pool[n - 1];
        if m.contains_key(e.1) && m[e.1] <= e.2 {
            m
        } else {
            m.insert(e.1, e.2)
        }
    }
}

/// Number of persons whose best is strictly below `t`.
pub open spec fn count_below_bound(m: Map<u32, i32>, t: int) -> nat {
    m.dom().filter(|p: u32| m[p] < t).len()
}

pub proof fn lemma_pb_map_finite(pool: Seq<PoolEntry>, n: int)
    ensures
        pb_map(pool, n).dom().finite(),
        n >= 0 ==> pb_map(pool, n).dom().len() <= n,
    decreases n,
{
    if n > 0 {
        lemma_pb_map_finite(pool, n - 1);
    }
}

/// Every best is the value of some entry of that person.
pub proof fn lemma_pb_map_values(pool: Seq<PoolEntry>, n: int, p: u32)
    requires
        0 <= n <= pool.len(),
        pb_map(pool, n).contains_key(p),
    ensures
        exists|k: int| 0 <= k < n && pool[k].1 == p && pool[k].2 == pb_map(pool, n)[p],
    decreases n,
{
    let m = pb_map(pool, n - 1);
    let e = pool[n - 1];
    if m.contains_key(e.1) && m[e.1] <= e.2 {
        lemma_pb_map_values(pool, n - 1, p);
    } else if p != e.1 {
        lemma_pb_map_values(pool, n - 1, p);
    } else {
        assert(pool[n - 1].1 == p);
    }
}

pub proof fn lemma_count_below_le(m: Map<u32, i32>, t: int)
    requires
        m.dom().finite(),
    ensures
        count_below_bound(m, t) <= m.dom().len(),
{
    vstd::set_lib::lemma_len_subset(m.dom().filter(|p: u32| m[p] < t), m.dom());
}

/// Updating one person's best changes the count by at most one each way.
pub proof fn lemma_count_below_insert(m: Map<u32, i32>, x: u32, v: i32, t: int)
    requires
        m.dom().finite(),
    ensures
        count_below_bound(m.insert(x, v), t) == count_below_bound(m, t) - (if m.contains_key(x)
            && m[x] < t {
            1int
        } else {
            0int
        }) + (if v < t {
            1int
        } else {
            0int
        }),
{
    let m2 = m.insert(x, v);
    let a = m.dom().filter(|p: u32| m[p] < t);
    let b = m2.dom().filter(|p: u32| m2[p] < t);
    vstd::set_lib::lemma_len_subset(a, m.dom());
    let a0 = a.remove(x);
    assert(a0.finite());
    if v < t {
        assert(b =~= a0.insert(x));
    } else {
        assert(b =~= a0);
    }
    if a.contains(x) {
        assert(a0.len() == a.len() - 1);
    } else {
        assert(a0 =~= a);
    }
}

/// The count cannot fall when the bound rises, and it rises by one or more when
/// some best lies in between.
pub proof fn lemma_count_below_strict(m: Map<u32, i32>, t1: int, t2: int, x: u32)
    requires
        m.dom().finite(),
        m.contains_key(x),
        t1 <= m[x] < t2,
    ensures
        count_below_bound(m, t2) >= count_below_bound(m, t1) + 1,
{
    let a1 = m.dom().filter(|p: u32| m[p] < t1);
    let a2 = m.dom().filter(|p: u32| m[p] < t2);
    vstd::set_lib::lemma_len_subset(a2, m.dom());
    vstd::set_lib::lemma_len_subset(a1.insert(x), a2);
    vstd::set_lib::lemma_len_subset(a1, m.dom());
}

/// Bounds with no best between them count the same persons.
pub proof fn lemma_count_below_same(m: Map<u32, i32>, t1: int, t2: int)
    requires
        forall|p: u32| m.contains_key(p) ==> (m[p] < t1 <==> m[p] < t2),
    ensures
        count_below_bound(m, t1) == count_below_bound(m, t2),
{
    assert(m.dom().filter(|p: u32| m[p] < t1) =~= m.dom().filter(|p: u32| m[p] < t2));
}

} // verus!
