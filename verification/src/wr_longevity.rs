//! How long each world record stayed within the top 10 and top 100 of all
//! personal bests.
use vstd::prelude::*;
use crate::fenwick::{Bit, range_sum, max_len};
use crate::pbs::{PoolEntry, pb_map, count_below_bound, lemma_pb_map_finite, lemma_pb_map_values,
    lemma_count_below_le, lemma_count_below_insert, lemma_count_below_strict, lemma_count_below_same};
use crate::search::{strictly_increasing, sorted_distinct, index_of};
use crate::wr_cross_rank::{WrStep, sorted_by_day, date_text};
use crate::index::{IndexedDb, Row, start_day};
use crate::sort::{SortKey, sort_keys};
use crate::ranking::is_sorted_perm;

verus! {

broadcast use vstd::std_specs::hash::group_hash_axioms;

/// What row `r` puts in the pool of its event: (start day of its competition,
/// person, value) for a valid single (or average) at a dated competition.
pub open spec fn pool_entry(db: IndexedDb, r: Row, avg: bool) -> Option<PoolEntry> {
    let value = if avg { r.average } else { r.best };
    if value > 0 && start_day(db, r.comp as int) is Some {
        Some((start_day(db, r.comp as int).unwrap(), r.person as u32, value))
    } else {
        None
    }
}

/// The pool entries of event `e` among the first `n` rows, in row order.
pub open spec fn pool_rows(db: IndexedDb, e: int, avg: bool, n: int) -> Seq<PoolEntry>
    decreases n,
{
    if n <= 0 {
        Seq::empty()
    } else {
        let prev = pool_rows(db, e, avg, n - 1);
        let r = db.rows@[n - 1];
        if r.event == e && pool_entry(db, r, avg) is Some {
            prev.push(pool_entry(db, r, avg).unwrap())
        } else {
            prev
        }
    }
}

/// Keys ordering pool entries by day, then by position.
pub open spec fn day_keys(pool: Seq<PoolEntry>) -> Seq<SortKey> {
    Seq::new(pool.len(), |i: int| (pool[i].0 as i64, 0i64, 0i64, 0i64, i as usize))
}

/// `out` is `pool` ordered by day, entries of one day in their order.
pub open spec fn by_day(pool: Seq<PoolEntry>, out: Seq<PoolEntry>) -> bool {
    exists|sk: Seq<SortKey>| {
        &&& #[trigger] is_sorted_perm(day_keys(pool), sk)
        &&& out.len() == pool.len()
        &&& forall|i: int| 0 <= i < out.len() ==> (sk[i].4 as int) < pool.len() && #[trigger] out[i] == pool[sk[i].4 as int]
    }
}

/// The pool of event `e`: every valid single (or average) at a dated
/// competition as (day, person, value), ordered by day.
pub fn event_pool(db: &IndexedDb, days: &Vec<Option<i32>>, e: usize, avg: bool) -> (out: Vec<PoolEntry>)
    requires
        db.wf(),
        db.n_persons < 0x1000_0000,
        days@.len() == db.comps@.len(),
        forall|c: int| 0 <= c < db.comps@.len() ==> #[trigger] days@[c] == start_day(*db, c),
    ensures
        by_day(pool_rows(*db, e as int, avg, db.rows@.len() as int), out@),
        sorted_by_day(out@),
{
    let mut rows: Vec<PoolEntry> = Vec::new();
    let mut keys: Vec<SortKey> = Vec::new();
    let mut k: usize = 0;
    while k < db.rows.len()
        invariant
            db.wf(),
            db.n_persons < 0x1000_0000,
            days@.len() == db.comps@.len(),
            forall|c: int| 0 <= c < db.comps@.len() ==> #[trigger] days@[c] == start_day(*db, c),
            k <= db.rows@.len(),
            rows@ == pool_rows(*db, e as int, avg, k as int),
            keys@ == day_keys(rows@),
        decreases db.rows.len() - k,
    {
        let r = &db.rows[k];
        assert(db.rows@[k as int] == *r);
        if r.event == e {
            let value = if avg { r.average } else { r.best };
            if value > 0 {
                match days[r.comp] {
                    Some(day) => {
                        let ghost before = rows@;
                        keys.push((day as i64, 0, 0, 0, rows.len()));
                        rows.push((day, r.person as u32, value));
                        proof {
                            assert(keys@ =~= day_keys(rows@));
                        }
                    },
                    None => {},
                }
            }
        }
        k = k + 1;
    }
    let sk = sort_keys(&keys);
    proof {
        crate::search::lemma_perm_members(keys@, sk@);
    }
    let mut out: Vec<PoolEntry> = Vec::new();
    let mut i: usize = 0;
    while i < sk.len()
        invariant
            i <= sk@.len(),
            sk@.len() == rows@.len(),
            keys@ == day_keys(rows@),
            forall|p: int| 0 <= p < sk@.len() ==> keys@.contains(#[trigger] sk@[p]),
            crate::sort::sorted_keys(sk@),
            out@.len() == i,
            forall|j: int| 0 <= j < i ==> (sk@[j].4 as int) < rows@.len() && #[trigger] out@[j] == rows@[sk@[j].4 as int]
                && out@[j].0 as i64 == sk@[j].0,
        decreases sk.len() - i,
    {
        proof {
            assert(keys@.contains(sk@[i as int]));
            let w = choose|w: int| 0 <= w < keys@.len() && keys@[w] == sk@[i as int];
            assert(keys@[w].4 == w);
        }
        out.push(rows[sk[i].4]);
        i = i + 1;
    }
    proof {
        assert(is_sorted_perm(day_keys(rows@), sk@));
        assert forall|a: int, b: int| 0 <= a < b < out@.len() implies out@[a].0 <= out@[b].0 by {
            assert(crate::sort::key_le(sk@[a], sk@[b]));
        }
    }
    out
}

/// Bound for counter prefix `l`: the `l`-th distinct value, or above every value.
pub open spec fn bound_at(vals: Seq<i32>, l: int) -> int {
    if l < vals.len() {
        vals[l] as int
    } else {
        i32::MAX as int + 1
    }
}

/// The counters hold, per distinct value, how many persons have it as their best.
pub open spec fn histogram_matches(bit: Seq<int>, vals: Seq<i32>, m: Map<u32, i32>) -> bool {
    forall|l: int| 0 <= l <= vals.len() ==> #[trigger] range_sum(bit, 0, l) == count_below_bound(m, bound_at(vals, l))
}

/// `v` is the `k`-th smallest personal best in `m`, counting ties.
pub open spec fn is_kth(m: Map<u32, i32>, k: int, v: i32) -> bool {
    count_below_bound(m, v as int) < k <= count_below_bound(m, v as int + 1)
}

/// The `k`-th smallest personal best, if at least `k` persons have one.
pub open spec fn kth_of(m: Map<u32, i32>, k: int) -> Option<i32> {
    if exists|v: i32| is_kth(m, k, v) {
        Some(choose|v: i32| is_kth(m, k, v))
    } else {
        None
    }
}

proof fn lemma_count_below_mono(m: Map<u32, i32>, t1: int, t2: int)
    requires
        m.dom().finite(),
        t1 <= t2,
    ensures
        count_below_bound(m, t1) <= count_below_bound(m, t2),
{
    let a1 = m.dom().filter(|p: u32| m[p] < t1);
    let a2 = m.dom().filter(|p: u32| m[p] < t2);
    vstd::set_lib::lemma_len_subset(a2, m.dom());
    vstd::set_lib::lemma_len_subset(a1, a2);
}

proof fn lemma_kth_unique(m: Map<u32, i32>, k: int, v: i32)
    requires
        m.dom().finite(),
        is_kth(m, k, v),
    ensures
        kth_of(m, k) == Some(v),
{
    let w = choose|w: i32| is_kth(m, k, w);
    if w < v {
        lemma_count_below_mono(m, w as int + 1, v as int);
    } else if v < w {
        lemma_count_below_mono(m, v as int + 1, w as int);
    }
}

proof fn lemma_kth_none(m: Map<u32, i32>, k: int)
    requires
        m.dom().finite(),
        count_below_bound(m, i32::MAX as int + 1) < k,
    ensures
        kth_of(m, k) == None::<i32>,
{
    assert forall|v: i32| !is_kth(m, k, v) by {
        lemma_count_below_mono(m, v as int + 1, i32::MAX as int + 1);
    }
}

/// The `k`-th smallest personal best, from the counters over `vals`.
pub fn get_kth(bit: &Bit, vals: &Vec<i32>, k: usize, Ghost(m): Ghost<Map<u32, i32>>) -> (r: Option<i32>)
    requires
        k >= 1,
        bit.wf(),
        crate::fenwick::counts(bit@),
        bit@.len() == vals@.len(),
        strictly_increasing(vals@),
        histogram_matches(bit@, vals@, m),
        m.dom().finite(),
        forall|p: u32| m.contains_key(p) ==> vals@.contains(#[trigger] m[p]),
    ensures
        r == kth_of(m, k as int),
{
    let mut l: usize = 0;
    proof {
        bit.lemma_wf();
        assert(range_sum(bit@, 0, 0) == count_below_bound(m, bound_at(vals@, 0)));
    }
    while l < vals.len()
        invariant
            bit.wf(),
            crate::fenwick::counts(bit@),
            bit@.len() == vals@.len(),
            strictly_increasing(vals@),
            histogram_matches(bit@, vals@, m),
            m.dom().finite(),
            forall|p: u32| m.contains_key(p) ==> vals@.contains(#[trigger] m[p]),
            l <= vals@.len(),
            count_below_bound(m, bound_at(vals@, l as int)) < k,
        decreases vals@.len() - l,
    {
        proof {
            bit.lemma_wf();
        }
        let cnt = bit.prefix(l + 1);
        if cnt as usize >= k {
            proof {
                assert(range_sum(bit@, 0, l + 1) == count_below_bound(m, bound_at(vals@, l + 1)));
                assert forall|p: u32| m.contains_key(p) implies (m[p] < bound_at(vals@, l + 1) <==> m[p] < vals@[l as int] as int + 1) by {
                    assert(vals@.contains(m[p]));
                    let j = choose|j: int| 0 <= j < vals@.len() && vals@[j] == m[p];
                    if j <= l {
                        assert(vals@[j] <= vals@[l as int]);
                    } else {
                        assert(vals@[l as int] < vals@[j]);
                    }
                }
                lemma_count_below_same(m, bound_at(vals@, l + 1), vals@[l as int] as int + 1);
                lemma_kth_unique(m, k as int, vals@[l as int]);
            }
            return Some(vals[l]);
        }
        proof {
            assert(range_sum(bit@, 0, l + 1) == count_below_bound(m, bound_at(vals@, l + 1)));
        }
        l = l + 1;
    }
    proof {
        assert(range_sum(bit@, 0, vals@.len() as int) == count_below_bound(m, bound_at(vals@, vals@.len() as int)));
        lemma_kth_none(m, k as int);
    }
    None
}

/// The timeline of changes of the `k`-th best over the first `n` entries: a
/// change appends `(day, new value)`, or replaces the last point when that
/// point is on the same day.
pub open spec fn kth_timeline(all: Seq<PoolEntry>, k: int, n: int) -> Seq<(i32, i32)>
    decreases n,
{
    if n <= 0 {
        Seq::empty()
    } else {
        let t = kth_timeline(all, k, n - 1);
        let before = kth_of(pb_map(all, n - 1), k);
        let after = kth_of(pb_map(all, n), k);
        if after != before && after is Some {
            let point = (all[n - 1].0, after.unwrap());
            if t.len() > 0 && t.last().0 == all[n - 1].0 {
                t.update(t.len() - 1, point)
            } else {
                t.push(point)
            }
        } else {
            t
        }
    }
}

proof fn lemma_kth_timeline_days(all: Seq<PoolEntry>, k: int, n: int)
    requires
        0 <= n <= all.len(),
        sorted_by_day(all),
    ensures
        forall|a: int, b: int| 0 <= a < b < kth_timeline(all, k, n).len() ==> kth_timeline(all, k, n)[a].0 < kth_timeline(all, k, n)[b].0,
        kth_timeline(all, k, n).len() > 0 ==> exists|j: int| 0 <= j < n && kth_timeline(all, k, n).last().0 == all[j].0,
        forall|t: int| 0 <= t < kth_timeline(all, k, n).len() ==> exists|j: int| 0 <= j < n && #[trigger] kth_timeline(all, k, n)[t].0 == all[j].0,
    decreases n,
{
    if n > 0 {
        lemma_kth_timeline_days(all, k, n - 1);
        let t = kth_timeline(all, k, n - 1);
        if t.len() > 0 {
            let j = choose|j: int| 0 <= j < n - 1 && t.last().0 == all[j].0;
            assert(all[j].0 <= all[n - 1].0);
        }
    }
}

/// The days (in order) on which the `k`-th best personal best changed, with its
/// value at the end of that day. `all` is `(day, person, value)` sorted by day.
pub fn kth_best_timeline(all: &Vec<PoolEntry>, k: usize) -> (tl: Vec<(i32, i32)>)
    requires
        k >= 1,
        sorted_by_day(all@),
        all@.len() < max_len() - 1,
    ensures
        tl@ == kth_timeline(all@, k as int, all@.len() as int),
{
    let mut values: Vec<i32> = Vec::new();
    let mut j: usize = 0;
    while j < all.len()
        invariant
            j <= all@.len(),
            values@.len() == j,
            forall|i: int| 0 <= i < j ==> #[trigger] values@[i] == all@[i].2,
        decreases all.len() - j,
    {
        values.push(all[j].2);
        j = j + 1;
    }
    let vals = sorted_distinct(&values);
    proof {
        assert forall|i: int| 0 <= i < all@.len() implies vals@.contains(#[trigger] all@[i].2) by {
            assert(values@[i] == all@[i].2);
            assert(values@.contains(all@[i].2));
        }
    }
    let mut bit = Bit::new(vals.len());
    let mut pb: std::collections::HashMap<u32, i32> = std::collections::HashMap::new();
    let mut timeline: Vec<(i32, i32)> = Vec::new();
    let mut prev_kth: Option<i32> = None;
    let mut n: usize = 0;
    proof {
        assert forall|l: int| 0 <= l <= vals@.len() implies #[trigger] range_sum(bit@, 0, l)
            == count_below_bound(pb@, bound_at(vals@, l)) by {
            assert(pb@.dom() =~= Set::<u32>::empty());
            assert(pb@.dom().filter(|x: u32| pb@[x] < bound_at(vals@, l)) =~= Set::<u32>::empty());
            zero_prefix(bit@, l);
        }
        lemma_pb_map_finite(all@, 0);
        assert(pb@.dom().filter(|x: u32| pb@[x] < i32::MAX as int + 1) =~= Set::<u32>::empty());
        lemma_kth_none(pb@, k as int);
    }
    while n < all.len()
        invariant
            k >= 1,
            sorted_by_day(all@),
            all@.len() < max_len() - 1,
            n <= all@.len(),
            strictly_increasing(vals@),
            forall|i: int| 0 <= i < all@.len() ==> vals@.contains(#[trigger] all@[i].2),
            bit.wf(),
            crate::fenwick::counts(bit@),
            bit@.len() == vals@.len(),
            pb@ == pb_map(all@, n as int),
            histogram_matches(bit@, vals@, pb@),
            prev_kth == kth_of(pb@, k as int),
            timeline@ == kth_timeline(all@, k as int, n as int),
        decreases all@.len() - n,
    {
        let (jdn, pid, value) = all[n];
        let ghost m0 = pb@;
        proof {
            lemma_pb_map_finite(all@, n as int);
            lemma_count_below_le(pb@, i32::MAX as int + 1);
            bit.lemma_wf();
        }
        let improves = match pb.get(&pid) {
            Some(ob) => value < *ob,
            None => true,
        };
        if improves {
            let ni = index_of(&vals, value);
            if pb.contains_key(&pid) {
                let old = *pb.get(&pid).unwrap();
                proof {
                    lemma_pb_map_values(all@, n as int, pid);
                    let kk = choose|kk: int| 0 <= kk < n && all@[kk].1 == pid && all@[kk].2 == m0[pid];
                    assert(vals@.contains(all@[kk].2));
                }
                let oi = index_of(&vals, old);
                proof {
                    let t1 = bound_at(vals@, oi as int);
                    let t2 = bound_at(vals@, oi + 1);
                    assert(range_sum(bit@, 0, oi + 1) == count_below_bound(m0, t2));
                    assert(range_sum(bit@, 0, oi as int) == count_below_bound(m0, t1));
                    lemma_count_below_strict(m0, t1, t2, pid);
                    crate::fenwick::lemma_range_sum_bounded(bit@, 0, bit@.len() as int);
                }
                let ghost b0 = bit@;
                proof {
                    crate::fenwick::lemma_add_counts(bit@, oi as int, -1);
                }
                bit.add(oi, -1);
                proof {
                    bit.lemma_wf();
                    assert forall|l: int| 0 <= l <= bit@.len() implies range_sum(bit@, 0, l) == range_sum(b0, 0, l) - (if oi < l { 1int } else { 0int }) by {
                        crate::fenwick::lemma_range_sum_update(b0, oi as int, b0[oi as int] - 1, 0, l);
                    }
                }
                let ghost b1 = bit@;
                proof {
                    crate::fenwick::lemma_add_counts(bit@, ni as int, 1);
                }
                bit.add(ni, 1);
                proof {
                    assert forall|l: int| 0 <= l <= vals@.len() implies #[trigger] range_sum(bit@, 0, l)
                        == count_below_bound(m0.insert(pid, value), bound_at(vals@, l)) by {
                        crate::fenwick::lemma_range_sum_update(b1, ni as int, b1[ni as int] + 1, 0, l);
                        lemma_count_below_insert(m0, pid, value, bound_at(vals@, l));
                    }
                }
            } else {
                proof {
                    crate::fenwick::lemma_range_sum_bounded(bit@, 0, bit@.len() as int);
                    assert(range_sum(bit@, 0, vals@.len() as int) == count_below_bound(m0, bound_at(vals@, vals@.len() as int)));
                }
                let ghost b1 = bit@;
                proof {
                    crate::fenwick::lemma_add_counts(bit@, ni as int, 1);
                }
                bit.add(ni, 1);
                proof {
                    assert forall|l: int| 0 <= l <= vals@.len() implies #[trigger] range_sum(bit@, 0, l)
                        == count_below_bound(m0.insert(pid, value), bound_at(vals@, l)) by {
                        crate::fenwick::lemma_range_sum_update(b1, ni as int, b1[ni as int] + 1, 0, l);
                        lemma_count_below_insert(m0, pid, value, bound_at(vals@, l));
                    }
                }
            }
            pb.insert(pid, value);
            proof {
                lemma_pb_map_finite(all@, n + 1);
                assert forall|p: u32| pb@.contains_key(p) implies vals@.contains(#[trigger] pb@[p]) by {
                    lemma_pb_map_values(all@, n + 1, p);
                    let kk = choose|kk: int| 0 <= kk < n + 1 && all@[kk].1 == p && all@[kk].2 == pb@[p];
                    assert(vals@.contains(all@[kk].2));
                }
            }
            let new_kth = get_kth(&bit, &vals, k, Ghost(pb@));
            if new_kth != prev_kth {
                if let Some(kth) = new_kth {
                    let len = timeline.len();
                    if len > 0 && timeline[len - 1].0 == jdn {
                        timeline.set(len - 1, (jdn, kth));
                    } else {
                        timeline.push((jdn, kth));
                    }
                }
                prev_kth = new_kth;
            }
        }
        n = n + 1;
    }
    timeline
}

proof fn zero_prefix(s: Seq<int>, l: int)
    requires
        0 <= l <= s.len(),
        forall|k: int| 0 <= k < s.len() ==> s[k] == 0,
    ensures
        range_sum(s, 0, l) == 0,
    decreases l,
{
    if l > 0 {
        zero_prefix(s, l - 1);
    }
}

/// First position at or after `from` whose value is below `v`.
pub open spec fn first_below(tl: Seq<(i32, i32)>, from: int, v: int) -> Option<int>
    decreases tl.len() - from,
{
    if from < 0 || from >= tl.len() {
        None
    } else if tl[from].1 < v {
        Some(from)
    } else {
        first_below(tl, from + 1, v)
    }
}

/// Number of timeline points dated on or before `d`.
pub open spec fn points_upto(tl: Seq<(i32, i32)>, d: int) -> int
    decreases tl.len(),
{
    if tl.len() == 0 {
        0
    } else if tl.last().0 <= d {
        points_upto(tl.drop_last(), d) + 1
    } else {
        points_upto(tl.drop_last(), d)
    }
}

/// Days bounded so that their differences fit in an `i32`.
pub open spec fn day_small(d: int) -> bool {
    0 <= d <= 1_000_000_000
}

proof fn lemma_points_upto(tl: Seq<(i32, i32)>, d: int, lo: int)
    requires
        0 <= lo <= tl.len(),
        forall|k: int| 0 <= k < lo ==> tl[k].0 <= d,
        forall|k: int| lo <= k < tl.len() ==> tl[k].0 > d,
    ensures
        points_upto(tl, d) == lo,
    decreases tl.len(),
{
    if tl.len() > 0 {
        if lo == tl.len() {
            lemma_points_upto(tl.drop_last(), d, lo - 1);
        } else {
            lemma_points_upto(tl.drop_last(), d, lo);
        }
    }
}

/// Days a record at `wr_value`, set on `wr_jdn`, stayed in the top-k, and whether
/// it still is: the first point after the record's day at which the k-th best
/// dropped below the record ends its stay; otherwise it lasts until `today_jdn`.
pub fn find_days(timeline: &Vec<(i32, i32)>, wr_jdn: i32, wr_value: i32, today_jdn: i32) -> (r: (i32, bool))
    requires
        forall|a: int, b: int| 0 <= a < b < timeline@.len() ==> timeline@[a].0 < timeline@[b].0,
        forall|k: int| 0 <= k < timeline@.len() ==> day_small(#[trigger] timeline@[k].0 as int),
        day_small(wr_jdn as int),
        day_small(today_jdn as int),
    ensures
        (r.0 as int, r.1) == stay(timeline@, wr_jdn as int, wr_value as int, today_jdn as int),
{
    let mut lo: usize = 0;
    let mut hi: usize = timeline.len();
    while lo < hi
        invariant
            forall|a: int, b: int| 0 <= a < b < timeline@.len() ==> timeline@[a].0 < timeline@[b].0,
            lo <= hi <= timeline@.len(),
            forall|k: int| 0 <= k < lo ==> timeline@[k].0 <= wr_jdn,
            forall|k: int| hi <= k < timeline@.len() ==> timeline@[k].0 > wr_jdn,
        decreases hi - lo,
    {
        let mid = lo + (hi - lo) / 2;
        if timeline[mid].0 <= wr_jdn {
            lo = mid + 1;
        } else {
            hi = mid;
        }
    }
    proof {
        lemma_points_upto(timeline@, wr_jdn as int, lo as int);
    }
    let start = lo;
    let mut i = start;
    while i < timeline.len()
        invariant
            start <= i <= timeline@.len(),
            start == points_upto(timeline@, wr_jdn as int),
            day_small(wr_jdn as int),
            day_small(today_jdn as int),
            forall|k: int| 0 <= k < timeline@.len() ==> day_small(#[trigger] timeline@[k].0 as int),
            first_below(timeline@, start as int, wr_value as int) == first_below(timeline@, i as int, wr_value as int),
        decreases timeline@.len() - i,
    {
        if timeline[i].1 < wr_value {
            return (timeline[i].0 - wr_jdn, false);
        }
        i = i + 1;
    }
    (today_jdn - wr_jdn, true)
}

/// A world record with how long it stayed among the top personal bests.
pub struct WrEntry {
    pub name: String,
    pub pid: String,
    pub value: i32,
    pub date: String,
    pub comp: String,
    /// Days this result was in the top 10 (up to today if still there).
    pub top10_days: i32,
    /// True if still in the top 10 today.
    pub top10_current: bool,
    pub top100_days: i32,
    pub top100_current: bool,
}

/// The (days, still current) answer of `find_days` for a record.
pub open spec fn stay(tl: Seq<(i32, i32)>, wr_jdn: int, wr_value: int, today: int) -> (int, bool) {
    match first_below(tl, points_upto(tl, wr_jdn), wr_value) {
        Some(idx) => (tl[idx].0 - wr_jdn, false),
        None => (today - wr_jdn, true),
    }
}

/// Each world record of `wrs`, with its stay in the top 10 and top 100 of the
/// personal bests of `all` (results sorted by day).
pub fn longevity_entries(all: &Vec<PoolEntry>, wrs: &Vec<WrStep>, today_jdn: i32) -> (out: Vec<WrEntry>)
    requires
        sorted_by_day(all@),
        all@.len() < max_len() - 1,
        forall|k: int| 0 <= k < all@.len() ==> 0 <= #[trigger] all@[k].0 <= 30_000_000,
        forall|k: int| 0 <= k < wrs@.len() ==> 0 <= #[trigger] wrs@[k].0 <= 30_000_000,
        0 <= today_jdn <= 30_000_000,
    ensures
        out@.len() == wrs@.len(),
        forall|t: int| 0 <= t < wrs@.len() ==> {
            let e = #[trigger] out@[t];
            let w = wrs@[t];
            let s10 = stay(kth_timeline(all@, 10, all@.len() as int), w.0 as int, w.1 as int, today_jdn as int);
            let s100 = stay(kth_timeline(all@, 100, all@.len() as int), w.0 as int, w.1 as int, today_jdn as int);
            &&& e.name == w.2 && e.pid == w.3 && e.comp == w.4 && e.value == w.1
            &&& e.date@ == date_text(w.0 as int)
            &&& e.top10_days as int == s10.0 && e.top10_current == s10.1
            &&& e.top100_days as int == s100.0 && e.top100_current == s100.1
        },
{
    let tl10 = kth_best_timeline(all, 10);
    let tl100 = kth_best_timeline(all, 100);
    proof {
        lemma_kth_timeline_days(all@, 10, all@.len() as int);
        lemma_kth_timeline_days(all@, 100, all@.len() as int);
        assert forall|t: int| 0 <= t < tl10@.len() implies day_small(#[trigger] tl10@[t].0 as int) by {
            let j = choose|j: int| 0 <= j < all@.len() && tl10@[t].0 == all@[j].0;
        }
        assert forall|t: int| 0 <= t < tl100@.len() implies day_small(#[trigger] tl100@[t].0 as int) by {
            let j = choose|j: int| 0 <= j < all@.len() && tl100@[t].0 == all@[j].0;
        }
    }
    let mut out: Vec<WrEntry> = Vec::new();
    let mut i: usize = 0;
    while i < wrs.len()
        invariant
            i <= wrs@.len(),
            out@.len() == i,
            tl10@ == kth_timeline(all@, 10, all@.len() as int),
            tl100@ == kth_timeline(all@, 100, all@.len() as int),
            forall|a: int, b: int| 0 <= a < b < tl10@.len() ==> tl10@[a].0 < tl10@[b].0,
            forall|a: int, b: int| 0 <= a < b < tl100@.len() ==> tl100@[a].0 < tl100@[b].0,
            forall|t: int| 0 <= t < tl10@.len() ==> day_small(#[trigger] tl10@[t].0 as int),
            forall|t: int| 0 <= t < tl100@.len() ==> day_small(#[trigger] tl100@[t].0 as int),
            forall|k: int| 0 <= k < wrs@.len() ==> 0 <= #[trigger] wrs@[k].0 <= 30_000_000,
            0 <= today_jdn <= 30_000_000,
            forall|t: int| 0 <= t < i ==> {
                let e = #[trigger] out@[t];
                let w = wrs@[t];
                let s10 = stay(tl10@, w.0 as int, w.1 as int, today_jdn as int);
                let s100 = stay(tl100@, w.0 as int, w.1 as int, today_jdn as int);
                &&& e.name == w.2 && e.pid == w.3 && e.comp == w.4 && e.value == w.1
                &&& e.date@ == date_text(w.0 as int)
                &&& e.top10_days as int == s10.0 && e.top10_current == s10.1
                &&& e.top100_days as int == s100.0 && e.top100_current == s100.1
            },
        decreases wrs.len() - i,
    {
        let w = &wrs[i];
        let (top10_days, top10_current) = find_days(&tl10, w.0, w.1, today_jdn);
        let (top100_days, top100_current) = find_days(&tl100, w.0, w.1, today_jdn);
        out.push(WrEntry {
            name: w.2.clone(),
            pid: w.3.clone(),
            value: w.1,
            date: crate::dates::jdn_to_iso(w.0),
            comp: w.4.clone(),
            top10_days,
            top10_current,
            top100_days,
            top100_current,
        });
        i = i + 1;
    }
    out
}

} // verus!
