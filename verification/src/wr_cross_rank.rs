//! Ranking a world-record series against the personal bests of another pool
//! of results, as they stood on each date.
use vstd::prelude::*;
use crate::fenwick::{Bit, range_sum, max_len};
use crate::pbs::{PoolEntry, pb_map, count_below_bound, lemma_pb_map_finite, lemma_pb_map_values, lemma_count_below_le, lemma_count_below_insert, lemma_count_below_strict, lemma_count_below_same};
use crate::search::{strictly_increasing, sorted_distinct, index_of, count_below};
use crate::sort::{SortKey, sort_keys, sorted_keys};
use crate::progression::{improves, progression};

verus! {

broadcast use vstd::std_specs::hash::group_hash_axioms;

/// Entries ordered by day number.
pub open spec fn sorted_by_day(pool: Seq<PoolEntry>) -> bool {
    forall|i: int, j: int| 0 <= i < j < pool.len() ==> pool[i].0 <= pool[j].0
}

/// Number of entries among the first `n` dated on or before day `d`.
pub open spec fn count_upto(pool: Seq<PoolEntry>, d: int, n: int) -> int
    decreases n,
{
    if n <= 0 {
        0
    } else {
        count_upto(pool, d, n - 1) + if pool[n - 1].0 <= d { 1int } else { 0int }
    }
}

/// Number of entries dated on or before day `d`.
pub open spec fn upto(pool: Seq<PoolEntry>, d: int) -> int {
    count_upto(pool, d, pool.len() as int)
}

/// The (rank, pool size) answer to a query `(day, value)`: the rank is one more
/// than the number of persons whose best on or before that day is strictly
/// below `value`; the pool size is the number of persons with any entry by then.
/// An empty pool answers `(0, 0)`.
pub open spec fn rank_answer(pool: Seq<PoolEntry>, q: (i32, i32)) -> (u32, u32) {
    if pool.len() == 0 {
        (0, 0)
    } else {
        let m = pb_map(pool, upto(pool, q.0 as int));
        ((count_below_bound(m, q.1 as int) + 1) as u32, m.dom().len() as u32)
    }
}

proof fn lemma_upto_prefix(pool: Seq<PoolEntry>, d: int, p: int)
    requires
        sorted_by_day(pool),
        0 <= p <= pool.len(),
        forall|m: int| 0 <= m < p ==> pool[m].0 <= d,
        p == pool.len() || pool[p].0 > d,
    ensures
        upto(pool, d) == p,
{
    lemma_count_upto_prefix(pool, d, p, pool.len() as int);
}

proof fn lemma_count_upto_prefix(pool: Seq<PoolEntry>, d: int, p: int, n: int)
    requires
        sorted_by_day(pool),
        0 <= p <= n <= pool.len(),
        forall|m: int| 0 <= m < p ==> pool[m].0 <= d,
        p == pool.len() || pool[p].0 > d,
    ensures
        count_upto(pool, d, n) == p,
    decreases n,
{
    if n > p {
        lemma_count_upto_prefix(pool, d, p, n - 1);
        assert(pool[p].0 <= pool[n - 1].0);
    } else {
        lemma_count_upto_all(pool, d, p, n);
    }
}

proof fn lemma_count_upto_all(pool: Seq<PoolEntry>, d: int, p: int, n: int)
    requires
        0 <= n <= p <= pool.len(),
        forall|m: int| 0 <= m < p ==> pool[m].0 <= d,
    ensures
        count_upto(pool, d, n) == n,
    decreases n,
{
    if n > 0 {
        lemma_count_upto_all(pool, d, p, n - 1);
    }
}

/// Bound used for counter `l`: the `l`-th distinct value, or past all of them.
pub open spec fn thr(vals: Seq<i32>, l: int) -> int {
    if l < vals.len() {
        vals[l] as int
    } else {
        i32::MAX as int
    }
}

/// The counters hold, for every value, how many persons have it as their best.
pub open spec fn counters_match(bit: Seq<int>, vals: Seq<i32>, m: Map<u32, i32>) -> bool {
    forall|l: int| 0 <= l <= vals.len() ==> #[trigger] range_sum(bit, 0, l) == count_below_bound(m, thr(vals, l))
}

proof fn lemma_thr_index(vals: Seq<i32>, k: int, l: int)
    requires
        strictly_increasing(vals),
        0 <= k < vals.len(),
        0 <= l <= vals.len(),
        vals[k] != i32::MAX,
    ensures
        (vals[k] < thr(vals, l)) <==> (k < l),
{
}

/// For each query `(day, value)`, the rank of `value` among the personal bests
/// of `ref_pool` as they stood on that day, and the number of persons ranked.
pub fn rank_queries(ref_pool: &Vec<PoolEntry>, queries: &Vec<(i32, i32)>) -> (out: Vec<(u32, u32)>)
    requires
        sorted_by_day(ref_pool@),
        ref_pool@.len() < max_len() - 1,
    ensures
        out@.len() == queries@.len(),
        forall|q: int| 0 <= q < queries@.len() ==> #[trigger] out@[q] == rank_answer(ref_pool@, queries@[q]),
{
    let ghost pool = ref_pool@;
    let mut out: Vec<(u32, u32)> = Vec::new();
    let mut i: usize = 0;
    while i < queries.len()
        invariant
            i <= queries@.len(),
            out@.len() == i,
            pool.len() == 0 ==> forall|q: int| 0 <= q < i ==> out@[q] == (0u32, 0u32),
        decreases queries.len() - i,
    {
        out.push((0, 0));
        i = i + 1;
    }
    if ref_pool.len() == 0 {
        return out;
    }
    // Distinct values of the pool, ascending.
    let mut all: Vec<i32> = Vec::new();
    let mut k: usize = 0;
    while k < ref_pool.len()
        invariant
            k <= pool.len(),
            pool == ref_pool@,
            all@.len() == k,
            forall|j: int| 0 <= j < k ==> #[trigger] all@[j] == pool[j].2,
        decreases pool.len() - k,
    {
        all.push(ref_pool[k].2);
        k = k + 1;
    }
    let vals = sorted_distinct(&all);
    proof {
        assert forall|j: int| 0 <= j < pool.len() implies vals@.contains(#[trigger] pool[j].2) by {
            assert(all@[j] == pool[j].2);
            assert(all@.contains(pool[j].2));
        }
    }
    // Queries in order of day.
    let mut keys: Vec<SortKey> = Vec::new();
    let mut qi: usize = 0;
    while qi < queries.len()
        invariant
            qi <= queries@.len(),
            keys@.len() == qi,
            forall|j: int| 0 <= j < qi ==> #[trigger] keys@[j] == (queries@[j].0 as i64, 0i64, 0i64, 0i64, j as usize),
        decreases queries.len() - qi,
    {
        keys.push((queries[qi].0 as i64, 0, 0, 0, qi));
        qi = qi + 1;
    }
    let order = sort_keys(&keys);
    proof {
        crate::search::lemma_perm_members(keys@, order@);
    }
    let mut bit = Bit::new(vals.len());
    let mut pb: std::collections::HashMap<u32, i32> = std::collections::HashMap::new();
    let mut p: usize = 0;
    let mut t: usize = 0;
    let ghost mut last_day: int = i32::MIN as int;
    proof {
        assert forall|l: int| 0 <= l <= vals@.len() implies #[trigger] range_sum(bit@, 0, l)
            == count_below_bound(pb@, thr(vals@, l)) by {
            crate::fenwick::lemma_range_sum_nonneg(bit@, 0, l);
            assert(pb@.dom() =~= Set::<u32>::empty());
            assert(pb@.dom().filter(|x: u32| pb@[x] < thr(vals@, l)) =~= Set::<u32>::empty());
            zero_sum(bit@, l);
        }
    }
    while t < order.len()
        invariant
            pool == ref_pool@,
            pool.len() > 0,
            sorted_by_day(pool),
            pool.len() < max_len() - 1,
            out@.len() == queries@.len(),
            keys@.len() == queries@.len(),
            order@.len() == keys@.len(),
            forall|j: int| 0 <= j < queries@.len() ==> #[trigger] keys@[j] == (queries@[j].0 as i64, 0i64, 0i64, 0i64, j as usize),
            forall|j: int| 0 <= j < order@.len() ==> keys@.contains(#[trigger] order@[j]),
            forall|j: int| 0 <= j < keys@.len() ==> order@.contains(#[trigger] keys@[j]),
            sorted_keys(order@),
            t <= order@.len(),
            strictly_increasing(vals@),
            forall|j: int| 0 <= j < pool.len() ==> vals@.contains(#[trigger] pool[j].2),
            bit.wf(),
            crate::fenwick::counts(bit@),
            bit@.len() == vals@.len(),
            p <= pool.len(),
            pb@ == pb_map(pool, p as int),
            counters_match(bit@, vals@, pb@),
            forall|m: int| 0 <= m < p ==> pool[m].0 <= last_day,
            t > 0 ==> last_day == order@[t - 1].0,
            t == 0 ==> last_day == i32::MIN as int,
            forall|s: int| 0 <= s < t ==> (#[trigger] order@[s]).4 < queries@.len() && out@[order@[s].4 as int] == rank_answer(pool, queries@[order@[s].4 as int]),
        decreases order@.len() - t,
    {
        let qidx = order[t].4;
        proof {
            let j = choose|j: int| 0 <= j < keys@.len() && keys@[j] == order@[t as int];
            assert(keys@[j].4 == j);
            if t > 0 {
                assert(crate::sort::key_le(order@[t - 1], order@[t as int]));
            }
        }
        let (qjdn, qval) = queries[qidx];
        while p < ref_pool.len() && ref_pool[p].0 <= qjdn
            invariant
                pool == ref_pool@,
                sorted_by_day(pool),
                pool.len() < max_len() - 1,
                strictly_increasing(vals@),
                forall|j: int| 0 <= j < pool.len() ==> vals@.contains(#[trigger] pool[j].2),
                bit.wf(),
                crate::fenwick::counts(bit@),
                bit@.len() == vals@.len(),
                p <= pool.len(),
                pb@ == pb_map(pool, p as int),
                counters_match(bit@, vals@, pb@),
                forall|m: int| 0 <= m < p ==> pool[m].0 <= qjdn,
            decreases pool.len() - p,
        {
            let (_, pidx, v) = ref_pool[p];
            proof {
                lemma_pb_map_finite(pool, p as int);
                lemma_count_below_le(pb@, i32::MAX as int);
                bit.lemma_wf();
            }
            let old = match pb.get(&pidx) {
                Some(o) => *o,
                None => i32::MAX,
            };
            if v < old {
                let ghost m0 = pb@;
                let ni = index_of(&vals, v);
                if old != i32::MAX {
                    proof {
                        lemma_pb_map_values(pool, p as int, pidx);
                        let kk = choose|kk: int| 0 <= kk < p && pool[kk].1 == pidx && pool[kk].2 == m0[pidx];
                        assert(vals@.contains(pool[kk].2));
                    }
                    let oi = index_of(&vals, old);
                    proof {
                        assert(m0.contains_key(pidx));
                        let t1 = thr(vals@, oi as int);
                        let t2 = thr(vals@, oi + 1);
                        assert(range_sum(bit@, 0, oi + 1) == count_below_bound(m0, t2));
                        assert(range_sum(bit@, 0, oi as int) == count_below_bound(m0, t1));
                        lemma_count_below_strict(m0, t1, t2, pidx);
                        crate::fenwick::lemma_range_sum_bounded(bit@, 0, bit@.len() as int);
                    }
                    let ghost b0 = bit@;
                    proof {
                        crate::fenwick::lemma_add_counts(bit@, oi as int, -1);
                    }
                    bit.add(oi, -1);
                    proof {
                        bit.lemma_wf();
                        assert forall|l: int| 0 <= l <= bit@.len() implies range_sum(bit@, 0, l) == range_sum(b0, 0, l) - (if oi < l { 1int } else { 0int }) by {
                            crate::fenwick::lemma_range_sum_update(b0, oi as int, b0[oi as int] - 1, 0, l);
                        }
                        assert(range_sum(bit@, 0, bit@.len() as int) + 1 <= u32::MAX);
                    }
                    let ghost b1 = bit@;
                    proof {
                        crate::fenwick::lemma_add_counts(bit@, ni as int, 1);
                    }
                    bit.add(ni, 1);
                    proof {
                        assert forall|l: int| 0 <= l <= vals@.len() implies #[trigger] range_sum(bit@, 0, l)
                            == count_below_bound(m0.insert(pidx, v), thr(vals@, l)) by {
                            crate::fenwick::lemma_range_sum_update(b1, ni as int, b1[ni as int] + 1, 0, l);
                            lemma_count_below_insert(m0, pidx, v, thr(vals@, l));
                            lemma_thr_index(vals@, oi as int, l);
                            lemma_thr_index(vals@, ni as int, l);
                        }
                    }
                } else {
                    proof {
                        crate::fenwick::lemma_range_sum_bounded(bit@, 0, bit@.len() as int);
                        assert(range_sum(bit@, 0, vals@.len() as int) == count_below_bound(m0, thr(vals@, vals@.len() as int)));
                    }
                    let ghost b1 = bit@;
                    proof {
                        crate::fenwick::lemma_add_counts(bit@, ni as int, 1);
                    }
                    bit.add(ni, 1);
                    proof {
                        assert forall|l: int| 0 <= l <= vals@.len() implies #[trigger] range_sum(bit@, 0, l)
                            == count_below_bound(m0.insert(pidx, v), thr(vals@, l)) by {
                            crate::fenwick::lemma_range_sum_update(b1, ni as int, b1[ni as int] + 1, 0, l);
                            lemma_count_below_insert(m0, pidx, v, thr(vals@, l));
                            lemma_thr_index(vals@, ni as int, l);
                        }
                    }
                }
                pb.insert(pidx, v);
            } else if old == i32::MAX && !pb.contains_key(&pidx) {
                let ghost m0 = pb@;
                pb.insert(pidx, i32::MAX);
                proof {
                    assert forall|l: int| 0 <= l <= vals@.len() implies #[trigger] range_sum(bit@, 0, l)
                        == count_below_bound(pb@, thr(vals@, l)) by {
                        lemma_count_below_insert(m0, pidx, i32::MAX, thr(vals@, l));
                    }
                }
            }
            p = p + 1;
        }
        proof {
            lemma_upto_prefix(pool, qjdn as int, p as int);
            lemma_pb_map_finite(pool, p as int);
            lemma_count_below_le(pb@, qval as int);
            last_day = qjdn as int;
        }
        let less = count_below(&vals, qval);
        let faster = bit.prefix(less);
        proof {
            assert(range_sum(bit@, 0, less as int) == count_below_bound(pb@, thr(vals@, less as int)));
            assert forall|x: u32| pb@.contains_key(x) implies (pb@[x] < thr(vals@, less as int) <==> pb@[x] < qval) by {
                lemma_pb_map_values(pool, p as int, x);
                if pb@[x] != i32::MAX {
                    let k = choose|k: int| 0 <= k < p && pool[k].1 == x && pool[k].2 == pb@[x];
                    assert(vals@.contains(pool[k].2));
                    let j = choose|j: int| 0 <= j < vals@.len() && vals@[j] == pb@[x];
                    lemma_thr_index(vals@, j, less as int);
                }
            }
            lemma_count_below_same(pb@, thr(vals@, less as int), qval as int);
        }
        let size = pb.len();
        out.set(qidx, ((faster as u32) + 1, size as u32));
        t = t + 1;
    }
    proof {
        assert forall|q: int| 0 <= q < queries@.len() implies #[trigger] out@[q] == rank_answer(ref_pool@, queries@[q]) by {
            assert(order@.contains(keys@[q]));
            let s = choose|s: int| 0 <= s < order@.len() && order@[s] == keys@[q];
            assert(order@[s].4 == q);
        }
    }
    out
}

/// One world-record row: (day number, value, name, person id, competition id).
pub type WrStep = (i32, i32, String, String, String);

/// The (day, value) columns of world-record rows.
pub open spec fn day_values(raw: Seq<WrStep>) -> Seq<(i32, i32)> {
    Seq::new(raw.len(), |i: int| (raw[i].0, raw[i].1))
}

/// Row `k` of `raw` is a step of the record progression: it is the best row of
/// its day (lowest value, earliest row among equal values) and beats every row
/// of every earlier day.
pub open spec fn is_step(raw: Seq<WrStep>, k: int) -> bool {
    improves(day_values(raw), k)
}

/// `s` is one of the rows of `raw` that is a step of the progression.
pub open spec fn is_step_row(raw: Seq<WrStep>, s: WrStep) -> bool {
    exists|k: int| is_step(raw, k) && s == raw[k]
}

fn clone_step(s: &WrStep) -> (r: WrStep)
    ensures
        r == *s,
{
    (s.0, s.1, s.2.clone(), s.3.clone(), s.4.clone())
}

/// Reduces raw world-record rows to the strictly improving progression, one
/// row per improving day, in day order.
pub fn build_steps(raw: &Vec<WrStep>) -> (steps: Vec<WrStep>)
    ensures
        forall|a: int, b: int| 0 <= a < b < steps@.len() ==> steps@[a].0 < steps@[b].0 && steps@[b].1 < steps@[a].1,
        forall|t: int| 0 <= t < steps@.len() ==> is_step_row(raw@, #[trigger] steps@[t]),
        forall|k: int| is_step(raw@, k) ==> steps@.contains(#[trigger] raw@[k]),
{
    let mut dv: Vec<(i32, i32)> = Vec::new();
    let mut k: usize = 0;
    while k < raw.len()
        invariant
            k <= raw@.len(),
            dv@ == day_values(raw@).subrange(0, k as int),
        decreases raw.len() - k,
    {
        dv.push((raw[k].0, raw[k].1));
        proof {
            assert(dv@ =~= day_values(raw@).subrange(0, k + 1));
        }
        k = k + 1;
    }
    proof {
        assert(dv@ =~= day_values(raw@));
    }
    let idx = progression(&dv);
    let mut steps: Vec<WrStep> = Vec::new();
    let mut t: usize = 0;
    while t < idx.len()
        invariant
            dv@ == day_values(raw@),
            t <= idx@.len(),
            steps@.len() == t,
            forall|u: int| 0 <= u < idx@.len() ==> improves(dv@, #[trigger] idx@[u] as int),
            forall|u: int| 0 <= u < t ==> #[trigger] steps@[u] == raw@[idx@[u] as int],
            forall|u: int| 0 <= u < t ==> is_step_row(raw@, #[trigger] steps@[u]),
        decreases idx.len() - t,
    {
        let ghost w: int = idx@[t as int] as int;
        assert(improves(dv@, w));
        assert(is_step(raw@, w));
        steps.push(clone_step(&raw[idx[t]]));
        assert(steps@[t as int] == raw@[w]);
        t = t + 1;
    }
    proof {
        assert forall|a: int, b: int| 0 <= a < b < steps@.len() implies steps@[a].0 < steps@[b].0 && steps@[b].1 < steps@[a].1 by {
            assert(dv@[idx@[a] as int] == (raw@[idx@[a] as int].0, raw@[idx@[a] as int].1));
            assert(dv@[idx@[b] as int] == (raw@[idx@[b] as int].0, raw@[idx@[b] as int].1));
        }
        assert forall|k: int| is_step(raw@, k) implies steps@.contains(#[trigger] raw@[k]) by {
            assert(idx@.contains(k as usize));
            let u = choose|u: int| 0 <= u < idx@.len() && idx@[u] == k as usize;
            assert(steps@[u] == raw@[k]);
        }
    }
    steps
}

/// The value in force on day `d` in a timeline ordered by day: that of the last
/// entry dated on or before `d`, if any.
pub fn value_at(timeline: &Vec<(i32, i32)>, d: i32) -> (r: Option<i32>)
    requires
        forall|a: int, b: int| 0 <= a < b < timeline@.len() ==> timeline@[a].0 <= timeline@[b].0,
    ensures
        r == value_in_force(timeline@, d as int, timeline@.len() as int),
{
    let mut lo: usize = 0;
    let mut hi: usize = timeline.len();
    while lo < hi
        invariant
            forall|a: int, b: int| 0 <= a < b < timeline@.len() ==> timeline@[a].0 <= timeline@[b].0,
            lo <= hi <= timeline@.len(),
            forall|k: int| 0 <= k < lo ==> timeline@[k].0 <= d,
            forall|k: int| hi <= k < timeline@.len() ==> timeline@[k].0 > d,
        decreases hi - lo,
    {
        let mid = lo + (hi - lo) / 2;
        if timeline[mid].0 <= d {
            lo = mid + 1;
        } else {
            hi = mid;
        }
    }
    proof {
        lemma_value_in_force(timeline@, d as int, lo as int, timeline@.len() as int);
    }
    if lo == 0 {
        None
    } else {
        Some(timeline[lo - 1].1)
    }
}

/// Among the first `n` entries of a timeline, the value of the last one dated
/// on or before day `d`.
pub open spec fn value_in_force(tl: Seq<(i32, i32)>, d: int, n: int) -> Option<i32>
    decreases n,
{
    if n <= 0 {
        None
    } else if tl[n - 1].0 <= d {
        Some(tl[n - 1].1)
    } else {
        value_in_force(tl, d, n - 1)
    }
}

proof fn lemma_value_in_force(tl: Seq<(i32, i32)>, d: int, lo: int, n: int)
    requires
        0 <= lo <= n <= tl.len(),
        forall|k: int| 0 <= k < lo ==> tl[k].0 <= d,
        forall|k: int| lo <= k < tl.len() ==> tl[k].0 > d,
    ensures
        value_in_force(tl, d, n) == if lo == 0 { None } else { Some(tl[lo - 1].1) },
    decreases n,
{
    if n > lo {
        lemma_value_in_force(tl, d, lo, n - 1);
    }
}

/// Weekly query points `(day, value in force)` from day `d` through `today`,
/// skipping days with no value in force yet.
pub open spec fn weekly_queries(tl: Seq<(i32, i32)>, d: int, today: int) -> Seq<(i32, i32)>
    decreases today - d + 7,
{
    if d > today {
        Seq::empty()
    } else {
        let rest = weekly_queries(tl, d + 7, today);
        match value_in_force(tl, d, tl.len() as int) {
            Some(v) => seq![(d as i32, v)] + rest,
            None => rest,
        }
    }
}

/// A ranked graph point: (day, value, rank, pool size).
pub type RankedPoint = (i32, i32, u32, u32);

/// The queries answered against the pool, keeping those with a nonempty pool.
pub open spec fn ranked_points(pool: Seq<PoolEntry>, qs: Seq<(i32, i32)>) -> Seq<RankedPoint>
    decreases qs.len(),
{
    if qs.len() == 0 {
        Seq::empty()
    } else {
        let rest = ranked_points(pool, qs.drop_first());
        let a = rank_answer(pool, qs[0]);
        if a.1 > 0 {
            seq![(qs[0].0, qs[0].1, a.0, a.1)] + rest
        } else {
            rest
        }
    }
}

/// One row of a comparison table: a record step ranked the day it was set.
pub struct TableRow {
    pub date: String,
    pub name: String,
    pub pid: String,
    pub comp: String,
    pub value: i32,
    pub rank: u32,
    pub pool: u32,
}

/// One graph point: the record in force on a sampled day, ranked that day.
pub struct GraphPoint {
    pub date: String,
    pub value: i32,
    pub rank: u32,
    pub pool: u32,
}

/// A record series ranked against a reference pool.
pub struct Comparison {
    pub id: String,
    pub group: String,
    pub title: String,
    pub subject_event: String,
    pub subject_type: String,
    pub ref_event: String,
    pub ref_type: String,
    pub graph: Vec<GraphPoint>,
    pub table: Vec<TableRow>,
}

pub open spec fn date_text(j: int) -> Seq<char> {
    crate::dates::iso_text(crate::dates::ymd_of(j).0, crate::dates::ymd_of(j).1, crate::dates::ymd_of(j).2)
}

/// Days the comparison handles: calendar days of years 0 through 65535.
pub open spec fn day_ok(d: int) -> bool {
    0 <= d <= 30_000_000
}

/// `steps` is the record progression of `raw`: its steps, each once, in day order.
pub open spec fn is_progression(raw: Seq<WrStep>, steps: Seq<WrStep>) -> bool {
    &&& forall|a: int, b: int| 0 <= a < b < steps.len() ==> steps[a].0 < steps[b].0
    &&& forall|t: int| 0 <= t < steps.len() ==> is_step_row(raw, #[trigger] steps[t])
    &&& forall|k: int| is_step(raw, k) ==> steps.contains(#[trigger] raw[k])
}

/// The table ranks every step on the day it was set.
pub open spec fn table_matches(table: Seq<TableRow>, steps: Seq<WrStep>, pool: Seq<PoolEntry>) -> bool {
    &&& table.len() == steps.len()
    &&& forall|t: int| 0 <= t < steps.len() ==> {
        let row = #[trigger] table[t];
        let a = rank_answer(pool, (steps[t].0, steps[t].1));
        &&& row.date@ == date_text(steps[t].0 as int)
        &&& row.name == steps[t].2 && row.pid == steps[t].3 && row.comp == steps[t].4
        &&& row.value == steps[t].1 && row.rank == a.0 && row.pool == a.1
    }
}

/// The graph ranks the record in force each week from the first step through
/// `today`, keeping the weeks with a nonempty pool.
pub open spec fn graph_matches(graph: Seq<GraphPoint>, steps: Seq<WrStep>, pool: Seq<PoolEntry>, today: int) -> bool {
    &&& steps.len() > 0
    &&& {
        let tl = steps.map_values(|s: WrStep| (s.0, s.1));
        let pts = ranked_points(pool, weekly_queries(tl, steps[0].0 as int, today));
        &&& graph.len() == pts.len()
        &&& forall|t: int| 0 <= t < pts.len() ==> {
            let g = #[trigger] graph[t];
            &&& g.date@ == date_text(pts[t].0 as int)
            &&& g.value == pts[t].1 && g.rank == pts[t].2 && g.pool == pts[t].3
        }
    }
}

/// The record series `steps_raw` ranked against `ref_pool`: each step the day it
/// was set (the table), and the record in force each week from the first step
/// through `today` (the graph, keeping weeks with a nonempty pool).
/// `None` when either input is missing or yields nothing to rank.
pub fn build_comparison(
    id: String,
    group: &str,
    title: String,
    subject_event: &str,
    subject_type: &str,
    ref_event: &str,
    ref_type: &str,
    steps_raw: Option<&Vec<WrStep>>,
    ref_pool: Option<&Vec<PoolEntry>>,
    today_jdn: i32,
) -> (r: Option<Comparison>)
    requires
        steps_raw matches Some(v) ==> forall|k: int| 0 <= k < v@.len() ==> day_ok(#[trigger] v@[k].0 as int),
        ref_pool matches Some(p) ==> sorted_by_day(p@) && p@.len() < max_len() - 1,
        day_ok(today_jdn as int),
    ensures
        match r {
            None => steps_raw is None || ref_pool is None || ref_pool.unwrap()@.len() == 0
                || forall|k: int| !is_step(steps_raw.unwrap()@, k),
            Some(c) => {
                let raw = steps_raw.unwrap()@;
                let pool = ref_pool.unwrap()@;
                &&& steps_raw is Some && ref_pool is Some && pool.len() > 0
                &&& c.id == id && c.title == title && c.group@ == group@
                &&& c.subject_event@ == subject_event@ && c.subject_type@ == subject_type@
                &&& c.ref_event@ == ref_event@ && c.ref_type@ == ref_type@
                &&& exists|steps: Seq<WrStep>| #[trigger] is_progression(raw, steps)
                    && table_matches(c.table@, steps, pool)
                    && graph_matches(c.graph@, steps, pool, today_jdn as int)
            },
        },
{
    let raw = match steps_raw {
        Some(v) => v,
        None => { return None; }
    };
    let steps = build_steps(raw);
    if steps.len() == 0 {
        proof {
            assert forall|k: int| !is_step(raw@, k) by {
                if is_step(raw@, k) {
                    assert(steps@.contains(raw@[k]));
                }
            }
        }
        return None;
    }
    let pool = match ref_pool {
        Some(p) => p,
        None => { return None; }
    };
    if pool.len() == 0 {
        return None;
    }
    proof {
        assert forall|t: int| 0 <= t < steps@.len() implies day_ok(#[trigger] steps@[t].0 as int) by {
            let k = choose|k: int| is_step(raw@, k) && steps@[t] == raw@[k];
        }
    }
    // Day/value timeline of the steps.
    let mut timeline: Vec<(i32, i32)> = Vec::new();
    let mut i: usize = 0;
    while i < steps.len()
        invariant
            i <= steps@.len(),
            timeline@ == steps@.subrange(0, i as int).map_values(|s: WrStep| (s.0, s.1)),
        decreases steps.len() - i,
    {
        timeline.push((steps[i].0, steps[i].1));
        proof {
            assert(steps@.subrange(0, i + 1).map_values(|s: WrStep| (s.0, s.1)) =~= steps@.subrange(0, i as int).map_values(|s: WrStep| (s.0, s.1)).push((steps@[i as int].0, steps@[i as int].1)));
        }
        i = i + 1;
    }
    proof {
        assert(steps@.subrange(0, steps@.len() as int) =~= steps@);
    }
    let ghost tl = timeline@;
    let table_r = rank_queries(pool, &timeline);
    let mut table: Vec<TableRow> = Vec::new();
    let mut t: usize = 0;
    while t < steps.len()
        invariant
            t <= steps@.len(),
            table_r@.len() == steps@.len(),
            timeline@ == tl,
            tl == steps@.map_values(|s: WrStep| (s.0, s.1)),
            forall|q: int| 0 <= q < tl.len() ==> #[trigger] table_r@[q] == rank_answer(pool@, tl[q]),
            forall|u: int| 0 <= u < steps@.len() ==> day_ok(#[trigger] steps@[u].0 as int),
            table@.len() == t,
            forall|u: int| 0 <= u < t ==> {
                let row = #[trigger] table@[u];
                let a = rank_answer(pool@, (steps@[u].0, steps@[u].1));
                &&& row.date@ == date_text(steps@[u].0 as int)
                &&& row.name == steps@[u].2 && row.pid == steps@[u].3 && row.comp == steps@[u].4
                &&& row.value == steps@[u].1 && row.rank == a.0 && row.pool == a.1
            },
        decreases steps.len() - t,
    {
        let (rank, size) = table_r[t];
        let row = TableRow {
            date: crate::dates::jdn_to_iso(steps[t].0),
            name: steps[t].2.clone(),
            pid: steps[t].3.clone(),
            comp: steps[t].4.clone(),
            value: steps[t].1,
            rank,
            pool: size,
        };
        table.push(row);
        t = t + 1;
    }
    // Weekly samples of the record in force.
    let first = timeline[0].0;
    let mut graph_q: Vec<(i32, i32)> = Vec::new();
    let mut d = first;
    proof {
        assert forall|a: int, b: int| 0 <= a < b < tl.len() implies tl[a].0 <= tl[b].0 by {}
    }
    while d <= today_jdn
        invariant
            timeline@ == tl,
            forall|a: int, b: int| 0 <= a < b < tl.len() ==> tl[a].0 <= tl[b].0,
            day_ok(today_jdn as int),
            first <= d,
            d <= today_jdn + 7 || d == first,
            graph_q@ + weekly_queries(tl, d as int, today_jdn as int) == weekly_queries(tl, first as int, today_jdn as int),
            forall|u: int| 0 <= u < graph_q@.len() ==> day_ok(#[trigger] graph_q@[u].0 as int),
            day_ok(first as int),
        decreases today_jdn + 7 - d,
    {
        let v = value_at(&timeline, d);
        let ghost before = graph_q@;
        match v {
            Some(val) => {
                graph_q.push((d, val));
                proof {
                    assert(graph_q@ + weekly_queries(tl, d + 7, today_jdn as int) =~= before + weekly_queries(tl, d as int, today_jdn as int));
                }
            },
            None => {
                proof {
                    assert(graph_q@ + weekly_queries(tl, d + 7, today_jdn as int) =~= before + weekly_queries(tl, d as int, today_jdn as int));
                }
            },
        }
        d = d + 7;
    }
    proof {
        assert(weekly_queries(tl, d as int, today_jdn as int) =~= Seq::<(i32, i32)>::empty());
        assert(graph_q@ =~= weekly_queries(tl, first as int, today_jdn as int));
    }
    let graph_r = rank_queries(pool, &graph_q);
    let mut graph: Vec<GraphPoint> = Vec::new();
    let mut g: usize = 0;
    let ghost qs = graph_q@;
    proof {
        assert(qs.subrange(0, qs.len() as int) =~= qs);
        assert(ranked_points(pool@, qs) =~= Seq::new(0, |u: int| ranked_points(pool@, qs)[u]) + ranked_points(pool@, qs));
    }
    while g < graph_q.len()
        invariant
            graph_q@ == qs,
            g <= qs.len(),
            graph_r@.len() == qs.len(),
            forall|q: int| 0 <= q < qs.len() ==> #[trigger] graph_r@[q] == rank_answer(pool@, qs[q]),
            forall|u: int| 0 <= u < qs.len() ==> day_ok(#[trigger] qs[u].0 as int),
            graph@.len() + ranked_points(pool@, qs.subrange(g as int, qs.len() as int)).len() == ranked_points(pool@, qs).len(),
            forall|u: int| 0 <= u < graph@.len() ==> {
                let pt = #[trigger] graph@[u];
                let spec_pt = ranked_points(pool@, qs)[u];
                &&& pt.date@ == date_text(spec_pt.0 as int)
                &&& pt.value == spec_pt.1 && pt.rank == spec_pt.2 && pt.pool == spec_pt.3
            },
            ranked_points(pool@, qs) == Seq::new(graph@.len() as nat, |u: int| ranked_points(pool@, qs)[u]) + ranked_points(pool@, qs.subrange(g as int, qs.len() as int)),
        decreases qs.len() - g,
    {
        let (rank, size) = graph_r[g];
        let ghost rest = qs.subrange(g as int, qs.len() as int);
        proof {
            assert(rest.drop_first() =~= qs.subrange(g + 1, qs.len() as int));
            assert(rest[0] == qs[g as int]);
        }
        if size > 0 {
            let (day, val) = graph_q[g];
            let pt = GraphPoint { date: crate::dates::jdn_to_iso(day), value: val, rank, pool: size };
            let ghost n0 = graph@.len();
            graph.push(pt);
            proof {
                let full = ranked_points(pool@, qs);
                assert(full =~= Seq::new(graph@.len() as nat, |u: int| full[u]) + ranked_points(pool@, qs.subrange(g + 1, qs.len() as int)));
            }
        } else {
            proof {
                let full = ranked_points(pool@, qs);
                assert(full =~= Seq::new(graph@.len() as nat, |u: int| full[u]) + ranked_points(pool@, qs.subrange(g + 1, qs.len() as int)));
            }
        }
        g = g + 1;
    }
    proof {
        assert(qs.subrange(qs.len() as int, qs.len() as int) =~= Seq::<(i32, i32)>::empty());
        assert(is_progression(raw@, steps@));
        assert(table_matches(table@, steps@, pool@));
        assert(graph_matches(graph@, steps@, pool@, today_jdn as int));
    }
    Some(Comparison {
        id,
        group: String::from_str(group),
        title,
        subject_event: String::from_str(subject_event),
        subject_type: String::from_str(subject_type),
        ref_event: String::from_str(ref_event),
        ref_type: String::from_str(ref_type),
        graph,
        table,
    })
}

proof fn zero_sum(s: Seq<int>, l: int)
    requires
        0 <= l <= s.len(),
        forall|k: int| 0 <= k < s.len() ==> s[k] == 0,
    ensures
        range_sum(s, 0, l) == 0,
    decreases l,
{
    if l > 0 {
        zero_sum(s, l - 1);
    }
}

} // verus!
