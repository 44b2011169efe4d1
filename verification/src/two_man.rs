//! Two-person relay challenges: two competitors split a set of events between
//! them and race in parallel, so a pair's time is the slower of the two
//! halves. For every pair the best split is found; the 100 best pairs and the
//! best pair of each country are reported.
use vstd::prelude::*;
use crate::index::str_is;
use crate::sort::{SortKey, sort_keys, sorted_keys};
use crate::index::IndexedDb;
use crate::relay::{valid_avg, event_position};
use crate::sub_x::{first_position, lemma_first_position};

verus! {

/// A competitor with an average in every event of the challenge.
pub struct Person {
    pub id: String,
    pub name: String,
    pub country: String,
    /// Personal best average per challenge event, in event order.
    pub avgs: Vec<i32>,
    pub total: i32,
}

pub struct PersonRef {
    pub id: String,
    pub name: String,
    pub country: String,
}

pub struct PairEntry {
    pub a: PersonRef,
    pub b: PersonRef,
    pub time_cs: i32,
    pub time_a: i32,
    pub time_b: i32,
    pub events_a: Vec<String>,
    pub events_b: Vec<String>,
}

pub struct CountryEntry {
    pub country: String,
    pub pair: PairEntry,
}

pub struct ChallengeOutput {
    pub events: Vec<String>,
    pub pairs: Vec<PairEntry>,
    pub countries: Vec<CountryEntry>,
}

/// A valid average: positive.
pub open spec fn avg_ok(v: int) -> bool {
    1 <= v
}

/// Total of the first `k` averages.
pub open spec fn avg_total(a: Seq<i32>, k: int) -> int
    decreases k,
{
    if k <= 0 { 0 } else { avg_total(a, k - 1) + a[k - 1] as int }
}

/// Totals of positive averages grow with the number of events.
proof fn lemma_avg_total_mono(a: Seq<i32>, j: int, k: int)
    requires
        0 <= j <= k <= a.len(),
        forall|e: int| 0 <= e < a.len() ==> avg_ok(#[trigger] a[e] as int),
    ensures
        0 <= avg_total(a, j) <= avg_total(a, k),
    decreases k,
{
    if k > j {
        lemma_avg_total_mono(a, j, k - 1);
    } else if k > 0 {
        lemma_avg_total_mono(a, 0, k - 1);
    }
}

/// Whether event `e` is in `mask`.
pub open spec fn bit(mask: u32, e: u32) -> bool {
    (mask >> e) & 1u32 == 1u32
}

/// Total of `a` over the events of `mask` among the first `k`.
pub open spec fn subset_sum(a: Seq<i32>, mask: u32, k: int) -> int
    decreases k,
{
    if k <= 0 {
        0
    } else {
        subset_sum(a, mask, k - 1) + if bit(mask, (k - 1) as u32) { a[k - 1] as int } else { 0int }
    }
}

proof fn lemma_subset_sum_bounds(a: Seq<i32>, mask: u32, k: int)
    requires
        0 <= k <= a.len(),
        forall|e: int| 0 <= e < a.len() ==> avg_ok(#[trigger] a[e] as int),
    ensures
        0 <= subset_sum(a, mask, k) <= avg_total(a, k),
    decreases k,
{
    if k > 0 {
        lemma_subset_sum_bounds(a, mask, k - 1);
    }
}

proof fn lemma_bits_split(mask: u32, k: u32, e: u32)
    requires
        k < 30,
        (1u32 << k) <= mask < (1u32 << (k + 1) as u32),
        e < 32,
    ensures
        e < k ==> (bit((mask - (1u32 << k)) as u32, e) == bit(mask, e)),
        e == k ==> bit(mask, e) && !bit((mask - (1u32 << k)) as u32, e),
        e > k ==> !bit(mask, e) && !bit((mask - (1u32 << k)) as u32, e),
{
    let low: u32 = (mask - (1u32 << k)) as u32;
    assert(k < 30 && (1u32 << k) <= mask < (1u32 << (k + 1) as u32) && e < 32 && low == mask - (1u32 << k) ==> {
        &&& (e < k ==> ((low >> e) & 1u32 == (mask >> e) & 1u32))
        &&& (e == k ==> (mask >> e) & 1u32 == 1u32 && (low >> e) & 1u32 == 0u32)
        &&& (e > k ==> (mask >> e) & 1u32 == 0u32 && (low >> e) & 1u32 == 0u32)
    }) by (bit_vector);
}

proof fn lemma_subset_sum_same(a: Seq<i32>, m1: u32, m2: u32, k: int)
    requires
        0 <= k <= 32,
        forall|e: u32| e < k ==> bit(m1, e) == bit(m2, e),
    ensures
        subset_sum(a, m1, k) == subset_sum(a, m2, k),
    decreases k,
{
    if k > 0 {
        lemma_subset_sum_same(a, m1, m2, k - 1);
        assert(bit(m1, (k - 1) as u32) == bit(m2, (k - 1) as u32));
    }
}

proof fn lemma_subset_sum_zero_above(a: Seq<i32>, mask: u32, k: int, n: int)
    requires
        0 <= k <= n <= 32,
        forall|e: u32| k <= e < n ==> !bit(mask, e),
    ensures
        subset_sum(a, mask, n) == subset_sum(a, mask, k),
    decreases n,
{
    if n > k {
        lemma_subset_sum_zero_above(a, mask, k, n - 1);
    }
}

/// The DP step: a mask in `[2^k, 2^(k+1))` totals event `k` plus the mask without it.
proof fn lemma_subset_sum_step(a: Seq<i32>, mask: u32, k: u32, n: int)
    requires
        k < 30,
        k < n <= 30,
        (1u32 << k) <= mask < (1u32 << (k + 1) as u32),
    ensures
        subset_sum(a, mask, n) == subset_sum(a, (mask - (1u32 << k)) as u32, n) + a[k as int],
{
    let low: u32 = (mask - (1u32 << k)) as u32;
    assert forall|e: u32| e < 32 implies (e < k ==> bit(low, e) == bit(mask, e)) && (e == k ==> bit(mask, e) && !bit(low, e)) && (e > k ==> !bit(mask, e) && !bit(low, e)) by {
        lemma_bits_split(mask, k, e);
    }
    lemma_subset_sum_zero_above(a, mask, k + 1, n);
    lemma_subset_sum_zero_above(a, low, k + 1, n);
    lemma_subset_sum_same(a, mask, low, k as int);
}

/// `ss[p][mask]` is person `p`'s total over the events in `mask`.
pub open spec fn sums_ok(people: Seq<Person>, n: int, ss: Seq<Vec<i32>>) -> bool {
    &&& ss.len() == people.len()
    &&& forall|p: int| 0 <= p < people.len() ==> #[trigger] ss[p]@.len() == pow2(n)
    &&& forall|p: int, mask: int| 0 <= p < people.len() && 0 <= mask < pow2(n) ==> #[trigger] ss[p]@[mask] == subset_sum(people[p].avgs@, mask as u32, n)
}

pub open spec fn pow2(n: int) -> int
    decreases n,
{
    if n <= 0 { 1 } else { 2 * pow2(n - 1) }
}

/// The people are well formed for a challenge of `n` events.
pub open spec fn people_ok(people: Seq<Person>, n: int) -> bool {
    forall|p: int| 0 <= p < people.len() ==> {
        &&& (#[trigger] people[p]).avgs@.len() == n
        &&& forall|e: int| 0 <= e < n ==> avg_ok(#[trigger] people[p].avgs@[e] as int)
        &&& avg_total(people[p].avgs@, n) <= i32::MAX
    }
}

proof fn lemma_pow2_shift(k: u32)
    requires
        k < 31,
    ensures
        (1u32 << k) as int == pow2(k as int),
    decreases k,
{
    if k > 0 {
        lemma_pow2_shift((k - 1) as u32);
        assert((1u32 << k) == 2 * (1u32 << (k - 1) as u32)) by (bit_vector)
            requires 0 < k < 31;
    } else {
        assert((1u32 << 0u32) == 1u32) by (bit_vector);
    }
}

proof fn lemma_pow2_pos(n: int)
    ensures
        pow2(n) >= 1,
        n >= 0 ==> pow2(n + 1) == 2 * pow2(n),
    decreases n,
{
    if n > 0 {
        lemma_pow2_pos(n - 1);
    }
}

proof fn lemma_pow2_mono(a: int, b: int)
    requires
        0 <= a <= b,
    ensures
        pow2(a) <= pow2(b),
    decreases b,
{
    if b > a {
        lemma_pow2_mono(a, b - 1);
        lemma_pow2_pos(b - 1);
    }
}

proof fn lemma_pow2_le(n: int)
    requires
        0 <= n <= 30,
    ensures
        pow2(n) <= 0x4000_0000,
{
    lemma_pow2_mono(n, 30);
    reveal_with_fuel(pow2, 31);
}

/// Subset sums of one person's averages for every mask of `n` events.
fn person_sums(a: &Vec<i32>, n: usize) -> (ss: Vec<i32>)
    requires
        0 <= n <= 30,
        a@.len() == n,
        forall|e: int| 0 <= e < n ==> avg_ok(#[trigger] a@[e] as int),
        avg_total(a@, n as int) <= i32::MAX,
    ensures
        ss@.len() == pow2(n as int),
        forall|mask: int| 0 <= mask < pow2(n as int) ==> #[trigger] ss@[mask] == subset_sum(a@, mask as u32, n as int),
{
    let mut ss: Vec<i32> = Vec::new();
    ss.push(0);
    proof {
        assert forall|e: u32| 0 <= e < n implies !bit(0u32, e) by {
            assert((0u32 >> e) & 1u32 == 0u32) by (bit_vector);
        }
        lemma_subset_sum_zero_above(a@, 0u32, 0, n as int);
        reveal_with_fuel(pow2, 1);
    }
    let mut k: usize = 0;
    while k < n
        invariant
            0 <= n <= 30,
            a@.len() == n,
            forall|e: int| 0 <= e < n ==> avg_ok(#[trigger] a@[e] as int),
            avg_total(a@, n as int) <= i32::MAX,
            k <= n,
            ss@.len() == pow2(k as int),
            forall|mask: int| 0 <= mask < pow2(k as int) ==> #[trigger] ss@[mask] == subset_sum(a@, mask as u32, n as int),
        decreases n - k,
    {
        let step: usize = 1usize << k;
        proof {
            lemma_pow2_shift(k as u32);
            assert((1usize << k) as int == (1u32 << k as u32) as int) by (bit_vector)
                requires k < 30;
            lemma_pow2_pos(k as int);
            lemma_pow2_le(k as int + 1);
        }
        let mut mask: usize = step;
        while mask < 2 * step
            invariant
                0 <= n <= 30,
                k < n,
                a@.len() == n,
                forall|e: int| 0 <= e < n ==> avg_ok(#[trigger] a@[e] as int),
                avg_total(a@, n as int) <= i32::MAX,
                step as int == pow2(k as int),
                (1u32 << k as u32) as int == step,
                pow2(k as int + 1) == 2 * step,
                2 * step <= 0x4000_0000,
                step <= mask <= 2 * step,
                ss@.len() == mask,
                forall|mk: int| 0 <= mk < mask ==> #[trigger] ss@[mk] == subset_sum(a@, mk as u32, n as int),
            decreases 2 * step - mask,
        {
            proof {
                assert(2 * step == (1u32 << (k + 1) as u32)) by (bit_vector)
                    requires step == (1u32 << k as u32), k < 30;
                lemma_subset_sum_step(a@, mask as u32, k as u32, n as int);
                lemma_subset_sum_bounds(a@, (mask - step) as u32, n as int);
                lemma_subset_sum_bounds(a@, mask as u32, n as int);
                assert((mask - (1u32 << k as u32)) as u32 == (mask - step) as u32);
                assert(ss@[mask - step] == subset_sum(a@, (mask - step) as u32, n as int));
            }
            let v = ss[mask - step] + a[k];
            ss.push(v);
            mask = mask + 1;
        }
        k = k + 1;
    }
    ss
}

/// Subset sums of every person for every mask of `n` events.
fn subset_sums(people: &Vec<Person>, n: usize) -> (ss: Vec<Vec<i32>>)
    requires
        0 <= n <= 30,
        people_ok(people@, n as int),
    ensures
        sums_ok(people@, n as int, ss@),
{
    let mut ss: Vec<Vec<i32>> = Vec::new();
    let mut p: usize = 0;
    while p < people.len()
        invariant
            0 <= n <= 30,
            people_ok(people@, n as int),
            p <= people@.len(),
            ss@.len() == p,
            forall|q: int| 0 <= q < p ==> #[trigger] ss@[q]@.len() == pow2(n as int),
            forall|q: int, mask: int| 0 <= q < p && 0 <= mask < pow2(n as int) ==> #[trigger] ss@[q]@[mask] == subset_sum(people@[q].avgs@, mask as u32, n as int),
        decreases people@.len() - p,
    {
        proof {
            assert(people@[p as int].avgs@.len() == n);
        }
        let row = person_sums(&people[p].avgs, n);
        ss.push(row);
        p = p + 1;
    }
    ss
}

/// (slower half, faster half) of pair (a, b) when `a` does the events of
/// `mask` and `b` the rest (`full` is the mask of all events).
pub open spec fn split_key(ss: Seq<Vec<i32>>, a: int, b: int, mask: int, full: int) -> (int, int) {
    let ta = ss[a]@[mask] as int;
    let tb = ss[b]@[full - mask] as int;
    (if ta > tb { ta } else { tb }, if ta < tb { ta } else { tb })
}

pub open spec fn key_lt(x: (int, int), y: (int, int)) -> bool {
    x.0 < y.0 || (x.0 == y.0 && x.1 < y.1)
}

/// `mask` is the best split of pair (a, b): no split is better, and every
/// earlier split is worse.
pub open spec fn is_best_split(ss: Seq<Vec<i32>>, a: int, b: int, mask: int, full: int) -> bool {
    &&& 0 <= mask <= full
    &&& forall|m: int| 0 <= m <= full ==> !key_lt(#[trigger] split_key(ss, a, b, m, full), split_key(ss, a, b, mask, full))
    &&& forall|m: int| 0 <= m < mask ==> key_lt(split_key(ss, a, b, mask, full), #[trigger] split_key(ss, a, b, m, full))
}

/// The sums table fits persons `a` and `b` for `n` events.
pub open spec fn sums_fit(ss: Seq<Vec<i32>>, people: Seq<Person>, n: int) -> bool {
    &&& 0 <= n <= 30
    &&& sums_ok(people, n, ss)
    &&& people_ok(people, n)
}

proof fn lemma_sum_bound(ss: Seq<Vec<i32>>, people: Seq<Person>, n: int, p: int, mask: int)
    requires
        sums_fit(ss, people, n),
        0 <= p < people.len(),
        0 <= mask < pow2(n),
    ensures
        0 <= ss[p]@[mask] <= i32::MAX,
{
    lemma_subset_sum_bounds(people[p].avgs@, mask as u32, n);
}

fn best_split(ss: &Vec<Vec<i32>>, people: &Vec<Person>, n: usize, a: usize, b: usize, full: usize) -> (r: (i32, i32, usize))
    requires
        sums_fit(ss@, people@, n as int),
        a < people@.len(),
        b < people@.len(),
        full as int == pow2(n as int) - 1,
    ensures
        is_best_split(ss@, a as int, b as int, r.2 as int, full as int),
        (r.0 as int, r.1 as int) == split_key(ss@, a as int, b as int, r.2 as int, full as int),
{
    proof {
        lemma_pow2_le(n as int);
        lemma_pow2_pos(n as int);
    }
    let mut best_score = i32::MAX;
    let mut best_minor = i32::MAX;
    let mut best_mask: usize = 0;
    let mut mask: usize = 0;
    while mask <= full
        invariant
            sums_fit(ss@, people@, n as int),
            a < people@.len(),
            b < people@.len(),
            full as int == pow2(n as int) - 1,
            full < 0x4000_0000,
            mask <= full + 1,
            mask == 0 ==> best_score == i32::MAX && best_minor == i32::MAX && best_mask == 0,
            mask > 0 ==> best_mask < mask && (best_score as int, best_minor as int) == split_key(ss@, a as int, b as int, best_mask as int, full as int),
            forall|m: int| 0 <= m < mask ==> !key_lt(#[trigger] split_key(ss@, a as int, b as int, m, full as int), (best_score as int, best_minor as int)),
            forall|m: int| 0 <= m < best_mask ==> key_lt((best_score as int, best_minor as int), #[trigger] split_key(ss@, a as int, b as int, m, full as int)),
        decreases full + 1 - mask,
    {
        proof {
            lemma_sum_bound(ss@, people@, n as int, a as int, mask as int);
            lemma_sum_bound(ss@, people@, n as int, b as int, (full - mask) as int);
        }
        let ta = ss[a][mask];
        let tb = ss[b][full - mask];
        let score = if ta > tb { ta } else { tb };
        let minor = if ta < tb { ta } else { tb };
        if score < best_score || (score == best_score && minor < best_minor) {
            best_score = score;
            best_minor = minor;
            best_mask = mask;
        }
        mask = mask + 1;
    }
    (best_score, best_minor, best_mask)
}

/// Total over events of the lower of the two persons' averages.
pub open spec fn min_sum(a: Seq<i32>, b: Seq<i32>, k: int) -> int
    decreases k,
{
    if k <= 0 {
        0
    } else {
        min_sum(a, b, k - 1) + if a[k - 1] < b[k - 1] { a[k - 1] as int } else { b[k - 1] as int }
    }
}

proof fn lemma_min_sum_le(a: Seq<i32>, b: Seq<i32>, mask: u32, c: u32, k: int)
    requires
        0 <= k <= 30,
        forall|e: u32| e < k ==> bit(c, e) == !bit(mask, e),
    ensures
        subset_sum(a, mask, k) + subset_sum(b, c, k) >= min_sum(a, b, k),
    decreases k,
{
    if k > 0 {
        lemma_min_sum_le(a, b, mask, c, k - 1);
        assert(bit(c, (k - 1) as u32) == !bit(mask, (k - 1) as u32));
    }
}

proof fn lemma_complement_bits(mask: u32, n: u32)
    requires
        0 <= n <= 30,
        mask < (1u32 << n),
    ensures
        forall|e: u32| e < n ==> bit((((1u32 << n) - 1) - mask) as u32, e) == !bit(mask, e),
{
    assert forall|e: u32| e < n implies bit((((1u32 << n) - 1) - mask) as u32, e) == !bit(mask, e) by {
        let c: u32 = (((1u32 << n) - 1) - mask) as u32;
        assert(0 <= n <= 30 && mask < (1u32 << n) && e < n && c == ((1u32 << n) - 1) - mask ==> ((c >> e) & 1u32 == 1u32) == !((mask >> e) & 1u32 == 1u32)) by (bit_vector);
    }
}

/// Every split of a pair is at least half the total of its cheaper averages
/// (rounded down).
proof fn lemma_split_lower_bound(ss: Seq<Vec<i32>>, people: Seq<Person>, n: int, a: int, b: int, mask: int)
    requires
        sums_fit(ss, people, n),
        0 <= a < people.len(),
        0 <= b < people.len(),
        0 <= mask < pow2(n),
    ensures
        split_key(ss, a, b, mask, pow2(n) - 1).0 >= min_sum(people[a].avgs@, people[b].avgs@, n) / 2,
{
    lemma_pow2_shift(n as u32);
    lemma_pow2_le(n);
    let full = pow2(n) - 1;
    lemma_complement_bits(mask as u32, n as u32);
    assert((full - mask) as u32 == (((1u32 << n as u32) - 1) - mask as u32) as u32);
    lemma_min_sum_le(people[a].avgs@, people[b].avgs@, mask as u32, (full - mask) as u32, n);
}

/// Index of the best split among masks `0..k`.
pub open spec fn best_upto(ss: Seq<Vec<i32>>, a: int, b: int, k: int, full: int) -> int
    decreases k,
{
    if k <= 1 {
        0
    } else {
        let prev = best_upto(ss, a, b, k - 1, full);
        if key_lt(split_key(ss, a, b, k - 1, full), split_key(ss, a, b, prev, full)) { k - 1 } else { prev }
    }
}

proof fn lemma_best_upto(ss: Seq<Vec<i32>>, a: int, b: int, k: int, full: int)
    requires
        1 <= k,
    ensures
        0 <= best_upto(ss, a, b, k, full) < k,
        forall|m: int| 0 <= m < k ==> !key_lt(#[trigger] split_key(ss, a, b, m, full), split_key(ss, a, b, best_upto(ss, a, b, k, full), full)),
        forall|m: int| 0 <= m < best_upto(ss, a, b, k, full) ==> key_lt(split_key(ss, a, b, best_upto(ss, a, b, k, full), full), #[trigger] split_key(ss, a, b, m, full)),
    decreases k,
{
    if k > 1 {
        lemma_best_upto(ss, a, b, k - 1, full);
    }
}

proof fn lemma_best_split_exists(ss: Seq<Vec<i32>>, a: int, b: int, full: int)
    requires
        0 <= full,
    ensures
        exists|mk: int| is_best_split(ss, a, b, mk, full),
{
    lemma_best_upto(ss, a, b, full + 1, full);
    assert(is_best_split(ss, a, b, best_upto(ss, a, b, full + 1, full), full));
}

/// Top entry: (slower half, faster half, person a, person b, a's mask).
pub type TopEntry = (i32, i32, usize, usize, usize);

/// Pair (a, b) comes before pair (x, y) in the search order.
pub open spec fn pair_before(a: int, b: int, x: int, y: int) -> bool {
    a < x || (a == x && b < y)
}

/// Entry `t` holds pair (a, b) with its best split.
pub open spec fn entry_valid(ss: Seq<Vec<i32>>, m: int, full: int, t: TopEntry) -> bool {
    &&& t.2 < t.3 < m
    &&& is_best_split(ss, t.2 as int, t.3 as int, t.4 as int, full)
    &&& (t.0 as int, t.1 as int) == split_key(ss, t.2 as int, t.3 as int, t.4 as int, full)
}

/// The best split's key of pair (a, b).
pub open spec fn pair_key(ss: Seq<Vec<i32>>, a: int, b: int, full: int) -> (int, int) {
    split_key(ss, a, b, choose|mk: int| is_best_split(ss, a, b, mk, full), full)
}

pub open spec fn in_top(top: Seq<TopEntry>, a: int, b: int) -> bool {
    exists|t: int| 0 <= t < top.len() && top[t].2 == a && top[t].3 == b
}

proof fn lemma_best_split_key(ss: Seq<Vec<i32>>, a: int, b: int, mk: int, full: int)
    requires
        is_best_split(ss, a, b, mk, full),
    ensures
        pair_key(ss, a, b, full) == split_key(ss, a, b, mk, full),
{
    let c = choose|c: int| is_best_split(ss, a, b, c, full);
    assert(!key_lt(split_key(ss, a, b, c, full), split_key(ss, a, b, mk, full)));
    assert(!key_lt(split_key(ss, a, b, mk, full), split_key(ss, a, b, c, full)));
}

/// The global search: the (up to) 100 pairs with the best splits, and the best
/// split found for each country among the pairs that were not skipped.
pub open spec fn top_ok(ss: Seq<Vec<i32>>, m: int, full: int, top: Seq<TopEntry>) -> bool {
    &&& top.len() <= 100
    &&& forall|i: int| 0 <= i < top.len() ==> entry_valid(ss, m, full, #[trigger] top[i])
    &&& forall|i: int, j: int| 0 <= i < j < top.len() ==> !key_lt((top[j].0 as int, top[j].1 as int), (top[i].0 as int, top[i].1 as int))
    &&& forall|i: int, j: int| 0 <= i < j < top.len() ==> (top[i].2, top[i].3) != (top[j].2, top[j].3)
}

pub open spec fn tkey(t: TopEntry) -> (int, int) {
    (t.0 as int, t.1 as int)
}

/// `new` is `old` with `t` inserted at `j`, after every entry whose key is not
/// greater and before every greater one, cut to 100 entries.
pub open spec fn inserted_at(old: Seq<TopEntry>, t: TopEntry, j: int, new: Seq<TopEntry>) -> bool {
    let ins = old.insert(j, t);
    &&& 0 <= j <= old.len()
    &&& (forall|i: int| 0 <= i < j ==> !key_lt(tkey(t), tkey(#[trigger] old[i])))
    &&& (forall|i: int| j <= i < old.len() ==> key_lt(tkey(t), tkey(#[trigger] old[i])))
    &&& new == if ins.len() > 100 { ins.subrange(0, 100) } else { ins }
}

/// Inserts `t` after every entry whose key is not greater, then keeps 100.
fn insert_top(top: &mut Vec<TopEntry>, t: TopEntry)
    requires
        old(top)@.len() <= 100,
        forall|i: int, j: int| 0 <= i < j < old(top)@.len() ==> !key_lt(tkey(old(top)@[j]), tkey(old(top)@[i])),
    ensures
        exists|j: int| #[trigger] inserted_at(old(top)@, t, j, final(top)@),
        forall|i: int, j: int| 0 <= i < j < final(top)@.len() ==> !key_lt(tkey(final(top)@[j]), tkey(final(top)@[i])),
        final(top)@.len() == if old(top)@.len() < 100 { old(top)@.len() + 1 } else { 100 },
{
    let mut j: usize = 0;
    while j < top.len() && !(t.0 < top[j].0 || (t.0 == top[j].0 && t.1 < top[j].1))
        invariant
            j <= top@.len(),
            top@ == old(top)@,
            forall|i: int| 0 <= i < j ==> !key_lt(tkey(t), tkey(#[trigger] top@[i])),
        decreases top.len() - j,
    {
        j = j + 1;
    }
    let ghost jj = j as int;
    proof {
        assert forall|i: int| jj <= i < old(top)@.len() implies key_lt(tkey(t), tkey(#[trigger] old(top)@[i])) by {
            assert(!key_lt(tkey(old(top)@[i]), tkey(old(top)@[jj])) || i == jj);
        }
    }
    top.insert(j, t);
    let ghost ins = top@;
    if top.len() > 100 {
        top.truncate(100);
    }
    proof {
        assert(top@ == if ins.len() > 100 { ins.subrange(0, 100) } else { ins });
        assert(inserted_at(old(top)@, t, jj, top@));
        assert forall|a: int, b: int| 0 <= a < b < top@.len() implies !key_lt(tkey(top@[b]), tkey(top@[a])) by {
            assert(top@[a] == ins[a] && top@[b] == ins[b]);
            if a < jj && b > jj {
                assert(ins[b] == old(top)@[b - 1]);
                assert(ins[a] == old(top)@[a]);
            } else if a < jj && b == jj {
            } else if a == jj && b > jj {
                assert(ins[b] == old(top)@[b - 1]);
            } else if a > jj {
                assert(ins[b] == old(top)@[b - 1]);
                assert(ins[a] == old(top)@[a - 1]);
            } else {
                assert(ins[b] == old(top)@[b]);
                assert(ins[a] == old(top)@[a]);
            }
        }
    }
}

/// Every pair before (a, b) that is missing from `top` splits no faster than
/// the 100th entry, which is then present; and either its best split is no
/// better than the 100th entry's on (slower half, faster half), or its lower
/// bound already reaches the 100th entry's slower half (the pair was skipped).
pub open spec fn top_complete(
    ss: Seq<Vec<i32>>,
    people: Seq<Person>,
    n: int,
    full: int,
    top: Seq<TopEntry>,
    a: int,
    b: int,
) -> bool {
    forall|x: int, y: int|
        0 <= x < y < people.len() && pair_before(x, y, a, b) && !#[trigger] in_top(top, x, y) ==> {
            &&& top.len() == 100
            &&& pair_key(ss, x, y, full).0 >= top[99].0
            &&& !key_lt(pair_key(ss, x, y, full), tkey(top[99])) || pair_lower(people, x, y, n) >= top[99].0
        }
}

/// Country entries name same-country pairs with their best splits, one per country.
pub open spec fn countries_ok(ss: Seq<Vec<i32>>, people: Seq<Person>, full: int, cs: Seq<(String, TopEntry)>) -> bool {
    &&& forall|i: int| 0 <= i < cs.len() ==> {
        let (c, t) = #[trigger] cs[i];
        &&& entry_valid(ss, people.len() as int, full, t)
        &&& people[t.2 as int].country@ == c@
        &&& people[t.3 as int].country@ == c@
    }
    &&& forall|i: int, j: int| 0 <= i < j < cs.len() ==> cs[i].0@ != cs[j].0@
}

/// The pruning threshold of a top list: the slower half of its 100th entry,
/// or no bound while it holds fewer.
pub open spec fn threshold_of(top: Seq<TopEntry>) -> int {
    if top.len() == 100 { top[99].0 as int } else { i32::MAX as int }
}

/// Lower bound on the slower half of any split of pair (x, y): half the total
/// of the cheaper average in each event.
pub open spec fn pair_lower(people: Seq<Person>, x: int, y: int, n: int) -> int {
    min_sum(people[x].avgs@, people[y].avgs@, n) / 2
}

/// Country `c` has an entry whose key is no worse than `k`.
pub open spec fn country_covers(cs: Seq<(String, TopEntry)>, c: Seq<char>, k: (int, int)) -> bool {
    exists|i: int| 0 <= i < cs.len() && cs[i].0@ == c && !key_lt(k, tkey(#[trigger] cs[i].1))
}

/// Every same-country pair before (a, b) whose lower bound is under `t` has its
/// country listed with an entry no worse than the pair's best split.
pub open spec fn countries_best(
    ss: Seq<Vec<i32>>,
    people: Seq<Person>,
    n: int,
    full: int,
    cs: Seq<(String, TopEntry)>,
    t: int,
    a: int,
    b: int,
) -> bool {
    forall|x: int, y: int|
        0 <= x < y < people.len() && pair_before(x, y, a, b) && people[x].country@ == people[y].country@
            && pair_lower(people, x, y, n) < t ==> #[trigger] country_covers(
            cs,
            people[x].country@,
            pair_key(ss, x, y, full),
        )
}

/// Replacing entries by no worse ones of the same countries, and appending
/// entries, keeps every coverage.
proof fn lemma_covers_kept(old: Seq<(String, TopEntry)>, new: Seq<(String, TopEntry)>, c: Seq<char>, k: (int, int))
    requires
        old.len() <= new.len(),
        forall|i: int| 0 <= i < old.len() ==> (#[trigger] new[i]).0@ == old[i].0@ && !key_lt(tkey(old[i].1), tkey(new[i].1)),
        country_covers(old, c, k),
    ensures
        country_covers(new, c, k),
{
    let i = choose|i: int| 0 <= i < old.len() && old[i].0@ == c && !key_lt(k, tkey(#[trigger] old[i].1));
    assert(new[i].0@ == old[i].0@);
    assert(!key_lt(k, tkey(new[i].1)));
}

fn find_country(cs: &Vec<(String, TopEntry)>, c: &String) -> (r: Option<usize>)
    ensures
        match r {
            Some(i) => i < cs@.len() && cs@[i as int].0@ == c@,
            None => forall|i: int| 0 <= i < cs@.len() ==> cs@[i].0@ != c@,
        },
{
    let mut i: usize = 0;
    while i < cs.len()
        invariant
            i <= cs@.len(),
            forall|k: int| 0 <= k < i ==> cs@[k].0@ != c@,
        decreases cs.len() - i,
    {
        if cs[i].0 == *c {
            return Some(i);
        }
        i = i + 1;
    }
    None
}

#[verifier::spinoff_prover]
#[verifier::rlimit(100)]
/// Searches all pairs: the 100 best pairs by best split, skipping pairs whose
/// lower bound cannot beat the 100th; and per country the best split among the
/// same-country pairs that were not skipped.
fn search(people: &Vec<Person>, n: usize, ss: &Vec<Vec<i32>>) -> (r: (Vec<TopEntry>, Vec<(String, TopEntry)>))
    requires
        sums_fit(ss@, people@, n as int),
    ensures
        top_ok(ss@, people@.len() as int, pow2(n as int) - 1, r.0@),
        top_complete(ss@, people@, n as int, pow2(n as int) - 1, r.0@, people@.len() as int, 0),
        countries_ok(ss@, people@, pow2(n as int) - 1, r.1@),
        countries_best(ss@, people@, n as int, pow2(n as int) - 1, r.1@, threshold_of(r.0@), people@.len() as int, 0),
{
    proof {
        lemma_pow2_le(n as int);
        lemma_pow2_pos(n as int);
    }
    let m = people.len();
    let nm: usize = 1usize << n;
    proof {
        lemma_pow2_shift(n as u32);
        assert((1usize << n) as int == (1u32 << n as u32) as int) by (bit_vector)
            requires n <= 30;
    }
    let full: usize = nm - 1;
    let mut top: Vec<TopEntry> = Vec::new();
    let mut threshold = i32::MAX;
    let mut threshold_minor = i32::MAX;
    let mut best_country: Vec<(String, TopEntry)> = Vec::new();
    let mut a: usize = 0;
    while a < m
        invariant
            sums_fit(ss@, people@, n as int),
            m == people@.len(),
            full as int == pow2(n as int) - 1,
            full < 0x4000_0000,
            a <= m,
            top_ok(ss@, m as int, full as int, top@),
            top_complete(ss@, people@, n as int, full as int, top@, a as int, a as int + 1),
            forall|i: int| 0 <= i < top@.len() ==> pair_before((#[trigger] top@[i]).2 as int, top@[i].3 as int, a as int, a as int + 1),
            top@.len() == 100 ==> threshold == top@[99].0 && threshold_minor == top@[99].1,
            top@.len() < 100 ==> threshold == i32::MAX && threshold_minor == i32::MAX,
            countries_ok(ss@, people@, full as int, best_country@),
            countries_best(ss@, people@, n as int, full as int, best_country@, threshold as int, a as int, a as int + 1),
        decreases m - a,
    {
        let mut b: usize = a + 1;
        while b < m
            invariant
                sums_fit(ss@, people@, n as int),
                m == people@.len(),
                full as int == pow2(n as int) - 1,
                full < 0x4000_0000,
                a < m,
                a < b <= m,
                top_ok(ss@, m as int, full as int, top@),
                top_complete(ss@, people@, n as int, full as int, top@, a as int, b as int),
                forall|i: int| 0 <= i < top@.len() ==> pair_before((#[trigger] top@[i]).2 as int, top@[i].3 as int, a as int, b as int),
                top@.len() == 100 ==> threshold == top@[99].0 && threshold_minor == top@[99].1,
                top@.len() < 100 ==> threshold == i32::MAX && threshold_minor == i32::MAX,
                countries_ok(ss@, people@, full as int, best_country@),
                countries_best(ss@, people@, n as int, full as int, best_country@, threshold as int, a as int, b as int),
            decreases m - b,
        {
            // Lower bound on the slower half: half the total of the cheaper averages.
            let mut lower_sum: i32 = 0;
            let mut e: usize = 0;
            proof {
                assert(people@[a as int].avgs@.len() == n);
                assert(people@[b as int].avgs@.len() == n);
            }
            while e < n
                invariant
                    sums_fit(ss@, people@, n as int),
                    a < m && b < m && m == people@.len(),
                    e <= n,
                    lower_sum as int == min_sum(people@[a as int].avgs@, people@[b as int].avgs@, e as int),
                    0 <= lower_sum <= avg_total(people@[a as int].avgs@, e as int),
                decreases n - e,
            {
                proof {
                    assert(avg_ok(people@[a as int].avgs@[e as int] as int));
                    assert(avg_ok(people@[b as int].avgs@[e as int] as int));
                    assert(people@[a as int].avgs@.len() == n);
                    lemma_avg_total_mono(people@[a as int].avgs@, e + 1, n as int);
                }
                let x = people[a].avgs[e];
                let y = people[b].avgs[e];
                lower_sum = lower_sum + if x < y { x } else { y };
                e = e + 1;
            }
            let lower = lower_sum / 2;
            let ghost before_top = top@;
            if lower >= threshold {
                proof {
                    assert(pair_lower(people@, a as int, b as int, n as int) == lower);
                    assert forall|x: int, y: int|
                        0 <= x < y < people@.len() && pair_before(x, y, a as int, b as int + 1)
                            && people@[x].country@ == people@[y].country@
                            && pair_lower(people@, x, y, n as int) < threshold implies #[trigger] country_covers(
                            best_country@,
                            people@[x].country@,
                            pair_key(ss@, x, y, full as int),
                        ) by {
                        if x == a && y == b {
                        } else {
                            assert(pair_before(x, y, a as int, b as int));
                        }
                    }
                    assert forall|x: int, y: int|
                        0 <= x < y < m && pair_before(x, y, a as int, b as int + 1) && !#[trigger] in_top(top@, x, y)
                        implies top@.len() == 100 && pair_key(ss@, x, y, full as int).0 >= top@[99].0
                            && (!key_lt(pair_key(ss@, x, y, full as int), tkey(top@[99])) || pair_lower(people@, x, y, n as int) >= top@[99].0) by {
                        if x == a && y == b {
                            lemma_best_split_exists(ss@, x, y, full as int);
                            let mk = choose|mk: int| is_best_split(ss@, x, y, mk, full as int);
                            lemma_split_lower_bound(ss@, people@, n as int, x, y, mk);
                        } else {
                            assert(pair_before(x, y, a as int, b as int));
                        }
                    }
                }
                b = b + 1;
                continue;
            }
            let (best_score, best_minor, best_mask) = best_split(ss, people, n, a, b, full);
            let entry: TopEntry = (best_score, best_minor, a, b, best_mask);
            proof {
                lemma_best_split_key(ss@, a as int, b as int, best_mask as int, full as int);
            }
            // Same-country best.
            let ghost old_cs = best_country@;
            proof {
                assert(pair_lower(people@, a as int, b as int, n as int) == lower);
            }
            if people[a].country == people[b].country {
                match find_country(&best_country, &people[a].country) {
                    Some(i) => {
                        let cur = best_country[i].1;
                        if best_score < cur.0 || (best_score == cur.0 && best_minor < cur.1) {
                            let c = best_country[i].0.clone();
                            best_country.set(i, (c, entry));
                        }
                        proof {
                            assert(!key_lt(tkey(entry), tkey(best_country@[i as int].1)));
                            assert(country_covers(best_country@, people@[a as int].country@, tkey(entry)));
                        }
                    },
                    None => {
                        best_country.push((people[a].country.clone(), entry));
                        proof {
                            assert(best_country@[old_cs.len() as int].1 == entry);
                            assert(country_covers(best_country@, people@[a as int].country@, tkey(entry)));
                        }
                    },
                }
            }
            proof {
                assert(people@[a as int].country@ == people@[b as int].country@ ==> country_covers(
                    best_country@,
                    people@[a as int].country@,
                    tkey(entry),
                ));
                assert(pair_key(ss@, a as int, b as int, full as int) == tkey(entry));
            }
            proof {
                assert forall|i: int| 0 <= i < old_cs.len() implies (#[trigger] best_country@[i]).0@ == old_cs[i].0@
                    && !key_lt(tkey(old_cs[i].1), tkey(best_country@[i].1)) by {}
                assert forall|x: int, y: int|
                    0 <= x < y < people@.len() && pair_before(x, y, a as int, b as int + 1)
                        && people@[x].country@ == people@[y].country@
                        && pair_lower(people@, x, y, n as int) < threshold implies #[trigger] country_covers(
                        best_country@,
                        people@[x].country@,
                        pair_key(ss@, x, y, full as int),
                    ) by {
                    if x == a && y == b {
                    } else {
                        assert(pair_before(x, y, a as int, b as int));
                        assert(country_covers(old_cs, people@[x].country@, pair_key(ss@, x, y, full as int)));
                        lemma_covers_kept(old_cs, best_country@, people@[x].country@, pair_key(ss@, x, y, full as int));
                    }
                }
            }
            let ghost thr_before = threshold as int;
            // Global top 100.
            let ghost old_top = top@;
            proof {
                assert forall|i: int| 0 <= i < old_top.len() implies (old_top[i].2, old_top[i].3) != (a, b) by {
                    assert(pair_before(old_top[i].2 as int, old_top[i].3 as int, a as int, b as int));
                }
            }
            if top.len() < 100 || best_score < threshold || (best_score == threshold && best_minor < threshold_minor) {
                insert_top(&mut top, entry);
                proof {
                    let j = choose|j: int| #[trigger] inserted_at(old_top, entry, j, top@);
                    let ins = old_top.insert(j, entry);
                    if old_top.len() == 100 {
                        assert(key_lt(tkey(entry), tkey(old_top[99])));
                        assert(j <= 99);
                    }
                    assert(top@[j] == entry);
                    assert(in_top(top@, a as int, b as int));
                    // entries kept from the old list stay listed
                    assert forall|i: int| 0 <= i < old_top.len() && (old_top.len() < 100 || i < 99) implies in_top(top@, old_top[i].2 as int, old_top[i].3 as int) by {
                        if i < j {
                            assert(top@[i] == old_top[i]);
                        } else {
                            assert(top@[i + 1] == old_top[i]);
                        }
                    }
                    assert forall|i: int| 0 <= i < top@.len() implies entry_valid(ss@, m as int, full as int, #[trigger] top@[i]) by {
                        if i < j {
                            assert(top@[i] == old_top[i]);
                        } else if i > j {
                            assert(top@[i] == old_top[i - 1]);
                        }
                    }
                    assert forall|i: int| 0 <= i < top@.len() implies pair_before((#[trigger] top@[i]).2 as int, top@[i].3 as int, a as int, b as int + 1) by {
                        if i < j {
                            assert(top@[i] == old_top[i]);
                        } else if i > j {
                            assert(top@[i] == old_top[i - 1]);
                        }
                    }
                    assert forall|i: int, k: int| 0 <= i < k < top@.len() implies (top@[i].2, top@[i].3) != (top@[k].2, top@[k].3) by {
                        if i < j && k < j {
                            assert(top@[i] == old_top[i] && top@[k] == old_top[k]);
                        } else if i < j && k > j {
                            assert(top@[i] == old_top[i] && top@[k] == old_top[k - 1]);
                        } else if i > j {
                            assert(top@[i] == old_top[i - 1] && top@[k] == old_top[k - 1]);
                        } else if i == j {
                            assert(top@[k] == old_top[k - 1]);
                        } else {
                            assert(top@[i] == old_top[i]);
                        }
                    }
                    if top@.len() == 100 {
                        // the new 100th is no worse than the old one
                        if old_top.len() == 100 {
                            assert(!key_lt(tkey(old_top[99]), tkey(top@[99]))) by {
                                if 99 < j {
                                    assert(top@[99] == old_top[99]);
                                } else if 99 == j {
                                } else {
                                    assert(top@[99] == old_top[98]);
                                }
                            }
                        }
                    }
                    assert forall|x: int, y: int|
                        0 <= x < y < m && pair_before(x, y, a as int, b as int + 1) && !#[trigger] in_top(top@, x, y)
                        implies top@.len() == 100 && pair_key(ss@, x, y, full as int).0 >= top@[99].0
                            && (!key_lt(pair_key(ss@, x, y, full as int), tkey(top@[99])) || pair_lower(people@, x, y, n as int) >= top@[99].0) by {
                        if x == a && y == b {
                        } else if in_top(old_top, x, y) {
                            let i = choose|i: int| 0 <= i < old_top.len() && old_top[i].2 == x && old_top[i].3 == y;
                            assert(old_top.len() == 100 && i >= 99);
                            assert(entry_valid(ss@, m as int, full as int, old_top[i]));
                            lemma_best_split_key(ss@, x, y, old_top[i].4 as int, full as int);
                        } else {
                            assert(pair_before(x, y, a as int, b as int));
                        }
                    }
                }
                if top.len() == 100 {
                    threshold = top[99].0;
                    threshold_minor = top[99].1;
                }
            } else {
                proof {
                    assert forall|x: int, y: int|
                        0 <= x < y < m && pair_before(x, y, a as int, b as int + 1) && !#[trigger] in_top(top@, x, y)
                        implies top@.len() == 100 && pair_key(ss@, x, y, full as int).0 >= top@[99].0
                            && (!key_lt(pair_key(ss@, x, y, full as int), tkey(top@[99])) || pair_lower(people@, x, y, n as int) >= top@[99].0) by {
                        if !(x == a && y == b) {
                            assert(pair_before(x, y, a as int, b as int));
                        }
                    }
                }
            }
            b = b + 1;
        }
        a = a + 1;
    }
    (top, best_country)
}

/// Names of the events of `mask` (`want`) or of the rest (`!want`), in order.
pub open spec fn mask_events(events: Seq<String>, mask: u32, k: int, want: bool) -> Seq<Seq<char>>
    decreases k,
{
    if k <= 0 {
        Seq::empty()
    } else {
        let prev = mask_events(events, mask, k - 1, want);
        if bit(mask, (k - 1) as u32) == want { prev.push(events[k - 1]@) } else { prev }
    }
}

pub open spec fn person_ref_ok(r: PersonRef, p: Person) -> bool {
    r.id == p.id && r.name == p.name && r.country == p.country
}

/// `pe` reports top entry `t`: the two persons, their halves and events.
pub open spec fn pair_entry_ok(events: Seq<String>, people: Seq<Person>, ss: Seq<Vec<i32>>, n: int, t: TopEntry, pe: PairEntry) -> bool {
    let full = pow2(n) - 1;
    let ta = ss[t.2 as int]@[t.4 as int] as int;
    let tb = ss[t.3 as int]@[full - t.4] as int;
    &&& person_ref_ok(pe.a, people[t.2 as int])
    &&& person_ref_ok(pe.b, people[t.3 as int])
    &&& pe.time_a as int == ta
    &&& pe.time_b as int == tb
    &&& pe.time_cs as int == if ta > tb { ta } else { tb }
    &&& pe.events_a@.map_values(|e: String| e@) == mask_events(events, t.4 as u32, n, true)
    &&& pe.events_b@.map_values(|e: String| e@) == mask_events(events, t.4 as u32, n, false)
}

fn person_ref(p: &Person) -> (r: PersonRef)
    ensures
        person_ref_ok(r, *p),
{
    PersonRef { id: p.id.clone(), name: p.name.clone(), country: p.country.clone() }
}

fn mk_pair(events: &Vec<String>, people: &Vec<Person>, ss: &Vec<Vec<i32>>, n: usize, t: TopEntry) -> (pe: PairEntry)
    requires
        sums_fit(ss@, people@, n as int),
        events@.len() == n,
        entry_valid(ss@, people@.len() as int, pow2(n as int) - 1, t),
    ensures
        pair_entry_ok(events@, people@, ss@, n as int, t, pe),
{
    proof {
        lemma_pow2_shift(n as u32);
        lemma_pow2_le(n as int);
        lemma_pow2_pos(n as int);
        lemma_sum_bound(ss@, people@, n as int, t.2 as int, t.4 as int);
        lemma_sum_bound(ss@, people@, n as int, t.3 as int, pow2(n as int) - 1 - t.4);
    }
    let nm: usize = 1usize << n;
    proof {
        assert((1usize << n) as int == (1u32 << n as u32) as int) by (bit_vector)
            requires n <= 30;
    }
    let full: usize = nm - 1;
    let ta = ss[t.2][t.4];
    let tb = ss[t.3][full - t.4];
    let score = if ta > tb { ta } else { tb };
    let mask: u32 = t.4 as u32;
    let mut events_a: Vec<String> = Vec::new();
    let mut events_b: Vec<String> = Vec::new();
    let mut e: usize = 0;
    while e < n
        invariant
            n <= 30,
            events@.len() == n,
            e <= n,
            events_a@.map_values(|x: String| x@) == mask_events(events@, mask, e as int, true),
            events_b@.map_values(|x: String| x@) == mask_events(events@, mask, e as int, false),
        decreases n - e,
    {
        let set = mask & (1u32 << e as u32) != 0;
        proof {
            let ee = e as u32;
            assert(ee < 30 ==> ((mask & (1u32 << ee) != 0u32) == ((mask >> ee) & 1u32 == 1u32))) by (bit_vector);
        }
        let ghost ba = events_a@;
        let ghost bb = events_b@;
        if set {
            events_a.push(events[e].clone());
            proof {
                assert(events_a@.map_values(|x: String| x@) =~= ba.map_values(|x: String| x@).push(events@[e as int]@));
            }
        } else {
            events_b.push(events[e].clone());
            proof {
                assert(events_b@.map_values(|x: String| x@) =~= bb.map_values(|x: String| x@).push(events@[e as int]@));
            }
        }
        e = e + 1;
    }
    PairEntry {
        a: person_ref(&people[t.2]),
        b: person_ref(&people[t.3]),
        time_cs: score,
        time_a: ta,
        time_b: tb,
        events_a,
        events_b,
    }
}

/// The persons with an average in every event, with their totals, in input order.
pub open spec fn qualified(cands: Seq<(String, String, String, Vec<Option<i32>>)>, k: int) -> Seq<int>
    decreases k,
{
    if k <= 0 {
        Seq::empty()
    } else {
        let prev = qualified(cands, k - 1);
        if forall|e: int| 0 <= e < cands[k - 1].3@.len() ==> (#[trigger] cands[k - 1].3@[e]) is Some { prev.push(k - 1) } else { prev }
    }
}

pub open spec fn opt_sum(v: Seq<Option<i32>>, k: int) -> int
    decreases k,
{
    if k <= 0 { 0 } else { opt_sum(v, k - 1) + v[k - 1].unwrap() as int }
}

/// Person `p` is candidate `c` with its averages unwrapped and totalled.
pub open spec fn person_from(c: (String, String, String, Vec<Option<i32>>), p: Person) -> bool {
    &&& p.id == c.0 && p.name == c.1 && p.country == c.2
    &&& p.avgs@.len() == c.3@.len()
    &&& forall|e: int| 0 <= e < c.3@.len() ==> c.3@[e] == Some(#[trigger] p.avgs@[e])
    &&& p.total as int == opt_sum(c.3@, c.3@.len() as int)
}

/// Candidates as (id, name, country, average per event); the averages are
/// positive, and the total of a candidate with every average fits an `i32`.
pub open spec fn cands_ok(cands: Seq<(String, String, String, Vec<Option<i32>>)>, n: int) -> bool {
    forall|k: int| 0 <= k < cands.len() ==> {
        &&& (#[trigger] cands[k]).3@.len() == n
        &&& forall|e: int| 0 <= e < n ==> (#[trigger] cands[k].3@[e] matches Some(v) ==> avg_ok(v as int))
        &&& (forall|e: int| 0 <= e < n ==> (#[trigger] cands[k].3@[e]) is Some) ==> opt_sum(cands[k].3@, n) <= i32::MAX
    }
}

/// With every average present, their total is the total of the unwrapped ones.
proof fn lemma_opt_total(c: Seq<Option<i32>>, a: Seq<i32>, k: int)
    requires
        0 <= k <= c.len(),
        k <= a.len(),
        forall|q: int| 0 <= q < k ==> c[q] == Some(#[trigger] a[q]),
    ensures
        opt_sum(c, k) == avg_total(a, k),
    decreases k,
{
    if k > 0 {
        lemma_opt_total(c, a, k - 1);
        assert(c[k - 1] == Some(a[k - 1]));
    }
}

/// The candidates with an average in every event, each with its total.
pub fn qualify(cands: &Vec<(String, String, String, Vec<Option<i32>>)>, n: usize) -> (people: Vec<Person>)
    requires
        0 <= n <= 30,
        cands_ok(cands@, n as int),
    ensures
        people@.len() == qualified(cands@, cands@.len() as int).len(),
        forall|i: int| 0 <= i < people@.len() ==> person_from(cands@[qualified(cands@, cands@.len() as int)[i]], #[trigger] people@[i]),
        people_ok(people@, n as int),
{
    let mut people: Vec<Person> = Vec::new();
    let mut k: usize = 0;
    while k < cands.len()
        invariant
            0 <= n <= 30,
            cands_ok(cands@, n as int),
            k <= cands@.len(),
            people@.len() == qualified(cands@, k as int).len(),
            forall|i: int| 0 <= i < people@.len() ==> person_from(cands@[qualified(cands@, k as int)[i]], #[trigger] people@[i]),
            people_ok(people@, n as int),
            forall|i: int| 0 <= i < qualified(cands@, k as int).len() ==> #[trigger] qualified(cands@, k as int)[i] < k,
        decreases cands.len() - k,
    {
        let c = &cands[k];
        let mut avgs: Vec<i32> = Vec::new();
        let mut ok = true;
        let mut e: usize = 0;
        proof {
            assert(c.3@.len() == n);
        }
        while e < n
            invariant
                0 <= n <= 30,
                c.3@.len() == n,
                forall|q: int| 0 <= q < n ==> (#[trigger] c.3@[q] matches Some(v) ==> avg_ok(v as int)),
                e <= n,
                ok ==> avgs@.len() == e && (forall|q: int| 0 <= q < e ==> c.3@[q] == Some(#[trigger] avgs@[q])),
                !ok ==> exists|q: int| 0 <= q < n && (#[trigger] c.3@[q]) is None,
            decreases n - e,
        {
            match c.3[e] {
                Some(v) => {
                    if ok {
                        avgs.push(v);
                    }
                },
                None => {
                    ok = false;
                },
            }
            e = e + 1;
        }
        // The total of a qualified candidate.
        let mut total: i32 = 0;
        if ok {
            proof {
                assert forall|q: int| 0 <= q < n implies (#[trigger] c.3@[q]) is Some by {
                    assert(c.3@[q] == Some(avgs@[q]));
                }
                assert(cands@[k as int] == *c);
                lemma_opt_total(c.3@, avgs@, n as int);
                assert forall|q: int| 0 <= q < avgs@.len() implies avg_ok(#[trigger] avgs@[q] as int) by {
                    assert(c.3@[q] == Some(avgs@[q]));
                }
            }
            let mut j: usize = 0;
            while j < n
                invariant
                    avgs@.len() == n,
                    forall|q: int| 0 <= q < avgs@.len() ==> avg_ok(#[trigger] avgs@[q] as int),
                    avg_total(avgs@, n as int) <= i32::MAX,
                    j <= n,
                    total as int == avg_total(avgs@, j as int),
                decreases n - j,
            {
                proof {
                    lemma_avg_total_mono(avgs@, j + 1, n as int);
                }
                total = total + avgs[j];
                j = j + 1;
            }
        }
        let ghost before = people@;
        if ok {
            proof {
                assert forall|q: int| 0 <= q < c.3@.len() implies (#[trigger] c.3@[q]) is Some by {
                    assert(c.3@[q] == Some(avgs@[q]));
                }
            }
            people.push(Person { id: c.0.clone(), name: c.1.clone(), country: c.2.clone(), avgs, total });
            proof {
                assert(qualified(cands@, k + 1) == qualified(cands@, k as int).push(k as int));
                assert forall|i: int| 0 <= i < people@.len() implies person_from(cands@[qualified(cands@, k + 1)[i]], #[trigger] people@[i]) by {
                    if i < before.len() {
                        assert(people@[i] == before[i]);
                    }
                }
            }
        } else {
            proof {
                assert(!(forall|q: int| 0 <= q < c.3@.len() ==> (#[trigger] c.3@[q]) is Some));
            }
        }
        k = k + 1;
    }
    people
}

fn clone_avgs(v: &Vec<i32>) -> (r: Vec<i32>)
    ensures
        r@ == v@,
{
    let mut r: Vec<i32> = Vec::new();
    let mut i: usize = 0;
    while i < v.len()
        invariant
            i <= v@.len(),
            r@ == v@.subrange(0, i as int),
        decreases v.len() - i,
    {
        r.push(v[i]);
        proof {
            assert(v@.subrange(0, i + 1) =~= v@.subrange(0, i as int).push(v@[i as int]));
        }
        i = i + 1;
    }
    proof {
        assert(v@.subrange(0, v@.len() as int) =~= v@);
    }
    r
}

fn clone_person(p: &Person) -> (r: Person)
    ensures
        r.id == p.id && r.name == p.name && r.country == p.country && r.avgs@ == p.avgs@ && r.total == p.total,
{
    Person { id: p.id.clone(), name: p.name.clone(), country: p.country.clone(), avgs: clone_avgs(&p.avgs), total: p.total }
}

pub open spec fn same_person(a: Person, b: Person) -> bool {
    a.id == b.id && a.name == b.name && a.country == b.country && a.avgs@ == b.avgs@ && a.total == b.total
}

/// Sort keys ordering people by total, ties kept in input order.
pub open spec fn total_keys(people: Seq<Person>) -> Seq<SortKey> {
    Seq::new(people.len(), |i: int| (people[i].total as i64, 0i64, 0i64, 0i64, i as usize))
}

/// `sp` is `people` ordered by total, ties in input order.
pub open spec fn by_total(people: Seq<Person>, sp: Seq<Person>, sk: Seq<SortKey>) -> bool {
    &&& crate::ranking::is_sorted_perm(total_keys(people), sk)
    &&& sp.len() == sk.len()
    &&& forall|k: int| 0 <= k < sp.len() ==> (sk[k].4 as int) < people.len() && same_person(#[trigger] sp[k], people[sk[k].4 as int])
}

/// Everything `solve` reports, for the people in search order `sp`, their
/// subset sums `ss`, the top entries `top` and the country entries `cs`.
pub open spec fn solve_ok(
    people: Seq<Person>,
    events: Seq<String>,
    n: int,
    out: ChallengeOutput,
    sp: Seq<Person>,
    ss: Seq<Vec<i32>>,
    top: Seq<TopEntry>,
    cs: Seq<(String, TopEntry)>,
) -> bool {
    let full = pow2(n) - 1;
    &&& exists|sk: Seq<SortKey>| #[trigger] by_total(people, sp, sk)
    &&& sums_fit(ss, sp, n)
    &&& top_ok(ss, sp.len() as int, full, top)
    &&& top_complete(ss, sp, n, full, top, sp.len() as int, 0)
    &&& countries_ok(ss, sp, full, cs)
    &&& countries_best(ss, sp, n, full, cs, threshold_of(top), sp.len() as int, 0)
    &&& out.events@.map_values(|e: String| e@) == events.map_values(|e: String| e@)
    &&& out.pairs@.len() == top.len()
    &&& forall|i: int| 0 <= i < top.len() ==> pair_entry_ok(events, sp, ss, n, top[i], #[trigger] out.pairs@[i])
    &&& out.countries@.len() == cs.len()
    &&& exists|ck: Seq<SortKey>| {
        &&& #[trigger] crate::ranking::is_sorted_perm(country_keys(ss, n, cs), ck)
        &&& forall|i: int| 0 <= i < cs.len() ==> {
            let j = ck[i].4 as int;
            &&& 0 <= j < cs.len()
            &&& (#[trigger] out.countries@[i]).country == cs[j].0
            &&& pair_entry_ok(events, sp, ss, n, cs[j].1, out.countries@[i].pair)
        }
    }
}

/// Sort keys ordering country entries by pair time, then the faster half.
pub open spec fn country_keys(ss: Seq<Vec<i32>>, n: int, cs: Seq<(String, TopEntry)>) -> Seq<SortKey> {
    Seq::new(cs.len(), |i: int| {
        let t = cs[i].1;
        let ta = ss[t.2 as int]@[t.4 as int] as int;
        let tb = ss[t.3 as int]@[pow2(n) - 1 - t.4] as int;
        ((if ta > tb { ta } else { tb }) as i64, (if ta < tb { ta } else { tb }) as i64, 0i64, 0i64, i as usize)
    })
}

/// Best two-person split for every pair of `people` over `events`.
pub fn solve(people: &Vec<Person>, events: &Vec<String>) -> (out: ChallengeOutput)
    requires
        events@.len() <= 30,
        people_ok(people@, events@.len() as int),
    ensures
        exists|sp: Seq<Person>, ss: Seq<Vec<i32>>, top: Seq<TopEntry>, cs: Seq<(String, TopEntry)>|
            #[trigger] solve_ok(people@, events@, events@.len() as int, out, sp, ss, top, cs),
{
    let n = events.len();
    // Fastest people first, which tightens the pruning bound quickly.
    let mut keys: Vec<SortKey> = Vec::new();
    let mut i: usize = 0;
    while i < people.len()
        invariant
            i <= people@.len(),
            keys@ == total_keys(people@).subrange(0, i as int),
        decreases people.len() - i,
    {
        keys.push((people[i].total as i64, 0, 0, 0, i));
        proof {
            assert(keys@ =~= total_keys(people@).subrange(0, i + 1));
        }
        i = i + 1;
    }
    proof {
        assert(keys@ =~= total_keys(people@));
    }
    let sk = sort_keys(&keys);
    proof {
        crate::search::lemma_perm_members(keys@, sk@);
    }
    let mut sorted: Vec<Person> = Vec::new();
    let mut k: usize = 0;
    while k < sk.len()
        invariant
            k <= sk@.len(),
            keys@ == total_keys(people@),
            forall|j: int| 0 <= j < sk@.len() ==> keys@.contains(#[trigger] sk@[j]),
            sorted@.len() == k,
            forall|j: int| 0 <= j < k ==> (sk@[j].4 as int) < people@.len() && same_person(#[trigger] sorted@[j], people@[sk@[j].4 as int]),
        decreases sk.len() - k,
    {
        proof {
            let w = choose|w: int| 0 <= w < keys@.len() && keys@[w] == sk@[k as int];
        }
        sorted.push(clone_person(&people[sk[k].4]));
        k = k + 1;
    }
    proof {
        assert(by_total(people@, sorted@, sk@));
        assert forall|p: int| 0 <= p < sorted@.len() implies {
            &&& (#[trigger] sorted@[p]).avgs@.len() == n
            &&& forall|e: int| 0 <= e < n ==> avg_ok(#[trigger] sorted@[p].avgs@[e] as int)
        } by {
            let q = sk@[p].4 as int;
            assert(people@[q].avgs@.len() == n);
        }
    }
    let ss = subset_sums(&sorted, n);
    let (top, cs) = search(&sorted, n, &ss);
    let mut pairs: Vec<PairEntry> = Vec::new();
    let mut t: usize = 0;
    while t < top.len()
        invariant
            sums_fit(ss@, sorted@, n as int),
            events@.len() == n,
            top_ok(ss@, sorted@.len() as int, pow2(n as int) - 1, top@),
            t <= top@.len(),
            pairs@.len() == t,
            forall|i: int| 0 <= i < t ==> pair_entry_ok(events@, sorted@, ss@, n as int, top@[i], #[trigger] pairs@[i]),
        decreases top.len() - t,
    {
        pairs.push(mk_pair(events, &sorted, &ss, n, top[t]));
        t = t + 1;
    }
    // Country entries ordered by pair time, then the faster half.
    let mut built: Vec<PairEntry> = Vec::new();
    let mut ckeys: Vec<SortKey> = Vec::new();
    let mut c: usize = 0;
    while c < cs.len()
        invariant
            sums_fit(ss@, sorted@, n as int),
            events@.len() == n,
            countries_ok(ss@, sorted@, pow2(n as int) - 1, cs@),
            countries_best(ss@, sorted@, n as int, pow2(n as int) - 1, cs@, threshold_of(top@), sorted@.len() as int, 0),
            c <= cs@.len(),
            built@.len() == c,
            ckeys@ == country_keys(ss@, n as int, cs@).subrange(0, c as int),
            forall|i: int| 0 <= i < c ==> pair_entry_ok(events@, sorted@, ss@, n as int, cs@[i].1, #[trigger] built@[i]),
        decreases cs.len() - c,
    {
        let pe = mk_pair(events, &sorted, &ss, n, cs[c].1);
        let faster = if pe.time_a < pe.time_b { pe.time_a } else { pe.time_b };
        ckeys.push((pe.time_cs as i64, faster as i64, 0, 0, c));
        built.push(pe);
        proof {
            assert(ckeys@ =~= country_keys(ss@, n as int, cs@).subrange(0, c + 1));
        }
        c = c + 1;
    }
    proof {
        assert(ckeys@ =~= country_keys(ss@, n as int, cs@));
    }
    let ck = sort_keys(&ckeys);
    proof {
        crate::search::lemma_perm_members(ckeys@, ck@);
    }
    let mut countries: Vec<CountryEntry> = Vec::new();
    let mut q: usize = 0;
    while q < ck.len()
        invariant
            sums_fit(ss@, sorted@, n as int),
            events@.len() == n,
            countries_ok(ss@, sorted@, pow2(n as int) - 1, cs@),
            countries_best(ss@, sorted@, n as int, pow2(n as int) - 1, cs@, threshold_of(top@), sorted@.len() as int, 0),
            q <= ck@.len(),
            ck@.len() == cs@.len(),
            built@.len() == cs@.len(),
            ckeys@ == country_keys(ss@, n as int, cs@),
            forall|j: int| 0 <= j < ck@.len() ==> ckeys@.contains(#[trigger] ck@[j]),
            forall|i: int| 0 <= i < cs@.len() ==> pair_entry_ok(events@, sorted@, ss@, n as int, cs@[i].1, #[trigger] built@[i]),
            countries@.len() == q,
            forall|i: int| 0 <= i < q ==> {
                let j = ck@[i].4 as int;
                &&& 0 <= j < cs@.len()
                &&& (#[trigger] countries@[i]).country == cs@[j].0
                &&& pair_entry_ok(events@, sorted@, ss@, n as int, cs@[j].1, countries@[i].pair)
            },
        decreases ck.len() - q,
    {
        proof {
            let w = choose|w: int| 0 <= w < ckeys@.len() && ckeys@[w] == ck@[q as int];
        }
        let j = ck[q].4;
        let pe = mk_pair(events, &sorted, &ss, n, cs[j].1);
        countries.push(CountryEntry { country: cs[j].0.clone(), pair: pe });
        q = q + 1;
    }
    let mut ev: Vec<String> = Vec::new();
    let mut e: usize = 0;
    while e < n
        invariant
            e <= n,
            n == events@.len(),
            ev@.map_values(|x: String| x@) == events@.subrange(0, e as int).map_values(|x: String| x@),
        decreases n - e,
    {
        let ghost before = ev@;
        let x = events[e].clone();
        ev.push(x);
        proof {
            assert(ev@ == before.push(x));
            assert(ev@.map_values(|x: String| x@) =~= before.map_values(|x: String| x@).push(events@[e as int]@));
            assert(events@.subrange(0, e + 1).map_values(|x: String| x@) =~= events@.subrange(0, e as int).map_values(|x: String| x@).push(events@[e as int]@));
        }
        e = e + 1;
    }
    proof {
        assert(events@.subrange(0, n as int) =~= events@);
    }
    let out = ChallengeOutput { events: ev, pairs, countries };
    proof {
        assert(crate::ranking::is_sorted_perm(country_keys(ss@, n as int, cs@), ck@));
        assert(solve_ok(people@, events@, n as int, out, sorted@, ss@, top@, cs@));
    }
    out
}


/// The two-person challenges: the mini Guildford events and the full
/// Guildford events.
pub open spec fn mini_events() -> Seq<&'static str> {
    seq!["222", "333", "444", "555", "clock", "minx", "skewb", "sq1", "pyram", "333oh"]
}

pub open spec fn guild_events() -> Seq<&'static str> {
    seq!["222", "333", "444", "555", "clock", "minx", "skewb", "sq1", "pyram", "333oh", "666", "777"]
}

pub fn mini_event_list() -> (v: Vec<&'static str>)
    ensures
        v@ == mini_events(),
        v@.len() == 10,
{
    vec!["222", "333", "444", "555", "clock", "minx", "skewb", "sq1", "pyram", "333oh"]
}

pub fn guild_event_list() -> (v: Vec<&'static str>)
    ensures
        v@ == guild_events(),
        v@.len() == 12,
{
    vec!["222", "333", "444", "555", "clock", "minx", "skewb", "sq1", "pyram", "333oh", "666", "777"]
}

/// Person `p`'s valid average in the event with id `id` (none when no event
/// has that id).
pub open spec fn avg_by_id(db: IndexedDb, p: int, id: &str) -> Option<i32> {
    match first_position(db, id) {
        Some(e) => valid_avg(db, p, e),
        None => None,
    }
}

/// The persons of the persons table among the first `n`, in order.
pub open spec fn table_persons(db: IndexedDb, n: int) -> Seq<int>
    decreases n,
{
    if n <= 0 {
        Seq::empty()
    } else if db.person_names@[n - 1] is Some {
        table_persons(db, n - 1).push(n - 1)
    } else {
        table_persons(db, n - 1)
    }
}

/// `c` is person `p`'s candidate entry for the events `ids`.
pub open spec fn cand_ok(db: IndexedDb, ids: Seq<&str>, p: int, c: (String, String, String, Vec<Option<i32>>)) -> bool {
    &&& c.0@ == db.person_ids@[p]@
    &&& db.person_names@[p] is Some && c.1@ == db.person_names@[p].unwrap()@
    &&& db.person_country@[p] is Some && c.2@ == db.country_ids@[db.person_country@[p].unwrap() as int]@
    &&& c.3@.len() == ids.len()
    &&& forall|i: int| 0 <= i < ids.len() ==> #[trigger] c.3@[i] == avg_by_id(db, p, ids[i])
}

pub open spec fn cands_of(db: IndexedDb, ids: Seq<&str>, cands: Seq<(String, String, String, Vec<Option<i32>>)>) -> bool {
    let ps = table_persons(db, db.n_persons as int);
    &&& cands.len() == ps.len()
    &&& forall|i: int| 0 <= i < cands.len() ==> cand_ok(db, ids, ps[i], #[trigger] cands[i])
}

/// Person `p`'s averages in the events `ids`.
pub open spec fn id_avgs(db: IndexedDb, p: int, ids: Seq<&str>) -> Seq<Option<i32>> {
    Seq::new(ids.len(), |u: int| avg_by_id(db, p, ids[u]))
}

/// Where person `p` has an average in each event of `ids`, their total fits an
/// `i32`, the type the totals and split times are kept in.
pub open spec fn person_sum_fits(db: IndexedDb, ids: Seq<&str>, p: int) -> bool {
    (forall|e: int| 0 <= e < ids.len() ==> (#[trigger] id_avgs(db, p, ids)[e]) is Some) ==> opt_sum(
        id_avgs(db, p, ids),
        ids.len() as int,
    ) <= i32::MAX
}

/// Every person's total over the events `ids` fits.
pub open spec fn id_sums_fit(db: IndexedDb, ids: Seq<&str>) -> bool {
    forall|p: int| 0 <= p < db.n_persons ==> #[trigger] person_sum_fits(db, ids, p)
}

/// `pos` is the position `first_position` gives for `id`.
pub open spec fn pos_ok(db: IndexedDb, id: &str, pos: Option<usize>) -> bool {
    match pos {
        Some(e) => (e as int) < db.events@.len() && first_position(db, id) == Some(e as int),
        None => first_position(db, id) is None,
    }
}

/// Every person of the persons table with their averages in the events
/// `ids`.
pub fn candidates(db: &IndexedDb, ids: &Vec<&str>) -> (cands: Vec<(String, String, String, Vec<Option<i32>>)>)
    requires
        db.wf(),
        id_sums_fit(*db, ids@),
    ensures
        cands_of(*db, ids@, cands@),
        cands_ok(cands@, ids@.len() as int),
{
    let np = db.n_persons;
    let mut pos: Vec<Option<usize>> = Vec::new();
    let mut i: usize = 0;
    while i < ids.len()
        invariant
            i <= ids@.len(),
            pos@.len() == i,
            forall|j: int| 0 <= j < i ==> pos_ok(*db, ids@[j], #[trigger] pos@[j]),
        decreases ids.len() - i,
    {
        let e = event_position(db, ids[i]);
        proof {
            match e {
                Some(e) => {
                    lemma_first_position(*db, ids@[i as int], e as int);
                },
                None => {
                    if first_position(*db, ids@[i as int]) is Some {
                        let q = choose|q: int| 0 <= q < db.events@.len() && #[trigger] db.events@[q]@ == ids@[i as int]@;
                        assert(db.events@[q]@ != ids@[i as int]@);
                    }
                },
            }
        }
        pos.push(e);
        i = i + 1;
    }
    let mut cols: Vec<Vec<Option<crate::index::RankRow>>> = Vec::new();
    let mut i: usize = 0;
    while i < ids.len()
        invariant
            db.wf(),
            np == db.n_persons,
            i <= ids@.len(),
            pos@.len() == ids@.len(),
            cols@.len() == i,
            forall|j: int| 0 <= j < i ==> (#[trigger] cols@[j])@.len() == np,
            forall|j: int, q: int| 0 <= j < i && 0 <= q < np ==> #[trigger] cols@[j]@[q] == match pos@[j] {
                Some(e) => crate::index::rank_entry(db.ranks_average@, q, e as int, db.ranks_average@.len() as int),
                None => None::<crate::index::RankRow>,
            },
        decreases ids.len() - i,
    {
        let col = match pos[i] {
            Some(e) => crate::index::event_column(&db.ranks_average, np, e),
            None => {
                let mut c: Vec<Option<crate::index::RankRow>> = Vec::new();
                let mut q: usize = 0;
                while q < np
                    invariant
                        q <= np,
                        c@.len() == q,
                        forall|u: int| 0 <= u < q ==> #[trigger] c@[u] is None,
                    decreases np - q,
                {
                    c.push(None);
                    q = q + 1;
                }
                c
            },
        };
        cols.push(col);
        i = i + 1;
    }
    let mut cands: Vec<(String, String, String, Vec<Option<i32>>)> = Vec::new();
    let mut p: usize = 0;
    while p < np
        invariant
            db.wf(),
            id_sums_fit(*db, ids@),
            np == db.n_persons,
            pos@.len() == ids@.len(),
            forall|j: int| 0 <= j < ids@.len() ==> pos_ok(*db, ids@[j], #[trigger] pos@[j]),
            cols@.len() == ids@.len(),
            forall|j: int| 0 <= j < ids@.len() ==> (#[trigger] cols@[j])@.len() == np,
            forall|j: int, q: int| 0 <= j < ids@.len() && 0 <= q < np ==> #[trigger] cols@[j]@[q] == match pos@[j] {
                Some(e) => crate::index::rank_entry(db.ranks_average@, q, e as int, db.ranks_average@.len() as int),
                None => None::<crate::index::RankRow>,
            },
            p <= np,
            cands@.len() == table_persons(*db, p as int).len(),
            forall|i: int| 0 <= i < cands@.len() ==> cand_ok(*db, ids@, table_persons(*db, p as int)[i], #[trigger] cands@[i]),
            cands_ok(cands@, ids@.len() as int),
        decreases np - p,
    {
        if let Some(name) = &db.person_names[p] {
            assert(db.person_country@[p as int] is Some);
            let country = match db.person_country[p] {
                Some(c) => db.country_ids[c].clone(),
                None => String::new(),
            };
            let mut avgs: Vec<Option<i32>> = Vec::new();
            let mut j: usize = 0;
            while j < ids.len()
                invariant
                    db.wf(),
                    np == db.n_persons,
                    p < np,
                    pos@.len() == ids@.len(),
                    forall|j: int| 0 <= j < ids@.len() ==> pos_ok(*db, ids@[j], #[trigger] pos@[j]),
                    cols@.len() == ids@.len(),
                    forall|j: int| 0 <= j < ids@.len() ==> (#[trigger] cols@[j])@.len() == np,
                    forall|j: int, q: int| 0 <= j < ids@.len() && 0 <= q < np ==> #[trigger] cols@[j]@[q] == match pos@[j] {
                        Some(e) => crate::index::rank_entry(db.ranks_average@, q, e as int, db.ranks_average@.len() as int),
                        None => None::<crate::index::RankRow>,
                    },
                    j <= ids@.len(),
                    avgs@.len() == j,
                    forall|u: int| 0 <= u < j ==> #[trigger] avgs@[u] == avg_by_id(*db, p as int, ids@[u]),
                    forall|u: int| 0 <= u < j ==> (#[trigger] avgs@[u] matches Some(v) ==> avg_ok(v as int)),
                decreases ids.len() - j,
            {
                assert(cols@[j as int]@[p as int] == match pos@[j as int] {
                    Some(e) => crate::index::rank_entry(db.ranks_average@, p as int, e as int, db.ranks_average@.len() as int),
                    None => None::<crate::index::RankRow>,
                });
                assert(pos_ok(*db, ids@[j as int], pos@[j as int]));
                let v = match cols[j][p] {
                    Some(r) => if r.best > 0 { Some(r.best) } else { None },
                    None => None,
                };
                avgs.push(v);
                j = j + 1;
            }
            let ghost before = cands@;
            proof {
                assert(avgs@ =~= id_avgs(*db, p as int, ids@));
                assert(person_sum_fits(*db, ids@, p as int));
            }
            cands.push((db.person_ids[p].clone(), name.clone(), country, avgs));
            proof {
                assert(table_persons(*db, p + 1) == table_persons(*db, p as int).push(p as int));
                assert forall|i: int| 0 <= i < cands@.len() implies cand_ok(*db, ids@, table_persons(*db, p + 1)[i], #[trigger] cands@[i]) by {
                    if i < before.len() {
                        assert(cands@[i] == before[i]);
                    }
                }
                assert forall|k: int| 0 <= k < cands@.len() implies {
                    &&& (#[trigger] cands@[k]).3@.len() == ids@.len()
                    &&& forall|e: int| 0 <= e < ids@.len() ==> (#[trigger] cands@[k].3@[e] matches Some(v) ==> avg_ok(v as int))
                } by {
                    if k < before.len() {
                        assert(cands@[k] == before[k]);
                    }
                }
            }
        }
        p = p + 1;
    }
    cands
}

/// The people of a challenge: the candidates qualified for every event.
pub open spec fn people_of(db: IndexedDb, ids: Seq<&str>, people: Seq<Person>) -> bool {
    exists|cands: Seq<(String, String, String, Vec<Option<i32>>)>| {
        &&& #[trigger] cands_of(db, ids, cands)
        &&& people.len() == qualified(cands, cands.len() as int).len()
        &&& forall|i: int| 0 <= i < people.len() ==> person_from(cands[qualified(cands, cands.len() as int)[i]], #[trigger] people[i])
    }
}

/// The two-person challenge over the events with ids `ids`.
pub fn two_man_for(db: &IndexedDb, ids: &Vec<&str>) -> (out: ChallengeOutput)
    requires
        db.wf(),
        id_sums_fit(*db, ids@),
        ids@.len() <= 30,
    ensures
        exists|people: Seq<Person>, events: Seq<String>, sp: Seq<Person>, ss: Seq<Vec<i32>>, top: Seq<TopEntry>, cs: Seq<(String, TopEntry)>|
            people_of(*db, ids@, people) && events.len() == ids@.len()
            && (forall|i: int| 0 <= i < ids@.len() ==> (#[trigger] events[i])@ == ids@[i]@)
            && #[trigger] solve_ok(people, events, ids@.len() as int, out, sp, ss, top, cs),
{
    let cands = candidates(db, ids);
    let people = qualify(&cands, ids.len());
    let mut events: Vec<String> = Vec::new();
    let mut i: usize = 0;
    while i < ids.len()
        invariant
            i <= ids@.len(),
            events@.len() == i,
            forall|j: int| 0 <= j < i ==> (#[trigger] events@[j])@ == ids@[j]@,
        decreases ids.len() - i,
    {
        events.push(String::from_str(ids[i]));
        i = i + 1;
    }
    let out = solve(&people, &events);
    proof {
        assert(people_of(*db, ids@, people@));
    }
    out
}

} // verus!
