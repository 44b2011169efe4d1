//! Rankings for the Nth-best solve in an average.
//!
//! ao5: best 2nd–5th solve (2nd = fastest counting solve; 5th = best "worst solve").
//! mo3: best 2nd and 3rd solve (all three count, so 2nd is the middle, 3rd the worst).
use vstd::prelude::*;
use std::collections::HashMap;
use crate::index::{IndexedDb, Row, str_is, end_date};
use crate::mbld::{row_end_date, shown_name};
use crate::ranking::{rank_keys, is_sorted_perm, ranked_prefix};
use crate::sort::{SortKey, ascending, sort_values};

verus! {

broadcast use vstd::std_specs::hash::group_hash_axioms;

/// One ranked statistic: the solve at position `pos` (0-based) of the sorted
/// attempts of an ao5 (`is_ao5`) or mo3 result.
pub struct StatDef {
    pub filename: &'static str,
    pub label: &'static str,
    pub is_ao5: bool,
    pub pos: usize,
}

/// The six statistics, in output order.
pub fn stats() -> (r: Vec<StatDef>)
    ensures
        r@.len() == 6,
        r@[0].is_ao5 && r@[0].pos == 1,
        r@[1].is_ao5 && r@[1].pos == 2,
        r@[2].is_ao5 && r@[2].pos == 3,
        r@[3].is_ao5 && r@[3].pos == 4,
        !r@[4].is_ao5 && r@[4].pos == 1,
        !r@[5].is_ao5 && r@[5].pos == 2,
{
    vec![
        StatDef { filename: "ao5_2nd", label: "ao5 2nd (best counting)", is_ao5: true, pos: 1 },
        StatDef { filename: "ao5_3rd", label: "ao5 3rd", is_ao5: true, pos: 2 },
        StatDef { filename: "ao5_4th", label: "ao5 4th (worst counting)", is_ao5: true, pos: 3 },
        StatDef { filename: "ao5_5th", label: "ao5 5th (best worst)", is_ao5: true, pos: 4 },
        StatDef { filename: "mo3_2nd", label: "mo3 2nd", is_ao5: false, pos: 1 },
        StatDef { filename: "mo3_3rd", label: "mo3 3rd (worst)", is_ao5: false, pos: 2 },
    ]
}

/// The first `n` attempts with DNF/DNS/0 (and missing attempts) as `i32::MAX`.
pub open spec fn padded_attempts(att: Seq<i32>, n: int) -> Seq<i32> {
    Seq::new(n as nat, |i: int| if i < att.len() && att[i] > 0 { att[i] } else { i32::MAX })
}

/// Two ascending sequences with the same elements are equal.
pub proof fn lemma_sorted_unique(a: Seq<i32>, b: Seq<i32>)
    requires
        ascending(a),
        ascending(b),
        a.to_multiset() == b.to_multiset(),
    ensures
        a == b,
    decreases a.len(),
{
    broadcast use vstd::seq_lib::group_to_multiset_ensures;

    a.to_multiset_ensures();
    b.to_multiset_ensures();
    if a.len() > 0 {
        assert(a.to_multiset().count(a[0]) > 0);
        assert(b.contains(a[0]));
        assert(b.to_multiset().count(b[0]) > 0);
        assert(a.contains(b[0]));
        let ja = choose|j: int| 0 <= j < b.len() && b[j] == a[0];
        let jb = choose|j: int| 0 <= j < a.len() && a[j] == b[0];
        assert(a[0] == b[0]);
        vstd::seq_lib::to_multiset_remove(a, 0);
        vstd::seq_lib::to_multiset_remove(b, 0);
        assert(a.remove(0) =~= a.drop_first());
        assert(b.remove(0) =~= b.drop_first());
        lemma_sorted_unique(a.drop_first(), b.drop_first());
        assert forall|i: int| 0 <= i < a.len() implies a[i] == b[i] by {
            if i > 0 {
                assert(a[i] == a.drop_first()[i - 1]);
                assert(b[i] == b.drop_first()[i - 1]);
            }
        }
        assert(a =~= b);
    }
}

/// The ascending arrangement of `s`.
pub open spec fn sorted_of(s: Seq<i32>) -> Seq<i32> {
    choose|t: Seq<i32>| ascending(t) && t.to_multiset() == s.to_multiset()
}

/// Sort `n` attempt values ascending, mapping DNF/DNS/0 → i32::MAX.
pub fn sort_attempts(attempts: &Vec<i32>, n: usize) -> (s: Vec<i32>)
    ensures
        s@ == sorted_of(padded_attempts(attempts@, n as int)),
        s@.len() == n,
{
    let mut pad: Vec<i32> = Vec::new();
    let mut i: usize = 0;
    while i < n
        invariant
            i <= n,
            pad@ == padded_attempts(attempts@, n as int).subrange(0, i as int),
        decreases n - i,
    {
        let v = if i < attempts.len() && attempts[i] > 0 { attempts[i] } else { i32::MAX };
        pad.push(v);
        proof {
            assert(pad@ =~= padded_attempts(attempts@, n as int).subrange(0, i + 1));
        }
        i = i + 1;
    }
    proof {
        assert(pad@ =~= padded_attempts(attempts@, n as int));
    }
    let s = sort_values(&pad);
    proof {
        let t = sorted_of(pad@);
        assert(ascending(s@) && s@.to_multiset() == pad@.to_multiset());
        lemma_sorted_unique(t, s@);
    }
    s
}

/// Whether a row of this format counts as an average of 5, and as a mean of 3
/// (best-of-3 rounds count for mo3; Multi-Blind encodings are not times).
pub open spec fn is_ao5_row(db: IndexedDb, r: Row) -> bool {
    db.formats@[r.format as int]@ == "a"@ || db.formats@[r.format as int]@ == "5"@
}

pub open spec fn is_mo3_row(db: IndexedDb, r: Row) -> bool {
    &&& (db.formats@[r.format as int]@ == "m"@ || db.formats@[r.format as int]@ == "3"@)
    &&& !(db.events@[r.event as int]@ == "333mbf"@ || db.events@[r.event as int]@ == "333mbo"@)
}

/// The value a row offers for statistic (`is_ao5`, `pos`), if any.
pub open spec fn stat_value(db: IndexedDb, r: Row, is_ao5: bool, pos: int) -> Option<i32> {
    let ao5 = is_ao5_row(db, r);
    let mo3 = is_mo3_row(db, r);
    let needs_avg = ao5 || db.formats@[r.format as int]@ == "m"@;
    if !(ao5 || mo3) || (needs_avg && r.average <= 0) || r.attempts is None {
        None
    } else {
        let att = r.attempts.unwrap()@;
        let n = if is_ao5 { 5int } else { 3int };
        let ok = if is_ao5 { ao5 } else { mo3 };
        if ok && att.len() == n {
            let v = sorted_of(padded_attempts(att, n))[pos];
            if v != i32::MAX { Some(v) } else { None }
        } else {
            None
        }
    }
}

/// Slot key of (event, person).
pub open spec fn slot_key(event: usize, person: usize) -> u64 {
    (event as int * 0x1_0000_0000 + person as int) as u64
}

/// Best value of each (event, person) over rows `0..n`, with the first row reaching it.
pub open spec fn stat_table(db: IndexedDb, is_ao5: bool, pos: int, n: int) -> Map<u64, (i32, usize)>
    decreases n,
{
    if n <= 0 {
        Map::empty()
    } else {
        let t = stat_table(db, is_ao5, pos, n - 1);
        let r = db.rows@[n - 1];
        let key = slot_key(r.event, r.person);
        match stat_value(db, r, is_ao5, pos) {
            Some(v) => if !t.contains_key(key) || v < t[key].0 {
                t.insert(key, (v, (n - 1) as usize))
            } else {
                t
            },
            None => t,
        }
    }
}

/// Bounds on table sizes under which slot keys are exact.
pub open spec fn sizes_ok(db: IndexedDb) -> bool {
    &&& db.wf()
    &&& db.n_persons < 0x1000_0000
    &&& db.events@.len() < 0x1000_0000
}

fn row_value(db: &IndexedDb, r: &Row, is_ao5: bool, pos: usize) -> (v: Option<i32>)
    requires
        sizes_ok(*db),
        r.format < db.formats@.len(),
        r.event < db.events@.len(),
        pos < 5,
        !is_ao5 ==> pos < 3,
    ensures
        v == stat_value(*db, *r, is_ao5, pos as int),
{
    let fmt = &db.formats[r.format];
    let ev = &db.events[r.event];
    let ao5 = str_is(fmt, "a") || str_is(fmt, "5");
    let mo3 = (str_is(fmt, "m") || str_is(fmt, "3")) && !(str_is(ev, "333mbf") || str_is(ev, "333mbo"));
    if !ao5 && !mo3 {
        return None;
    }
    if (ao5 || str_is(fmt, "m")) && r.average <= 0 {
        return None;
    }
    let att = match &r.attempts {
        Some(a) => a,
        None => { return None; }
    };
    let n: usize = if is_ao5 { 5 } else { 3 };
    let ok = if is_ao5 { ao5 } else { mo3 };
    if ok && att.len() == n {
        let s = sort_attempts(att, n);
        let v = s[pos];
        if v != i32::MAX { Some(v) } else { None }
    } else {
        None
    }
}

/// The table `t` after row `k` is offered: the row's value takes the slot of
/// its (event, person) when the slot is empty or holds a strictly higher value.
pub open spec fn slot_step(db: IndexedDb, t: Map<u64, (i32, usize)>, is_ao5: bool, pos: int, k: int) -> Map<u64, (i32, usize)> {
    let r = db.rows@[k];
    let key = slot_key(r.event, r.person);
    match stat_value(db, r, is_ao5, pos) {
        Some(v) => if !t.contains_key(key) || v < t[key].0 {
            t.insert(key, (v, k as usize))
        } else {
            t
        },
        None => t,
    }
}

/// The slot table of rows `lo..n` alone.
pub open spec fn range_table(db: IndexedDb, is_ao5: bool, pos: int, lo: int, n: int) -> Map<u64, (i32, usize)>
    decreases n - lo,
{
    if n <= lo {
        Map::empty()
    } else {
        slot_step(db, range_table(db, is_ao5, pos, lo, n - 1), is_ao5, pos, n - 1)
    }
}

/// The table of all rows before `n` is the range table from the first row.
pub proof fn lemma_stat_table_range(db: IndexedDb, is_ao5: bool, pos: int, n: int)
    requires
        0 <= n,
    ensures
        stat_table(db, is_ao5, pos, n) == range_table(db, is_ao5, pos, 0, n),
    decreases n,
{
    if n > 0 {
        lemma_stat_table_range(db, is_ao5, pos, n - 1);
    }
}

/// The slot table of rows `lo..hi` for one statistic.
pub fn chunk_table(db: &IndexedDb, is_ao5: bool, pos: usize, lo: usize, hi: usize) -> (t: HashMap<u64, (i32, usize)>)
    requires
        sizes_ok(*db),
        pos < 5,
        !is_ao5 ==> pos < 3,
        lo <= hi <= db.rows@.len(),
    ensures
        t@ == range_table(*db, is_ao5, pos as int, lo as int, hi as int),
{
    let mut acc: HashMap<u64, (i32, usize)> = HashMap::new();
    proof {
        assert(acc@ =~= range_table(*db, is_ao5, pos as int, lo as int, lo as int));
    }
    let mut k = lo;
    while k < hi
        invariant
            sizes_ok(*db),
            pos < 5,
            !is_ao5 ==> pos < 3,
            lo <= k <= hi <= db.rows@.len(),
            acc@ == range_table(*db, is_ao5, pos as int, lo as int, k as int),
        decreases hi - k,
    {
        let r = &db.rows[k];
        if let Some(v) = row_value(db, r, is_ao5, pos) {
            let key: u64 = (r.event as u64) * 0x1_0000_0000 + r.person as u64;
            let better = match acc.get(&key) {
                None => true,
                Some(old) => v < old.0,
            };
            if better {
                acc.insert(key, (v, k));
            }
        }
        k = k + 1;
    }
    acc
}

/// A slot present in the table of rows `0..m` stays present, at a value no
/// higher, in the table of rows `0..n` for `n >= m`.
proof fn lemma_stat_table_keeps(db: IndexedDb, is_ao5: bool, pos: int, m: int, n: int, key: u64)
    requires
        0 <= m <= n,
        stat_table(db, is_ao5, pos, m).contains_key(key),
    ensures
        stat_table(db, is_ao5, pos, n).contains_key(key),
        stat_table(db, is_ao5, pos, n)[key].0 <= stat_table(db, is_ao5, pos, m)[key].0,
    decreases n,
{
    if n > m {
        lemma_stat_table_keeps(db, is_ao5, pos, m, n - 1, key);
    }
}

/// Best-of-3 results count for the mean-of-3 statistics, as do mean-of-3
/// results with an average: for a result of format `3` (or of format `m`
/// with a positive average) in any event but the multi-blind ones, with
/// three attempts whose `pos`-th smallest (unsolved attempts last) is a time,
/// the person's slot of that event exists in the table of every row range
/// that holds the result, at a value no higher than that time.
pub proof fn lemma_mo3_counts_bo3(db: IndexedDb, pos: int, k: int, n: int)
    requires
        0 <= pos < 3,
        0 <= k < n <= db.rows@.len(),
        db.formats@[db.rows@[k].format as int]@ == "3"@ || (db.formats@[db.rows@[k].format as int]@ == "m"@
            && db.rows@[k].average > 0),
        db.events@[db.rows@[k].event as int]@ != "333mbf"@,
        db.events@[db.rows@[k].event as int]@ != "333mbo"@,
        db.rows@[k].attempts matches Some(a) && a@.len() == 3 && sorted_of(padded_attempts(a@, 3))[pos] != i32::MAX,
    ensures
        ({
            let r = db.rows@[k];
            let key = slot_key(r.event, r.person);
            let v = sorted_of(padded_attempts(r.attempts.unwrap()@, 3))[pos];
            &&& stat_table(db, false, pos, n).contains_key(key)
            &&& stat_table(db, false, pos, n)[key].0 <= v
        }),
{
    reveal_strlit("3");
    reveal_strlit("m");
    reveal_strlit("a");
    reveal_strlit("5");
    assert("3"@[0] != "a"@[0] && "3"@[0] != "5"@[0] && "m"@[0] != "a"@[0] && "m"@[0] != "5"@[0]);
    assert("3"@ != "a"@ && "3"@ != "5"@ && "m"@ != "a"@ && "m"@ != "5"@);
    let r = db.rows@[k];
    let key = slot_key(r.event, r.person);
    assert(!is_ao5_row(db, r));
    assert(is_mo3_row(db, r));
    assert(stat_value(db, r, false, pos) == Some(sorted_of(padded_attempts(r.attempts.unwrap()@, 3))[pos]));
    assert(stat_table(db, false, pos, k + 1).contains_key(key));
    lemma_stat_table_keeps(db, false, pos, k + 1, n, key);
}

/// Average-of-5 results with an average count for the ao5 statistics: for a
/// result of format `a` or `5` with a positive average and five attempts
/// whose `pos`-th smallest (unsolved attempts last) is a time, the person's
/// slot of that event exists in the table of every row range that holds the
/// result, at a value no higher than that time.
pub proof fn lemma_ao5_counts(db: IndexedDb, pos: int, k: int, n: int)
    requires
        0 <= pos < 5,
        0 <= k < n <= db.rows@.len(),
        db.formats@[db.rows@[k].format as int]@ == "a"@ || db.formats@[db.rows@[k].format as int]@ == "5"@,
        db.rows@[k].average > 0,
        db.rows@[k].attempts matches Some(a) && a@.len() == 5 && sorted_of(padded_attempts(a@, 5))[pos] != i32::MAX,
    ensures
        ({
            let r = db.rows@[k];
            let key = slot_key(r.event, r.person);
            let v = sorted_of(padded_attempts(r.attempts.unwrap()@, 5))[pos];
            &&& stat_table(db, true, pos, n).contains_key(key)
            &&& stat_table(db, true, pos, n)[key].0 <= v
        }),
{
    let r = db.rows@[k];
    let key = slot_key(r.event, r.person);
    assert(is_ao5_row(db, r));
    assert(stat_value(db, r, true, pos) == Some(sorted_of(padded_attempts(r.attempts.unwrap()@, 5))[pos]));
    assert(stat_table(db, true, pos, k + 1).contains_key(key));
    lemma_stat_table_keeps(db, true, pos, k + 1, n, key);
}

/// Slot-wise combination of the table of earlier rows `a` with that of later
/// rows `c`: the later slot wins only with a strictly lower value.
pub open spec fn combine(a: Map<u64, (i32, usize)>, c: Map<u64, (i32, usize)>) -> Map<u64, (i32, usize)> {
    Map::new(
        |k: u64| a.contains_key(k) || c.contains_key(k),
        |k: u64| if c.contains_key(k) && (!a.contains_key(k) || c[k].0 < a[k].0) { c[k] } else { a[k] },
    )
}

/// The table of rows `lo..hi` combines those of `lo..mid` and `mid..hi`.
proof fn lemma_range_split(db: IndexedDb, is_ao5: bool, pos: int, lo: int, mid: int, hi: int)
    requires
        lo <= mid <= hi,
    ensures
        range_table(db, is_ao5, pos, lo, hi) == combine(
            range_table(db, is_ao5, pos, lo, mid),
            range_table(db, is_ao5, pos, mid, hi),
        ),
    decreases hi - mid,
{
    let a = range_table(db, is_ao5, pos, lo, mid);
    if hi == mid {
        assert(combine(a, Map::empty()) =~= a);
    } else {
        lemma_range_split(db, is_ao5, pos, lo, mid, hi - 1);
        let c = range_table(db, is_ao5, pos, mid, hi - 1);
        assert(slot_step(db, combine(a, c), is_ao5, pos, hi - 1) =~= combine(a, slot_step(db, c, is_ao5, pos, hi - 1)));
    }
}

/// `b` lists the slots of `c`, each key once.
pub open spec fn lists(b: Seq<(u64, (i32, usize))>, c: Map<u64, (i32, usize)>) -> bool {
    &&& forall|i: int, j: int| 0 <= i < j < b.len() ==> b[i].0 != b[j].0
    &&& forall|i: int| 0 <= i < b.len() ==> c.contains_key(#[trigger] b[i].0) && c[b[i].0] == b[i].1
    &&& forall|k: u64| #[trigger] c.contains_key(k) ==> exists|i: int| 0 <= i < b.len() && b[i].0 == k
}

/// `a` with the entries of `b` merged in, in order: an entry replaces the slot
/// of its key when the key is absent or its value is strictly lower.
pub open spec fn merged(a: Map<u64, (i32, usize)>, b: Seq<(u64, (i32, usize))>) -> Map<u64, (i32, usize)>
    decreases b.len(),
{
    if b.len() == 0 {
        a
    } else {
        let m = merged(a, b.drop_last());
        let e = b.last();
        if !m.contains_key(e.0) || e.1.0 < m[e.0].0 {
            m.insert(e.0, e.1)
        } else {
            m
        }
    }
}

/// Merges two slot tables, keeping the lower value and, on ties, the entry of `a`.
pub fn merge_slot(a: &mut HashMap<u64, (i32, usize)>, b: &Vec<(u64, (i32, usize))>)
    ensures
        final(a)@ == merged(old(a)@, b@),
{
    let mut j: usize = 0;
    while j < b.len()
        invariant
            j <= b@.len(),
            a@ == merged(old(a)@, b@.take(j as int)),
        decreases b.len() - j,
    {
        let (key, (v, r)) = b[j];
        proof {
            assert(b@.take(j + 1).drop_last() =~= b@.take(j as int));
            assert(b@.take(j + 1).last() == b@[j as int]);
        }
        let better = match a.get(&key) {
            None => true,
            Some(old) => v < old.0,
        };
        if better {
            a.insert(key, (v, r));
        }
        j = j + 1;
    }
    proof {
        assert(b@.take(b@.len() as int) =~= b@);
    }
}

/// Merging a listing of `c` into `a`, in any order, combines the two tables.
proof fn lemma_merged_combine(a: Map<u64, (i32, usize)>, b: Seq<(u64, (i32, usize))>, c: Map<u64, (i32, usize)>)
    requires
        lists(b, c),
    ensures
        merged(a, b) == combine(a, c),
    decreases b.len(),
{
    if b.len() == 0 {
        assert forall|k: u64| !c.contains_key(k) by {
            if c.contains_key(k) {
                let i = choose|i: int| 0 <= i < b.len() && b[i].0 == k;
            }
        }
        assert(combine(a, c) =~= a);
    } else {
        let e = b.last();
        let n = b.len() - 1;
        let c2 = c.remove(e.0);
        let b2 = b.drop_last();
        assert forall|k: u64| #[trigger] c2.contains_key(k) implies exists|i: int| 0 <= i < b2.len() && b2[i].0 == k by {
            let i = choose|i: int| 0 <= i < b.len() && b[i].0 == k;
            assert(i != n);
            assert(b2[i] == b[i]);
        }
        assert forall|i: int| 0 <= i < b2.len() implies c2.contains_key(#[trigger] b2[i].0) && c2[b2[i].0] == b2[i].1 by {
            assert(b2[i] == b[i]);
            assert(b[i].0 != b[n].0);
        }
        assert(lists(b2, c2));
        lemma_merged_combine(a, b2, c2);
        assert(c.contains_key(e.0) && c[e.0] == e.1);
        assert(merged(a, b) =~= combine(a, c));
    }
}

/// Tables of consecutive row ranges merge into the table of their union:
/// merging the slots of rows `mid..hi`, listed in any order, into the table
/// of rows `lo..mid` gives the table of rows `lo..hi`.
pub proof fn lemma_merge_chunks(
    db: IndexedDb,
    is_ao5: bool,
    pos: int,
    lo: int,
    mid: int,
    hi: int,
    b: Seq<(u64, (i32, usize))>,
)
    requires
        lo <= mid <= hi,
        lists(b, range_table(db, is_ao5, pos, mid, hi)),
    ensures
        merged(range_table(db, is_ao5, pos, lo, mid), b) == range_table(db, is_ao5, pos, lo, hi),
{
    lemma_merged_combine(range_table(db, is_ao5, pos, lo, mid), b, range_table(db, is_ao5, pos, mid, hi));
    lemma_range_split(db, is_ao5, pos, lo, mid, hi);
}

/// One row of an Nth-solve ranking.
pub struct Entry {
    pub rank: usize,
    pub person_id: String,
    pub person_name: String,
    pub country_id: String,
    pub competition_id: String,
    pub value_cs: i32,
    pub single_cs: i32,
    pub average_cs: i32,
}

/// Sort keys of event `e`'s slots, in person order: value, end date, person.
pub open spec fn event_keys(db: IndexedDb, t: Map<u64, (i32, usize)>, e: usize, n: int) -> Seq<SortKey>
    decreases n,
{
    if n <= 0 {
        Seq::empty()
    } else {
        let prev = event_keys(db, t, e, n - 1);
        let key = slot_key(e, (n - 1) as usize);
        if t.contains_key(key) {
            let x = t[key];
            prev.push((x.0 as i64, 0i64, row_end_date(db, x.1 as int) as i64, (n - 1) as i64, (n - 1) as usize))
        } else {
            prev
        }
    }
}

/// Entry `en`, at rank `rank`, describes person `p`'s slot for event `e`.
pub open spec fn entry_ok(db: IndexedDb, t: Map<u64, (i32, usize)>, e: usize, en: Entry, rank: usize, p: int) -> bool {
    let slot = t[slot_key(e, p as usize)];
    let row = db.rows@[slot.1 as int];
    &&& t.contains_key(slot_key(e, p as usize))
    &&& en.rank == rank
    &&& en.person_id@ == db.person_ids@[p]@
    &&& en.person_name@ == shown_name(db, p, slot.1 as int)
    &&& en.country_id@ == db.country_ids@[row.country as int]@
    &&& en.competition_id@ == db.comp_ids@[row.comp as int]@
    &&& en.value_cs == slot.0 && en.single_cs == row.best && en.average_cs == row.average
}

/// `out` is the ranking of event `e` for the ordered keys `sk` and the kept
/// ranked rows `ranked`.
pub open spec fn ranking_matches(db: IndexedDb, t: Map<u64, (i32, usize)>, e: usize, out: Seq<Entry>, ranked: Seq<(usize, usize)>, sk: Seq<SortKey>) -> bool {
    &&& is_sorted_perm(event_keys(db, t, e, db.n_persons as int), sk)
    &&& ranked_prefix(ranked, sk, 1)
    &&& out.len() == ranked.len()
    &&& forall|i: int| 0 <= i < out.len() ==> #[trigger] entry_ok(db, t, e, out[i], ranked[i].0, ranked[i].1 as int)
}

/// The ranking of event `e` lists its slots in ranked order.
pub open spec fn event_ranking_ok(db: IndexedDb, t: Map<u64, (i32, usize)>, e: usize, out: Seq<Entry>) -> bool {
    exists|ranked: Seq<(usize, usize)>, sk: Seq<SortKey>| #[trigger] ranking_matches(db, t, e, out, ranked, sk)
}

proof fn lemma_ranking_nonempty(db: IndexedDb, t: Map<u64, (i32, usize)>, e: usize, out: Seq<Entry>)
    requires
        event_ranking_ok(db, t, e, out),
    ensures
        event_keys(db, t, e, db.n_persons as int).len() > 0 ==> out.len() > 0,
{
    let (ranked, sk) = choose|ranked: Seq<(usize, usize)>, sk: Seq<SortKey>| #[trigger] ranking_matches(db, t, e, out, ranked, sk);
    crate::ranking::lemma_ranked_nonempty(ranked, sk, 1);
}

proof fn lemma_event_keys(db: IndexedDb, t: Map<u64, (i32, usize)>, e: usize, n: int)
    requires
        0 <= n <= db.n_persons,
        db.n_persons < 0x1000_0000,
    ensures
        forall|j: int| 0 <= j < event_keys(db, t, e, n).len() ==> {
            let k = #[trigger] event_keys(db, t, e, n)[j];
            &&& (k.4 as int) < n
            &&& t.contains_key(slot_key(e, k.4))
        },
    decreases n,
{
    if n > 0 {
        lemma_event_keys(db, t, e, n - 1);
        let prev = event_keys(db, t, e, n - 1);
        let cur = event_keys(db, t, e, n);
        assert forall|j: int| 0 <= j < cur.len() implies {
            let k = #[trigger] cur[j];
            &&& (k.4 as int) < n
            &&& t.contains_key(slot_key(e, k.4))
        } by {
            if j < prev.len() {
                assert(cur[j] == prev[j]);
            }
        }
    }
}

/// Every slot names a row of the table's own event and person.
pub open spec fn table_rows_ok(db: IndexedDb, t: Map<u64, (i32, usize)>) -> bool {
    forall|key: u64| #[trigger] t.contains_key(key) ==> (t[key].1 as int) < db.rows@.len()
}

proof fn lemma_stat_table_rows(db: IndexedDb, is_ao5: bool, pos: int, n: int)
    requires
        0 <= n <= db.rows@.len(),
    ensures
        table_rows_ok(db, stat_table(db, is_ao5, pos, n)),
    decreases n,
{
    if n > 0 {
        lemma_stat_table_rows(db, is_ao5, pos, n - 1);
    }
}

/// The ranking of event `e` from a slot table.
pub fn build_rankings(db: &IndexedDb, t: &HashMap<u64, (i32, usize)>, e: usize) -> (out: Vec<Entry>)
    requires
        sizes_ok(*db),
        e < db.events@.len(),
        table_rows_ok(*db, t@),
    ensures
        event_ranking_ok(*db, t@, e, out@),
{
    let np = db.n_persons;
    let mut keys: Vec<SortKey> = Vec::new();
    let mut q: usize = 0;
    while q < np
        invariant
            sizes_ok(*db),
            e < db.events@.len(),
            np == db.n_persons,
            q <= np,
            table_rows_ok(*db, t@),
            keys@ == event_keys(*db, t@, e, q as int),
        decreases np - q,
    {
        let key: u64 = (e as u64) * 0x1_0000_0000 + q as u64;
        if let Some(x) = t.get(&key) {
            let ed = end_date(db.comps[db.rows[x.1].comp].as_ref());
            keys.push((x.0 as i64, 0, ed as i64, q as i64, q));
        }
        q = q + 1;
    }
    let ranked = rank_keys(&keys, 1);
    let ghost sk = choose|sk: Seq<SortKey>| is_sorted_perm(keys@, sk) && #[trigger] ranked_prefix(ranked@, sk, 1);
    proof {
        crate::search::lemma_perm_members(keys@, sk);
        crate::ranking::lemma_ranked_len(ranked@, sk, 1);
    }
    let mut out: Vec<Entry> = Vec::new();
    let mut i: usize = 0;
    while i < ranked.len()
        invariant
            sizes_ok(*db),
            e < db.events@.len(),
            np == db.n_persons,
            table_rows_ok(*db, t@),
            ranked@.len() <= sk.len(),
            sk.len() == keys@.len(),
            keys@ == event_keys(*db, t@, e, np as int),
            forall|j: int| 0 <= j < sk.len() ==> keys@.contains(#[trigger] sk[j]),
            forall|j: int| 0 <= j < ranked@.len() ==> (#[trigger] ranked@[j]).1 == sk[j].4,
            i <= ranked@.len(),
            out@.len() == i,
            forall|j: int| 0 <= j < i ==> #[trigger] entry_ok(*db, t@, e, out@[j], ranked@[j].0, ranked@[j].1 as int),
        decreases ranked@.len() - i,
    {
        let (rank, p) = ranked[i];
        proof {
            let kj = choose|kj: int| 0 <= kj < keys@.len() && keys@[kj] == sk[i as int];
            lemma_event_keys(*db, t@, e, np as int);
            assert(event_keys(*db, t@, e, np as int)[kj] == sk[i as int]);
        }
        let key: u64 = (e as u64) * 0x1_0000_0000 + p as u64;
        let slot = *t.get(&key).unwrap();
        let row = &db.rows[slot.1];
        let name = match &db.person_names[p] {
            Some(n) => n.clone(),
            None => row.person_name.clone(),
        };
        out.push(Entry {
            rank,
            person_id: db.person_ids[p].clone(),
            person_name: name,
            country_id: db.country_ids[row.country].clone(),
            competition_id: db.comp_ids[row.comp].clone(),
            value_cs: slot.0,
            single_cs: row.best,
            average_cs: row.average,
        });
        proof {
            assert(entry_ok(*db, t@, e, out@[i as int], ranked@[i as int].0, ranked@[i as int].1 as int));
        }
        i = i + 1;
    }
    proof {
        assert(ranking_matches(*db, t@, e, out@, ranked@, sk));
    }
    out
}

/// Rankings of one statistic for every event that has any slot.
pub fn stat_rankings(db: &IndexedDb, t: &HashMap<u64, (i32, usize)>) -> (out: Vec<(usize, Vec<Entry>)>)
    requires
        sizes_ok(*db),
        table_rows_ok(*db, t@),
    ensures
        forall|j: int| 0 <= j < out@.len() ==> {
            let (e, entries) = #[trigger] out@[j];
            &&& e < db.events@.len()
            &&& event_ranking_ok(*db, t@, e, entries@)
            &&& entries@.len() > 0
        },
        forall|j1: int, j2: int| 0 <= j1 < j2 < out@.len() ==> out@[j1].0 < out@[j2].0,
        forall|e: usize| e < db.events@.len() && event_keys(*db, t@, e, db.n_persons as int).len() > 0 ==> exists|j: int| 0 <= j < out@.len() && #[trigger] out@[j].0 == e,
{
    let mut out: Vec<(usize, Vec<Entry>)> = Vec::new();
    let mut e: usize = 0;
    while e < db.events.len()
        invariant
            sizes_ok(*db),
            table_rows_ok(*db, t@),
            e <= db.events@.len(),
            forall|j: int| 0 <= j < out@.len() ==> {
                let (ev, entries) = #[trigger] out@[j];
                &&& ev < e
                &&& event_ranking_ok(*db, t@, ev, entries@)
                &&& entries@.len() > 0
            },
            forall|j1: int, j2: int| 0 <= j1 < j2 < out@.len() ==> out@[j1].0 < out@[j2].0,
            forall|ev: usize| ev < e && event_keys(*db, t@, ev, db.n_persons as int).len() > 0 ==> exists|j: int| 0 <= j < out@.len() && #[trigger] out@[j].0 == ev,
        decreases db.events@.len() - e,
    {
        let entries = build_rankings(db, t, e);
        proof {
            lemma_ranking_nonempty(*db, t@, e, entries@);
        }
        let ghost old_out = out@;
        if entries.len() > 0 {
            out.push((e, entries));
        }
        proof {
            assert forall|ev: usize| ev < e + 1 && event_keys(*db, t@, ev, db.n_persons as int).len() > 0 implies exists|j: int| 0 <= j < out@.len() && #[trigger] out@[j].0 == ev by {
                if ev < e {
                    let j = choose|j: int| 0 <= j < old_out.len() && #[trigger] old_out[j].0 == ev;
                    assert(out@[j] == old_out[j]);
                } else {
                    assert(out@[out@.len() - 1].0 == e);
                }
            }
        }
        e = e + 1;
    }
    out
}


/// Rankings of one statistic over all rows, for every event that has any
/// slot.
pub fn nth_rankings(db: &IndexedDb, is_ao5: bool, pos: usize) -> (out: Vec<(usize, Vec<Entry>)>)
    requires
        sizes_ok(*db),
        pos < 5,
        !is_ao5 ==> pos < 3,
    ensures
        ({
            let t = stat_table(*db, is_ao5, pos as int, db.rows@.len() as int);
            &&& forall|j: int| 0 <= j < out@.len() ==> {
                let (e, entries) = #[trigger] out@[j];
                &&& e < db.events@.len()
                &&& event_ranking_ok(*db, t, e, entries@)
                &&& entries@.len() > 0
            }
            &&& forall|j1: int, j2: int| 0 <= j1 < j2 < out@.len() ==> out@[j1].0 < out@[j2].0
            &&& forall|e: usize| e < db.events@.len() && event_keys(*db, t, e, db.n_persons as int).len() > 0 ==> exists|j: int| 0 <= j < out@.len() && #[trigger] out@[j].0 == e
        }),
{
    let acc = chunk_table(db, is_ao5, pos, 0, db.rows.len());
    proof {
        lemma_stat_table_range(*db, is_ao5, pos as int, db.rows@.len() as int);
        lemma_stat_table_rows(*db, is_ao5, pos as int, db.rows@.len() as int);
    }
    stat_rankings(db, &acc)
}

} // verus!
