//! Multi-Blind derived rankings.
//!
//! perfect – best single attempt where missed == 0 (all cubes solved).
//! solved  – best single attempt ranked by cubes solved only (no miss penalty).
//! mean    – mean points across 3 valid Bo3 attempts (333mbf only, format '3').
use vstd::prelude::*;
use crate::index::{IndexedDb, Row, str_is, end_date, CompDates};
use crate::ranking::{rank_keys, is_sorted_perm, ranked_prefix};
use crate::sort::SortKey;

verus! {

/// The fields of an encoded Multi-Blind attempt `value = (99 - points) * 10^7 +
/// time_s * 100 + missed`: (points, time_s, missed, solved, attempted), where
/// solved = points + missed and attempted = solved + missed; absent for DNF,
/// DNS and values with no positive points.
pub open spec fn decode_spec(value: int) -> Option<(i32, u32, u32, u32, u32)> {
    if value <= 0 {
        None
    } else {
        let missed = value % 100;
        let time_s = (value / 100) % 100000;
        let points = 99 - value / 10_000_000;
        if points <= 0 {
            None
        } else {
            Some((points as i32, time_s as u32, missed as u32, (points + missed) as u32, (points + 2 * missed) as u32))
        }
    }
}

/// Decode a WCA MBLD encoded attempt.
/// Returns (points, time_s, missed, solved, attempted) or None if DNF/DNS/invalid.
pub fn decode(value: i32) -> (r: Option<(i32, u32, u32, u32, u32)>)
    ensures
        r == decode_spec(value as int),
{
    if value <= 0 {
        return None;
    }
    let missed = (value % 100) as u32;
    let time_s = ((value / 100) % 100000) as u32;
    let points = 99 - (value / 10_000_000);
    if points <= 0 {
        return None;
    }
    let solved = points as u32 + missed;
    let attempted = solved + missed;
    Some((points, time_s, missed, solved, attempted))
}

/// The encoding of an attempt with `points` points, `time_s` seconds and
/// `missed` unsolved cubes.
pub open spec fn encode_spec(points: int, time_s: int, missed: int) -> int {
    (99 - points) * 10_000_000 + time_s * 100 + missed
}

/// Decoding gives back what was encoded.
pub proof fn lemma_decode_encode(points: int, time_s: int, missed: int)
    requires
        1 <= points <= 99,
        0 <= time_s < 100000,
        0 <= missed < 100,
        encode_spec(points, time_s, missed) > 0,
    ensures
        decode_spec(encode_spec(points, time_s, missed)) == Some(
            (points as i32, time_s as u32, missed as u32, (points + missed) as u32, (points + 2 * missed) as u32),
        ),
{
    let v = encode_spec(points, time_s, missed);
    let q = 99 - points;
    assert(v == q * 10_000_000 + time_s * 100 + missed);
    assert(v % 100 == missed) by (nonlinear_arith)
        requires v == q * 10_000_000 + time_s * 100 + missed, 0 <= missed < 100, 0 <= q;
    assert(v / 100 == q * 100000 + time_s) by (nonlinear_arith)
        requires v == q * 10_000_000 + time_s * 100 + missed, 0 <= missed < 100, 0 <= q, 0 <= time_s;
    assert((q * 100000 + time_s) % 100000 == time_s) by (nonlinear_arith)
        requires 0 <= time_s < 100000, 0 <= q;
    assert(v / 10_000_000 == q) by (nonlinear_arith)
        requires v == q * 10_000_000 + time_s * 100 + missed, 0 <= missed < 100, 0 <= q, 0 <= time_s < 100000;
}

/// Lowest value among the perfect (nothing missed) attempts.
pub open spec fn row_perfect(att: Seq<i32>) -> Option<i32>
    decreases att.len(),
{
    if att.len() == 0 {
        None
    } else {
        let prev = row_perfect(att.drop_last());
        let v = att.last();
        match decode_spec(v as int) {
            Some(d) => if d.2 == 0 && (prev is None || v < prev.unwrap()) { Some(v) } else { prev },
            None => prev,
        }
    }
}

/// Better attempt by cubes solved (more first), then time (less first).
pub open spec fn solved_better(a: (u32, u32), b: (u32, u32)) -> bool {
    a.0 > b.0 || (a.0 == b.0 && a.1 < b.1)
}

/// The first attempt with the most cubes solved, then the least time:
/// (solved, time_s, attempted).
pub open spec fn row_solved(att: Seq<i32>) -> Option<(u32, u32, u32)>
    decreases att.len(),
{
    if att.len() == 0 {
        None
    } else {
        let prev = row_solved(att.drop_last());
        match decode_spec(att.last() as int) {
            Some(d) => if prev is None || solved_better((d.3, d.1), (prev.unwrap().0, prev.unwrap().1)) {
                Some((d.3, d.1, d.4))
            } else {
                prev
            },
            None => prev,
        }
    }
}

/// Sum of points and of times over exactly three attempts that all decode.
pub open spec fn row_mean(att: Seq<i32>) -> Option<(i32, u32)> {
    if att.len() == 3 {
        match (decode_spec(att[0] as int), decode_spec(att[1] as int), decode_spec(att[2] as int)) {
            (Some(a), Some(b), Some(c)) => Some(((a.0 + b.0 + c.0) as i32, (a.1 + b.1 + c.1) as u32)),
            _ => None,
        }
    } else {
        None
    }
}

/// Whether a row takes part in the rankings of event `e`.
pub open spec fn counts_for(r: Row, e: usize) -> bool {
    r.event == e && r.attempts is Some
}

/// Per person, the best perfect attempt over rows `0..n` and the first row reaching it.
pub open spec fn perfect_table(db: IndexedDb, e: usize, n: int) -> Seq<Option<(i32, usize)>>
    decreases n,
{
    if n <= 0 {
        Seq::new(db.n_persons as nat, |p: int| None)
    } else {
        let t = perfect_table(db, e, n - 1);
        let r = db.rows@[n - 1];
        if counts_for(r, e) {
            match row_perfect(r.attempts.unwrap()@) {
                Some(v) => if t[r.person as int] is None || v < t[r.person as int].unwrap().0 {
                    t.update(r.person as int, Some((v, (n - 1) as usize)))
                } else {
                    t
                },
                None => t,
            }
        } else {
            t
        }
    }
}

/// Per person, the best attempt by cubes solved then time over rows `0..n`:
/// (solved, time_s, attempted, row).
pub open spec fn solved_table(db: IndexedDb, e: usize, n: int) -> Seq<Option<(u32, u32, u32, usize)>>
    decreases n,
{
    if n <= 0 {
        Seq::new(db.n_persons as nat, |p: int| None)
    } else {
        let t = solved_table(db, e, n - 1);
        let r = db.rows@[n - 1];
        if counts_for(r, e) {
            match row_solved(r.attempts.unwrap()@) {
                Some(b) => if t[r.person as int] is None || solved_better((b.0, b.1), (t[r.person as int].unwrap().0, t[r.person as int].unwrap().1)) {
                    t.update(r.person as int, Some((b.0, b.1, b.2, (n - 1) as usize)))
                } else {
                    t
                },
                None => t,
            }
        } else {
            t
        }
    }
}

/// Whether a row is a best-of-3 result that counts for the mean ranking.
pub open spec fn mean_row(db: IndexedDb, r: Row, e: usize) -> bool {
    &&& counts_for(r, e)
    &&& db.events@[e as int]@ == "333mbf"@
    &&& db.formats@[r.format as int]@ == "3"@
}

/// Per person, the best mean over rows `0..n`: (points sum, time total, row),
/// more points first, then less time.
pub open spec fn mean_table(db: IndexedDb, e: usize, n: int) -> Seq<Option<(i32, u32, usize)>>
    decreases n,
{
    if n <= 0 {
        Seq::new(db.n_persons as nat, |p: int| None)
    } else {
        let t = mean_table(db, e, n - 1);
        let r = db.rows@[n - 1];
        if mean_row(db, r, e) {
            match row_mean(r.attempts.unwrap()@) {
                Some(m) => if t[r.person as int] is None || m.0 > t[r.person as int].unwrap().0
                    || (m.0 == t[r.person as int].unwrap().0 && m.1 < t[r.person as int].unwrap().1) {
                    t.update(r.person as int, Some((m.0, m.1, (n - 1) as usize)))
                } else {
                    t
                },
                None => t,
            }
        } else {
            t
        }
    }
}

fn best_perfect(att: &Vec<i32>) -> (r: Option<i32>)
    ensures
        r == row_perfect(att@),
{
    let mut best: Option<i32> = None;
    let mut i: usize = 0;
    while i < att.len()
        invariant
            i <= att@.len(),
            best == row_perfect(att@.subrange(0, i as int)),
        decreases att.len() - i,
    {
        let v = att[i];
        proof {
            assert(att@.subrange(0, i + 1).drop_last() =~= att@.subrange(0, i as int));
        }
        match decode(v) {
            Some(d) => {
                if d.2 == 0 && (best.is_none() || v < best.unwrap()) {
                    best = Some(v);
                }
            },
            None => {},
        }
        i = i + 1;
    }
    proof {
        assert(att@.subrange(0, att@.len() as int) =~= att@);
    }
    best
}

fn best_solved(att: &Vec<i32>) -> (r: Option<(u32, u32, u32)>)
    ensures
        r == row_solved(att@),
{
    let mut best: Option<(u32, u32, u32)> = None;
    let mut i: usize = 0;
    while i < att.len()
        invariant
            i <= att@.len(),
            best == row_solved(att@.subrange(0, i as int)),
        decreases att.len() - i,
    {
        let v = att[i];
        proof {
            assert(att@.subrange(0, i + 1).drop_last() =~= att@.subrange(0, i as int));
        }
        match decode(v) {
            Some(d) => {
                let better = match best {
                    None => true,
                    Some(b) => d.3 > b.0 || (d.3 == b.0 && d.1 < b.1),
                };
                if better {
                    best = Some((d.3, d.1, d.4));
                }
            },
            None => {},
        }
        i = i + 1;
    }
    proof {
        assert(att@.subrange(0, att@.len() as int) =~= att@);
    }
    best
}

fn mean_of(att: &Vec<i32>) -> (r: Option<(i32, u32)>)
    ensures
        r == row_mean(att@),
{
    if att.len() != 3 {
        return None;
    }
    match (decode(att[0]), decode(att[1]), decode(att[2])) {
        (Some(a), Some(b), Some(c)) => Some((a.0 + b.0 + c.0, a.1 + b.1 + c.1)),
        _ => None,
    }
}

/// `x` holds a mean at least as good as `m`: more points, or as many in no
/// more time.
pub open spec fn mean_at_least(x: Option<(i32, u32, usize)>, m: (i32, u32)) -> bool {
    x matches Some(y) && (y.0 > m.0 || (y.0 == m.0 && y.1 <= m.1))
}

proof fn lemma_mean_table_len(db: IndexedDb, e: usize, n: int)
    requires
        db.wf(),
        n <= db.rows@.len(),
    ensures
        mean_table(db, e, n).len() == db.n_persons,
    decreases n,
{
    if n > 0 {
        lemma_mean_table_len(db, e, n - 1);
    }
}

/// A person's kept mean never gets worse as rows are added.
proof fn lemma_mean_table_keeps(db: IndexedDb, e: usize, m: int, n: int, p: int, mm: (i32, u32))
    requires
        db.wf(),
        0 <= m <= n <= db.rows@.len(),
        0 <= p < db.n_persons,
        mean_at_least(mean_table(db, e, m)[p], mm),
    ensures
        mean_at_least(mean_table(db, e, n)[p], mm),
    decreases n,
{
    if n > m {
        lemma_mean_table_keeps(db, e, m, n - 1, p, mm);
        lemma_mean_table_len(db, e, n - 1);
        let t = mean_table(db, e, n - 1);
        let r = db.rows@[n - 1];
        assert(r.person < db.n_persons);
        if mean_row(db, r, e) && row_mean(r.attempts.unwrap()@) is Some && r.person as int == p {
            let m2 = row_mean(r.attempts.unwrap()@).unwrap();
            if t[p] is None || m2.0 > t[p].unwrap().0 || (m2.0 == t[p].unwrap().0 && m2.1 < t[p].unwrap().1) {
                assert(mean_table(db, e, n)[p] == Some((m2.0, m2.1, (n - 1) as usize)));
            } else {
                assert(mean_table(db, e, n) == t);
            }
        } else {
            assert(mean_table(db, e, n)[p] == t[p]);
        }
    }
}

/// The mean kept for a person is the best of that person's best-of-3
/// results: for every counted Multi-Blind best-of-3 result among the rows,
/// the person's entry has more points, or as many in no more time.
pub proof fn lemma_mean_is_best(db: IndexedDb, e: usize, k: int, n: int)
    requires
        db.wf(),
        0 <= k < n <= db.rows@.len(),
        mean_row(db, db.rows@[k], e),
        row_mean(db.rows@[k].attempts.unwrap()@) is Some,
    ensures
        mean_at_least(
            mean_table(db, e, n)[db.rows@[k].person as int],
            row_mean(db.rows@[k].attempts.unwrap()@).unwrap(),
        ),
{
    let r = db.rows@[k];
    assert(r.person < db.n_persons);
    lemma_mean_table_len(db, e, k);
    let t = mean_table(db, e, k);
    let m2 = row_mean(r.attempts.unwrap()@).unwrap();
    let p = r.person as int;
    if t[p] is None || m2.0 > t[p].unwrap().0 || (m2.0 == t[p].unwrap().0 && m2.1 < t[p].unwrap().1) {
        assert(mean_table(db, e, k + 1)[p] == Some((m2.0, m2.1, k as usize)));
    } else {
        assert(mean_table(db, e, k + 1) == t);
    }
    assert(mean_at_least(mean_table(db, e, k + 1)[p], m2));
    lemma_mean_table_keeps(db, e, k + 1, n, r.person as int, row_mean(r.attempts.unwrap()@).unwrap());
}

proof fn lemma_row_perfect_min(att: Seq<i32>, i: int)
    requires
        0 <= i < att.len(),
        decode_spec(att[i] as int) matches Some(d) && d.2 == 0,
    ensures
        row_perfect(att) matches Some(v) && v <= att[i],
    decreases att.len(),
{
    if i < att.len() - 1 {
        assert(att.drop_last()[i] == att[i]);
        lemma_row_perfect_min(att.drop_last(), i);
    }
}

proof fn lemma_row_solved_best(att: Seq<i32>, i: int)
    requires
        0 <= i < att.len(),
        decode_spec(att[i] as int) is Some,
    ensures
        row_solved(att) matches Some(b) && !solved_better(
            (decode_spec(att[i] as int).unwrap().3, decode_spec(att[i] as int).unwrap().1),
            (b.0, b.1),
        ),
    decreases att.len(),
{
    if i < att.len() - 1 {
        assert(att.drop_last()[i] == att[i]);
        lemma_row_solved_best(att.drop_last(), i);
    }
}

proof fn lemma_perfect_table_keeps(db: IndexedDb, e: usize, m: int, n: int, p: int, v: int)
    requires
        db.wf(),
        0 <= m <= n <= db.rows@.len(),
        0 <= p < db.n_persons,
        perfect_table(db, e, m)[p] matches Some(x) && x.0 <= v,
    ensures
        perfect_table(db, e, n)[p] matches Some(x) && x.0 <= v,
    decreases n,
{
    if n > m {
        lemma_perfect_table_keeps(db, e, m, n - 1, p, v);
        lemma_perfect_table_len(db, e, n - 1);
        let r = db.rows@[n - 1];
        assert(r.person < db.n_persons);
    }
}

proof fn lemma_perfect_table_len(db: IndexedDb, e: usize, n: int)
    requires
        db.wf(),
        n <= db.rows@.len(),
    ensures
        perfect_table(db, e, n).len() == db.n_persons,
    decreases n,
{
    if n > 0 {
        lemma_perfect_table_len(db, e, n - 1);
    }
}

proof fn lemma_solved_table_len(db: IndexedDb, e: usize, n: int)
    requires
        db.wf(),
        n <= db.rows@.len(),
    ensures
        solved_table(db, e, n).len() == db.n_persons,
    decreases n,
{
    if n > 0 {
        lemma_solved_table_len(db, e, n - 1);
    }
}

/// `x` holds an attempt at least as good as (solved, time) `b`.
pub open spec fn solved_at_least(x: Option<(u32, u32, u32, usize)>, b: (u32, u32)) -> bool {
    x matches Some(y) && (y.0 > b.0 || (y.0 == b.0 && y.1 <= b.1))
}

proof fn lemma_solved_table_keeps(db: IndexedDb, e: usize, m: int, n: int, p: int, b: (u32, u32))
    requires
        db.wf(),
        0 <= m <= n <= db.rows@.len(),
        0 <= p < db.n_persons,
        solved_at_least(solved_table(db, e, m)[p], b),
    ensures
        solved_at_least(solved_table(db, e, n)[p], b),
    decreases n,
{
    if n > m {
        lemma_solved_table_keeps(db, e, m, n - 1, p, b);
        lemma_solved_table_len(db, e, n - 1);
        let r = db.rows@[n - 1];
        assert(r.person < db.n_persons);
    }
}

/// The perfect ranking keeps each person's fastest perfect attempt: for every
/// attempt with nothing missed among the counted rows, the person's entry
/// is at least as fast.
pub proof fn lemma_perfect_is_fastest(db: IndexedDb, e: usize, k: int, n: int, i: int)
    requires
        db.wf(),
        0 <= k < n <= db.rows@.len(),
        counts_for(db.rows@[k], e),
        0 <= i < db.rows@[k].attempts.unwrap()@.len(),
        decode_spec(db.rows@[k].attempts.unwrap()@[i] as int) matches Some(d) && d.2 == 0,
    ensures
        perfect_table(db, e, n)[db.rows@[k].person as int] matches Some(x) && x.0 <= db.rows@[k].attempts.unwrap()@[i],
{
    let r = db.rows@[k];
    let att = r.attempts.unwrap()@;
    assert(r.person < db.n_persons);
    lemma_row_perfect_min(att, i);
    lemma_perfect_table_len(db, e, k);
    lemma_perfect_table_keeps(db, e, k + 1, n, r.person as int, att[i] as int);
}

/// The solved ranking keeps each person's best attempt by cubes solved, then
/// time: no decodable attempt among the counted rows beats the person's entry.
pub proof fn lemma_solved_is_best(db: IndexedDb, e: usize, k: int, n: int, i: int)
    requires
        db.wf(),
        0 <= k < n <= db.rows@.len(),
        counts_for(db.rows@[k], e),
        0 <= i < db.rows@[k].attempts.unwrap()@.len(),
        decode_spec(db.rows@[k].attempts.unwrap()@[i] as int) is Some,
    ensures
        ({
            let d = decode_spec(db.rows@[k].attempts.unwrap()@[i] as int).unwrap();
            solved_at_least(solved_table(db, e, n)[db.rows@[k].person as int], (d.3, d.1))
        }),
{
    let r = db.rows@[k];
    let att = r.attempts.unwrap()@;
    let d = decode_spec(att[i] as int).unwrap();
    assert(r.person < db.n_persons);
    lemma_row_solved_best(att, i);
    lemma_solved_table_len(db, e, k);
    assert(solved_at_least(solved_table(db, e, k + 1)[r.person as int], (d.3, d.1)));
    lemma_solved_table_keeps(db, e, k + 1, n, r.person as int, (d.3, d.1));
}

/// One row of the perfect or solved ranking.
pub struct SingleEntry {
    pub rank: usize,
    pub person_id: String,
    pub person_name: String,
    pub country_id: String,
    pub competition_id: String,
    pub solved: u32,
    pub attempted: u32,
    pub time_s: u32,
}

/// One row of the mean ranking.
pub struct MeanEntry {
    pub rank: usize,
    pub person_id: String,
    pub person_name: String,
    pub country_id: String,
    pub competition_id: String,
    /// Sum of points across 3 attempts; mean = points_sum / 3.
    pub points_sum: i32,
    pub time_total_s: u32,
}

/// The three rankings of one Multi-Blind event.
pub struct MbldRankings {
    pub event: usize,
    pub perfect: Vec<SingleEntry>,
    pub solved: Vec<SingleEntry>,
    pub mean: Vec<MeanEntry>,
}

/// End date (`yyyymmdd`) of the competition of row `k`.
pub open spec fn row_end_date(db: IndexedDb, k: int) -> int {
    match db.comps@[db.rows@[k].comp as int] {
        Some(c) => c.end_year as int * 10_000 + c.end_month as int * 100 + c.end_day as int,
        None => u32::MAX as int,
    }
}

/// Sort keys of a table's present entries, in person order: the ranking
/// fields, then the end date of the row, then the person.
pub open spec fn table_keys<T>(tab: Seq<Option<T>>, key: spec_fn(T) -> (i64, i64, i64), n: int) -> Seq<SortKey>
    decreases n,
{
    if n <= 0 {
        Seq::empty()
    } else {
        let prev = table_keys(tab, key, n - 1);
        match tab[n - 1] {
            Some(x) => prev.push((key(x).0, key(x).1, key(x).2, (n - 1) as i64, (n - 1) as usize)),
            None => prev,
        }
    }
}

/// The name shown for person `p` whose entry comes from row `k`.
pub open spec fn shown_name(db: IndexedDb, p: int, k: int) -> Seq<char> {
    match db.person_names@[p] {
        Some(n) => n@,
        None => db.rows@[k].person_name@,
    }
}

/// Entry `en` describes person `p` with the record from row `k`.
pub open spec fn entry_person(db: IndexedDb, p: int, k: int, person_id: String, person_name: String, country_id: String, competition_id: String) -> bool {
    &&& person_id@ == db.person_ids@[p]@
    &&& person_name@ == shown_name(db, p, k)
    &&& country_id@ == db.country_ids@[db.rows@[k].country as int]@
    &&& competition_id@ == db.comp_ids@[db.rows@[k].comp as int]@
}

pub open spec fn perfect_key(db: IndexedDb) -> spec_fn((i32, usize)) -> (i64, i64, i64) {
    |x: (i32, usize)| (x.0 as i64, 0i64, row_end_date(db, x.1 as int) as i64)
}

pub open spec fn solved_key(db: IndexedDb) -> spec_fn((u32, u32, u32, usize)) -> (i64, i64, i64) {
    |x: (u32, u32, u32, usize)| ((-(x.0 as int)) as i64, x.1 as i64, row_end_date(db, x.3 as int) as i64)
}

pub open spec fn mean_key(db: IndexedDb) -> spec_fn((i32, u32, usize)) -> (i64, i64, i64) {
    |x: (i32, u32, usize)| ((-(x.0 as int)) as i64, x.1 as i64, row_end_date(db, x.2 as int) as i64)
}

/// The perfect ranking lists the persons of `tab` in ranked order.
pub open spec fn perfect_ok(db: IndexedDb, tab: Seq<Option<(i32, usize)>>, out: Seq<SingleEntry>) -> bool {
    exists|ranked: Seq<(usize, usize)>, sk: Seq<SortKey>| {
        &&& is_sorted_perm(table_keys(tab, perfect_key(db), tab.len() as int), sk)
        &&& #[trigger] ranked_prefix(ranked, sk, 1)
        &&& out.len() == ranked.len()
        &&& forall|i: int| 0 <= i < out.len() ==> {
            let en = #[trigger] out[i];
            let p = ranked[i].1 as int;
            let slot = tab[p].unwrap();
            let d = decode_spec(slot.0 as int).unwrap();
            &&& tab[p] is Some
            &&& en.rank == ranked[i].0
            &&& entry_person(db, p, slot.1 as int, en.person_id, en.person_name, en.country_id, en.competition_id)
            &&& en.solved == d.3 && en.attempted == d.4 && en.time_s == d.1
        }
    }
}

pub open spec fn solved_ok(db: IndexedDb, tab: Seq<Option<(u32, u32, u32, usize)>>, out: Seq<SingleEntry>) -> bool {
    exists|ranked: Seq<(usize, usize)>, sk: Seq<SortKey>| {
        &&& is_sorted_perm(table_keys(tab, solved_key(db), tab.len() as int), sk)
        &&& #[trigger] ranked_prefix(ranked, sk, 2)
        &&& out.len() == ranked.len()
        &&& forall|i: int| 0 <= i < out.len() ==> {
            let en = #[trigger] out[i];
            let p = ranked[i].1 as int;
            let slot = tab[p].unwrap();
            &&& tab[p] is Some
            &&& en.rank == ranked[i].0
            &&& entry_person(db, p, slot.3 as int, en.person_id, en.person_name, en.country_id, en.competition_id)
            &&& en.solved == slot.0 && en.time_s == slot.1 && en.attempted == slot.2
        }
    }
}

pub open spec fn mean_ok(db: IndexedDb, tab: Seq<Option<(i32, u32, usize)>>, out: Seq<MeanEntry>) -> bool {
    exists|ranked: Seq<(usize, usize)>, sk: Seq<SortKey>| {
        &&& is_sorted_perm(table_keys(tab, mean_key(db), tab.len() as int), sk)
        &&& #[trigger] ranked_prefix(ranked, sk, 2)
        &&& out.len() == ranked.len()
        &&& forall|i: int| 0 <= i < out.len() ==> {
            let en = #[trigger] out[i];
            let p = ranked[i].1 as int;
            let slot = tab[p].unwrap();
            &&& tab[p] is Some
            &&& en.rank == ranked[i].0
            &&& entry_person(db, p, slot.2 as int, en.person_id, en.person_name, en.country_id, en.competition_id)
            &&& en.points_sum == slot.0 && en.time_total_s == slot.1
        }
    }
}

/// The Multi-Blind rankings of event `e` (whose id is "333mbf" or "333mbo").
pub fn mbld_rankings(db: &IndexedDb, e: usize) -> (r: MbldRankings)
    requires
        db.wf(),
        e < db.events@.len(),
        db.n_persons < 0x1000_0000,
    ensures
        r.event == e,
        perfect_ok(*db, perfect_table(*db, e, db.rows@.len() as int), r.perfect@),
        solved_ok(*db, solved_table(*db, e, db.rows@.len() as int), r.solved@),
        mean_ok(*db, mean_table(*db, e, db.rows@.len() as int), r.mean@),
{
    let np = db.n_persons;
    let is_mbf = str_is(&db.events[e], "333mbf");
    let mut perfect: Vec<Option<(i32, usize)>> = Vec::new();
    let mut solved: Vec<Option<(u32, u32, u32, usize)>> = Vec::new();
    let mut mean: Vec<Option<(i32, u32, usize)>> = Vec::new();
    let mut p: usize = 0;
    while p < np
        invariant
            p <= np,
            np == db.n_persons,
            perfect@.len() == p && solved@.len() == p && mean@.len() == p,
            forall|q: int| 0 <= q < p ==> perfect@[q] is None && solved@[q] is None && mean@[q] is None,
        decreases np - p,
    {
        perfect.push(None);
        solved.push(None);
        mean.push(None);
        p = p + 1;
    }
    proof {
        assert(perfect@ =~= perfect_table(*db, e, 0));
        assert(solved@ =~= solved_table(*db, e, 0));
        assert(mean@ =~= mean_table(*db, e, 0));
    }
    let mut k: usize = 0;
    while k < db.rows.len()
        invariant
            db.wf(),
            np == db.n_persons,
            e < db.events@.len(),
            k <= db.rows@.len(),
            is_mbf == (db.events@[e as int]@ == "333mbf"@),
            perfect@ == perfect_table(*db, e, k as int),
            solved@ == solved_table(*db, e, k as int),
            mean@ == mean_table(*db, e, k as int),
            perfect@.len() == np && solved@.len() == np && mean@.len() == np,
        decreases db.rows@.len() - k,
    {
        let r = &db.rows[k];
        proof {
            lemma_table_len(*db, e, k as int);
        }
        if r.event == e {
            if let Some(att) = &r.attempts {
                let p = r.person;
                if let Some(v) = best_perfect(att) {
                    let better = match perfect[p] {
                        None => true,
                        Some(old) => v < old.0,
                    };
                    if better {
                        perfect.set(p, Some((v, k)));
                    }
                }
                if let Some(b) = best_solved(att) {
                    let better = match solved[p] {
                        None => true,
                        Some(old) => b.0 > old.0 || (b.0 == old.0 && b.1 < old.1),
                    };
                    if better {
                        solved.set(p, Some((b.0, b.1, b.2, k)));
                    }
                }
                if is_mbf && str_is(&db.formats[r.format], "3") {
                    if let Some(m) = mean_of(att) {
                        let better = match mean[p] {
                            None => true,
                            Some(old) => m.0 > old.0 || (m.0 == old.0 && m.1 < old.1),
                        };
                        if better {
                            mean.set(p, Some((m.0, m.1, k)));
                        }
                    }
                }
            }
        }
        k = k + 1;
    }
    proof {
        lemma_table_len(*db, e, db.rows@.len() as int);
        lemma_table_values(*db, e, db.rows@.len() as int);
    }
    let perfect_out = perfect_entries(db, &perfect);
    let solved_out = solved_entries(db, &solved);
    let mean_out = mean_entries(db, &mean);
    MbldRankings { event: e, perfect: perfect_out, solved: solved_out, mean: mean_out }
}

/// Keys built from a table name present entries only, each with its own person.
pub proof fn lemma_table_keys<T>(tab: Seq<Option<T>>, key: spec_fn(T) -> (i64, i64, i64), n: int)
    requires
        0 <= n <= tab.len(),
        tab.len() < 0x1000_0000,
    ensures
        forall|j: int| 0 <= j < table_keys(tab, key, n).len() ==> {
            let k = #[trigger] table_keys(tab, key, n)[j];
            &&& (k.4 as int) < n
            &&& tab[k.4 as int] is Some
            &&& k.3 as int == k.4 as int
            &&& (k.0, k.1, k.2) == key(tab[k.4 as int].unwrap())
        },
    decreases n,
{
    if n > 0 {
        lemma_table_keys(tab, key, n - 1);
        let prev = table_keys(tab, key, n - 1);
        let cur = table_keys(tab, key, n);
        assert forall|j: int| 0 <= j < cur.len() implies {
            let k = #[trigger] cur[j];
            &&& (k.4 as int) < n
            &&& tab[k.4 as int] is Some
            &&& k.3 as int == k.4 as int
            &&& (k.0, k.1, k.2) == key(tab[k.4 as int].unwrap())
        } by {
            if j < prev.len() {
                assert(cur[j] == prev[j]);
            }
        }
    }
}

proof fn lemma_row_perfect(att: Seq<i32>)
    ensures
        row_perfect(att) matches Some(v) ==> decode_spec(v as int) is Some,
    decreases att.len(),
{
    if att.len() > 0 {
        lemma_row_perfect(att.drop_last());
    }
}

/// Every perfect best decodes.
proof fn lemma_table_values(db: IndexedDb, e: usize, n: int)
    requires
        0 <= n <= db.rows@.len(),
        db.wf(),
    ensures
        forall|p: int| 0 <= p < db.n_persons ==> (#[trigger] perfect_table(db, e, n)[p] matches Some(x) ==> decode_spec(x.0 as int) is Some),
    decreases n,
{
    lemma_table_len(db, e, n);
    if n > 0 {
        lemma_table_values(db, e, n - 1);
        lemma_table_len(db, e, n - 1);
        let r = db.rows@[n - 1];
        if counts_for(r, e) {
            lemma_row_perfect(r.attempts.unwrap()@);
        }
        let t0 = perfect_table(db, e, n - 1);
        let t1 = perfect_table(db, e, n);
        assert forall|p: int| 0 <= p < db.n_persons implies (#[trigger] t1[p] matches Some(x) ==> decode_spec(x.0 as int) is Some) by {
            if p != r.person {
                assert(t1[p] == t0[p]);
            }
        }
    }
}

fn key_end_date(db: &IndexedDb, k: usize) -> (d: u32)
    requires
        db.wf(),
        k < db.rows@.len(),
    ensures
        d as int == row_end_date(*db, k as int),
{
    end_date(db.comps[db.rows[k].comp].as_ref())
}

fn shown_name_of(db: &IndexedDb, p: usize, k: usize) -> (s: String)
    requires
        db.wf(),
        p < db.n_persons,
        k < db.rows@.len(),
    ensures
        s@ == shown_name(*db, p as int, k as int),
{
    match &db.person_names[p] {
        Some(n) => n.clone(),
        None => db.rows[k].person_name.clone(),
    }
}

fn perfect_entries(db: &IndexedDb, tab: &Vec<Option<(i32, usize)>>) -> (out: Vec<SingleEntry>)
    requires
        db.wf(),
        db.n_persons < 0x1000_0000,
        tab@.len() == db.n_persons,
        forall|u: int| 0 <= u < tab@.len() ==> (#[trigger] tab@[u] matches Some(x) ==> x.1 < db.rows@.len() && decode_spec(x.0 as int) is Some),
    ensures
        perfect_ok(*db, tab@, out@),
{
    let np = tab.len();
    let mut keys: Vec<SortKey> = Vec::new();
    let mut q: usize = 0;
    while q < np
        invariant
            db.wf(),
            np == tab@.len(),
            np < 0x1000_0000,
            q <= np,
            forall|u: int| 0 <= u < tab@.len() ==> (#[trigger] tab@[u] matches Some(x) ==> x.1 < db.rows@.len()),
            keys@ == table_keys(tab@, perfect_key(*db), q as int),
        decreases np - q,
    {
        if let Some(x) = tab[q] {
            let ed = key_end_date(db, x.1);
            keys.push((x.0 as i64, 0, ed as i64, q as i64, q));
        }
        q = q + 1;
    }
    let ranked = rank_keys(&keys, 1);
    let ghost sk = choose|sk: Seq<SortKey>| #[trigger] is_sorted_perm(keys@, sk) && ranked_prefix(ranked@, sk, 1);
    proof {
        crate::search::lemma_perm_members(keys@, sk);
        lemma_table_keys(tab@, perfect_key(*db), np as int);
        crate::ranking::lemma_ranked_len(ranked@, sk, 1);
    }
    let mut out: Vec<SingleEntry> = Vec::new();
    let mut i: usize = 0;
    while i < ranked.len()
        invariant
            db.wf(),
            np == tab@.len(),
            ranked@.len() <= sk.len(),
            sk.len() == keys@.len(),
            keys@ == table_keys(tab@, perfect_key(*db), np as int),
            forall|j: int| 0 <= j < sk.len() ==> keys@.contains(#[trigger] sk[j]),
            forall|j: int| 0 <= j < ranked@.len() ==> (#[trigger] ranked@[j]).1 == sk[j].4,
            forall|u: int| 0 <= u < tab@.len() ==> (#[trigger] tab@[u] matches Some(x) ==> x.1 < db.rows@.len() && decode_spec(x.0 as int) is Some),
            i <= ranked@.len(),
            out@.len() == i,
            forall|j: int| 0 <= j < i ==> {
                let en = #[trigger] out@[j];
                let p = ranked@[j].1 as int;
                let slot = tab@[p].unwrap();
                let d = decode_spec(slot.0 as int).unwrap();
                &&& tab@[p] is Some
                &&& en.rank == ranked@[j].0
                &&& entry_person(*db, p, slot.1 as int, en.person_id, en.person_name, en.country_id, en.competition_id)
                &&& en.solved == d.3 && en.attempted == d.4 && en.time_s == d.1
            },
            np < 0x1000_0000,
            tab@.len() == db.n_persons,
        decreases ranked@.len() - i,
    {
        let (rank, p) = ranked[i];
        proof {
            let kj = choose|kj: int| 0 <= kj < keys@.len() && keys@[kj] == sk[i as int];
            lemma_table_keys(tab@, perfect_key(*db), np as int);
            assert(table_keys(tab@, perfect_key(*db), np as int)[kj] == sk[i as int]);
        }
        let slot = tab[p].unwrap();
        let d = decode(slot.0).unwrap();
        let row = &db.rows[slot.1];
        out.push(SingleEntry {
            rank,
            person_id: db.person_ids[p].clone(),
            person_name: shown_name_of(db, p, slot.1),
            country_id: db.country_ids[row.country].clone(),
            competition_id: db.comp_ids[row.comp].clone(),
            solved: d.3,
            attempted: d.4,
            time_s: d.1,
        });
        i = i + 1;
    }
    proof {
        assert(is_sorted_perm(table_keys(tab@, perfect_key(*db), tab@.len() as int), sk));
    }
    out
}

fn solved_entries(db: &IndexedDb, tab: &Vec<Option<(u32, u32, u32, usize)>>) -> (out: Vec<SingleEntry>)
    requires
        db.wf(),
        db.n_persons < 0x1000_0000,
        tab@.len() == db.n_persons,
        forall|u: int| 0 <= u < tab@.len() ==> (#[trigger] tab@[u] matches Some(x) ==> x.3 < db.rows@.len()),
    ensures
        solved_ok(*db, tab@, out@),
{
    let np = tab.len();
    let mut keys: Vec<SortKey> = Vec::new();
    let mut q: usize = 0;
    while q < np
        invariant
            db.wf(),
            np == tab@.len(),
            np < 0x1000_0000,
            q <= np,
            forall|u: int| 0 <= u < tab@.len() ==> (#[trigger] tab@[u] matches Some(x) ==> x.3 < db.rows@.len()),
            keys@ == table_keys(tab@, solved_key(*db), q as int),
        decreases np - q,
    {
        if let Some(x) = tab[q] {
            let ed = key_end_date(db, x.3);
            keys.push((-(x.0 as i64), x.1 as i64, ed as i64, q as i64, q));
        }
        q = q + 1;
    }
    let ranked = rank_keys(&keys, 2);
    let ghost sk = choose|sk: Seq<SortKey>| #[trigger] is_sorted_perm(keys@, sk) && ranked_prefix(ranked@, sk, 2);
    proof {
        crate::search::lemma_perm_members(keys@, sk);
        lemma_table_keys(tab@, solved_key(*db), np as int);
        crate::ranking::lemma_ranked_len(ranked@, sk, 2);
    }
    let mut out: Vec<SingleEntry> = Vec::new();
    let mut i: usize = 0;
    while i < ranked.len()
        invariant
            db.wf(),
            np == tab@.len(),
            ranked@.len() <= sk.len(),
            sk.len() == keys@.len(),
            keys@ == table_keys(tab@, solved_key(*db), np as int),
            forall|j: int| 0 <= j < sk.len() ==> keys@.contains(#[trigger] sk[j]),
            forall|j: int| 0 <= j < ranked@.len() ==> (#[trigger] ranked@[j]).1 == sk[j].4,
            forall|u: int| 0 <= u < tab@.len() ==> (#[trigger] tab@[u] matches Some(x) ==> x.3 < db.rows@.len()),
            i <= ranked@.len(),
            out@.len() == i,
            forall|j: int| 0 <= j < i ==> {
                let en = #[trigger] out@[j];
                let p = ranked@[j].1 as int;
                let slot = tab@[p].unwrap();
                &&& tab@[p] is Some
                &&& en.rank == ranked@[j].0
                &&& entry_person(*db, p, slot.3 as int, en.person_id, en.person_name, en.country_id, en.competition_id)
                &&& en.solved == slot.0 && en.time_s == slot.1 && en.attempted == slot.2
            },
            np < 0x1000_0000,
            tab@.len() == db.n_persons,
        decreases ranked@.len() - i,
    {
        let (rank, p) = ranked[i];
        proof {
            let kj = choose|kj: int| 0 <= kj < keys@.len() && keys@[kj] == sk[i as int];
            lemma_table_keys(tab@, solved_key(*db), np as int);
            assert(table_keys(tab@, solved_key(*db), np as int)[kj] == sk[i as int]);
        }
        let slot = tab[p].unwrap();
        let row = &db.rows[slot.3];
        out.push(SingleEntry {
            rank,
            person_id: db.person_ids[p].clone(),
            person_name: shown_name_of(db, p, slot.3),
            country_id: db.country_ids[row.country].clone(),
            competition_id: db.comp_ids[row.comp].clone(),
            solved: slot.0,
            attempted: slot.2,
            time_s: slot.1,
        });
        i = i + 1;
    }
    proof {
        assert(is_sorted_perm(table_keys(tab@, solved_key(*db), tab@.len() as int), sk));
    }
    out
}

fn mean_entries(db: &IndexedDb, tab: &Vec<Option<(i32, u32, usize)>>) -> (out: Vec<MeanEntry>)
    requires
        db.wf(),
        db.n_persons < 0x1000_0000,
        tab@.len() == db.n_persons,
        forall|u: int| 0 <= u < tab@.len() ==> (#[trigger] tab@[u] matches Some(x) ==> x.2 < db.rows@.len()),
    ensures
        mean_ok(*db, tab@, out@),
{
    let np = tab.len();
    let mut keys: Vec<SortKey> = Vec::new();
    let mut q: usize = 0;
    while q < np
        invariant
            db.wf(),
            np == tab@.len(),
            np < 0x1000_0000,
            q <= np,
            forall|u: int| 0 <= u < tab@.len() ==> (#[trigger] tab@[u] matches Some(x) ==> x.2 < db.rows@.len()),
            keys@ == table_keys(tab@, mean_key(*db), q as int),
        decreases np - q,
    {
        if let Some(x) = tab[q] {
            let ed = key_end_date(db, x.2);
            keys.push((-(x.0 as i64), x.1 as i64, ed as i64, q as i64, q));
        }
        q = q + 1;
    }
    let ranked = rank_keys(&keys, 2);
    let ghost sk = choose|sk: Seq<SortKey>| #[trigger] is_sorted_perm(keys@, sk) && ranked_prefix(ranked@, sk, 2);
    proof {
        crate::search::lemma_perm_members(keys@, sk);
        lemma_table_keys(tab@, mean_key(*db), np as int);
        crate::ranking::lemma_ranked_len(ranked@, sk, 2);
    }
    let mut out: Vec<MeanEntry> = Vec::new();
    let mut i: usize = 0;
    while i < ranked.len()
        invariant
            db.wf(),
            np == tab@.len(),
            ranked@.len() <= sk.len(),
            sk.len() == keys@.len(),
            keys@ == table_keys(tab@, mean_key(*db), np as int),
            forall|j: int| 0 <= j < sk.len() ==> keys@.contains(#[trigger] sk[j]),
            forall|j: int| 0 <= j < ranked@.len() ==> (#[trigger] ranked@[j]).1 == sk[j].4,
            forall|u: int| 0 <= u < tab@.len() ==> (#[trigger] tab@[u] matches Some(x) ==> x.2 < db.rows@.len()),
            i <= ranked@.len(),
            out@.len() == i,
            forall|j: int| 0 <= j < i ==> {
                let en = #[trigger] out@[j];
                let p = ranked@[j].1 as int;
                let slot = tab@[p].unwrap();
                &&& tab@[p] is Some
                &&& en.rank == ranked@[j].0
                &&& entry_person(*db, p, slot.2 as int, en.person_id, en.person_name, en.country_id, en.competition_id)
                &&& en.points_sum == slot.0 && en.time_total_s == slot.1
            },
            np < 0x1000_0000,
            tab@.len() == db.n_persons,
        decreases ranked@.len() - i,
    {
        let (rank, p) = ranked[i];
        proof {
            let kj = choose|kj: int| 0 <= kj < keys@.len() && keys@[kj] == sk[i as int];
            lemma_table_keys(tab@, mean_key(*db), np as int);
            assert(table_keys(tab@, mean_key(*db), np as int)[kj] == sk[i as int]);
        }
        let slot = tab[p].unwrap();
        let row = &db.rows[slot.2];
        out.push(MeanEntry {
            rank,
            person_id: db.person_ids[p].clone(),
            person_name: shown_name_of(db, p, slot.2),
            country_id: db.country_ids[row.country].clone(),
            competition_id: db.comp_ids[row.comp].clone(),
            points_sum: slot.0,
            time_total_s: slot.1,
        });
        i = i + 1;
    }
    proof {
        assert(is_sorted_perm(table_keys(tab@, mean_key(*db), tab@.len() as int), sk));
    }
    out
}

proof fn lemma_table_len(db: IndexedDb, e: usize, n: int)
    requires
        0 <= n <= db.rows@.len(),
        db.wf(),
    ensures
        perfect_table(db, e, n).len() == db.n_persons,
        solved_table(db, e, n).len() == db.n_persons,
        mean_table(db, e, n).len() == db.n_persons,
        forall|p: int| 0 <= p < db.n_persons ==> (#[trigger] perfect_table(db, e, n)[p] matches Some(x) ==> x.1 < n),
        forall|p: int| 0 <= p < db.n_persons ==> (#[trigger] solved_table(db, e, n)[p] matches Some(x) ==> x.3 < n),
        forall|p: int| 0 <= p < db.n_persons ==> (#[trigger] mean_table(db, e, n)[p] matches Some(x) ==> x.2 < n),
    decreases n,
{
    if n > 0 {
        lemma_table_len(db, e, n - 1);
    }
}

} // verus!
