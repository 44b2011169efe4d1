//! Half-life of world records: sampled weekly, the median number of days
//! until the records standing on that day were broken.
use vstd::prelude::*;
use crate::progression::{improves, progression};
use crate::wr_cross_rank::{value_at, value_in_force, date_text};
use crate::nth_solve::{sorted_of, lemma_sorted_unique};
use crate::sort::{ascending, sort_values};
use crate::dates::jdn_to_iso;
use crate::index::{IndexedDb, Row, start_day, str_is, comp_start_days};

verus! {

/// Day `d` is a day on which a row of `records` set a record.
pub open spec fn is_record_day(records: Seq<(i32, i32)>, d: int) -> bool {
    exists|k: int| #[trigger] improves(records, k) && records[k].0 == d
}

/// Some spell of the timeline starts on day `d`.
pub open spec fn starts_on(tl: Seq<(i32, i32)>, d: int) -> bool {
    exists|t: int| 0 <= t < tl.len() && #[trigger] tl[t].0 == d
}

/// Each spell ends where the next begins; the last is still standing
/// (`i32::MAX`).
pub open spec fn closes(tl: Seq<(i32, i32)>) -> bool {
    forall|t: int|
        0 <= t < tl.len() ==> #[trigger] tl[t].1 == if t + 1 < tl.len() {
            tl[t + 1].0
        } else {
            i32::MAX
        }
}

/// `tl` is the record timeline of `records`: one spell (day set, day broken)
/// per record-setting day, in day order.
pub open spec fn is_timeline_of(records: Seq<(i32, i32)>, tl: Seq<(i32, i32)>) -> bool {
    &&& forall|a: int, b: int| 0 <= a < b < tl.len() ==> tl[a].0 < tl[b].0
    &&& forall|t: int| 0 <= t < tl.len() ==> is_record_day(records, #[trigger] tl[t].0 as int)
    &&& forall|k: int| improves(records, k) ==> starts_on(tl, #[trigger] records[k].0 as int)
    &&& closes(tl)
}

/// The record timeline of (day, value) rows, lower values being better.
pub fn wr_timeline(records: &Vec<(i32, i32)>) -> (tl: Vec<(i32, i32)>)
    ensures
        is_timeline_of(records@, tl@),
{
    let idx = progression(records);
    let mut tl: Vec<(i32, i32)> = Vec::new();
    let mut t: usize = 0;
    while t < idx.len()
        invariant
            t <= idx@.len(),
            tl@.len() == t,
            forall|u: int| 0 <= u < idx@.len() ==> improves(records@, #[trigger] idx@[u] as int),
            forall|a: int, b: int|
                0 <= a < b < idx@.len() ==> records@[idx@[a] as int].0 < records@[idx@[b] as int].0,
            forall|u: int| 0 <= u < t ==> #[trigger] tl@[u].0 == records@[idx@[u] as int].0,
            forall|u: int| 0 <= u < t ==> #[trigger] tl@[u].1 == if u + 1 < idx@.len() {
                records@[idx@[u + 1] as int].0
            } else {
                i32::MAX
            },
        decreases idx.len() - t,
    {
        let day = records[idx[t]].0;
        let broken = if t + 1 < idx.len() { records[idx[t + 1]].0 } else { i32::MAX };
        tl.push((day, broken));
        t = t + 1;
    }
    let n = records.len();
    proof {
        assert forall|u: int| 0 <= u < tl@.len() implies is_record_day(records@, #[trigger] tl@[u].0 as int) by {
            assert(improves(records@, idx@[u] as int));
        }
        assert forall|k: int| improves(records@, k) implies starts_on(tl@, #[trigger] records@[k].0 as int) by {
            assert(k < n);
            assert(idx@.contains(k as usize));
            let u = choose|u: int| 0 <= u < idx@.len() && idx@[u] == k as usize;
            assert(idx@[u] as int == k);
            assert(tl@[u].0 == records@[k].0);
        }
        assert forall|u: int| 0 <= u < tl@.len() implies #[trigger] tl@[u].1 == if u + 1 < tl@.len() {
            tl@[u + 1].0
        } else {
            i32::MAX
        } by {
            if u + 1 < tl@.len() {
                assert(tl@[u + 1].0 == records@[idx@[u + 1] as int].0);
            }
        }
    }
    tl
}

/// Days from `d` until the record standing on day `d` was broken (`i32::MAX`
/// while it still stands); `None` before the first record.
pub open spec fn remaining_days(tl: Seq<(i32, i32)>, d: int) -> Option<i32> {
    match value_in_force(tl, d, tl.len() as int) {
        Some(b) => Some(if b == i32::MAX { i32::MAX } else { (b - d) as i32 }),
        None => None,
    }
}

/// The remaining days on day `d` of each of the first `n` timelines that had
/// a record by then, in timeline order.
pub open spec fn remaining_at(tls: Seq<Vec<(i32, i32)>>, d: int, n: int) -> Seq<i32>
    decreases n,
{
    if n <= 0 {
        Seq::empty()
    } else {
        let prev = remaining_at(tls, d, n - 1);
        match remaining_days(tls[n - 1]@, d) {
            Some(r) => prev.push(r),
            None => prev,
        }
    }
}

/// The lower median: the element at position `(len - 1) / 2` of the ascending
/// arrangement.
pub open spec fn median_low(s: Seq<i32>) -> i32 {
    sorted_of(s)[(s.len() - 1) / 2]
}

/// The weekly series from day `d` through `last` as (day, half-life in days,
/// records standing, as a `u32`), keeping the days on which some record stood and the
/// median one has since been broken.
pub open spec fn series(tls: Seq<Vec<(i32, i32)>>, d: int, last: int) -> Seq<(int, i32, u32)>
    decreases last - d + 7,
{
    if d > last {
        Seq::empty()
    } else {
        let rem = remaining_at(tls, d, tls.len() as int);
        let rest = series(tls, d + 7, last);
        if rem.len() > 0 && median_low(rem) != i32::MAX {
            seq![(d, median_low(rem), rem.len() as u32)] + rest
        } else {
            rest
        }
    }
}

/// One sample of the half-life series.
pub struct HalfLifePoint {
    pub day: i32,
    /// `day` as `YYYY-MM-DD`.
    pub date: String,
    /// Median days until the standing records were broken.
    pub half_life: i32,
    /// Number of records standing on `day` (as a `u32`, wrapping).
    pub n_wr: u32,
}

pub open spec fn point_view(p: HalfLifePoint) -> (int, i32, u32) {
    (p.day as int, p.half_life, p.n_wr)
}

pub open spec fn views(ps: Seq<HalfLifePoint>) -> Seq<(int, i32, u32)> {
    Seq::new(ps.len(), |i: int| point_view(ps[i]))
}

/// A closed timeline in day order, its days within the calendar range used
/// throughout.
pub open spec fn timeline_ok(tl: Seq<(i32, i32)>) -> bool {
    &&& forall|a: int, b: int| 0 <= a < b < tl.len() ==> tl[a].0 < tl[b].0
    &&& closes(tl)
    &&& forall|t: int| 0 <= t < tl.len() ==> 0 <= #[trigger] tl[t].0 <= 30_000_000
}

proof fn lemma_in_force_entry(tl: Seq<(i32, i32)>, d: int, n: int)
    requires
        n <= tl.len(),
    ensures
        value_in_force(tl, d, n) matches Some(b) ==> exists|k: int| 0 <= k < n && #[trigger] tl[k].1 == b,
    decreases n,
{
    if n > 0 && tl[n - 1].0 > d {
        lemma_in_force_entry(tl, d, n - 1);
    }
}

/// Samples the timelines every seven days from `first_day` through `last_day`.
pub fn half_life_points(tls: &Vec<Vec<(i32, i32)>>, first_day: i32, last_day: i32) -> (out: Vec<HalfLifePoint>)
    requires
        forall|i: int| 0 <= i < tls@.len() ==> timeline_ok(#[trigger] tls@[i]@),
        0 <= first_day,
        last_day <= 30_000_000,
    ensures
        views(out@) == series(tls@, first_day as int, last_day as int),
        forall|i: int| 0 <= i < out@.len() ==> (#[trigger] out@[i]).date@ == date_text(out@[i].day as int),
{
    let mut out: Vec<HalfLifePoint> = Vec::new();
    let mut d: i32 = first_day;
    while d <= last_day
        invariant
            forall|i: int| 0 <= i < tls@.len() ==> timeline_ok(#[trigger] tls@[i]@),
            0 <= first_day <= d,
            last_day <= 30_000_000,
            d <= last_day + 7 || d == first_day,
            views(out@) + series(tls@, d as int, last_day as int) == series(tls@, first_day as int, last_day as int),
            forall|i: int| 0 <= i < out@.len() ==> (#[trigger] out@[i]).date@ == date_text(out@[i].day as int),
        decreases last_day - d + 7,
    {
        let mut remaining: Vec<i32> = Vec::new();
        let mut i: usize = 0;
        while i < tls.len()
            invariant
                forall|j: int| 0 <= j < tls@.len() ==> timeline_ok(#[trigger] tls@[j]@),
                0 <= d <= 30_000_000,
                i <= tls@.len(),
                remaining@ == remaining_at(tls@, d as int, i as int),
            decreases tls.len() - i,
        {
            let tl = &tls[i];
            assert(timeline_ok(tls@[i as int]@));
            proof {
                lemma_in_force_entry(tl@, d as int, tl@.len() as int);
            }
            match value_at(tl, d) {
                Some(b) => {
                    if b == i32::MAX {
                        remaining.push(i32::MAX);
                    } else {
                        proof {
                            let k = choose|k: int| 0 <= k < tl@.len() && #[trigger] tl@[k].1 == b;
                            if k + 1 < tl@.len() {
                                assert(tl@[k + 1].0 <= 30_000_000);
                            }
                        }
                        remaining.push(b - d);
                    }
                },
                None => {},
            }
            i = i + 1;
        }
        let n = remaining.len();
        if n > 0 {
            let sorted = sort_values(&remaining);
            proof {
                assert(ascending(sorted@) && sorted@.to_multiset() == remaining@.to_multiset());
                lemma_sorted_unique(sorted_of(remaining@), sorted@);
            }
            let hl = sorted[(n - 1) / 2];
            let n_wr = #[verifier::truncate] (n as u32);
            if hl != i32::MAX {
                let date = jdn_to_iso(d);
                let ghost before = out@;
                out.push(HalfLifePoint { day: d, date, half_life: hl, n_wr });
                proof {
                    assert(views(out@) =~= views(before).push(point_view(out@.last())));
                    assert(views(out@) + series(tls@, d + 7, last_day as int) =~= views(before) + series(
                        tls@,
                        d as int,
                        last_day as int,
                    ));
                }
            }
        }
        d = d + 7;
    }
    proof {
        assert(views(out@) + series(tls@, d as int, last_day as int) =~= views(out@));
    }
    out
}

/// The (day, value) of row `r`'s single (or average, for `avg`) where it is a
/// world record with a positive value at a competition of known date.
pub open spec fn wr_entry(db: IndexedDb, r: Row, avg: bool) -> Option<(i32, i32)> {
    let label = if avg { r.average_record } else { r.single_record };
    let value = if avg { r.average } else { r.best };
    match label {
        Some(l) => if db.labels@[l as int]@ == "WR"@ && value > 0 && start_day(db, r.comp as int) is Some {
            Some((start_day(db, r.comp as int).unwrap(), value))
        } else {
            None
        },
        None => None,
    }
}

/// The world-record entries of event `e` among the first `n` rows, in row
/// order.
pub open spec fn wr_rows(db: IndexedDb, e: int, avg: bool, n: int) -> Seq<(i32, i32)>
    decreases n,
{
    if n <= 0 {
        Seq::empty()
    } else {
        let prev = wr_rows(db, e, avg, n - 1);
        let r = db.rows@[n - 1];
        if r.event == e && wr_entry(db, r, avg) is Some {
            prev.push(wr_entry(db, r, avg).unwrap())
        } else {
            prev
        }
    }
}

/// The world-record entries of event `e`, singles or averages.
pub fn wr_records(db: &IndexedDb, days: &Vec<Option<i32>>, e: usize, avg: bool) -> (recs: Vec<(i32, i32)>)
    requires
        db.wf(),
        days@.len() == db.comps@.len(),
        forall|c: int| 0 <= c < db.comps@.len() ==> #[trigger] days@[c] == start_day(*db, c),
        forall|c: int| 0 <= c < days@.len() ==> (#[trigger] days@[c] matches Some(j) ==> 1_000_000 <= j <= 30_000_000),
    ensures
        recs@ == wr_rows(*db, e as int, avg, db.rows@.len() as int),
        forall|i: int| 0 <= i < recs@.len() ==> 1_000_000 <= #[trigger] recs@[i].0 <= 30_000_000,
{
    let mut recs: Vec<(i32, i32)> = Vec::new();
    let mut k: usize = 0;
    while k < db.rows.len()
        invariant
            db.wf(),
            days@.len() == db.comps@.len(),
            forall|c: int| 0 <= c < db.comps@.len() ==> #[trigger] days@[c] == start_day(*db, c),
            forall|c: int| 0 <= c < days@.len() ==> (#[trigger] days@[c] matches Some(j) ==> 1_000_000 <= j <= 30_000_000),
            k <= db.rows@.len(),
            recs@ == wr_rows(*db, e as int, avg, k as int),
            forall|i: int| 0 <= i < recs@.len() ==> 1_000_000 <= #[trigger] recs@[i].0 <= 30_000_000,
        decreases db.rows.len() - k,
    {
        let r = &db.rows[k];
        assert(db.rows@[k as int] == *r);
        if r.event == e {
            let label = if avg { r.average_record } else { r.single_record };
            let value = if avg { r.average } else { r.best };
            match label {
                Some(l) => {
                    if str_is(&db.labels[l], "WR") && value > 0 {
                        match days[r.comp] {
                            Some(day) => {
                                recs.push((day, value));
                            },
                            None => {},
                        }
                    }
                },
                None => {},
            }
        }
        k = k + 1;
    }
    recs
}

/// Some row of `records` sets a record.
pub open spec fn has_record(records: Seq<(i32, i32)>) -> bool {
    exists|k: int| #[trigger] improves(records, k)
}

/// Timeline slot `m` stands for event `m / 2`, singles when `m` is even and
/// averages when odd.
pub open spec fn slot_rows(db: IndexedDb, m: int) -> Seq<(i32, i32)> {
    wr_rows(db, m / 2, m % 2 == 1, db.rows@.len() as int)
}

/// The slots among the first `m` whose event is active and which have at
/// least one record.
pub open spec fn live_slots(db: IndexedDb, m: int) -> Seq<int>
    decreases m,
{
    if m <= 0 {
        Seq::empty()
    } else {
        let prev = live_slots(db, m - 1);
        if db.event_active@[(m - 1) / 2] && has_record(slot_rows(db, m - 1)) {
            prev.push(m - 1)
        } else {
            prev
        }
    }
}

/// `tls` are the record timelines of the live slots, in slot order.
pub open spec fn timelines_of(db: IndexedDb, tls: Seq<Vec<(i32, i32)>>) -> bool {
    let slots = live_slots(db, 2 * db.events@.len() as int);
    &&& tls.len() == slots.len()
    &&& forall|i: int| 0 <= i < tls.len() ==> is_timeline_of(slot_rows(db, slots[i]), #[trigger] tls[i]@)
}

/// The record timelines of every active event, singles then averages.
pub fn wr_timelines(db: &IndexedDb) -> (tls: Vec<Vec<(i32, i32)>>)
    requires
        db.wf(),
    ensures
        timelines_of(*db, tls@),
        forall|i: int| 0 <= i < tls@.len() ==> timeline_ok(#[trigger] tls@[i]@),
{
    let days = comp_start_days(db);
    let mut tls: Vec<Vec<(i32, i32)>> = Vec::new();
    let mut e: usize = 0;
    while e < db.events.len()
        invariant
            db.wf(),
            days@.len() == db.comps@.len(),
            forall|c: int| 0 <= c < db.comps@.len() ==> #[trigger] days@[c] == start_day(*db, c),
            forall|c: int| 0 <= c < days@.len() ==> (#[trigger] days@[c] matches Some(j) ==> 1_000_000 <= j <= 30_000_000),
            e <= db.events@.len(),
            tls@.len() == live_slots(*db, 2 * e).len(),
            forall|i: int| 0 <= i < tls@.len() ==> is_timeline_of(slot_rows(*db, live_slots(*db, 2 * e)[i]), #[trigger] tls@[i]@),
            forall|i: int| 0 <= i < tls@.len() ==> timeline_ok(#[trigger] tls@[i]@),
        decreases db.events.len() - e,
    {
        let mut kind: usize = 0;
        while kind < 2
            invariant
                db.wf(),
                days@.len() == db.comps@.len(),
                forall|c: int| 0 <= c < db.comps@.len() ==> #[trigger] days@[c] == start_day(*db, c),
                forall|c: int| 0 <= c < days@.len() ==> (#[trigger] days@[c] matches Some(j) ==> 1_000_000 <= j <= 30_000_000),
                e < db.events@.len(),
                kind <= 2,
                tls@.len() == live_slots(*db, 2 * e + kind).len(),
                forall|i: int| 0 <= i < tls@.len() ==> is_timeline_of(slot_rows(*db, live_slots(*db, 2 * e + kind)[i]), #[trigger] tls@[i]@),
                forall|i: int| 0 <= i < tls@.len() ==> timeline_ok(#[trigger] tls@[i]@),
            decreases 2 - kind,
        {
            let ghost m: int = 2 * e + kind;
            assert(m / 2 == e && (m % 2 == 1) == (kind == 1));
            let ghost before = tls@;
            if db.event_active[e] {
                let recs = wr_records(db, &days, e, kind == 1);
                let tl = wr_timeline(&recs);
                if tl.len() > 0 {
                    proof {
                        assert(is_record_day(recs@, tl@[0].0 as int));
                        let k = choose|k: int| #[trigger] improves(recs@, k) && recs@[k].0 == tl@[0].0;
                        assert forall|t: int| 0 <= t < tl@.len() implies 0 <= #[trigger] tl@[t].0 <= 30_000_000 by {
                            assert(is_record_day(recs@, tl@[t].0 as int));
                            let j = choose|j: int| #[trigger] improves(recs@, j) && recs@[j].0 == tl@[t].0;
                        }
                    }
                    tls.push(tl);
                    proof {
                        assert(live_slots(*db, m + 1) == live_slots(*db, m).push(m));
                        assert forall|i: int| 0 <= i < tls@.len() implies is_timeline_of(slot_rows(*db, live_slots(*db, m + 1)[i]), #[trigger] tls@[i]@) by {
                            if i < before.len() {
                                assert(tls@[i] == before[i]);
                            }
                        }
                    }
                } else {
                    proof {
                        assert forall|k: int| !improves(recs@, k) by {
                            if improves(recs@, k) {
                                assert(starts_on(tl@, recs@[k].0 as int));
                            }
                        }
                        assert(live_slots(*db, m + 1) == live_slots(*db, m));
                    }
                }
            } else {
                proof {
                    assert(live_slots(*db, m + 1) == live_slots(*db, m));
                }
            }
            kind = kind + 1;
        }
        e = e + 1;
    }
    tls
}

/// Earliest and latest known day among the first `n` entries.
pub open spec fn day_span(days: Seq<Option<i32>>, n: int) -> Option<(i32, i32)>
    decreases n,
{
    if n <= 0 {
        None
    } else {
        let prev = day_span(days, n - 1);
        match days[n - 1] {
            Some(d) => match prev {
                Some(p) => Some((if d < p.0 { d } else { p.0 }, if d > p.1 { d } else { p.1 })),
                None => Some((d, d)),
            },
            None => prev,
        }
    }
}

/// First and last day of the sampling: the earliest and latest competition
/// start, or day 0 for both when no competition has a known date.
pub open spec fn sample_span(db: IndexedDb) -> (i32, i32) {
    match day_span(Seq::new(db.comps@.len(), |c: int| start_day(db, c)), db.comps@.len() as int) {
        Some(p) => p,
        None => (0i32, 0i32),
    }
}

fn span_of(days: &Vec<Option<i32>>) -> (r: (i32, i32))
    requires
        forall|c: int| 0 <= c < days@.len() ==> (#[trigger] days@[c] matches Some(j) ==> 1_000_000 <= j <= 30_000_000),
    ensures
        r == match day_span(days@, days@.len() as int) {
            Some(p) => p,
            None => (0i32, 0i32),
        },
        0 <= r.0,
        r.1 <= 30_000_000,
{
    let mut span: Option<(i32, i32)> = None;
    let mut c: usize = 0;
    while c < days.len()
        invariant
            forall|c: int| 0 <= c < days@.len() ==> (#[trigger] days@[c] matches Some(j) ==> 1_000_000 <= j <= 30_000_000),
            c <= days@.len(),
            span == day_span(days@, c as int),
            span matches Some(p) ==> 1_000_000 <= p.0 && p.1 <= 30_000_000,
        decreases days.len() - c,
    {
        match days[c] {
            Some(d) => {
                span = match span {
                    Some(p) => Some((if d < p.0 { d } else { p.0 }, if d > p.1 { d } else { p.1 })),
                    None => Some((d, d)),
                };
            },
            None => {},
        }
        c = c + 1;
    }
    match span {
        Some(p) => p,
        None => (0, 0),
    }
}

/// The weekly half-life series of all active events' world records, from the
/// first competition day through the last.
pub fn half_life(db: &IndexedDb) -> (out: Vec<HalfLifePoint>)
    requires
        db.wf(),
    ensures
        exists|tls: Seq<Vec<(i32, i32)>>|
            #[trigger] timelines_of(*db, tls) && views(out@) == series(tls, sample_span(*db).0 as int, sample_span(*db).1 as int),
        forall|i: int| 0 <= i < out@.len() ==> (#[trigger] out@[i]).date@ == date_text(out@[i].day as int),
{
    let tls = wr_timelines(db);
    let days = comp_start_days(db);
    let (first, last) = span_of(&days);
    proof {
        assert(days@ =~= Seq::new(db.comps@.len(), |c: int| start_day(*db, c)));
    }
    let out = half_life_points(&tls, first, last);
    proof {
        assert(timelines_of(*db, tls@));
    }
    out
}

} // verus!
