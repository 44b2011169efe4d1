//! Per-person ranks and personal bests in the current events, for the persons
//! ranked in the top 2000 of any of them, with per-event totals and world
//! records.
use vstd::prelude::*;
use crate::index::{IndexedDb, RankRow, rank_entry, str_is_str};
use crate::relay::event_position;

verus! {

/// The current events (no magic, mmagic, feet or old-style multi-blind).
#[verifier::opaque]
pub open spec fn current_events() -> Seq<&'static str> {
    seq![
        "222", "333", "444", "555", "666", "777", "333oh", "333bf", "333fm", "333mbf", "444bf", "555bf", "clock",
        "minx", "pyram", "skewb", "sq1",
    ]
}

pub fn current_event_list() -> (v: Vec<&'static str>)
    ensures
        v@ == current_events(),
        v@.len() == 17,
        current_events().len() == 17,
{
    reveal(current_events);
    vec![
        "222", "333", "444", "555", "666", "777", "333oh", "333bf", "333fm", "333mbf", "444bf", "555bf", "clock",
        "minx", "pyram", "skewb", "sq1",
    ]
}

/// Events without an official average ranking.
pub open spec fn no_average(id: &str) -> bool {
    id@ == "333mbf"@
}

/// Rank below which (inclusive) a person joins the pool.
pub open spec fn top_n() -> u32 {
    2000
}

/// The first position of event id `id`.
pub open spec fn position_of(db: IndexedDb, id: &str) -> Option<int> {
    crate::sub_x::first_position(db, id)
}

/// Person `p`'s (world rank, best) in current event `i`, singles or
/// averages (none for the averages of an event without them).
#[verifier::opaque]
pub open spec fn entry_of(db: IndexedDb, single: bool, i: int, p: int) -> Option<(u32, i32)> {
    let id = current_events()[i];
    let rows = if single { db.ranks_single@ } else { db.ranks_average@ };
    if !single && no_average(id) {
        None
    } else {
        match position_of(db, id) {
            Some(e) => match rank_entry(rows, p, e, rows.len() as int) {
                Some(r) => Some((r.world_rank, r.best)),
                None => None,
            },
            None => None,
        }
    }
}

/// Number of persons among the first `n` with an entry.
pub open spec fn count_entries(db: IndexedDb, single: bool, i: int, n: int) -> int
    decreases n,
{
    if n <= 0 {
        0
    } else {
        count_entries(db, single, i, n - 1) + if entry_of(db, single, i, n - 1) is Some { 1int } else { 0int }
    }
}

/// The best of the last of the first `n` persons ranked first in the world,
/// or 0.
pub open spec fn world_record(db: IndexedDb, single: bool, i: int, n: int) -> i32
    decreases n,
{
    if n <= 0 {
        0
    } else {
        match entry_of(db, single, i, n - 1) {
            Some(x) => if x.0 == 1 { x.1 } else { world_record(db, single, i, n - 1) },
            None => world_record(db, single, i, n - 1),
        }
    }
}

/// An entry ranked within the top 2000.
pub open spec fn pooled(x: Option<(u32, i32)>) -> bool {
    x is Some && x.unwrap().0 <= top_n()
}

/// Person `p` is ranked within the top 2000 of some current event.
pub open spec fn in_pool(db: IndexedDb, p: int) -> bool {
    exists|i: int, s: bool|
        0 <= i < 17 && pooled(#[trigger] entry_of(db, s, i, p))
}

/// Per-person data.
pub struct PersonData {
    pub id: String,
    pub name: String,
    pub country: String,
    /// Single rank per event, 0 when not ranked.
    pub sr: Vec<u32>,
    /// Average rank per event, 0 when not ranked or no average exists.
    pub ar: Vec<u32>,
    /// Single personal best per event, 0 when not ranked.
    pub ps: Vec<i32>,
    /// Average personal best per event, 0 when not ranked or no average exists.
    pub pa: Vec<i32>,
}

pub struct AllRanksData {
    pub events: Vec<String>,
    pub total_s: Vec<u32>,
    pub total_a: Vec<u32>,
    pub wr_s: Vec<i32>,
    pub wr_a: Vec<i32>,
    pub persons: Vec<PersonData>,
}

pub open spec fn rank_or_zero(x: Option<(u32, i32)>) -> u32 {
    match x {
        Some(v) => v.0,
        None => 0,
    }
}

pub open spec fn best_or_zero(x: Option<(u32, i32)>) -> i32 {
    match x {
        Some(v) => v.1,
        None => 0,
    }
}

/// `d` is person `p`'s data.
pub open spec fn person_ok(db: IndexedDb, p: int, d: PersonData) -> bool {
    let n: int = 17;
    &&& d.id@ == db.person_ids@[p]@
    &&& d.name@ == match db.person_names@[p] {
        Some(nm) => nm@,
        None => db.person_ids@[p]@,
    }
    &&& d.country@ == match db.person_country@[p] {
        Some(c) => db.country_ids@[c as int]@,
        None => "Unknown"@,
    }
    &&& d.sr@.len() == n && d.ar@.len() == n && d.ps@.len() == n && d.pa@.len() == n
    &&& forall|i: int|
        0 <= i < n ==> {
            &&& #[trigger] d.sr@[i] == rank_or_zero(entry_of(db, true, i, p))
            &&& d.ps@[i] == best_or_zero(entry_of(db, true, i, p))
            &&& d.ar@[i] == rank_or_zero(entry_of(db, false, i, p))
            &&& d.pa@[i] == best_or_zero(entry_of(db, false, i, p))
        }
}

/// The pool persons among the first `n`, in person order.
pub open spec fn pool_upto(db: IndexedDb, n: int) -> Seq<int>
    decreases n,
{
    if n <= 0 {
        Seq::empty()
    } else if in_pool(db, n - 1) {
        pool_upto(db, n - 1).push(n - 1)
    } else {
        pool_upto(db, n - 1)
    }
}

/// Each current event's column: every person's (rank, best), singles or
/// averages.
fn column(db: &IndexedDb, single: bool, i: usize, id: &str) -> (col: Vec<Option<(u32, i32)>>)
    requires
        db.wf(),
        i < 17,
        id == current_events()[i as int],
    ensures
        col@.len() == db.n_persons,
        forall|p: int| 0 <= p < db.n_persons ==> #[trigger] col@[p] == entry_of(*db, single, i as int, p),
{
    reveal(entry_of);
    let np = db.n_persons;
    let mut col: Vec<Option<(u32, i32)>> = Vec::new();
    let mut p: usize = 0;
    while p < np
        invariant
            p <= np,
            col@.len() == p,
            forall|q: int| 0 <= q < p ==> #[trigger] col@[q] is None,
        decreases np - p,
    {
        col.push(None);
        p = p + 1;
    }
    if !single && str_is_str(id, "333mbf") {
        return col;
    }
    let pos = event_position(db, id);
    proof {
        match pos {
            Some(e) => {
                crate::sub_x::lemma_first_position(*db, id, e as int);
            },
            None => {
                if crate::sub_x::first_position(*db, id) is Some {
                    let q = choose|q: int| 0 <= q < db.events@.len() && #[trigger] db.events@[q]@ == id@;
                    assert(db.events@[q]@ != id@);
                }
            },
        }
    }
    let e = match pos {
        Some(e) => e,
        None => {
            return col;
        },
    };
    let rows = if single { &db.ranks_single } else { &db.ranks_average };
    let mut k: usize = 0;
    while k < rows.len()
        invariant
            db.wf(),
            np == db.n_persons,
            rows@ == if single { db.ranks_single@ } else { db.ranks_average@ },
            k <= rows@.len(),
            col@.len() == np,
            forall|q: int| 0 <= q < np ==> #[trigger] col@[q] == match rank_entry(rows@, q, e as int, k as int) {
                Some(r) => Some((r.world_rank, r.best)),
                None => None::<(u32, i32)>,
            },
        decreases rows.len() - k,
    {
        let r = rows[k];
        assert(r.person < np);
        if r.event == e {
            col.set(r.person, Some((r.world_rank, r.best)));
        }
        k = k + 1;
    }
    col
}

fn count_and_record(col: &Vec<Option<(u32, i32)>>, Ghost(db): Ghost<IndexedDb>, single: bool, i: usize) -> (r: (u32, i32))
    requires
        db.n_persons < 0x1000_0000,
        i < 17,
        col@.len() == db.n_persons,
        forall|p: int| 0 <= p < db.n_persons ==> #[trigger] col@[p] == entry_of(db, single, i as int, p),
    ensures
        r.0 as int == count_entries(db, single, i as int, db.n_persons as int),
        r.1 == world_record(db, single, i as int, db.n_persons as int),
{
    let mut count: u32 = 0;
    let mut wr: i32 = 0;
    let mut p: usize = 0;
    while p < col.len()
        invariant
            db.n_persons < 0x1000_0000,
            col@.len() == db.n_persons,
            forall|p: int| 0 <= p < db.n_persons ==> #[trigger] col@[p] == entry_of(db, single, i as int, p),
            p <= col@.len(),
            count as int == count_entries(db, single, i as int, p as int),
            count <= p,
            wr == world_record(db, single, i as int, p as int),
        decreases col.len() - p,
    {
        assert(col@[p as int] == entry_of(db, single, i as int, p as int));
        match col[p] {
            Some(x) => {
                count = count + 1;
                if x.0 == 1 {
                    wr = x.1;
                }
            },
            None => {},
        }
        p = p + 1;
    }
    (count, wr)
}

/// Ranks, personal bests, totals and world records of the current events, for
/// the persons ranked within the top 2000 of any of them, in person order.
pub fn all_ranks(db: &IndexedDb) -> (out: AllRanksData)
    requires
        db.wf(),
        db.n_persons < 0x1000_0000,
    ensures
        out.events@.len() == 17,
        forall|i: int| 0 <= i < 17 ==> (#[trigger] out.events@[i])@ == current_events()[i]@,
        out.total_s@.len() == 17,
        out.total_a@.len() == 17,
        out.wr_s@.len() == 17,
        out.wr_a@.len() == 17,
        forall|i: int|
            0 <= i < 17 ==> {
                &&& #[trigger] out.total_s@[i] as int == count_entries(*db, true, i, db.n_persons as int)
                &&& out.total_a@[i] as int == count_entries(*db, false, i, db.n_persons as int)
                &&& out.wr_s@[i] == world_record(*db, true, i, db.n_persons as int)
                &&& out.wr_a@[i] == world_record(*db, false, i, db.n_persons as int)
            },
        out.persons@.len() == pool_upto(*db, db.n_persons as int).len(),
        forall|k: int|
            0 <= k < out.persons@.len() ==> person_ok(*db, pool_upto(*db, db.n_persons as int)[k], #[trigger] out.persons@[k]),
{
    let np = db.n_persons;
    let ids = current_event_list();
    let n = ids.len();
    let mut cols_s: Vec<Vec<Option<(u32, i32)>>> = Vec::new();
    let mut cols_a: Vec<Vec<Option<(u32, i32)>>> = Vec::new();
    let mut i: usize = 0;
    while i < n
        invariant
            db.wf(),
            np == db.n_persons,
            np < 0x1000_0000,
            ids@ == current_events(),
            n == ids@.len(),
            n == 17,
            i <= n,
            cols_s@.len() == i && cols_a@.len() == i,
            forall|u: int| 0 <= u < i ==> (#[trigger] cols_s@[u])@.len() == np && cols_a@[u]@.len() == np,
            forall|u: int, q: int| 0 <= u < i && 0 <= q < np ==> #[trigger] cols_s@[u]@[q] == entry_of(*db, true, u, q),
            forall|u: int, q: int| 0 <= u < i && 0 <= q < np ==> #[trigger] cols_a@[u]@[q] == entry_of(*db, false, u, q),
        decreases n - i,
    {
        let cs = column(db, true, i, ids[i]);
        let ca = column(db, false, i, ids[i]);
        cols_s.push(cs);
        cols_a.push(ca);
        i = i + 1;
    }
    assert(n == 17);
    let mut persons: Vec<PersonData> = Vec::new();
    let mut p: usize = 0;
    while p < np
        invariant
            db.wf(),
            np == db.n_persons,
            np < 0x1000_0000,
            ids@ == current_events(),
            n == ids@.len(),
            n == 17,
            cols_s@.len() == n && cols_a@.len() == n,
            forall|u: int| 0 <= u < n ==> (#[trigger] cols_s@[u])@.len() == np && cols_a@[u]@.len() == np,
            forall|u: int, q: int| 0 <= u < n && 0 <= q < np ==> #[trigger] cols_s@[u]@[q] == entry_of(*db, true, u, q),
            forall|u: int, q: int| 0 <= u < n && 0 <= q < np ==> #[trigger] cols_a@[u]@[q] == entry_of(*db, false, u, q),
            p <= np,
            persons@.len() == pool_upto(*db, p as int).len(),
            forall|k: int| 0 <= k < persons@.len() ==> person_ok(*db, pool_upto(*db, p as int)[k], #[trigger] persons@[k]),
        decreases np - p,
    {
        let pooled_p = pool_flag(&cols_s, &cols_a, p, Ghost(*db));
        if pooled_p {
            let d = person_data(db, &cols_s, &cols_a, p);
            let ghost before = persons@;
            persons.push(d);
            proof {
                assert(pool_upto(*db, p + 1) == pool_upto(*db, p as int).push(p as int));
                assert forall|k: int| 0 <= k < persons@.len() implies person_ok(*db, pool_upto(*db, p + 1)[k], #[trigger] persons@[k]) by {
                    if k < before.len() {
                        assert(persons@[k] == before[k]);
                    }
                }
            }
        }
        p = p + 1;
    }
    let mut events: Vec<String> = Vec::new();
    let mut total_s: Vec<u32> = Vec::new();
    let mut total_a: Vec<u32> = Vec::new();
    let mut wr_s: Vec<i32> = Vec::new();
    let mut wr_a: Vec<i32> = Vec::new();
    let mut i: usize = 0;
    while i < n
        invariant
            np == db.n_persons,
            np < 0x1000_0000,
            ids@ == current_events(),
            n == ids@.len(),
            n == 17,
            i <= n,
            cols_s@.len() == n && cols_a@.len() == n,
            forall|u: int| 0 <= u < n ==> (#[trigger] cols_s@[u])@.len() == np && cols_a@[u]@.len() == np,
            forall|u: int, q: int| 0 <= u < n && 0 <= q < np ==> #[trigger] cols_s@[u]@[q] == entry_of(*db, true, u, q),
            forall|u: int, q: int| 0 <= u < n && 0 <= q < np ==> #[trigger] cols_a@[u]@[q] == entry_of(*db, false, u, q),
            events@.len() == i && total_s@.len() == i && total_a@.len() == i && wr_s@.len() == i && wr_a@.len() == i,
            forall|u: int| 0 <= u < i ==> (#[trigger] events@[u])@ == current_events()[u]@,
            forall|u: int|
                0 <= u < i ==> {
                    &&& #[trigger] total_s@[u] as int == count_entries(*db, true, u, np as int)
                    &&& total_a@[u] as int == count_entries(*db, false, u, np as int)
                    &&& wr_s@[u] == world_record(*db, true, u, np as int)
                    &&& wr_a@[u] == world_record(*db, false, u, np as int)
                },
        decreases n - i,
    {
        proof {
            assert forall|q: int| 0 <= q < np implies #[trigger] cols_s@[i as int]@[q] == entry_of(*db, true, i as int, q)
                && cols_a@[i as int]@[q] == entry_of(*db, false, i as int, q) by {}
        }
        let (ts, ws) = count_and_record(&cols_s[i], Ghost(*db), true, i);
        let (ta, wa) = count_and_record(&cols_a[i], Ghost(*db), false, i);
        events.push(String::from_str(ids[i]));
        total_s.push(ts);
        total_a.push(ta);
        wr_s.push(ws);
        wr_a.push(wa);
        i = i + 1;
    }
    AllRanksData { events, total_s, total_a, wr_s, wr_a, persons }
}

fn pool_flag(cols_s: &Vec<Vec<Option<(u32, i32)>>>, cols_a: &Vec<Vec<Option<(u32, i32)>>>, p: usize, Ghost(db): Ghost<IndexedDb>) -> (r: bool)
    requires
        p < db.n_persons,
        cols_s@.len() == 17 && cols_a@.len() == 17,
        forall|u: int| 0 <= u < 17 ==> (#[trigger] cols_s@[u])@.len() == db.n_persons && cols_a@[u]@.len() == db.n_persons,
        forall|u: int, q: int| 0 <= u < 17 && 0 <= q < db.n_persons ==> #[trigger] cols_s@[u]@[q] == entry_of(db, true, u, q),
        forall|u: int, q: int| 0 <= u < 17 && 0 <= q < db.n_persons ==> #[trigger] cols_a@[u]@[q] == entry_of(db, false, u, q),
    ensures
        r == in_pool(db, p as int),
{
    let n = cols_s.len();
    assert(n == 17);
    assert(forall|u: int| 0 <= u < n ==> (#[trigger] cols_s@[u])@.len() == db.n_persons);
    assert(forall|u: int| 0 <= u < n ==> (#[trigger] cols_s@[u])@.len() == db.n_persons && cols_a@[u]@.len() == db.n_persons);
    proof {
        assert forall|u: int| 0 <= u < n implies #[trigger] cols_s@[u]@[p as int] == entry_of(db, true, u, p as int)
            && cols_a@[u]@[p as int] == entry_of(db, false, u, p as int) by {}
    }
    let mut pooled_p = false;
    let mut j: usize = 0;
    while j < n
        invariant
            n == 17,
            p < db.n_persons,
            cols_s@.len() == n && cols_a@.len() == n,
            forall|u: int| 0 <= u < n ==> (#[trigger] cols_s@[u])@.len() == db.n_persons && cols_a@[u]@.len() == db.n_persons,
            forall|u: int| 0 <= u < n ==> #[trigger] cols_s@[u]@[p as int] == entry_of(db, true, u, p as int)
                && cols_a@[u]@[p as int] == entry_of(db, false, u, p as int),
            j <= n,
            pooled_p == exists|i: int, s: bool| 0 <= i < j && pooled(#[trigger] entry_of(db, s, i, p as int)),
        decreases n - j,
    {
        assert(cols_s@[j as int]@[p as int] == entry_of(db, true, j as int, p as int));
        let hit_s = match cols_s[j][p] {
            Some(x) => x.0 <= 2000,
            None => false,
        };
        let hit_a = match cols_a[j][p] {
            Some(x) => x.0 <= 2000,
            None => false,
        };
        proof {
            assert(hit_s == pooled(entry_of(db, true, j as int, p as int)));
            assert(hit_a == pooled(entry_of(db, false, j as int, p as int)));
            if !pooled_p && !hit_s && !hit_a {
                assert forall|i: int, s: bool| 0 <= i < j + 1 implies !pooled(#[trigger] entry_of(db, s, i, p as int)) by {
                    if i == j {
                        if s {
                        } else {
                        }
                    }
                }
            }
        }
        if hit_s || hit_a {
            pooled_p = true;
        }
        j = j + 1;
    }
    pooled_p
}

fn person_data(db: &IndexedDb, cols_s: &Vec<Vec<Option<(u32, i32)>>>, cols_a: &Vec<Vec<Option<(u32, i32)>>>, p: usize) -> (d: PersonData)
    requires
        db.wf(),
        p < db.n_persons,
        cols_s@.len() == 17 && cols_a@.len() == 17,
        forall|u: int| 0 <= u < 17 ==> (#[trigger] cols_s@[u])@.len() == db.n_persons && cols_a@[u]@.len() == db.n_persons,
        forall|u: int, q: int| 0 <= u < 17 && 0 <= q < db.n_persons ==> #[trigger] cols_s@[u]@[q] == entry_of(*db, true, u, q),
        forall|u: int, q: int| 0 <= u < 17 && 0 <= q < db.n_persons ==> #[trigger] cols_a@[u]@[q] == entry_of(*db, false, u, q),
    ensures
        person_ok(*db, p as int, d),
{
    let n = cols_s.len();
    assert(n == 17);
    proof {
        assert forall|u: int| 0 <= u < n implies #[trigger] cols_s@[u]@[p as int] == entry_of(*db, true, u, p as int)
            && cols_a@[u]@[p as int] == entry_of(*db, false, u, p as int) by {}
    }
    let mut sr: Vec<u32> = Vec::new();
    let mut ar: Vec<u32> = Vec::new();
    let mut ps: Vec<i32> = Vec::new();
    let mut pa: Vec<i32> = Vec::new();
    let mut j: usize = 0;
    while j < n
        invariant
            n == 17,
            p < db.n_persons,
            cols_s@.len() == n && cols_a@.len() == n,
            forall|u: int| 0 <= u < n ==> (#[trigger] cols_s@[u])@.len() == db.n_persons && cols_a@[u]@.len() == db.n_persons,
            forall|u: int| 0 <= u < n ==> #[trigger] cols_s@[u]@[p as int] == entry_of(*db, true, u, p as int)
                && cols_a@[u]@[p as int] == entry_of(*db, false, u, p as int),
            j <= n,
            sr@.len() == j && ar@.len() == j && ps@.len() == j && pa@.len() == j,
            forall|i: int| 0 <= i < j ==> #[trigger] sr@[i] == rank_or_zero(entry_of(*db, true, i, p as int)),
            forall|i: int| 0 <= i < j ==> #[trigger] ps@[i] == best_or_zero(entry_of(*db, true, i, p as int)),
            forall|i: int| 0 <= i < j ==> #[trigger] ar@[i] == rank_or_zero(entry_of(*db, false, i, p as int)),
            forall|i: int| 0 <= i < j ==> #[trigger] pa@[i] == best_or_zero(entry_of(*db, false, i, p as int)),
        decreases n - j,
    {
        assert(cols_s@[j as int]@[p as int] == entry_of(*db, true, j as int, p as int));
        assert(cols_a@[j as int]@[p as int] == entry_of(*db, false, j as int, p as int));
        let ghost sr0 = sr@;
        let ghost ps0 = ps@;
        let ghost ar0 = ar@;
        let ghost pa0 = pa@;
        let (r1, b1) = match cols_s[j][p] {
            Some(x) => (x.0, x.1),
            None => (0, 0),
        };
        let (r2, b2) = match cols_a[j][p] {
            Some(x) => (x.0, x.1),
            None => (0, 0),
        };
        sr.push(r1);
        ps.push(b1);
        ar.push(r2);
        pa.push(b2);
        proof {
            assert(sr@[j as int] == rank_or_zero(entry_of(*db, true, j as int, p as int)));
            assert(ps@[j as int] == best_or_zero(entry_of(*db, true, j as int, p as int)));
            assert(ar@[j as int] == rank_or_zero(entry_of(*db, false, j as int, p as int)));
            assert(pa@[j as int] == best_or_zero(entry_of(*db, false, j as int, p as int)));
            assert forall|i: int| 0 <= i < j + 1 implies #[trigger] sr@[i] == rank_or_zero(entry_of(*db, true, i, p as int)) by {
                if i < j {
                    assert(sr@[i] == sr0[i]);
                }
            }
            assert forall|i: int| 0 <= i < j + 1 implies #[trigger] ps@[i] == best_or_zero(entry_of(*db, true, i, p as int)) by {
                if i < j {
                    assert(ps@[i] == ps0[i]);
                }
            }
            assert forall|i: int| 0 <= i < j + 1 implies #[trigger] ar@[i] == rank_or_zero(entry_of(*db, false, i, p as int)) by {
                if i < j {
                    assert(ar@[i] == ar0[i]);
                }
            }
            assert forall|i: int| 0 <= i < j + 1 implies #[trigger] pa@[i] == best_or_zero(entry_of(*db, false, i, p as int)) by {
                if i < j {
                    assert(pa@[i] == pa0[i]);
                }
            }
        }
        j = j + 1;
    }
    let name = match &db.person_names[p] {
        Some(nm) => nm.clone(),
        None => db.person_ids[p].clone(),
    };
    let country = match db.person_country[p] {
        Some(c) => db.country_ids[c].clone(),
        None => String::from_str("Unknown"),
    };
    proof {
        reveal_strlit("Unknown");
    }
    PersonData { id: db.person_ids[p].clone(), name, country, sr, ar, ps, pa }
}

} // verus!
