//! The first world or continental record each country set in each event:
//! the earliest record date, a world record before a continental one on the
//! same date, then the better value, then the earlier row.
use vstd::prelude::*;
use crate::index::{IndexedDb, start_day, str_is, comp_start_days};
use crate::dates::jdn_to_iso;
use crate::wr_cross_rank::date_text;

verus! {

/// The continental record labels of the export.
pub open spec fn is_continental(l: Seq<char>) -> bool {
    ||| l == "AfR"@
    ||| l == "AsR"@
    ||| l == "ER"@
    ||| l == "NAR"@
    ||| l == "OcR"@
    ||| l == "SAR"@
}

/// `Some(true)` for a world record label, `Some(false)` for a continental
/// one, `None` for any other label.
pub open spec fn level_of(l: Seq<char>) -> Option<bool> {
    if l == "WR"@ {
        Some(true)
    } else if is_continental(l) {
        Some(false)
    } else {
        None
    }
}

/// Whether a result's record label is a world record.
pub fn is_wr(label: Option<&String>) -> (r: bool)
    ensures
        r == (label matches Some(l) && l@ == "WR"@),
{
    match label {
        Some(l) => str_is(l, "WR"),
        None => false,
    }
}

/// Whether a result's record label is a continental record.
pub fn is_cr(label: Option<&String>) -> (r: bool)
    ensures
        r == (label matches Some(l) && is_continental(l@)),
{
    match label {
        Some(l) => str_is(l, "AfR") || str_is(l, "AsR") || str_is(l, "ER") || str_is(l, "NAR")
            || str_is(l, "OcR") || str_is(l, "SAR"),
        None => false,
    }
}

/// Whether a result's record label is a world or a continental record.
pub fn is_wr_or_cr(label: Option<&String>) -> (r: bool)
    ensures
        r == (label matches Some(l) && level_of(l@) is Some),
{
    is_wr(label) || is_cr(label)
}

/// The record level of a label, as `level_of` states.
pub fn record_level(label: &String) -> (r: Option<bool>)
    ensures
        r == level_of(label@),
{
    if is_wr(Some(label)) {
        Some(true)
    } else if is_cr(Some(label)) {
        Some(false)
    } else {
        None
    }
}

/// A record-setting result: its day, whether it was a world record, its value
/// and its row.
#[derive(Clone, Copy)]
pub struct Candidate {
    pub jdn: i32,
    pub is_wr: bool,
    pub value: i32,
    pub row: usize,
}

/// `a` comes before `b`: an earlier day, or the same day and a world record
/// against a continental one, or the same day and level and a lower value.
pub open spec fn beats(a: Candidate, b: Candidate) -> bool {
    ||| a.jdn < b.jdn
    ||| a.jdn == b.jdn && a.is_wr && !b.is_wr
    ||| a.jdn == b.jdn && a.is_wr == b.is_wr && a.value < b.value
}

/// Whether `new` should replace `old`, as `beats` states.
pub fn better(new: &Candidate, old: &Candidate) -> (r: bool)
    ensures
        r == beats(*new, *old),
{
    if new.jdn < old.jdn {
        return true;
    }
    if new.jdn > old.jdn {
        return false;
    }
    if new.is_wr && !old.is_wr {
        return true;
    }
    if old.is_wr && !new.is_wr {
        return false;
    }
    new.value < old.value
}

/// The candidate row `k` gives for singles (or averages, for `avg`): a world
/// or continental record with a positive value at a competition of known
/// date.
pub open spec fn cand_of(db: IndexedDb, k: int, avg: bool) -> Option<Candidate> {
    let r = db.rows@[k];
    let label = if avg { r.average_record } else { r.single_record };
    let value = if avg { r.average } else { r.best };
    match label {
        Some(l) => match level_of(db.labels@[l as int]@) {
            Some(w) => if value > 0 && start_day(db, r.comp as int) is Some {
                Some(Candidate { jdn: start_day(db, r.comp as int).unwrap(), is_wr: w, value, row: k as usize })
            } else {
                None
            },
            None => None,
        },
        None => None,
    }
}

/// Rows `j` and `k` are of the same country and event.
pub open spec fn same_slot(db: IndexedDb, j: int, k: int) -> bool {
    db.rows@[j].country == db.rows@[k].country && db.rows@[j].event == db.rows@[k].event
}

/// Row `k` gives the first record of its country and event: it beats every
/// earlier candidate of that country and event, and no later one beats it.
pub open spec fn is_first(db: IndexedDb, avg: bool, k: int) -> bool {
    &&& 0 <= k < db.rows@.len()
    &&& cand_of(db, k, avg) is Some
    &&& forall|j: int|
        0 <= j < db.rows@.len() && j != k && same_slot(db, j, k) && #[trigger] cand_of(db, j, avg) is Some
            ==> if j < k {
            beats(cand_of(db, k, avg).unwrap(), cand_of(db, j, avg).unwrap())
        } else {
            !beats(cand_of(db, j, avg).unwrap(), cand_of(db, k, avg).unwrap())
        }
}

/// The first record of a country in an event.
pub struct FirstRecord {
    /// The competitor's name as recorded with the result.
    pub name: String,
    pub pid: String,
    pub date: String,
    pub comp: String,
    /// `"WR"` or `"CR"`.
    pub record: String,
    pub value: i32,
}

/// `f` describes row `k`'s candidate.
pub open spec fn describes(db: IndexedDb, avg: bool, k: int, f: FirstRecord) -> bool {
    let r = db.rows@[k];
    let c = cand_of(db, k, avg).unwrap();
    &&& f.name == r.person_name
    &&& f.pid == db.person_ids@[r.person as int]
    &&& f.date@ == date_text(c.jdn as int)
    &&& f.comp == db.comp_ids@[r.comp as int]
    &&& f.record@ == if c.is_wr { "WR"@ } else { "CR"@ }
    &&& f.value == c.value
}

/// `e` is the entry (country, event, record) of first-record row `k`.
pub open spec fn entry_of(db: IndexedDb, avg: bool, k: int, e: (usize, usize, FirstRecord)) -> bool {
    &&& is_first(db, avg, k)
    &&& e.0 == db.rows@[k].country
    &&& e.1 == db.rows@[k].event
    &&& describes(db, avg, k, e.2)
}

pub open spec fn from_first(db: IndexedDb, avg: bool, e: (usize, usize, FirstRecord)) -> bool {
    exists|k: int| #[trigger] entry_of(db, avg, k, e)
}

pub open spec fn listed(db: IndexedDb, avg: bool, out: Seq<(usize, usize, FirstRecord)>, k: int) -> bool {
    exists|i: int| 0 <= i < out.len() && #[trigger] entry_of(db, avg, k, out[i])
}

proof fn lemma_slot_bound(c: int, e: int, nc: int, ne: int)
    by (nonlinear_arith)
    requires
        0 <= c < nc,
        0 <= e < ne,
    ensures
        0 <= c * ne + e < nc * ne,
{
}

proof fn lemma_slot_order(c1: int, e1: int, c2: int, e2: int, ne: int)
    by (nonlinear_arith)
    requires
        0 <= c1,
        0 <= c2,
        0 <= e1 < ne,
        0 <= e2 < ne,
        c1 * ne + e1 < c2 * ne + e2,
    ensures
        c1 < c2 || (c1 == c2 && e1 < e2),
{
}

proof fn lemma_slot_inj(c1: int, e1: int, c2: int, e2: int, ne: int)
    by (nonlinear_arith)
    requires
        0 <= c1,
        0 <= c2,
        0 <= e1 < ne,
        0 <= e2 < ne,
        c1 * ne + e1 == c2 * ne + e2,
    ensures
        c1 == c2 && e1 == e2,
{
}

pub open spec fn key_pos(e: (usize, usize, FirstRecord), ne: int) -> int {
    e.0 * ne + e.1
}

/// Table position of row `k`'s country and event.
pub open spec fn slot_of(db: IndexedDb, k: int) -> int {
    db.rows@[k].country * db.events@.len() + db.rows@[k].event
}

/// What the table holds for slot `s` after the first `n` rows: the candidate
/// that beats every earlier one of the slot and that no later one beats, or
/// nothing when the slot has no candidate yet.
pub open spec fn table_ok(db: IndexedDb, avg: bool, t: Seq<Option<Candidate>>, n: int) -> bool {
    forall|s: int|
        0 <= s < t.len() ==> match #[trigger] t[s] {
            Some(c) => {
                &&& c.row < n
                &&& slot_of(db, c.row as int) == s
                &&& cand_of(db, c.row as int, avg) == Some(c)
                &&& forall|j: int|
                    0 <= j < n && j != c.row && slot_of(db, j) == s && #[trigger] cand_of(db, j, avg) is Some
                        ==> if j < c.row {
                        beats(c, cand_of(db, j, avg).unwrap())
                    } else {
                        !beats(cand_of(db, j, avg).unwrap(), c)
                    }
            },
            None => forall|j: int| 0 <= j < n && slot_of(db, j) == s ==> !(#[trigger] cand_of(db, j, avg) is Some),
        }
}

/// Offering row `k` to the table keeps it right: a candidate goes into its
/// slot when the slot is empty or the candidate beats the one there.
#[verifier::spinoff_prover]
proof fn lemma_table_step(db: IndexedDb, avg: bool, t0: Seq<Option<Candidate>>, t1: Seq<Option<Candidate>>, k: int, slot: int)
    requires
        0 <= k < db.rows@.len(),
        k <= usize::MAX,
        table_ok(db, avg, t0, k),
        slot == slot_of(db, k),
        0 <= slot < t0.len(),
        t1 == match cand_of(db, k, avg) {
            Some(nc) => match t0[slot] {
                None => t0.update(slot, Some(nc)),
                Some(oc) => if beats(nc, oc) { t0.update(slot, Some(nc)) } else { t0 },
            },
            None => t0,
        },
    ensures
        table_ok(db, avg, t1, k + 1),
{
    assert forall|q: int| 0 <= q < t1.len() implies match #[trigger] t1[q] {
        Some(c) => {
            &&& c.row < k + 1
            &&& slot_of(db, c.row as int) == q
            &&& cand_of(db, c.row as int, avg) == Some(c)
            &&& forall|j: int|
                0 <= j < k + 1 && j != c.row && slot_of(db, j) == q && #[trigger] cand_of(db, j, avg) is Some
                    ==> if j < c.row {
                    beats(c, cand_of(db, j, avg).unwrap())
                } else {
                    !beats(cand_of(db, j, avg).unwrap(), c)
                }
        },
        None => forall|j: int| 0 <= j < k + 1 && slot_of(db, j) == q ==> !(#[trigger] cand_of(db, j, avg) is Some),
    } by {
        assert(t0[q] == t0[q]);
        if q != slot {
            assert(t1[q] == t0[q]);
        } else {
            match cand_of(db, k, avg) {
                Some(nc) => {
                    assert(nc.row == k);
                    match t0[slot] {
                        None => {},
                        Some(oc) => {
                            if beats(nc, oc) {
                                assert forall|j: int|
                                    0 <= j < k + 1 && j != k && slot_of(db, j) == q && #[trigger] cand_of(db, j, avg) is Some
                                        implies beats(nc, cand_of(db, j, avg).unwrap()) by {
                                    if j != oc.row {
                                        let d = cand_of(db, j, avg).unwrap();
                                        if j < oc.row {
                                            assert(beats(oc, d));
                                        } else {
                                            assert(!beats(d, oc));
                                        }
                                    }
                                }
                            }
                        },
                    }
                },
                None => {},
            }
        }
    }
}

fn describe(db: &IndexedDb, c: &Candidate) -> (f: FirstRecord)
    requires
        db.wf(),
        c.row < db.rows@.len(),
        0 <= c.jdn <= 30_000_000,
    ensures
        f.name == db.rows@[c.row as int].person_name,
        f.pid == db.person_ids@[db.rows@[c.row as int].person as int],
        f.date@ == date_text(c.jdn as int),
        f.comp == db.comp_ids@[db.rows@[c.row as int].comp as int],
        f.record@ == if c.is_wr { "WR"@ } else { "CR"@ },
        f.value == c.value,
{
    let r = &db.rows[c.row];
    assert(db.rows@[c.row as int] == *r);
    let record = if c.is_wr { String::from_str("WR") } else { String::from_str("CR") };
    FirstRecord {
        name: r.person_name.clone(),
        pid: db.person_ids[r.person].clone(),
        date: jdn_to_iso(c.jdn),
        comp: db.comp_ids[r.comp].clone(),
        record,
        value: c.value,
    }
}

/// The first single (or average, for `avg`) record of every country in every
/// event, ordered by country and then event position.
pub fn first_records(db: &IndexedDb, avg: bool) -> (out: Vec<(usize, usize, FirstRecord)>)
    requires
        db.wf(),
        db.country_ids@.len() * db.events@.len() <= usize::MAX,
    ensures
        forall|i: int| 0 <= i < out@.len() ==> from_first(*db, avg, #[trigger] out@[i]),
        forall|k: int| is_first(*db, avg, k) ==> listed(*db, avg, out@, k),
        forall|a: int, b: int|
            0 <= a < b < out@.len() ==> out@[a].0 < out@[b].0 || (out@[a].0 == out@[b].0 && out@[a].1
                < out@[b].1),
{
    let ne = db.events.len();
    let size = db.country_ids.len() * ne;
    let days = comp_start_days(db);
    let mut table: Vec<Option<Candidate>> = Vec::new();
    let mut s: usize = 0;
    while s < size
        invariant
            s <= size,
            table@.len() == s,
            forall|q: int| 0 <= q < s ==> #[trigger] table@[q] is None,
        decreases size - s,
    {
        table.push(None);
        s = s + 1;
    }
    proof {
        assert(table_ok(*db, avg, table@, 0));
    }
    let mut k: usize = 0;
    while k < db.rows.len()
        invariant
            db.wf(),
            ne == db.events@.len(),
            size == db.country_ids@.len() * ne,
            days@.len() == db.comps@.len(),
            forall|c: int| 0 <= c < db.comps@.len() ==> #[trigger] days@[c] == start_day(*db, c),
            forall|c: int| 0 <= c < days@.len() ==> (#[trigger] days@[c] matches Some(j) ==> 1_000_000 <= j <= 30_000_000),
            k <= db.rows@.len(),
            table@.len() == size,
            table_ok(*db, avg, table@, k as int),
            forall|q: int| 0 <= q < size ==> (#[trigger] table@[q] matches Some(c) ==> 1_000_000 <= c.jdn <= 30_000_000),
        decreases db.rows.len() - k,
    {
        let r = &db.rows[k];
        assert(db.rows@[k as int] == *r);
        let ghost kk: int = k as int;
        proof {
            lemma_slot_bound(r.country as int, r.event as int, db.country_ids@.len() as int, ne as int);
        }
        let slot = r.country * ne + r.event;
        let label = if avg { r.average_record } else { r.single_record };
        let value = if avg { r.average } else { r.best };
        let mut cand: Option<Candidate> = None;
        if let Some(l) = label {
            if let Some(is_wr) = record_level(&db.labels[l]) {
                if value > 0 {
                    if let Some(jdn) = days[r.comp] {
                        cand = Some(Candidate { jdn, is_wr, value, row: k });
                    }
                }
            }
        }
        assert(cand == cand_of(*db, kk, avg));
        let ghost old_table = table@;
        if let Some(nc) = cand {
            let replace = match &table[slot] {
                None => true,
                Some(oc) => better(&nc, oc),
            };
            if replace {
                table.set(slot, Some(nc));
            }
        }
        proof {
            lemma_table_step(*db, avg, old_table, table@, kk, slot as int);
        }
        k = k + 1;
    }
    let mut out: Vec<(usize, usize, FirstRecord)> = Vec::new();
    let mut s: usize = 0;
    while s < size
        invariant
            db.wf(),
            ne == db.events@.len(),
            size == db.country_ids@.len() * ne,
            s <= size,
            table@.len() == size,
            table_ok(*db, avg, table@, db.rows@.len() as int),
            forall|q: int| 0 <= q < size ==> (#[trigger] table@[q] matches Some(c) ==> 1_000_000 <= c.jdn <= 30_000_000),
            forall|i: int| 0 <= i < out@.len() ==> from_first(*db, avg, #[trigger] out@[i]),
            forall|i: int| 0 <= i < out@.len() ==> #[trigger] key_pos(out@[i], ne as int) < s,
            forall|i: int| 0 <= i < out@.len() ==> (#[trigger] out@[i]).1 < ne,
            forall|a: int, b: int| 0 <= a < b < out@.len() ==> key_pos(out@[a], ne as int) < key_pos(out@[b], ne as int),
            forall|q: int| 0 <= q < s ==> (#[trigger] table@[q] matches Some(c) ==> listed(*db, avg, out@, c.row as int)),
        decreases size - s,
    {
        match table[s] {
            Some(c) => {
                let r = &db.rows[c.row];
                assert(db.rows@[c.row as int] == *r);
                let f = describe(db, &c);
                let ghost before = out@;
                out.push((r.country, r.event, f));
                proof {
                    let e = out@.last();
                    let kc = c.row as int;
                    assert(cand_of(*db, kc, avg) == Some(c));
                    assert forall|j: int|
                        0 <= j < db.rows@.len() && j != kc && same_slot(*db, j, kc) && #[trigger] cand_of(*db, j, avg) is Some
                            implies if j < kc {
                            beats(cand_of(*db, kc, avg).unwrap(), cand_of(*db, j, avg).unwrap())
                        } else {
                            !beats(cand_of(*db, j, avg).unwrap(), cand_of(*db, kc, avg).unwrap())
                        } by {
                        assert(slot_of(*db, j) == s);
                    }
                    assert(is_first(*db, avg, kc));
                    assert(entry_of(*db, avg, kc, e));
                    assert(from_first(*db, avg, e));
                    assert(listed(*db, avg, out@, kc)) by {
                        assert(out@[out@.len() - 1] == e);
                    }
                    assert forall|i: int| 0 <= i < out@.len() implies from_first(*db, avg, #[trigger] out@[i]) by {
                        if i < before.len() {
                            assert(out@[i] == before[i]);
                        }
                    }
                    assert forall|q: int| 0 <= q < s + 1 implies (#[trigger] table@[q] matches Some(c2) ==> listed(*db, avg, out@, c2.row as int)) by {
                        if q < s {
                            if let Some(c2) = table@[q] {
                                assert(listed(*db, avg, before, c2.row as int));
                                let i = choose|i: int| 0 <= i < before.len() && #[trigger] entry_of(*db, avg, c2.row as int, before[i]);
                                assert(out@[i] == before[i]);
                            }
                        }
                    }
                }
            },
            None => {},
        }
        s = s + 1;
    }
    proof {
        assert forall|k: int| is_first(*db, avg, k) implies listed(*db, avg, out@, k) by {
            let sk = slot_of(*db, k);
            lemma_slot_bound(db.rows@[k].country as int, db.rows@[k].event as int, db.country_ids@.len() as int, ne as int);
            match table@[sk] {
                Some(c) => {
                    if c.row as int != k {
                        assert(cand_of(*db, k, avg) is Some);
                        if (c.row as int) < k {
                            assert(same_slot(*db, c.row as int, k)) by {
                                lemma_slot_inj(db.rows@[k].country as int, db.rows@[k].event as int,
                                    db.rows@[c.row as int].country as int, db.rows@[c.row as int].event as int, ne as int);
                            }
                        } else {
                            assert(same_slot(*db, c.row as int, k)) by {
                                lemma_slot_inj(db.rows@[k].country as int, db.rows@[k].event as int,
                                    db.rows@[c.row as int].country as int, db.rows@[c.row as int].event as int, ne as int);
                            }
                        }
                    }
                },
                None => {
                    assert(cand_of(*db, k, avg) is Some);
                },
            }
        }
        assert forall|a: int, b: int| 0 <= a < b < out@.len() implies out@[a].0 < out@[b].0 || (out@[a].0 == out@[b].0
            && out@[a].1 < out@[b].1) by {
            assert(key_pos(out@[a], ne as int) < key_pos(out@[b], ne as int));
            lemma_slot_order(out@[a].0 as int, out@[a].1 as int, out@[b].0 as int, out@[b].1 as int, ne as int);
        }
    }
    out
}

/// The WCA's event display order.
pub open spec fn wca_order() -> Seq<Seq<char>> {
    seq![
        "333"@, "222"@, "444"@, "555"@, "666"@, "777"@, "333bf"@, "333fm"@, "333oh"@, "clock"@, "minx"@,
        "pyram"@, "skewb"@, "sq1"@, "444bf"@, "555bf"@, "333mbf"@, "333mbo"@, "333ft"@, "magic"@, "mmagic"@,
    ]
}

fn wca_order_list() -> (v: Vec<&'static str>)
    ensures
        v@.len() == wca_order().len(),
        forall|i: int| 0 <= i < v@.len() ==> (#[trigger] v@[i])@ == wca_order()[i],
{
    let v = vec![
        "333", "222", "444", "555", "666", "777", "333bf", "333fm", "333oh", "clock", "minx", "pyram", "skewb",
        "sq1", "444bf", "555bf", "333mbf", "333mbo", "333ft", "magic", "mmagic",
    ];
    v
}

/// Event `e` has an entry in one of the tables.
pub open spec fn has_entries(single: Seq<(usize, usize, FirstRecord)>, average: Seq<(usize, usize, FirstRecord)>, e: int) -> bool {
    ||| exists|i: int| 0 <= i < single.len() && #[trigger] single[i].1 == e
    ||| exists|i: int| 0 <= i < average.len() && #[trigger] average[i].1 == e
}

/// Country `c` has an entry in either table.
pub open spec fn has_country(single: Seq<(usize, usize, FirstRecord)>, average: Seq<(usize, usize, FirstRecord)>, c: int) -> bool {
    ||| exists|i: int| 0 <= i < single.len() && #[trigger] single[i].0 == c
    ||| exists|i: int| 0 <= i < average.len() && #[trigger] average[i].0 == c
}

/// The name shown for country `c`: its name where the countries file has
/// one, else its id.
pub open spec fn country_label(db: IndexedDb, c: int) -> Seq<char> {
    match db.country_names@[c] {
        Some(name) => name@,
        None => db.country_ids@[c]@,
    }
}

/// (id, shown name) of every country among the first `n` that the countries
/// file lists or that has an entry, in country order.
pub open spec fn country_rows(
    db: IndexedDb,
    single: Seq<(usize, usize, FirstRecord)>,
    average: Seq<(usize, usize, FirstRecord)>,
    n: int,
) -> Seq<(Seq<char>, Seq<char>)>
    decreases n,
{
    if n <= 0 {
        Seq::empty()
    } else {
        let prev = country_rows(db, single, average, n - 1);
        if db.country_names@[n - 1] is Some || has_country(single, average, n - 1) {
            prev.push((db.country_ids@[n - 1]@, country_label(db, n - 1)))
        } else {
            prev
        }
    }
}

/// The country table of the output: each country of the countries file with
/// its name, and each other country with an entry under its own id.
pub fn country_table(
    db: &IndexedDb,
    single: &Vec<(usize, usize, FirstRecord)>,
    average: &Vec<(usize, usize, FirstRecord)>,
) -> (r: Vec<(String, String)>)
    requires
        db.wf(),
    ensures
        r@.map_values(|e: (String, String)| (e.0@, e.1@)) == country_rows(
            *db,
            single@,
            average@,
            db.country_ids@.len() as int,
        ),
{
    let mut r: Vec<(String, String)> = Vec::new();
    let mut c: usize = 0;
    while c < db.country_ids.len()
        invariant
            db.wf(),
            c <= db.country_ids@.len(),
            r@.map_values(|e: (String, String)| (e.0@, e.1@)) == country_rows(*db, single@, average@, c as int),
        decreases db.country_ids@.len() - c,
    {
        let mut found = false;
        let mut i: usize = 0;
        while i < single.len()
            invariant
                i <= single@.len(),
                found == exists|j: int| 0 <= j < i && #[trigger] single@[j].0 == c,
            decreases single.len() - i,
        {
            if single[i].0 == c {
                found = true;
            }
            i = i + 1;
        }
        let mut j: usize = 0;
        while j < average.len()
            invariant
                j <= average@.len(),
                found == ((exists|k: int| 0 <= k < single@.len() && #[trigger] single@[k].0 == c)
                    || exists|k: int| 0 <= k < j && #[trigger] average@[k].0 == c),
            decreases average.len() - j,
        {
            if average[j].0 == c {
                found = true;
            }
            j = j + 1;
        }
        let ghost prev = r@;
        match &db.country_names[c] {
            Some(name) => {
                r.push((db.country_ids[c].clone(), name.clone()));
            },
            None => {
                if found {
                    r.push((db.country_ids[c].clone(), db.country_ids[c].clone()));
                }
            },
        }
        proof {
            assert(found == has_country(single@, average@, c as int));
            assert(r@.map_values(|e: (String, String)| (e.0@, e.1@)) =~= country_rows(*db, single@, average@, c + 1));
        }
        c = c + 1;
    }
    r
}

/// Whether each event has an entry in either table.
pub fn present_events(n_events: usize, single: &Vec<(usize, usize, FirstRecord)>, average: &Vec<(usize, usize, FirstRecord)>) -> (r: Vec<bool>)
    ensures
        r@.len() == n_events,
        forall|e: int| 0 <= e < n_events ==> #[trigger] r@[e] == has_entries(single@, average@, e),
{
    let mut r: Vec<bool> = Vec::new();
    let mut e: usize = 0;
    while e < n_events
        invariant
            e <= n_events,
            r@.len() == e,
            forall|q: int| 0 <= q < e ==> #[trigger] r@[q] == has_entries(single@, average@, q),
        decreases n_events - e,
    {
        let mut found = false;
        let mut i: usize = 0;
        while i < single.len()
            invariant
                i <= single@.len(),
                found == exists|j: int| 0 <= j < i && #[trigger] single@[j].1 == e,
            decreases single.len() - i,
        {
            if single[i].1 == e {
                found = true;
            }
            i = i + 1;
        }
        let mut i: usize = 0;
        while i < average.len()
            invariant
                i <= average@.len(),
                found == ((exists|j: int| 0 <= j < single@.len() && #[trigger] single@[j].1 == e) || exists|j: int|
                    0 <= j < i && #[trigger] average@[j].1 == e),
            decreases average.len() - i,
        {
            if average[i].1 == e {
                found = true;
            }
            i = i + 1;
        }
        r.push(found);
        e = e + 1;
    }
    r
}

/// Some event marked present has id `id`.
pub open spec fn id_present(db: IndexedDb, present: Seq<bool>, id: Seq<char>) -> bool {
    exists|e: int| 0 <= e < db.events@.len() && present[e] && (#[trigger] db.events@[e])@ == id
}

/// The ids of the display order among the first `n` that are present.
pub open spec fn known_part(db: IndexedDb, present: Seq<bool>, n: int) -> Seq<Seq<char>>
    decreases n,
{
    if n <= 0 {
        Seq::empty()
    } else {
        let prev = known_part(db, present, n - 1);
        if id_present(db, present, wca_order()[n - 1]) {
            prev.push(wca_order()[n - 1])
        } else {
            prev
        }
    }
}

/// The ids of the present events among the first `n` positions that the
/// display order does not list.
pub open spec fn other_part(db: IndexedDb, present: Seq<bool>, n: int) -> Seq<Seq<char>>
    decreases n,
{
    if n <= 0 {
        Seq::empty()
    } else {
        let prev = other_part(db, present, n - 1);
        if present[n - 1] && !wca_order().contains(db.events@[n - 1]@) {
            prev.push(db.events@[n - 1]@)
        } else {
            prev
        }
    }
}

pub open spec fn texts(v: Seq<String>) -> Seq<Seq<char>> {
    Seq::new(v.len(), |i: int| v[i]@)
}

/// The present events' ids: those the display order lists, in that order,
/// then the others by position.
pub fn display_order(db: &IndexedDb, present: &Vec<bool>) -> (out: Vec<String>)
    requires
        present@.len() == db.events@.len(),
    ensures
        texts(out@) == known_part(*db, present@, wca_order().len() as int) + other_part(
            *db,
            present@,
            db.events@.len() as int,
        ),
{
    let order = wca_order_list();
    let mut out: Vec<String> = Vec::new();
    let mut i: usize = 0;
    while i < order.len()
        invariant
            present@.len() == db.events@.len(),
            order@.len() == wca_order().len(),
            forall|q: int| 0 <= q < order@.len() ==> (#[trigger] order@[q])@ == wca_order()[q],
            i <= order@.len(),
            texts(out@) == known_part(*db, present@, i as int),
        decreases order.len() - i,
    {
        let mut found = false;
        let mut e: usize = 0;
        while e < db.events.len()
            invariant
                present@.len() == db.events@.len(),
                e <= db.events@.len(),
                i < order@.len(),
                found == exists|q: int| 0 <= q < e && present@[q] && (#[trigger] db.events@[q])@ == order@[i as int]@,
            decreases db.events.len() - e,
        {
            if present[e] && str_is(&db.events[e], order[i]) {
                found = true;
            }
            e = e + 1;
        }
        assert(order@[i as int]@ == wca_order()[i as int]);
        if found {
            let ghost before = out@;
            out.push(String::from_str(order[i]));
            proof {
                assert(texts(out@) =~= texts(before).push(wca_order()[i as int]));
            }
        }
        i = i + 1;
    }
    let mut e: usize = 0;
    let ghost known = texts(out@);
    while e < db.events.len()
        invariant
            present@.len() == db.events@.len(),
            order@.len() == wca_order().len(),
            forall|q: int| 0 <= q < order@.len() ==> (#[trigger] order@[q])@ == wca_order()[q],
            e <= db.events@.len(),
            known == known_part(*db, present@, wca_order().len() as int),
            texts(out@) == known + other_part(*db, present@, e as int),
        decreases db.events.len() - e,
    {
        if present[e] {
            let mut listed = false;
            let mut i: usize = 0;
            while i < order.len()
                invariant
                    order@.len() == wca_order().len(),
                    forall|q: int| 0 <= q < order@.len() ==> (#[trigger] order@[q])@ == wca_order()[q],
                    i <= order@.len(),
                    e < db.events@.len(),
                    listed == exists|q: int| 0 <= q < i && wca_order()[q] == db.events@[e as int]@,
                decreases order.len() - i,
            {
                if str_is(&db.events[e], order[i]) {
                    listed = true;
                }
                i = i + 1;
            }
            proof {
                if listed {
                    let q = choose|q: int| 0 <= q < wca_order().len() && wca_order()[q] == db.events@[e as int]@;
                    assert(wca_order().contains(db.events@[e as int]@));
                } else {
                    assert(!wca_order().contains(db.events@[e as int]@));
                }
            }
            if !listed {
                let ghost before = out@;
                out.push(db.events[e].clone());
                proof {
                    assert(texts(out@) =~= texts(before).push(db.events@[e as int]@));
                    assert(known + other_part(*db, present@, e + 1) =~= (known + other_part(*db, present@, e as int)).push(
                        db.events@[e as int]@,
                    ));
                }
            }
        }
        e = e + 1;
    }
    out
}

} // verus!
