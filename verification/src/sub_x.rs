//! Sub-X counts: how many official singles (or averages) each person has
//! under a time threshold, ranked by count and then by personal best.
use vstd::prelude::*;
use crate::index::{IndexedDb, Row, RankRow, rank_entry, event_column};
use crate::relay::{event_position, unknown_id};
use crate::mbld::{table_keys, lemma_table_keys};
use crate::sort::{SortKey, sort_keys, sorted_keys};
use crate::models::digits_value;

verus! {

/// A threshold: event, value in centiseconds, label.
pub struct SubXDef {
    pub event_id: &'static str,
    pub val_cs: i32,
    pub label: &'static str,
}

/// The single thresholds.
pub open spec fn single_defs_spec() -> Seq<SubXDef> {
    seq![
        SubXDef { event_id: "333", val_cs: 400, label: "sub-4" },
        SubXDef { event_id: "333", val_cs: 500, label: "sub-5" },
        SubXDef { event_id: "333", val_cs: 600, label: "sub-6" },
        SubXDef { event_id: "222", val_cs: 100, label: "sub-1" },
        SubXDef { event_id: "444", val_cs: 2000, label: "sub-20" },
        SubXDef { event_id: "555", val_cs: 4000, label: "sub-40" },
        SubXDef { event_id: "666", val_cs: 7000, label: "sub-1:10" },
        SubXDef { event_id: "777", val_cs: 10000, label: "sub-1:40" },
        SubXDef { event_id: "777", val_cs: 11000, label: "sub-1:50" },
        SubXDef { event_id: "777", val_cs: 12000, label: "sub-2:00" },
        SubXDef { event_id: "pyram", val_cs: 100, label: "sub-1" },
        SubXDef { event_id: "skewb", val_cs: 100, label: "sub-1" },
    ]
}

pub fn single_defs() -> (r: Vec<SubXDef>)
    ensures
        r@ == single_defs_spec(),
{
    vec![
        SubXDef { event_id: "333", val_cs: 400, label: "sub-4" },
        SubXDef { event_id: "333", val_cs: 500, label: "sub-5" },
        SubXDef { event_id: "333", val_cs: 600, label: "sub-6" },
        SubXDef { event_id: "222", val_cs: 100, label: "sub-1" },
        SubXDef { event_id: "444", val_cs: 2000, label: "sub-20" },
        SubXDef { event_id: "555", val_cs: 4000, label: "sub-40" },
        SubXDef { event_id: "666", val_cs: 7000, label: "sub-1:10" },
        SubXDef { event_id: "777", val_cs: 10000, label: "sub-1:40" },
        SubXDef { event_id: "777", val_cs: 11000, label: "sub-1:50" },
        SubXDef { event_id: "777", val_cs: 12000, label: "sub-2:00" },
        SubXDef { event_id: "pyram", val_cs: 100, label: "sub-1" },
        SubXDef { event_id: "skewb", val_cs: 100, label: "sub-1" },
    ]
}

/// The average thresholds (events with official averages).
pub open spec fn avg_defs_spec() -> Seq<SubXDef> {
    seq![
        SubXDef { event_id: "333", val_cs: 400, label: "sub-4" },
        SubXDef { event_id: "333", val_cs: 500, label: "sub-5" },
        SubXDef { event_id: "333", val_cs: 600, label: "sub-6" },
        SubXDef { event_id: "222", val_cs: 100, label: "sub-1" },
        SubXDef { event_id: "444", val_cs: 2000, label: "sub-20" },
        SubXDef { event_id: "555", val_cs: 4000, label: "sub-40" },
        SubXDef { event_id: "666", val_cs: 7000, label: "sub-1:10" },
        SubXDef { event_id: "777", val_cs: 10000, label: "sub-1:40" },
        SubXDef { event_id: "777", val_cs: 11000, label: "sub-1:50" },
        SubXDef { event_id: "777", val_cs: 12000, label: "sub-2:00" },
    ]
}

/// The time a threshold label names, in centiseconds: "sub-N" is N seconds,
/// "sub-M:SS" is M minutes and SS seconds.
pub open spec fn label_cs(l: Seq<char>) -> int {
    let n = l.len() as int;
    if n >= 8 && l[n - 3] == ':' {
        digits_value(l.subrange(4, n - 3)) * 6000 + digits_value(l.subrange(n - 2, n)) * 100
    } else {
        digits_value(l.subrange(4, n)) * 100
    }
}

/// Every threshold's value is the time its label names, and the thresholds
/// of one event are listed from the fastest up.
pub open spec fn defs_labelled(defs: Seq<SubXDef>) -> bool {
    &&& forall|i: int| 0 <= i < defs.len() ==> (#[trigger] defs[i]).val_cs == label_cs(defs[i].label@)
    &&& forall|i: int, j: int|
        0 <= i < j < defs.len() && (#[trigger] defs[i]).event_id@ == (#[trigger] defs[j]).event_id@ ==> defs[i].val_cs
            < defs[j].val_cs
}

proof fn lemma_digits(s: Seq<char>)
    requires
        1 <= s.len() <= 2,
    ensures
        digits_value(s) == if s.len() == 1 {
            (s[0] as u32 - 48) as int
        } else {
            (s[0] as u32 - 48) * 10 + (s[1] as u32 - 48)
        },
{
    let e = Seq::<char>::empty();
    assert(digits_value(e) == 0);
    if s.len() == 1 {
        assert(s.drop_last() =~= e);
        assert(s.last() == s[0]);
    } else {
        let one = seq![s[0]];
        assert(one.drop_last() =~= e);
        assert(one.last() == s[0]);
        assert(digits_value(one) == (s[0] as u32 - 48));
        assert(s.drop_last() =~= one);
        assert(s.last() == s[1]);
    }
}

/// The sub-X thresholds agree with their labels ("sub-5" is 500 cs, "sub-1:10"
/// is 7000 cs), and each event's thresholds rise in list order.
pub proof fn lemma_thresholds_match_labels()
    ensures
        defs_labelled(single_defs_spec()),
        defs_labelled(avg_defs_spec()),
{
    reveal_strlit("sub-4");
    reveal_strlit("sub-5");
    reveal_strlit("sub-6");
    reveal_strlit("sub-1");
    reveal_strlit("sub-20");
    reveal_strlit("sub-40");
    reveal_strlit("sub-1:10");
    reveal_strlit("sub-1:40");
    reveal_strlit("sub-1:50");
    reveal_strlit("sub-2:00");
    reveal_strlit("333");
    reveal_strlit("222");
    reveal_strlit("444");
    reveal_strlit("555");
    reveal_strlit("666");
    reveal_strlit("777");
    reveal_strlit("pyram");
    reveal_strlit("skewb");
    lemma_digits("sub-4"@.subrange(4, 5));
    lemma_digits("sub-5"@.subrange(4, 5));
    lemma_digits("sub-6"@.subrange(4, 5));
    lemma_digits("sub-1"@.subrange(4, 5));
    lemma_digits("sub-20"@.subrange(4, 6));
    lemma_digits("sub-40"@.subrange(4, 6));
    lemma_digits("sub-1:10"@.subrange(4, 5));
    lemma_digits("sub-1:10"@.subrange(6, 8));
    lemma_digits("sub-1:40"@.subrange(4, 5));
    lemma_digits("sub-1:40"@.subrange(6, 8));
    lemma_digits("sub-1:50"@.subrange(4, 5));
    lemma_digits("sub-1:50"@.subrange(6, 8));
    lemma_digits("sub-2:00"@.subrange(4, 5));
    lemma_digits("sub-2:00"@.subrange(6, 8));
    assert("333"@[0] != "222"@[0] && "333"@[0] != "444"@[0] && "333"@[0] != "555"@[0] && "333"@[0] != "666"@[0]
        && "333"@[0] != "777"@[0] && "333"@[0] != "pyram"@[0] && "333"@[0] != "skewb"@[0]);
    assert("222"@[0] != "444"@[0] && "222"@[0] != "555"@[0] && "222"@[0] != "666"@[0] && "222"@[0] != "777"@[0]
        && "222"@[0] != "pyram"@[0] && "222"@[0] != "skewb"@[0]);
    assert("444"@[0] != "555"@[0] && "444"@[0] != "666"@[0] && "444"@[0] != "777"@[0] && "444"@[0] != "pyram"@[0]
        && "444"@[0] != "skewb"@[0]);
    assert("555"@[0] != "666"@[0] && "555"@[0] != "777"@[0] && "555"@[0] != "pyram"@[0] && "555"@[0] != "skewb"@[0]);
    assert("666"@[0] != "777"@[0] && "666"@[0] != "pyram"@[0] && "666"@[0] != "skewb"@[0]);
    assert("777"@[0] != "pyram"@[0] && "777"@[0] != "skewb"@[0] && "pyram"@[0] != "skewb"@[0]);
}

pub fn avg_defs() -> (r: Vec<SubXDef>)
    ensures
        r@ == avg_defs_spec(),
{
    vec![
        SubXDef { event_id: "333", val_cs: 400, label: "sub-4" },
        SubXDef { event_id: "333", val_cs: 500, label: "sub-5" },
        SubXDef { event_id: "333", val_cs: 600, label: "sub-6" },
        SubXDef { event_id: "222", val_cs: 100, label: "sub-1" },
        SubXDef { event_id: "444", val_cs: 2000, label: "sub-20" },
        SubXDef { event_id: "555", val_cs: 4000, label: "sub-40" },
        SubXDef { event_id: "666", val_cs: 7000, label: "sub-1:10" },
        SubXDef { event_id: "777", val_cs: 10000, label: "sub-1:40" },
        SubXDef { event_id: "777", val_cs: 11000, label: "sub-1:50" },
        SubXDef { event_id: "777", val_cs: 12000, label: "sub-2:00" },
    ]
}

/// Number of the first `n` attempts that are valid (positive) and under
/// `thresh`.
pub open spec fn count_under(att: Seq<i32>, thresh: int, n: int) -> nat
    decreases n,
{
    if n <= 0 {
        0
    } else {
        count_under(att, thresh, n - 1) + if 0 < att[n - 1] && att[n - 1] < thresh { 1nat } else { 0nat }
    }
}

/// The attempts a single counts are exactly the solved ones under the
/// threshold: the count over the first `n` attempts is the number of those
/// attempts that are positive and below `thresh`.
pub proof fn lemma_count_under_filter(att: Seq<i32>, thresh: int, n: int)
    requires
        0 <= n <= att.len(),
    ensures
        count_under(att, thresh, n) == att.take(n).filter(|x: i32| 0 < x && x < thresh).len(),
    decreases n,
{
    reveal(Seq::filter);
    if n > 0 {
        lemma_count_under_filter(att, thresh, n - 1);
        assert(att.take(n).drop_last() =~= att.take(n - 1));
        assert(att.take(n).last() == att[n - 1]);
    }
}

/// What row `r` adds to its person's count: its attempts under the threshold
/// for singles, one for an average under it.
pub open spec fn row_hits(r: Row, thresh: int, single: bool) -> nat {
    if single {
        match r.attempts {
            Some(att) => count_under(att@, thresh, att@.len() as int),
            None => 0,
        }
    } else if 0 < r.average && r.average < thresh {
        1
    } else {
        0
    }
}

/// Person `p`'s count over the first `n` rows of event `e`.
pub open spec fn hits(db: IndexedDb, e: int, thresh: int, single: bool, p: int, n: int) -> nat
    decreases n,
{
    if n <= 0 {
        0
    } else {
        hits(db, e, thresh, single, p, n - 1) + if db.rows@[n - 1].event == e && db.rows@[n - 1].person == p {
            row_hits(db.rows@[n - 1], thresh, single)
        } else {
            0nat
        }
    }
}

/// The most a row can add to a count: one for its average and one per attempt.
pub open spec fn row_weight(r: Row) -> nat {
    1 + match r.attempts {
        Some(a) => a@.len(),
        None => 0,
    }
}

/// Total weight of the first `n` rows.
pub open spec fn weight(db: IndexedDb, n: int) -> nat
    decreases n,
{
    if n <= 0 { 0 } else { weight(db, n - 1) + row_weight(db.rows@[n - 1]) }
}

/// Counts fit a `u32`, the type they are kept in: rows and attempts together
/// number no more than `u32::MAX`.
pub open spec fn counts_fit(db: IndexedDb) -> bool {
    weight(db, db.rows@.len() as int) <= u32::MAX
}

pub proof fn lemma_weight_mono(db: IndexedDb, j: int, n: int)
    requires
        0 <= j <= n,
    ensures
        weight(db, j) <= weight(db, n),
    decreases n,
{
    if n > j {
        lemma_weight_mono(db, j, n - 1);
    }
}

/// Person `p`'s personal best in event `e` from the single (or average)
/// rankings, 0 when absent.
pub open spec fn pb_of(db: IndexedDb, p: int, e: int, single: bool) -> i32 {
    let rows = if single { db.ranks_single@ } else { db.ranks_average@ };
    match rank_entry(rows, p, e, rows.len() as int) {
        Some(r) => r.best,
        None => 0,
    }
}

/// The persons of the persons table with a positive count, each with the
/// count and personal best.
pub open spec fn count_table(db: IndexedDb, e: int, thresh: int, single: bool) -> Seq<Option<(u32, i32)>> {
    Seq::new(
        db.n_persons as nat,
        |p: int|
            if db.person_names@[p] is Some && hits(db, e, thresh, single, p, db.rows@.len() as int) > 0 {
                Some((hits(db, e, thresh, single, p, db.rows@.len() as int) as u32, pb_of(db, p, e, single)))
            } else {
                None
            },
    )
}

/// Ordering of a counted person: higher count first, then lower personal best,
/// then the person.
pub open spec fn count_key() -> spec_fn((u32, i32)) -> (i64, i64, i64) {
    |x: (u32, i32)| ((-(x.0 as int)) as i64, x.1 as i64, 0i64)
}

/// One row of a sub-X ranking.
pub struct SubXEntry {
    pub id: String,
    pub name: String,
    pub country: String,
    pub count: u32,
    pub pb: i32,
}

/// The ranking lists the first 1000 persons of the ordered count table.
pub open spec fn sub_x_ok(db: IndexedDb, e: int, thresh: int, single: bool, out: Seq<SubXEntry>) -> bool {
    let tab = count_table(db, e, thresh, single);
    exists|sk: Seq<SortKey>| {
        &&& #[trigger] sorted_keys(sk)
        &&& sk.to_multiset() == table_keys(tab, count_key(), tab.len() as int).to_multiset()
        &&& out.len() == if sk.len() < 1000 { sk.len() as int } else { 1000 }
        &&& forall|i: int|
            0 <= i < out.len() ==> {
                let p = sk[i].4 as int;
                let en = #[trigger] out[i];
                &&& tab[p] is Some
                &&& en.id@ == db.person_ids@[p]@
                &&& db.person_names@[p] matches Some(nm) && en.name@ == nm@
                &&& db.person_country@[p] matches Some(c) && en.country@ == db.country_ids@[c as int]@
                &&& en.count == tab[p].unwrap().0
                &&& en.pb == tab[p].unwrap().1
            }
    }
}

fn count_attempts(att: &Vec<i32>, thresh: i32) -> (c: u32)
    requires
        att@.len() <= u32::MAX,
    ensures
        c as int == count_under(att@, thresh as int, att@.len() as int),
        c <= att@.len(),
{
    let mut c: u32 = 0;
    let mut i: usize = 0;
    while i < att.len()
        invariant
            att@.len() <= u32::MAX,
            i <= att@.len(),
            c as int == count_under(att@, thresh as int, i as int),
            c <= i,
        decreases att.len() - i,
    {
        if 0 < att[i] && att[i] < thresh {
            c = c + 1;
        }
        i = i + 1;
    }
    c
}

proof fn lemma_hits_bound(db: IndexedDb, e: int, thresh: int, single: bool, p: int, n: int)
    requires
        0 <= n <= db.rows@.len(),
    ensures
        hits(db, e, thresh, single, p, n) <= weight(db, n),
    decreases n,
{
    if n > 0 {
        lemma_hits_bound(db, e, thresh, single, p, n - 1);
        let r = db.rows@[n - 1];
        if single {
            if let Some(att) = r.attempts {
                lemma_count_under_bound(att@, thresh, att@.len() as int);
            }
        }
    }
}

proof fn lemma_count_under_bound(att: Seq<i32>, thresh: int, n: int)
    ensures
        count_under(att, thresh, n) <= if n < 0 { 0 } else { n },
    decreases n,
{
    if n > 0 {
        lemma_count_under_bound(att, thresh, n - 1);
    }
}

/// The sub-`thresh` ranking of event `e`, over singles or averages.
pub fn sub_x_ranking(db: &IndexedDb, e: usize, thresh: i32, single: bool) -> (out: Vec<SubXEntry>)
    requires
        db.wf(),
        counts_fit(*db),
        db.n_persons < 0x1000_0000,
    ensures
        sub_x_ok(*db, e as int, thresh as int, single, out@),
{
    let np = db.n_persons;
    let mut counts: Vec<u32> = Vec::new();
    let mut p: usize = 0;
    while p < np
        invariant
            p <= np,
            counts@.len() == p,
            forall|q: int| 0 <= q < p ==> #[trigger] counts@[q] == 0,
        decreases np - p,
    {
        counts.push(0);
        p = p + 1;
    }
    let mut k: usize = 0;
    while k < db.rows.len()
        invariant
            db.wf(),
            counts_fit(*db),
            np == db.n_persons,
            k <= db.rows@.len(),
            counts@.len() == np,
            forall|q: int| 0 <= q < np ==> #[trigger] counts@[q] as int == hits(*db, e as int, thresh as int, single, q, k as int),
        decreases db.rows.len() - k,
    {
        let r = &db.rows[k];
        assert(db.rows@[k as int] == *r);
        if r.event == e {
            proof {
                lemma_weight_mono(*db, k + 1, db.rows@.len() as int);
                assert(weight(*db, k + 1) == weight(*db, k as int) + row_weight(db.rows@[k as int]));
            }
            let c: u32 = if single {
                match &r.attempts {
                    Some(att) => count_attempts(att, thresh),
                    None => 0,
                }
            } else if 0 < r.average && r.average < thresh {
                1
            } else {
                0
            };
            proof {
                lemma_hits_bound(*db, e as int, thresh as int, single, r.person as int, k + 1);
                lemma_weight_mono(*db, k + 1, db.rows@.len() as int);
            }
            let p = r.person;
            counts.set(p, counts[p] + c);
        }
        k = k + 1;
    }
    let pbs = if single {
        event_column(&db.ranks_single, np, e)
    } else {
        event_column(&db.ranks_average, np, e)
    };
    let ghost tab = count_table(*db, e as int, thresh as int, single);
    let mut keys: Vec<SortKey> = Vec::new();
    let mut entries: Vec<Option<(u32, i32)>> = Vec::new();
    let mut p: usize = 0;
    while p < np
        invariant
            db.wf(),
            np == db.n_persons,
            np < 0x1000_0000,
            counts@.len() == np,
            forall|q: int| 0 <= q < np ==> #[trigger] counts@[q] as int == hits(*db, e as int, thresh as int, single, q, db.rows@.len() as int),
            pbs@.len() == np,
            forall|q: int| 0 <= q < np ==> #[trigger] pbs@[q] == rank_entry(
                if single { db.ranks_single@ } else { db.ranks_average@ },
                q,
                e as int,
                (if single { db.ranks_single@ } else { db.ranks_average@ }).len() as int,
            ),
            tab == count_table(*db, e as int, thresh as int, single),
            p <= np,
            keys@ == table_keys(tab, count_key(), p as int),
            entries@ == tab.subrange(0, p as int),
        decreases np - p,
    {
        let c = counts[p];
        let pb = match pbs[p] {
            Some(r) => r.best,
            None => 0,
        };
        if db.person_names[p].is_some() && c > 0 {
            keys.push((-(c as i64), pb as i64, 0, p as i64, p));
            entries.push(Some((c, pb)));
        } else {
            entries.push(None);
        }
        proof {
            assert(entries@ =~= tab.subrange(0, p + 1));
        }
        p = p + 1;
    }
    let sk = sort_keys(&keys);
    proof {
        assert(entries@ =~= tab);
        crate::search::lemma_perm_members(keys@, sk@);
        lemma_table_keys(tab, count_key(), np as int);
    }
    let n = if sk.len() < 1000 { sk.len() } else { 1000 };
    let mut out: Vec<SubXEntry> = Vec::new();
    let mut i: usize = 0;
    while i < n
        invariant
            db.wf(),
            np == db.n_persons,
            np < 0x1000_0000,
                entries@ == tab,
            tab.len() == np,
            keys@ == table_keys(tab, count_key(), np as int),
            forall|j: int| 0 <= j < keys@.len() ==> {
                let k = #[trigger] keys@[j];
                &&& (k.4 as int) < np
                &&& tab[k.4 as int] is Some
            },
            forall|j: int| 0 <= j < sk@.len() ==> keys@.contains(#[trigger] sk@[j]),
            forall|q: int| 0 <= q < np ==> (#[trigger] tab[q] is Some ==> db.person_names@[q] is Some),
            n <= sk@.len(),
            i <= n,
            out@.len() == i,
            forall|j: int|
                0 <= j < i ==> {
                    let p = sk@[j].4 as int;
                    let en = #[trigger] out@[j];
                    &&& tab[p] is Some
                    &&& en.id@ == db.person_ids@[p]@
                    &&& db.person_names@[p] matches Some(nm) && en.name@ == nm@
                    &&& db.person_country@[p] matches Some(c) && en.country@ == db.country_ids@[c as int]@
                    &&& en.count == tab[p].unwrap().0
                    &&& en.pb == tab[p].unwrap().1
                },
        decreases n - i,
    {
        let p = sk[i].4;
        proof {
            assert(keys@.contains(sk@[i as int]));
            let kj = choose|kj: int| 0 <= kj < keys@.len() && keys@[kj] == sk@[i as int];
        }
        let (count, pb) = match entries[p] {
            Some(x) => x,
            None => (0, 0),
        };
        let name = match &db.person_names[p] {
            Some(nm) => nm.clone(),
            None => String::new(),
        };
        let country = match db.person_country[p] {
            Some(c) => db.country_ids[c].clone(),
            None => String::new(),
        };
        out.push(SubXEntry { id: db.person_ids[p].clone(), name, country, count, pb });
        i = i + 1;
    }
    proof {
        assert(sorted_keys(sk@));
    }
    out
}

/// The ranking of a threshold given by event id; empty when the id names no
/// event.
pub fn sub_x_for(db: &IndexedDb, event_id: &str, thresh: i32, single: bool) -> (out: Vec<SubXEntry>)
    requires
        db.wf(),
        counts_fit(*db),
        db.n_persons < 0x1000_0000,
    ensures
        match first_position(*db, event_id) {
            Some(e) => sub_x_ok(*db, e, thresh as int, single, out@),
            None => out@.len() == 0,
        },
{
    match event_position(db, event_id) {
        Some(e) => {
            proof {
                lemma_first_position(*db, event_id, e as int);
            }
            sub_x_ranking(db, e, thresh, single)
        },
        None => {
            proof {
                if first_position(*db, event_id) is Some {
                    let q = choose|q: int| 0 <= q < db.events@.len() && #[trigger] db.events@[q]@ == event_id@;
                    assert(db.events@[q]@ != event_id@);
                }
            }
            Vec::new()
        },
    }
}

/// Position of the first event with id `id`.
pub open spec fn first_position(db: IndexedDb, id: &str) -> Option<int> {
    if exists|q: int| 0 <= q < db.events@.len() && #[trigger] db.events@[q]@ == id@ {
        Some(choose|q: int| 0 <= q < db.events@.len() && #[trigger] db.events@[q]@ == id@ && forall|r: int|
            0 <= r < q ==> (#[trigger] db.events@[r])@ != id@)
    } else {
        None
    }
}

pub proof fn lemma_first_position(db: IndexedDb, id: &str, e: int)
    requires
        0 <= e < db.events@.len(),
        db.events@[e]@ == id@,
        forall|q: int| 0 <= q < e ==> (#[trigger] db.events@[q])@ != id@,
    ensures
        first_position(db, id) == Some(e),
{
    assert(db.events@[e]@ == id@);
    let c = choose|q: int| 0 <= q < db.events@.len() && #[trigger] db.events@[q]@ == id@ && forall|r: int|
        0 <= r < q ==> (#[trigger] db.events@[r])@ != id@;
    if c < e {
        assert(db.events@[c]@ != id@);
    } else if c > e {
        assert(db.events@[e]@ != id@);
    }
}

/// One threshold's ranking.
pub struct SubXRanking {
    pub label: &'static str,
    pub val_cs: i32,
    pub entries: Vec<SubXEntry>,
}

/// An event's rankings: its single thresholds then its average thresholds,
/// each in definition order.
pub struct SubXEvent {
    pub event_id: &'static str,
    pub single: Vec<SubXRanking>,
    pub avg: Vec<SubXRanking>,
}

/// The event ids of the definitions, each once, in order of first appearance.
pub open spec fn first_seen(ids: Seq<&str>, n: int) -> Seq<&str>
    decreases n,
{
    if n <= 0 {
        Seq::empty()
    } else {
        let prev = first_seen(ids, n - 1);
        if exists|j: int| 0 <= j < prev.len() && (#[trigger] prev[j])@ == ids[n - 1]@ {
            prev
        } else {
            prev.push(ids[n - 1])
        }
    }
}

pub open spec fn def_ids(defs: Seq<SubXDef>) -> Seq<&'static str> {
    Seq::new(defs.len(), |i: int| defs[i].event_id)
}

/// The definitions of `defs` for event `id`, in order.
pub open spec fn defs_for(defs: Seq<SubXDef>, id: &str, n: int) -> Seq<SubXDef>
    decreases n,
{
    if n <= 0 {
        Seq::empty()
    } else {
        let prev = defs_for(defs, id, n - 1);
        if defs[n - 1].event_id@ == id@ {
            prev.push(defs[n - 1])
        } else {
            prev
        }
    }
}

/// `r` is the ranking of definition `d`.
pub open spec fn ranking_of(db: IndexedDb, d: SubXDef, single: bool, r: SubXRanking) -> bool {
    &&& r.label@ == d.label@
    &&& r.val_cs == d.val_cs
    &&& match first_position(db, d.event_id) {
        Some(e) => sub_x_ok(db, e, d.val_cs as int, single, r.entries@),
        None => r.entries@.len() == 0,
    }
}

pub open spec fn rankings_of(db: IndexedDb, defs: Seq<SubXDef>, single: bool, rs: Seq<SubXRanking>) -> bool {
    &&& rs.len() == defs.len()
    &&& forall|i: int| 0 <= i < rs.len() ==> ranking_of(db, defs[i], single, #[trigger] rs[i])
}

fn rankings_for(db: &IndexedDb, defs: &Vec<SubXDef>, id: &str, single: bool) -> (rs: Vec<SubXRanking>)
    requires
        db.wf(),
        counts_fit(*db),
        db.n_persons < 0x1000_0000,
    ensures
        rankings_of(*db, defs_for(defs@, id, defs@.len() as int), single, rs@),
{
    let mut rs: Vec<SubXRanking> = Vec::new();
    let mut i: usize = 0;
    while i < defs.len()
        invariant
            db.wf(),
            counts_fit(*db),
            db.n_persons < 0x1000_0000,
                i <= defs@.len(),
            rankings_of(*db, defs_for(defs@, id, i as int), single, rs@),
        decreases defs.len() - i,
    {
        let d = &defs[i];
        if crate::index::str_is_str(d.event_id, id) {
            let entries = sub_x_for(db, d.event_id, d.val_cs, single);
            let ghost before = rs@;
            rs.push(SubXRanking { label: d.label, val_cs: d.val_cs, entries });
            proof {
                assert forall|j: int| 0 <= j < rs@.len() implies ranking_of(*db, defs_for(defs@, id, i + 1)[j], single, #[trigger] rs@[j]) by {
                    if j < before.len() {
                        assert(rs@[j] == before[j]);
                    }
                }
            }
        }
        i = i + 1;
    }
    rs
}

/// Every event of the definitions with its rankings, events in order of
/// first appearance among the single then the average definitions.
pub fn sub_x_all(db: &IndexedDb) -> (out: Vec<SubXEvent>)
    requires
        db.wf(),
        counts_fit(*db),
        db.n_persons < 0x1000_0000,
    ensures
        ({
            let sd = single_defs_spec();
            let ad = avg_defs_spec();
            let ids = first_seen(def_ids(sd + ad), (sd.len() + ad.len()) as int);
            &&& out@.len() == ids.len()
            &&& forall|i: int| 0 <= i < out@.len() ==> {
                let ev = #[trigger] out@[i];
                &&& ev.event_id@ == ids[i]@
                &&& rankings_of(*db, defs_for(sd, ids[i], sd.len() as int), true, ev.single@)
                &&& rankings_of(*db, defs_for(ad, ids[i], ad.len() as int), false, ev.avg@)
            }
        }),
{
    let sd = single_defs();
    let ad = avg_defs();
    let mut all: Vec<&'static str> = Vec::new();
    let mut i: usize = 0;
    while i < sd.len()
        invariant
            i <= sd@.len(),
            all@.len() == i,
            forall|j: int| 0 <= j < i ==> #[trigger] all@[j] == sd@[j].event_id,
        decreases sd.len() - i,
    {
        all.push(sd[i].event_id);
        i = i + 1;
    }
    let mut i: usize = 0;
    while i < ad.len()
        invariant
            i <= ad@.len(),
            all@.len() == sd@.len() + i,
            forall|j: int| 0 <= j < sd@.len() ==> #[trigger] all@[j] == sd@[j].event_id,
            forall|j: int| sd@.len() <= j < sd@.len() + i ==> #[trigger] all@[j] == ad@[j - sd@.len()].event_id,
        decreases ad.len() - i,
    {
        all.push(ad[i].event_id);
        i = i + 1;
    }
    proof {
        assert forall|j: int| 0 <= j < all@.len() implies #[trigger] all@[j] == def_ids(sd@ + ad@)[j] by {
            if j < sd@.len() {
            } else {
                assert((sd@ + ad@)[j] == ad@[j - sd@.len()]);
            }
        }
        assert(all@ =~= def_ids(sd@ + ad@));
        assert(sd@ == single_defs_spec());
        assert(ad@ == avg_defs_spec());
    }
    let mut ids: Vec<&'static str> = Vec::new();
    let mut i: usize = 0;
    while i < all.len()
        invariant
            i <= all@.len(),
            ids@ == first_seen(all@, i as int),
        decreases all.len() - i,
    {
        let mut seen = false;
        let mut j: usize = 0;
        while j < ids.len()
            invariant
                j <= ids@.len(),
                i < all@.len(),
                seen == exists|q: int| 0 <= q < j && (#[trigger] ids@[q])@ == all@[i as int]@,
            decreases ids.len() - j,
        {
            if crate::index::str_is_str(ids[j], all[i]) {
                seen = true;
            }
            j = j + 1;
        }
        if !seen {
            ids.push(all[i]);
        }
        i = i + 1;
    }
    let mut out: Vec<SubXEvent> = Vec::new();
    let mut i: usize = 0;
    while i < ids.len()
        invariant
            db.wf(),
            counts_fit(*db),
            db.n_persons < 0x1000_0000,
                i <= ids@.len(),
            out@.len() == i,
            forall|j: int| 0 <= j < i ==> {
                let ev = #[trigger] out@[j];
                &&& ev.event_id@ == ids@[j]@
                &&& rankings_of(*db, defs_for(sd@, ids@[j], sd@.len() as int), true, ev.single@)
                &&& rankings_of(*db, defs_for(ad@, ids@[j], ad@.len() as int), false, ev.avg@)
            },
        decreases ids.len() - i,
    {
        let single = rankings_for(db, &sd, ids[i], true);
        let avg = rankings_for(db, &ad, ids[i], false);
        out.push(SubXEvent { event_id: ids[i], single, avg });
        i = i + 1;
    }
    out
}

} // verus!
