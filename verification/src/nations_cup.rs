//! Nations cup: in each event, every country with at least three ranked
//! competitors is scored by the sum of its three best personal records;
//! countries are listed by that sum.
use vstd::prelude::*;
use crate::index::{IndexedDb, RankRow, rank_entry, event_column, str_is_str};
use crate::ranks_export::{current_events, current_event_list};
use crate::relay::event_position;
use crate::sub_x::{first_position, lemma_first_position};
use crate::mbld::{table_keys, lemma_table_keys};
use crate::sort::{SortKey, sort_keys, sorted_keys, key_le};

verus! {

/// The rankings table an event is scored from: singles for Multi-Blind,
/// averages otherwise.
pub open spec fn cup_rows(db: IndexedDb, single: bool) -> Seq<RankRow> {
    if single { db.ranks_single@ } else { db.ranks_average@ }
}

/// Person `p`'s country and record in event `e`, where the person is in the
/// persons table and the record is positive.
pub open spec fn cup_entry(db: IndexedDb, e: int, single: bool, p: int) -> Option<(usize, i32)> {
    match rank_entry(cup_rows(db, single), p, e, cup_rows(db, single).len() as int) {
        Some(r) => match db.person_country@[p] {
            Some(c) => if r.best > 0 { Some((c, r.best)) } else { None },
            None => None,
        },
        None => None,
    }
}

pub open spec fn cup_table(db: IndexedDb, e: int, single: bool) -> Seq<Option<(usize, i32)>> {
    Seq::new(db.n_persons as nat, |p: int| cup_entry(db, e, single, p))
}

pub open spec fn member_key() -> spec_fn((usize, i32)) -> (i64, i64, i64) {
    |x: (usize, i32)| (x.0 as i64, x.1 as i64, 0i64)
}

/// Person `p` competes for country `c` in event `e`.
pub open spec fn in_country(db: IndexedDb, e: int, single: bool, c: int, p: int) -> bool {
    &&& 0 <= p < db.n_persons
    &&& cup_entry(db, e, single, p) is Some
    &&& cup_entry(db, e, single, p).unwrap().0 == c
}

/// Person `p` is ahead of person `q`: a better record, or the same record
/// and an earlier person position.
pub open spec fn ahead(db: IndexedDb, e: int, single: bool, p: int, q: int) -> bool {
    let vp = cup_entry(db, e, single, p).unwrap().1;
    let vq = cup_entry(db, e, single, q).unwrap().1;
    vp < vq || (vp == vq && p < q)
}

/// Country `c` has three distinct competitors `a`, `b`, `d`.
pub open spec fn three(db: IndexedDb, e: int, single: bool, c: int, a: int, b: int, d: int) -> bool {
    &&& in_country(db, e, single, c, a)
    &&& in_country(db, e, single, c, b)
    &&& in_country(db, e, single, c, d)
    &&& a != b && b != d && a != d
}

pub open spec fn qualifies(db: IndexedDb, e: int, single: bool, c: int) -> bool {
    exists|a: int, b: int, d: int| #[trigger] three(db, e, single, c, a, b, d)
}

/// `a`, `b`, `d` are country `c`'s three best competitors, in order.
pub open spec fn top3(db: IndexedDb, e: int, single: bool, c: int, a: int, b: int, d: int) -> bool {
    &&& in_country(db, e, single, c, a)
    &&& in_country(db, e, single, c, b)
    &&& in_country(db, e, single, c, d)
    &&& ahead(db, e, single, a, b)
    &&& ahead(db, e, single, b, d)
    &&& forall|q: int|
        in_country(db, e, single, c, q) && q != a && q != b && q != d ==> #[trigger] ahead(db, e, single, d, q)
}

/// A country's three best: (country, total, first, second, third).
pub type Top = (usize, i64, usize, usize, usize);

pub open spec fn top_ok(db: IndexedDb, e: int, single: bool, t: Top) -> bool {
    &&& top3(db, e, single, t.0 as int, t.2 as int, t.3 as int, t.4 as int)
    &&& t.1 == cup_entry(db, e, single, t.2 as int).unwrap().1 + cup_entry(db, e, single, t.3 as int).unwrap().1
        + cup_entry(db, e, single, t.4 as int).unwrap().1
}

pub open spec fn has_top(tops: Seq<Top>, c: int) -> bool {
    exists|i: int| 0 <= i < tops.len() && #[trigger] tops[i].0 == c
}

pub proof fn lemma_keys_complete<T>(tab: Seq<Option<T>>, key: spec_fn(T) -> (i64, i64, i64), n: int, p: int)
    requires
        0 <= p < n <= tab.len(),
        tab.len() < 0x1000_0000,
        tab[p] is Some,
    ensures
        table_keys(tab, key, n).contains((key(tab[p].unwrap()).0, key(tab[p].unwrap()).1, key(tab[p].unwrap()).2, p as i64, p as usize)),
    decreases n,
{
    let k = (key(tab[p].unwrap()).0, key(tab[p].unwrap()).1, key(tab[p].unwrap()).2, p as i64, p as usize);
    if p < n - 1 {
        lemma_keys_complete(tab, key, n - 1, p);
        let prev = table_keys(tab, key, n - 1);
        let j = choose|j: int| 0 <= j < prev.len() && prev[j] == k;
        assert(table_keys(tab, key, n)[j] == k);
    } else {
        let cur = table_keys(tab, key, n);
        assert(cur[cur.len() - 1] == k);
    }
}

/// In-order keys of the table name increasing persons.
proof fn lemma_keys_increasing<T>(tab: Seq<Option<T>>, key: spec_fn(T) -> (i64, i64, i64), n: int)
    requires
        0 <= n <= tab.len(),
        tab.len() < 0x1000_0000,
    ensures
        forall|a: int, b: int|
            0 <= a < b < table_keys(tab, key, n).len() ==> table_keys(tab, key, n)[a].4 < table_keys(tab, key, n)[b].4,
        forall|a: int| 0 <= a < table_keys(tab, key, n).len() ==> (table_keys(tab, key, n)[a].4 as int) < n,
    decreases n,
{
    if n > 0 {
        lemma_keys_increasing(tab, key, n - 1);
        let prev = table_keys(tab, key, n - 1);
        let cur = table_keys(tab, key, n);
        assert forall|a: int| 0 <= a < cur.len() implies (cur[a].4 as int) < n by {
            if a < prev.len() {
                assert(cur[a] == prev[a]);
            }
        }
        assert forall|a: int, b: int| 0 <= a < b < cur.len() implies cur[a].4 < cur[b].4 by {
            if b < prev.len() {
                assert(cur[a] == prev[a]);
                assert(cur[b] == prev[b]);
            } else {
                assert(cur[a] == prev[a]);
            }
        }
    }
}

/// The facts the group walk relies on: `sk` is the sorted, duplicate-free
/// arrangement of the member keys.
pub open spec fn keyed(db: IndexedDb, e: int, single: bool, tab: Seq<Option<(usize, i32)>>, keys: Seq<SortKey>, sk: Seq<SortKey>) -> bool {
    &&& tab == cup_table(db, e, single)
    &&& db.n_persons < 0x1000_0000
    &&& db.country_ids@.len() < 0x1000_0000
    &&& db.wf()
    &&& keys == table_keys(tab, member_key(), db.n_persons as int)
    &&& forall|j: int| 0 <= j < keys.len() ==> {
        let k = #[trigger] keys[j];
        &&& (k.4 as int) < db.n_persons
        &&& tab[k.4 as int] is Some
        &&& k.3 as int == k.4 as int
        &&& (k.0, k.1, k.2) == member_key()(tab[k.4 as int].unwrap())
    }
    &&& forall|j: int| 0 <= j < sk.len() ==> keys.contains(#[trigger] sk[j])
    &&& forall|j: int| 0 <= j < keys.len() ==> sk.contains(#[trigger] keys[j])
    &&& sorted_keys(sk)
    &&& forall|a: int, b: int| 0 <= a < b < sk.len() ==> sk[a] != sk[b]
}

/// Position `t` of `sk` holds person `sk[t].4`'s key.
proof fn lemma_at(db: IndexedDb, e: int, single: bool, tab: Seq<Option<(usize, i32)>>, keys: Seq<SortKey>, sk: Seq<SortKey>, t: int)
    requires
        keyed(db, e, single, tab, keys, sk),
        0 <= t < sk.len(),
    ensures
        ({
            let p = sk[t].4 as int;
            &&& 0 <= p < db.n_persons
            &&& cup_entry(db, e, single, p) is Some
            &&& sk[t].0 == cup_entry(db, e, single, p).unwrap().0 as i64
            &&& sk[t].1 == cup_entry(db, e, single, p).unwrap().1 as i64
            &&& cup_entry(db, e, single, p).unwrap().0 < 0x1000_0000
            &&& sk[t].2 == 0 && sk[t].3 == p
        }),
{
    assert(keys.contains(sk[t]));
    let j = choose|j: int| 0 <= j < keys.len() && keys[j] == sk[t];
    let p = sk[t].4 as int;
    assert(tab[p] == cup_entry(db, e, single, p));
    let x = cup_entry(db, e, single, p).unwrap();
    assert(db.person_country@[p] is Some && db.person_country@[p].unwrap() < db.country_ids@.len());
}

/// A competitor of country `c` has its key at some position of `sk`.
proof fn lemma_pos(db: IndexedDb, e: int, single: bool, tab: Seq<Option<(usize, i32)>>, keys: Seq<SortKey>, sk: Seq<SortKey>, c: int, a: int)
    requires
        keyed(db, e, single, tab, keys, sk),
        in_country(db, e, single, c, a),
    ensures
        exists|t: int| 0 <= t < sk.len() && sk[t].4 as int == a && #[trigger] sk[t].0 == c,
{
    assert(tab[a] == cup_entry(db, e, single, a));
    lemma_keys_complete(tab, member_key(), db.n_persons as int, a);
    let k = (member_key()(tab[a].unwrap()).0, member_key()(tab[a].unwrap()).1, member_key()(tab[a].unwrap()).2, a as i64, a as usize);
    let j = choose|j: int| 0 <= j < keys.len() && keys[j] == k;
    assert(sk.contains(keys[j]));
    let t = choose|t: int| 0 <= t < sk.len() && sk[t] == keys[j];
    assert(db.person_country@[a] is Some && db.person_country@[a].unwrap() < db.country_ids@.len());
    assert(sk[t].0 == c);
}

/// The group `sk[g..i)` is exactly the keys of country `sk[g].0`.
pub open spec fn group(sk: Seq<SortKey>, g: int, i: int) -> bool {
    &&& 0 <= g < i <= sk.len()
    &&& forall|t: int| g <= t < i ==> #[trigger] sk[t].0 == sk[g].0
    &&& g == 0 || sk[g - 1].0 < sk[g].0
    &&& i == sk.len() || sk[i].0 != sk[g].0
}

proof fn lemma_in_group(db: IndexedDb, e: int, single: bool, tab: Seq<Option<(usize, i32)>>, keys: Seq<SortKey>, sk: Seq<SortKey>, g: int, i: int, t: int)
    requires
        keyed(db, e, single, tab, keys, sk),
        group(sk, g, i),
        0 <= t < sk.len(),
        sk[t].0 == sk[g].0,
    ensures
        g <= t < i,
{
    if t < g {
        assert(key_le(sk[t], sk[g - 1]));
    } else if t >= i {
        assert(key_le(sk[i - 1], sk[i]));
        assert(key_le(sk[i], sk[t]));
    }
}

proof fn lemma_group_top(db: IndexedDb, e: int, single: bool, tab: Seq<Option<(usize, i32)>>, keys: Seq<SortKey>, sk: Seq<SortKey>, g: int, i: int)
    requires
        keyed(db, e, single, tab, keys, sk),
        group(sk, g, i),
        i - g >= 3,
    ensures
        top_ok(db, e, single, (sk[g].0 as usize, (sk[g].1 + sk[g + 1].1 + sk[g + 2].1) as i64, sk[g].4, sk[g + 1].4, sk[g + 2].4)),
        sk[g].0 as usize as int == sk[g].0,
{
    let c = sk[g].0 as int;
    lemma_at(db, e, single, tab, keys, sk, g);
    lemma_at(db, e, single, tab, keys, sk, g + 1);
    lemma_at(db, e, single, tab, keys, sk, g + 2);
    assert(sk[g + 1].0 == sk[g].0);
    assert(sk[g + 2].0 == sk[g].0);
    assert(key_le(sk[g], sk[g + 1]));
    assert(key_le(sk[g + 1], sk[g + 2]));
    assert(sk[g] != sk[g + 1]);
    assert(sk[g + 1] != sk[g + 2]);
    let a = sk[g].4 as int;
    let b = sk[g + 1].4 as int;
    let d = sk[g + 2].4 as int;
    assert forall|q: int|
        in_country(db, e, single, c, q) && q != a && q != b && q != d implies #[trigger] ahead(db, e, single, d, q) by {
        lemma_pos(db, e, single, tab, keys, sk, c, q);
        let t = choose|t: int| 0 <= t < sk.len() && sk[t].4 as int == q && #[trigger] sk[t].0 == c;
        lemma_in_group(db, e, single, tab, keys, sk, g, i, t);
        lemma_at(db, e, single, tab, keys, sk, t);
        assert(t != g && t != g + 1 && t != g + 2);
        assert(key_le(sk[g + 2], sk[t]));
        assert(sk[g + 2] != sk[t]);
    }
}

proof fn lemma_group_small(db: IndexedDb, e: int, single: bool, tab: Seq<Option<(usize, i32)>>, keys: Seq<SortKey>, sk: Seq<SortKey>, g: int, i: int)
    requires
        keyed(db, e, single, tab, keys, sk),
        group(sk, g, i),
        i - g < 3,
    ensures
        !qualifies(db, e, single, sk[g].0 as int),
{
    let c = sk[g].0 as int;
    if qualifies(db, e, single, c) {
        let (a, b, d) = choose|a: int, b: int, d: int| #[trigger] three(db, e, single, c, a, b, d);
        lemma_pos(db, e, single, tab, keys, sk, c, a);
        lemma_pos(db, e, single, tab, keys, sk, c, b);
        lemma_pos(db, e, single, tab, keys, sk, c, d);
        let ta = choose|t: int| 0 <= t < sk.len() && sk[t].4 as int == a && #[trigger] sk[t].0 == c;
        let tb = choose|t: int| 0 <= t < sk.len() && sk[t].4 as int == b && #[trigger] sk[t].0 == c;
        let td = choose|t: int| 0 <= t < sk.len() && sk[t].4 as int == d && #[trigger] sk[t].0 == c;
        lemma_in_group(db, e, single, tab, keys, sk, g, i, ta);
        lemma_in_group(db, e, single, tab, keys, sk, g, i, tb);
        lemma_in_group(db, e, single, tab, keys, sk, g, i, td);
        assert(ta != tb && tb != td && ta != td);
    }
}

/// Each country's three best in event `e`, for the countries with at least
/// three competitors, by country position.
pub fn country_tops(db: &IndexedDb, e: usize, single: bool) -> (tops: Vec<Top>)
    requires
        db.wf(),
        db.n_persons < 0x1000_0000,
        db.country_ids@.len() < 0x1000_0000,
    ensures
        forall|i: int| 0 <= i < tops@.len() ==> top_ok(*db, e as int, single, #[trigger] tops@[i]),
        forall|c: int| qualifies(*db, e as int, single, c) ==> has_top(tops@, c),
        forall|a: int, b: int| 0 <= a < b < tops@.len() ==> tops@[a].0 < tops@[b].0,
{
    let np = db.n_persons;
    let col = if single {
        event_column(&db.ranks_single, np, e)
    } else {
        event_column(&db.ranks_average, np, e)
    };
    let ghost tab = cup_table(*db, e as int, single);
    let mut keys: Vec<SortKey> = Vec::new();
    let mut p: usize = 0;
    while p < np
        invariant
            db.wf(),
            np == db.n_persons,
            col@.len() == np,
            forall|q: int| 0 <= q < np ==> #[trigger] col@[q] == rank_entry(cup_rows(*db, single), q, e as int, cup_rows(*db, single).len() as int),
            tab == cup_table(*db, e as int, single),
            p <= np,
            keys@ == table_keys(tab, member_key(), p as int),
        decreases np - p,
    {
        assert(col@[p as int] == rank_entry(cup_rows(*db, single), p as int, e as int, cup_rows(*db, single).len() as int));
        match col[p] {
            Some(r) => match db.person_country[p] {
                Some(c) => {
                    if r.best > 0 {
                        keys.push((c as i64, r.best as i64, 0, p as i64, p));
                    }
                },
                None => {},
            },
            None => {},
        }
        p = p + 1;
    }
    let sk = sort_keys(&keys);
    proof {
        crate::search::lemma_perm_members(keys@, sk@);
        lemma_table_keys(tab, member_key(), np as int);
        lemma_keys_increasing(tab, member_key(), np as int);
        crate::search::lemma_perm_distinct(keys@, sk@);
        assert(keyed(*db, e as int, single, tab, keys@, sk@));
    }
    let mut tops: Vec<Top> = Vec::new();
    let mut g: usize = 0;
    let mut i: usize = 0;
    while i < sk.len()
        invariant
            keyed(*db, e as int, single, tab, keys@, sk@),
            g <= i <= sk@.len(),
            i == sk@.len() ==> g == i,
            i < sk@.len() ==> forall|t: int| g <= t <= i ==> #[trigger] sk@[t].0 == sk@[g as int].0,
            0 < g < sk@.len() ==> sk@[g - 1].0 < sk@[g as int].0,
            forall|t: int| 0 <= t < tops@.len() ==> top_ok(*db, e as int, single, #[trigger] tops@[t]),
            forall|a: int, b: int| 0 <= a < b < tops@.len() ==> tops@[a].0 < tops@[b].0,
            g < sk@.len() ==> forall|t: int| 0 <= t < tops@.len() ==> (#[trigger] tops@[t].0 as int) < sk@[g as int].0,
            forall|t: int|
                0 <= t < g && qualifies(*db, e as int, single, (#[trigger] sk@[t]).0 as int) ==> has_top(tops@, sk@[t].0 as int),
        decreases sk.len() - i,
    {
        i = i + 1;
        if i == sk.len() || sk[i].0 != sk[g].0 {
            let ghost gg = g as int;
            let ghost ii = i as int;
            assert(group(sk@, gg, ii));
            let ghost old_tops = tops@;
            if i - g >= 3 {
                let p0 = sk[g].4;
                let p1 = sk[g + 1].4;
                let p2 = sk[g + 2].4;
                proof {
                    lemma_group_top(*db, e as int, single, tab, keys@, sk@, gg, ii);
                    lemma_at(*db, e as int, single, tab, keys@, sk@, gg);
                    lemma_at(*db, e as int, single, tab, keys@, sk@, gg + 1);
                    lemma_at(*db, e as int, single, tab, keys@, sk@, gg + 2);
                }
                let total = sk[g].1 + sk[g + 1].1 + sk[g + 2].1;
                let country = sk[g].0 as usize;
                tops.push((country, total, p0, p1, p2));
                proof {
                    assert(has_top(tops@, sk@[gg].0 as int)) by {
                        assert(tops@[tops@.len() - 1].0 == sk@[gg].0);
                    }
                }
            } else {
                proof {
                    lemma_group_small(*db, e as int, single, tab, keys@, sk@, gg, ii);
                }
            }
            proof {
                assert forall|t: int|
                    0 <= t < ii && qualifies(*db, e as int, single, (#[trigger] sk@[t]).0 as int) implies has_top(tops@, sk@[t].0 as int) by {
                    let c = sk@[t].0 as int;
                    if t < gg {
                        assert(has_top(old_tops, c));
                        let j = choose|j: int| 0 <= j < old_tops.len() && #[trigger] old_tops[j].0 == c;
                        assert(tops@[j] == old_tops[j]);
                    } else {
                        assert(sk@[t].0 == sk@[gg].0);
                    }
                }
                if ii < sk@.len() {
                    assert(key_le(sk@[ii - 1], sk@[ii]));
                    assert(sk@[ii - 1].0 == sk@[gg].0);
                }
            }
            g = i;
        }
    }
    proof {
        assert forall|c: int| qualifies(*db, e as int, single, c) implies has_top(tops@, c) by {
            let (a, b, d) = choose|a: int, b: int, d: int| #[trigger] three(*db, e as int, single, c, a, b, d);
            lemma_pos(*db, e as int, single, tab, keys@, sk@, c, a);
            let t = choose|t: int| 0 <= t < sk@.len() && sk@[t].4 as int == a && #[trigger] sk@[t].0 == c;
            assert(qualifies(*db, e as int, single, sk@[t].0 as int));
        }
    }
    tops
}

/// The competition of the first of the first `n` rows where person `p` got
/// `target` (positive) in event `e`, singles or averages.
pub open spec fn first_comp(db: IndexedDb, e: int, single: bool, p: int, target: i32, n: int) -> Option<usize>
    decreases n,
{
    if n <= 0 {
        None
    } else {
        let prev = first_comp(db, e, single, p, target, n - 1);
        let r = db.rows@[n - 1];
        let v = if single { r.best } else { r.average };
        if prev is None && r.event == e && r.person == p && v == target && v > 0 {
            Some(r.comp)
        } else {
            prev
        }
    }
}

/// A member of a country's team.
pub struct CupMember {
    pub name: String,
    pub person_id: String,
    pub avg_cs: i32,
    /// Competition where the record was set, empty when no result row shows it.
    pub comp: String,
}

/// A country's score in one event.
pub struct CupEntry {
    /// Position of the country in the country table.
    pub country_index: usize,
    pub country: String,
    pub total: i64,
    pub members: Vec<CupMember>,
}

pub open spec fn member_ok(db: IndexedDb, e: int, single: bool, p: int, m: CupMember) -> bool {
    let v = cup_entry(db, e, single, p).unwrap().1;
    &&& db.person_names@[p] is Some && m.name@ == db.person_names@[p].unwrap()@
    &&& m.person_id@ == db.person_ids@[p]@
    &&& m.avg_cs == v
    &&& m.comp@ == match first_comp(db, e, single, p, v, db.rows@.len() as int) {
        Some(c) => db.comp_ids@[c as int]@,
        None => Seq::<char>::empty(),
    }
}

/// Entry `en` is the score of top `t`.
pub open spec fn entry_ok(db: IndexedDb, e: int, single: bool, t: Top, en: CupEntry) -> bool {
    &&& top_ok(db, e, single, t)
    &&& en.country_index == t.0
    &&& en.country@ == db.country_ids@[t.0 as int]@
    &&& en.total == t.1
    &&& en.members@.len() == 3
    &&& member_ok(db, e, single, t.2 as int, en.members@[0])
    &&& member_ok(db, e, single, t.3 as int, en.members@[1])
    &&& member_ok(db, e, single, t.4 as int, en.members@[2])
}

pub open spec fn scores(db: IndexedDb, e: int, single: bool, en: CupEntry) -> bool {
    exists|t: Top| #[trigger] entry_ok(db, e, single, t, en)
}

pub open spec fn listed(out: Seq<CupEntry>, c: int) -> bool {
    exists|i: int| 0 <= i < out.len() && #[trigger] out[i].country_index == c
}

fn member(db: &IndexedDb, e: usize, single: bool, p: usize, v: i32, comps: &Vec<Option<usize>>) -> (m: CupMember)
    requires
        db.wf(),
        p < db.n_persons,
        cup_entry(*db, e as int, single, p as int) is Some,
        v == cup_entry(*db, e as int, single, p as int).unwrap().1,
        comps@.len() == db.n_persons,
        comps@[p as int] == first_comp(*db, e as int, single, p as int, v, db.rows@.len() as int),
        forall|q: int| 0 <= q < db.n_persons ==> (#[trigger] comps@[q] matches Some(c) ==> c < db.comp_ids@.len()),
    ensures
        member_ok(*db, e as int, single, p as int, m),
{
    assert(db.person_country@[p as int] is Some);
    let name = match &db.person_names[p] {
        Some(n) => n.clone(),
        None => String::new(),
    };
    let comp = match comps[p] {
        Some(c) => db.comp_ids[c].clone(),
        None => String::new(),
    };
    CupMember { name, person_id: db.person_ids[p].clone(), avg_cs: v, comp }
}

proof fn lemma_first_comp_bound(db: IndexedDb, e: int, single: bool, p: int, target: i32, n: int)
    requires
        db.wf(),
        0 <= n <= db.rows@.len(),
    ensures
        first_comp(db, e, single, p, target, n) matches Some(c) ==> c < db.comps@.len(),
    decreases n,
{
    if n > 0 {
        lemma_first_comp_bound(db, e, single, p, target, n - 1);
    }
}

/// `out` is the nations cup of event `e`: every country that qualifies, each
/// once with its team, by total and then country.
pub open spec fn cup_ok(db: IndexedDb, e: int, single: bool, out: Seq<CupEntry>) -> bool {
    &&& forall|i: int| 0 <= i < out.len() ==> scores(db, e, single, #[trigger] out[i])
    &&& forall|c: int| qualifies(db, e, single, c) ==> listed(out, c)
    &&& forall|a: int, b: int|
        0 <= a < b < out.len() ==> out[a].total < out[b].total || (out[a].total == out[b].total
            && out[a].country_index < out[b].country_index)
}

/// The nations cup of event `e`: each country with at least three ranked
/// competitors (singles for `single`, averages otherwise), with its three best
/// and their sum, ordered by the sum and then by country.
pub fn nations_cup(db: &IndexedDb, e: usize, single: bool) -> (out: Vec<CupEntry>)
    requires
        db.wf(),
        db.n_persons < 0x1000_0000,
        db.country_ids@.len() < 0x1000_0000,
    ensures
        cup_ok(*db, e as int, single, out@),
{
    let np = db.n_persons;
    let tops = country_tops(db, e, single);
    // What each team member's record is, to find where it was set.
    let mut target: Vec<Option<i32>> = Vec::new();
    let mut p: usize = 0;
    while p < np
        invariant
            p <= np,
            target@.len() == p,
            forall|q: int| 0 <= q < p ==> #[trigger] target@[q] is None,
        decreases np - p,
    {
        target.push(None);
        p = p + 1;
    }
    let mut i: usize = 0;
    while i < tops.len()
        invariant
            db.wf(),
            np == db.n_persons,
            target@.len() == np,
            forall|t: int| 0 <= t < tops@.len() ==> top_ok(*db, e as int, single, #[trigger] tops@[t]),
            forall|q: int| 0 <= q < np ==> (#[trigger] target@[q] matches Some(v) ==> cup_entry(*db, e as int, single, q) is Some
                && v == cup_entry(*db, e as int, single, q).unwrap().1),
            i <= tops@.len(),
            forall|t: int| 0 <= t < i ==> target@[tops@[t].2 as int] is Some && target@[tops@[t].3 as int] is Some
                && #[trigger] target@[tops@[t].4 as int] is Some,
        decreases tops.len() - i,
    {
        let t = tops[i];
        assert(top_ok(*db, e as int, single, t));
        let ghost before = target@;
        let v2 = cup_value(db, e, single, t.2);
        target.set(t.2, Some(v2));
        let v3 = cup_value(db, e, single, t.3);
        target.set(t.3, Some(v3));
        let v4 = cup_value(db, e, single, t.4);
        target.set(t.4, Some(v4));
        proof {
            assert forall|u: int| 0 <= u < i + 1 implies target@[tops@[u].2 as int] is Some && target@[tops@[u].3 as int] is Some
                && #[trigger] target@[tops@[u].4 as int] is Some by {
                if u < i {
                    assert(before[tops@[u].2 as int] is Some);
                    assert(before[tops@[u].3 as int] is Some);
                    assert(before[tops@[u].4 as int] is Some);
                }
            }
        }
        i = i + 1;
    }
    let mut comps: Vec<Option<usize>> = Vec::new();
    let mut p: usize = 0;
    while p < np
        invariant
            p <= np,
            comps@.len() == p,
            forall|q: int| 0 <= q < p ==> #[trigger] comps@[q] is None,
        decreases np - p,
    {
        comps.push(None);
        p = p + 1;
    }
    let mut k: usize = 0;
    while k < db.rows.len()
        invariant
            db.wf(),
            np == db.n_persons,
            target@.len() == np,
            comps@.len() == np,
            k <= db.rows@.len(),
            forall|q: int| 0 <= q < np ==> (#[trigger] target@[q] matches Some(v) ==> comps@[q] == first_comp(*db, e as int, single, q, v, k as int)),
            forall|q: int| 0 <= q < np ==> (#[trigger] comps@[q] matches Some(c) ==> c < db.comp_ids@.len()),
        decreases db.rows.len() - k,
    {
        let r = &db.rows[k];
        assert(db.rows@[k as int] == *r);
        if r.event == e {
            let v = if single { r.best } else { r.average };
            match target[r.person] {
                Some(want) => {
                    if comps[r.person].is_none() && v == want && v > 0 {
                        comps.set(r.person, Some(r.comp));
                    }
                },
                None => {},
            }
        }
        k = k + 1;
    }
    // Order the teams by total, then country.
    let mut keys: Vec<SortKey> = Vec::new();
    let mut i: usize = 0;
    while i < tops.len()
        invariant
            i <= tops@.len(),
            keys@.len() == i,
            forall|j: int| 0 <= j < i ==> #[trigger] keys@[j] == (tops@[j].1, tops@[j].0 as i64, 0i64, 0i64, j as usize),
        decreases tops.len() - i,
    {
        keys.push((tops[i].1, tops[i].0 as i64, 0, 0, i));
        i = i + 1;
    }
    let sk = sort_keys(&keys);
    proof {
        crate::search::lemma_perm_members(keys@, sk@);
        crate::search::lemma_perm_distinct(keys@, sk@);
    }
    let mut out: Vec<CupEntry> = Vec::new();
    let mut i: usize = 0;
    while i < sk.len()
        invariant
            db.wf(),
            np == db.n_persons,
            target@.len() == np,
            comps@.len() == np,
            forall|q: int| 0 <= q < np ==> (#[trigger] target@[q] matches Some(v) ==> comps@[q] == first_comp(*db, e as int, single, q, v, db.rows@.len() as int)),
            forall|q: int| 0 <= q < np ==> (#[trigger] target@[q] matches Some(v) ==> cup_entry(*db, e as int, single, q) is Some
                && v == cup_entry(*db, e as int, single, q).unwrap().1),
            forall|q: int| 0 <= q < np ==> (#[trigger] comps@[q] matches Some(c) ==> c < db.comp_ids@.len()),
            forall|t: int| 0 <= t < tops@.len() ==> top_ok(*db, e as int, single, #[trigger] tops@[t]),
            forall|t: int| 0 <= t < tops@.len() ==> target@[tops@[t].2 as int] is Some && target@[tops@[t].3 as int] is Some
                && #[trigger] target@[tops@[t].4 as int] is Some,
            forall|j: int| 0 <= j < keys@.len() ==> #[trigger] keys@[j] == (tops@[j].1, tops@[j].0 as i64, 0i64, 0i64, j as usize),
            keys@.len() == tops@.len(),
            forall|j: int| 0 <= j < sk@.len() ==> keys@.contains(#[trigger] sk@[j]),
            sk@.len() == keys@.len(),
            i <= sk@.len(),
            out@.len() == i,
            forall|j: int| 0 <= j < i ==> entry_ok(*db, e as int, single, tops@[sk@[j].4 as int], #[trigger] out@[j]),
        decreases sk.len() - i,
    {
        let ti = sk[i].4;
        proof {
            assert(keys@.contains(sk@[i as int]));
            let j = choose|j: int| 0 <= j < keys@.len() && keys@[j] == sk@[i as int];
        }
        let t = tops[ti];
        assert(top_ok(*db, e as int, single, t));
        assert(target@[t.2 as int] is Some && target@[t.3 as int] is Some && target@[t.4 as int] is Some);
        let mut members: Vec<CupMember> = Vec::new();
        let v2 = cup_value(db, e, single, t.2);
        members.push(member(db, e, single, t.2, v2, &comps));
        let v3 = cup_value(db, e, single, t.3);
        members.push(member(db, e, single, t.3, v3, &comps));
        let v4 = cup_value(db, e, single, t.4);
        members.push(member(db, e, single, t.4, v4, &comps));
        out.push(CupEntry { country_index: t.0, country: db.country_ids[t.0].clone(), total: t.1, members });
        i = i + 1;
    }
    proof {
        assert forall|i: int| 0 <= i < out@.len() implies scores(*db, e as int, single, #[trigger] out@[i]) by {
            assert(entry_ok(*db, e as int, single, tops@[sk@[i].4 as int], out@[i]));
        }
        assert forall|c: int| qualifies(*db, e as int, single, c) implies listed(out@, c) by {
            assert(has_top(tops@, c));
            let j = choose|j: int| 0 <= j < tops@.len() && #[trigger] tops@[j].0 == c;
            let k = keys@[j];
            crate::search::lemma_perm_members(keys@, sk@);
            assert(sk@.contains(k));
            let q = choose|q: int| 0 <= q < sk@.len() && sk@[q] == k;
            assert(out@[q].country_index == c);
        }
        assert forall|a: int, b: int| 0 <= a < b < out@.len() implies out@[a].total < out@[b].total || (out@[a].total
            == out@[b].total && out@[a].country_index < out@[b].country_index) by {
            assert(key_le(sk@[a], sk@[b]));
            assert(sk@[a] != sk@[b]);
            assert(keys@.contains(sk@[a]));
            assert(keys@.contains(sk@[b]));
            let ja = choose|j: int| 0 <= j < keys@.len() && keys@[j] == sk@[a];
            let jb = choose|j: int| 0 <= j < keys@.len() && keys@[j] == sk@[b];
            if sk@[a].1 == sk@[b].1 && sk@[a].0 == sk@[b].0 {
                // two tops of one country cannot be
                assert(ja != jb);
            }
        }
    }
    out
}

/// Person `p`'s record in the scored table.
fn cup_value(db: &IndexedDb, e: usize, single: bool, p: usize) -> (v: i32)
    requires
        db.wf(),
        p < db.n_persons,
        cup_entry(*db, e as int, single, p as int) is Some,
    ensures
        v == cup_entry(*db, e as int, single, p as int).unwrap().1,
{
    let rows = if single { &db.ranks_single } else { &db.ranks_average };
    let mut k: usize = rows.len();
    while k > 0
        invariant
            k <= rows@.len(),
            rows@ == cup_rows(*db, single),
            cup_entry(*db, e as int, single, p as int) is Some,
            rank_entry(rows@, p as int, e as int, k as int) == rank_entry(rows@, p as int, e as int, rows@.len() as int),
        decreases k,
    {
        if rows[k - 1].person == p && rows[k - 1].event == e {
            return rows[k - 1].best;
        }
        k = k - 1;
    }
    0
}

/// The nations cup of every current event, in the order of the current
/// events; Multi-Blind is scored by singles, the others by averages, and an
/// event absent from the export has no teams.
pub fn nations_cup_all(db: &IndexedDb) -> (out: Vec<(&'static str, Vec<CupEntry>)>)
    requires
        db.wf(),
        db.n_persons < 0x1000_0000,
        db.country_ids@.len() < 0x1000_0000,
    ensures
        out@.len() == 17,
        forall|i: int|
            0 <= i < 17 ==> {
                let id = current_events()[i];
                &&& (#[trigger] out@[i]).0 == id
                &&& match first_position(*db, id) {
                    Some(e) => cup_ok(*db, e, id@ == "333mbf"@, out@[i].1@),
                    None => out@[i].1@.len() == 0,
                }
            },
{
    let ids = current_event_list();
    let mut out: Vec<(&'static str, Vec<CupEntry>)> = Vec::new();
    let mut i: usize = 0;
    while i < ids.len()
        invariant
            db.wf(),
            db.n_persons < 0x1000_0000,
            db.country_ids@.len() < 0x1000_0000,
            ids@ == current_events(),
            ids@.len() == 17,
            i <= 17,
            out@.len() == i,
            forall|u: int|
                0 <= u < i ==> (#[trigger] out@[u]).0 == current_events()[u] && match first_position(*db, current_events()[u]) {
                    Some(e) => cup_ok(*db, e, current_events()[u]@ == "333mbf"@, out@[u].1@),
                    None => out@[u].1@.len() == 0,
                },
        decreases ids.len() - i,
    {
        let id = ids[i];
        let single = str_is_str(id, "333mbf");
        let entries = match event_position(db, id) {
            Some(e) => {
                proof {
                    lemma_first_position(*db, id, e as int);
                }
                nations_cup(db, e, single)
            },
            None => {
                proof {
                    if first_position(*db, id) is Some {
                        let q = choose|q: int| 0 <= q < db.events@.len() && #[trigger] db.events@[q]@ == id@;
                        assert(db.events@[q]@ != id@);
                    }
                }
                Vec::new()
            },
        };
        out.push((id, entries));
        i = i + 1;
    }
    out
}

} // verus!
