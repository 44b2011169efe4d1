//! Shares of two countries among the world rankings: for every event, the
//! ranked persons in world-rank order and, for each prefix of that order, how
//! many are from China and how many from the USA.
use vstd::prelude::*;
use crate::index::{IndexedDb, RankRow, rank_entry, event_column, str_is};
use crate::mbld::{table_keys, lemma_table_keys};
use crate::sort::{SortKey, sort_keys, sorted_keys};

verus! {

/// Multi-Blind events, which have no average ranking.
pub open spec fn is_multi_blind(id: Seq<char>) -> bool {
    id == "333mbf"@ || id == "333mbo"@
}

/// Event `e` has an average ranking with at least one entry.
pub open spec fn avg_covered(db: IndexedDb, e: int) -> bool {
    &&& !is_multi_blind(db.events@[e]@)
    &&& exists|p: int| 0 <= p < db.n_persons && #[trigger] rank_entry(db.ranks_average@, p, e, db.ranks_average@.len() as int) is Some
}

/// Person `p`'s world rank in event `e`: from the average ranking where the
/// event has one, else from the single ranking.
pub open spec fn world_rank_of(db: IndexedDb, e: int, p: int) -> Option<u32> {
    let rows = if avg_covered(db, e) { db.ranks_average@ } else { db.ranks_single@ };
    match rank_entry(rows, p, e, rows.len() as int) {
        Some(r) => Some(r.world_rank),
        None => None,
    }
}

pub open spec fn rank_table(db: IndexedDb, e: int) -> Seq<Option<u32>> {
    Seq::new(db.n_persons as nat, |p: int| world_rank_of(db, e, p))
}

pub open spec fn rank_key() -> spec_fn(u32) -> (i64, i64, i64) {
    |r: u32| (r as i64, 0i64, 0i64)
}

/// Person `p`'s current country is `name`.
pub open spec fn from_country(db: IndexedDb, p: int, name: Seq<char>) -> bool {
    db.person_country@[p] is Some && db.country_ids@[db.person_country@[p].unwrap() as int]@ == name
}

/// Of the persons at the first `n` positions of `sk`, how many are from
/// `name`.
pub open spec fn prefix_count(db: IndexedDb, sk: Seq<SortKey>, name: Seq<char>, n: int) -> int
    decreases n,
{
    if n <= 0 {
        0
    } else {
        prefix_count(db, sk, name, n - 1) + if from_country(db, sk[n - 1].4 as int, name) { 1int } else { 0int }
    }
}

/// One event's ranked persons and the running counts of the two countries.
pub struct CountryShare {
    pub event: usize,
    /// Number of ranked persons.
    pub total: usize,
    /// `china_cum[i]`: persons from China among the first `i` ranked.
    pub china_cum: Vec<u32>,
    /// `usa_cum[i]`: persons from the USA among the first `i` ranked.
    pub usa_cum: Vec<u32>,
}

pub open spec fn share_ok(db: IndexedDb, e: int, s: CountryShare) -> bool {
    let tab = rank_table(db, e);
    exists|sk: Seq<SortKey>| {
        &&& #[trigger] sorted_keys(sk)
        &&& sk.to_multiset() == table_keys(tab, rank_key(), tab.len() as int).to_multiset()
        &&& s.event == e
        &&& s.total == sk.len()
        &&& s.china_cum@.len() == sk.len() + 1
        &&& s.usa_cum@.len() == sk.len() + 1
        &&& forall|i: int| 0 <= i <= sk.len() ==> #[trigger] s.china_cum@[i] == prefix_count(db, sk, "China"@, i)
        &&& forall|i: int| 0 <= i <= sk.len() ==> #[trigger] s.usa_cum@[i] == prefix_count(db, sk, "USA"@, i)
    }
}

proof fn lemma_prefix_bound(db: IndexedDb, sk: Seq<SortKey>, name: Seq<char>, n: int)
    ensures
        0 <= prefix_count(db, sk, name, n) <= if n < 0 { 0 } else { n },
    decreases n,
{
    if n > 0 {
        lemma_prefix_bound(db, sk, name, n - 1);
    }
}

proof fn lemma_keys_len<T>(tab: Seq<Option<T>>, key: spec_fn(T) -> (i64, i64, i64), n: int)
    requires
        0 <= n,
    ensures
        table_keys(tab, key, n).len() <= n,
    decreases n,
{
    if n > 0 {
        lemma_keys_len(tab, key, n - 1);
    }
}

/// Ranked persons and running country counts of event `e`.
pub fn country_share(db: &IndexedDb, e: usize, china: &Vec<bool>, usa: &Vec<bool>) -> (s: CountryShare)
    requires
        db.wf(),
        db.n_persons < 0x1000_0000,
        e < db.events@.len(),
        china@.len() == db.country_ids@.len(),
        usa@.len() == db.country_ids@.len(),
        forall|c: int| 0 <= c < db.country_ids@.len() ==> #[trigger] china@[c] == (db.country_ids@[c]@ == "China"@),
        forall|c: int| 0 <= c < db.country_ids@.len() ==> #[trigger] usa@[c] == (db.country_ids@[c]@ == "USA"@),
    ensures
        share_ok(*db, e as int, s),
{
    let np = db.n_persons;
    let avg = event_column(&db.ranks_average, np, e);
    let multi = str_is(&db.events[e], "333mbf") || str_is(&db.events[e], "333mbo");
    let mut covered = false;
    let mut p: usize = 0;
    while p < np
        invariant
            np == db.n_persons,
            avg@.len() == np,
            forall|q: int| 0 <= q < np ==> #[trigger] avg@[q] == rank_entry(db.ranks_average@, q, e as int, db.ranks_average@.len() as int),
            p <= np,
            covered == exists|q: int| 0 <= q < p && #[trigger] rank_entry(db.ranks_average@, q, e as int, db.ranks_average@.len() as int) is Some,
        decreases np - p,
    {
        assert(avg@[p as int] == rank_entry(db.ranks_average@, p as int, e as int, db.ranks_average@.len() as int));
        if avg[p].is_some() {
            covered = true;
        }
        p = p + 1;
    }
    let use_avg = covered && !multi;
    assert(use_avg == avg_covered(*db, e as int));
    let col = if use_avg { avg } else { event_column(&db.ranks_single, np, e) };
    let ghost tab = rank_table(*db, e as int);
    let mut keys: Vec<SortKey> = Vec::new();
    let mut p: usize = 0;
    while p < np
        invariant
            db.wf(),
            np == db.n_persons,
            col@.len() == np,
            use_avg == avg_covered(*db, e as int),
            forall|q: int| 0 <= q < np ==> #[trigger] col@[q] == rank_entry(
                if use_avg { db.ranks_average@ } else { db.ranks_single@ },
                q,
                e as int,
                (if use_avg { db.ranks_average@ } else { db.ranks_single@ }).len() as int,
            ),
            tab == rank_table(*db, e as int),
            p <= np,
            keys@ == table_keys(tab, rank_key(), p as int),
        decreases np - p,
    {
        assert(col@[p as int] == rank_entry(
            if use_avg { db.ranks_average@ } else { db.ranks_single@ },
            p as int,
            e as int,
            (if use_avg { db.ranks_average@ } else { db.ranks_single@ }).len() as int,
        ));
        if let Some(r) = col[p] {
            keys.push((r.world_rank as i64, 0, 0, p as i64, p));
        }
        p = p + 1;
    }
    let sk = sort_keys(&keys);
    proof {
        crate::search::lemma_perm_members(keys@, sk@);
        lemma_table_keys(tab, rank_key(), np as int);
        lemma_keys_len(tab, rank_key(), np as int);
    }
    let n = sk.len();
    let mut china_cum: Vec<u32> = Vec::new();
    let mut usa_cum: Vec<u32> = Vec::new();
    china_cum.push(0);
    usa_cum.push(0);
    let mut cc: u32 = 0;
    let mut uc: u32 = 0;
    let mut i: usize = 0;
    while i < n
        invariant
            db.wf(),
            np == db.n_persons,
            np < 0x1000_0000,
            n == sk@.len(),
            n == keys@.len(),
            n <= np,
            china@.len() == db.country_ids@.len(),
            usa@.len() == db.country_ids@.len(),
            forall|c: int| 0 <= c < db.country_ids@.len() ==> #[trigger] china@[c] == (db.country_ids@[c]@ == "China"@),
            forall|c: int| 0 <= c < db.country_ids@.len() ==> #[trigger] usa@[c] == (db.country_ids@[c]@ == "USA"@),
            forall|j: int| 0 <= j < keys@.len() ==> #[trigger] keys@[j].4 < np,
            forall|j: int| 0 <= j < sk@.len() ==> keys@.contains(#[trigger] sk@[j]),
            i <= n,
            china_cum@.len() == i + 1,
            usa_cum@.len() == i + 1,
            cc == china_cum@[i as int],
            uc == usa_cum@[i as int],
            forall|j: int| 0 <= j <= i ==> #[trigger] china_cum@[j] == prefix_count(*db, sk@, "China"@, j),
            forall|j: int| 0 <= j <= i ==> #[trigger] usa_cum@[j] == prefix_count(*db, sk@, "USA"@, j),
        decreases n - i,
    {
        let q = sk[i].4;
        proof {
            assert(keys@.contains(sk@[i as int]));
            let j = choose|j: int| 0 <= j < keys@.len() && keys@[j] == sk@[i as int];
            assert(keys@[j].4 < np);
            lemma_prefix_bound(*db, sk@, "China"@, i as int);
            lemma_prefix_bound(*db, sk@, "USA"@, i as int);
        }
        let (is_china, is_usa) = match db.person_country[q] {
            Some(c) => (china[c], usa[c]),
            None => (false, false),
        };
        if is_china {
            cc = cc + 1;
        }
        if is_usa {
            uc = uc + 1;
        }
        china_cum.push(cc);
        usa_cum.push(uc);
        i = i + 1;
    }
    proof {
        assert(sorted_keys(sk@));
        assert(table_keys(tab, rank_key(), tab.len() as int) == keys@);
    }
    CountryShare { event: e, total: n, china_cum, usa_cum }
}

/// Some person is ranked in event `e`.
pub open spec fn has_ranked(db: IndexedDb, e: int) -> bool {
    exists|p: int| 0 <= p < db.n_persons && #[trigger] world_rank_of(db, e, p) is Some
}

pub open spec fn has_share(out: Seq<CountryShare>, e: int) -> bool {
    exists|i: int| 0 <= i < out.len() && #[trigger] out[i].event == e
}

/// Whether each country's id is `name`.
pub fn country_flags(db: &IndexedDb, name: &str) -> (f: Vec<bool>)
    ensures
        f@.len() == db.country_ids@.len(),
        forall|c: int| 0 <= c < db.country_ids@.len() ==> #[trigger] f@[c] == (db.country_ids@[c]@ == name@),
{
    let mut f: Vec<bool> = Vec::new();
    let mut c: usize = 0;
    while c < db.country_ids.len()
        invariant
            c <= db.country_ids@.len(),
            f@.len() == c,
            forall|q: int| 0 <= q < c ==> #[trigger] f@[q] == (db.country_ids@[q]@ == name@),
        decreases db.country_ids.len() - c,
    {
        f.push(str_is(&db.country_ids[c], name));
        c = c + 1;
    }
    f
}

/// The country shares of every event with at least one ranked person, by
/// event position.
pub fn country_shares(db: &IndexedDb) -> (out: Vec<CountryShare>)
    requires
        db.wf(),
        db.n_persons < 0x1000_0000,
    ensures
        forall|i: int| 0 <= i < out@.len() ==> share_ok(*db, (#[trigger] out@[i]).event as int, out@[i]) && out@[i].total > 0,
        forall|i: int, j: int| 0 <= i < j < out@.len() ==> out@[i].event < out@[j].event,
        forall|e: int| 0 <= e < db.events@.len() && #[trigger] has_ranked(*db, e) ==> has_share(out@, e),
{
    let china = country_flags(db, "China");
    let usa = country_flags(db, "USA");
    let mut out: Vec<CountryShare> = Vec::new();
    let mut e: usize = 0;
    while e < db.events.len()
        invariant
            db.wf(),
            db.n_persons < 0x1000_0000,
            china@.len() == db.country_ids@.len(),
            usa@.len() == db.country_ids@.len(),
            forall|c: int| 0 <= c < db.country_ids@.len() ==> #[trigger] china@[c] == (db.country_ids@[c]@ == "China"@),
            forall|c: int| 0 <= c < db.country_ids@.len() ==> #[trigger] usa@[c] == (db.country_ids@[c]@ == "USA"@),
            e <= db.events@.len(),
            forall|i: int| 0 <= i < out@.len() ==> share_ok(*db, (#[trigger] out@[i]).event as int, out@[i]) && out@[i].total > 0,
            forall|i: int| 0 <= i < out@.len() ==> (#[trigger] out@[i]).event < e,
            forall|i: int, j: int| 0 <= i < j < out@.len() ==> out@[i].event < out@[j].event,
            forall|f: int| 0 <= f < e && #[trigger] has_ranked(*db, f) ==> has_share(out@, f),
        decreases db.events.len() - e,
    {
        let s = country_share(db, e, &china, &usa);
        let ghost before = out@;
        if s.total > 0 {
            out.push(s);
            proof {
                assert(out@[out@.len() - 1].event == e);
                assert forall|f: int| 0 <= f < e + 1 && #[trigger] has_ranked(*db, f) implies has_share(out@, f) by {
                    if f < e {
                        let i = choose|i: int| 0 <= i < before.len() && #[trigger] before[i].event == f;
                        assert(out@[i] == before[i]);
                    } else {
                        assert(out@[out@.len() - 1].event == f);
                    }
                }
            }
        } else {
            proof {
                if has_ranked(*db, e as int) {
                    let p = choose|p: int| 0 <= p < db.n_persons && #[trigger] world_rank_of(*db, e as int, p) is Some;
                    let tab = rank_table(*db, e as int);
                    assert(tab[p] is Some);
                    crate::nations_cup::lemma_keys_complete(tab, rank_key(), tab.len() as int, p);
                    let sk = choose|sk: Seq<SortKey>| #[trigger] sorted_keys(sk) && sk.to_multiset() == table_keys(tab, rank_key(), tab.len() as int).to_multiset()
                        && s.event == e && s.total == sk.len() && s.china_cum@.len() == sk.len() + 1 && s.usa_cum@.len() == sk.len() + 1
                        && (forall|i: int| 0 <= i <= sk.len() ==> #[trigger] s.china_cum@[i] == prefix_count(*db, sk, "China"@, i))
                        && (forall|i: int| 0 <= i <= sk.len() ==> #[trigger] s.usa_cum@[i] == prefix_count(*db, sk, "USA"@, i));
                    let keys = table_keys(tab, rank_key(), tab.len() as int);
                    assert(keys.len() > 0);
                    vstd::seq_lib::to_multiset_contains(keys, keys[0]);
                    vstd::seq_lib::to_multiset_contains(sk, keys[0]);
                    assert(keys.contains(keys[0]));
                    assert(sk.contains(keys[0]));
                }
            }
        }
        e = e + 1;
    }
    out
}

} // verus!
