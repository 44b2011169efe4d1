//! Relay challenges: each person's personal best averages summed over a fixed
//! set of events, ranked by the sum.
use vstd::prelude::*;
use crate::index::{IndexedDb, RankRow, rank_entry, event_column, str_is};
use crate::mbld::{table_keys, lemma_table_keys};
use crate::ranking::{rank_keys, is_sorted_perm, ranked_prefix, lemma_ranked_len};
use crate::sort::SortKey;

verus! {

/// A relay challenge: its output name, label and events.
pub struct RelayStat {
    pub filename: &'static str,
    pub label: &'static str,
    pub events: Vec<&'static str>,
}

/// The id of the n-by-n-by-n cube event ("222" … "777"): its digit three times.
pub open spec fn cube_id(n: int) -> Seq<char> {
    let d = crate::dates::digit_char(n as nat);
    seq![d, d, d]
}

/// The Mini Guildford events.
pub open spec fn mini_guildford_ids() -> Seq<Seq<char>> {
    seq!["222"@, "333"@, "444"@, "555"@, "clock"@, "minx"@, "skewb"@, "sq1"@, "pyram"@, "333oh"@]
}

/// The relay challenges: the 2–k relays for k = 4 … 7, whose events are the
/// cubes 2x2x2 through kxkxk in order, then the Mini Guildford and the
/// Guildford (the Mini Guildford's events, then 6x6x6 and 7x7x7).
pub fn relay_stats() -> (r: Vec<RelayStat>)
    ensures
        r@.len() == 6,
        forall|i: int| 0 <= i < r@.len() ==> 1 <= (#[trigger] r@[i]).events@.len() <= 12,
        forall|k: int| 0 <= k < 4 ==> (#[trigger] r@[k]).events@.len() == k + 3,
        forall|k: int, j: int| 0 <= k < 4 && 0 <= j < k + 3 ==> (#[trigger] r@[k].events@[j])@ == cube_id(j + 2),
        r@[4].events@.map_values(|e: &str| e@) == mini_guildford_ids(),
        r@[5].events@.map_values(|e: &str| e@) == mini_guildford_ids() + seq![cube_id(6), cube_id(7)],
        r@[0].filename@ == "relay_2_4"@ && r@[1].filename@ == "relay_2_5"@ && r@[2].filename@ == "relay_2_6"@
            && r@[3].filename@ == "relay_2_7"@ && r@[4].filename@ == "mini_guildford"@ && r@[5].filename@ == "guildford"@,
{
    let r = vec![
        RelayStat { filename: "relay_2_4", label: "2–4 Relay", events: vec!["222", "333", "444"] },
        RelayStat { filename: "relay_2_5", label: "2–5 Relay", events: vec!["222", "333", "444", "555"] },
        RelayStat { filename: "relay_2_6", label: "2–6 Relay", events: vec!["222", "333", "444", "555", "666"] },
        RelayStat {
            filename: "relay_2_7",
            label: "2–7 Relay",
            events: vec!["222", "333", "444", "555", "666", "777"],
        },
        RelayStat {
            filename: "mini_guildford",
            label: "Mini Guildford",
            events: vec!["222", "333", "444", "555", "clock", "minx", "skewb", "sq1", "pyram", "333oh"],
        },
        RelayStat {
            filename: "guildford",
            label: "Guildford Challenge",
            events: vec!["222", "333", "444", "555", "clock", "minx", "skewb", "sq1", "pyram", "333oh", "666", "777"],
        },
    ];
    proof {
        reveal_strlit("222");
        reveal_strlit("333");
        reveal_strlit("444");
        reveal_strlit("555");
        reveal_strlit("666");
        reveal_strlit("777");
        assert("222"@ =~= cube_id(2));
        assert("333"@ =~= cube_id(3));
        assert("444"@ =~= cube_id(4));
        assert("555"@ =~= cube_id(5));
        assert("666"@ =~= cube_id(6));
        assert("777"@ =~= cube_id(7));
        assert(r@[4].events@.map_values(|e: &str| e@) =~= mini_guildford_ids());
        assert(r@[5].events@.map_values(|e: &str| e@) =~= mini_guildford_ids() + seq![cube_id(6), cube_id(7)]);
    }
    r
}

/// Position of the first event with id `id`, if any.
pub fn event_position(db: &IndexedDb, id: &str) -> (r: Option<usize>)
    ensures
        match r {
            Some(e) => e < db.events@.len() && db.events@[e as int]@ == id@ && forall|q: int|
                0 <= q < e ==> (#[trigger] db.events@[q])@ != id@,
            None => forall|q: int| 0 <= q < db.events@.len() ==> (#[trigger] db.events@[q])@ != id@,
        },
{
    let mut e: usize = 0;
    while e < db.events.len()
        invariant
            e <= db.events@.len(),
            forall|q: int| 0 <= q < e ==> (#[trigger] db.events@[q])@ != id@,
        decreases db.events.len() - e,
    {
        if str_is(&db.events[e], id) {
            return Some(e);
        }
        e = e + 1;
    }
    None
}

/// Person `p`'s valid (positive) personal best average in event `e`.
pub open spec fn valid_avg(db: IndexedDb, p: int, e: int) -> Option<i32> {
    match rank_entry(db.ranks_average@, p, e, db.ranks_average@.len() as int) {
        Some(r) => if r.best > 0 { Some(r.best) } else { None },
        None => None,
    }
}

/// The relay total of every qualifying person fits an `i32`, the type the
/// total is kept in.
#[verifier::opaque]
pub open spec fn relay_sums_fit(db: IndexedDb, evs: Seq<usize>) -> bool {
    forall|p: int| 0 <= p < db.n_persons && #[trigger] has_all(db, evs, p, evs.len() as int) ==> avg_sum(db, evs, p, evs.len() as int) <= i32::MAX
}

/// Person `p` has a valid average in each of the first `n` events.
pub open spec fn has_all(db: IndexedDb, evs: Seq<usize>, p: int, n: int) -> bool {
    forall|i: int| 0 <= i < n ==> #[trigger] valid_avg(db, p, evs[i] as int) is Some
}

/// Sum of person `p`'s averages over the first `n` events.
pub open spec fn avg_sum(db: IndexedDb, evs: Seq<usize>, p: int, n: int) -> int
    decreases n,
{
    if n <= 0 {
        0
    } else {
        avg_sum(db, evs, p, n - 1) + valid_avg(db, p, evs[n - 1] as int).unwrap()
    }
}

/// The relay total of each person who qualifies (a valid average in every
/// event), by person position.
pub open spec fn relay_totals(db: IndexedDb, evs: Seq<usize>) -> Seq<Option<i32>> {
    Seq::new(
        db.n_persons as nat,
        |p: int|
            if has_all(db, evs, p, evs.len() as int) {
                Some(avg_sum(db, evs, p, evs.len() as int) as i32)
            } else {
                None
            },
    )
}

/// Ordering of a relay row: the total, then the person.
pub open spec fn total_key() -> spec_fn(i32) -> (i64, i64, i64) {
    |t: i32| (t as i64, 0i64, 0i64)
}

/// One row of a relay ranking.
pub struct RelayEntry {
    pub rank: usize,
    pub person_id: String,
    pub person_name: String,
    pub country_id: String,
    pub total_cs: i32,
    pub event_avgs: Vec<i32>,
}

/// Entry `en` shows person `p` with rank `rank`.
pub open spec fn relay_entry_ok(db: IndexedDb, evs: Seq<usize>, p: int, rank: usize, en: RelayEntry) -> bool {
    &&& en.rank == rank
    &&& en.person_id@ == db.person_ids@[p]@
    &&& en.person_name@ == match db.person_names@[p] {
        Some(n) => n@,
        None => db.person_ids@[p]@,
    }
    &&& en.country_id@ == match db.person_country@[p] {
        Some(c) => db.country_ids@[c as int]@,
        None => "Unknown"@,
    }
    &&& en.total_cs as int == avg_sum(db, evs, p, evs.len() as int)
    &&& en.event_avgs@.len() == evs.len()
    &&& forall|i: int| 0 <= i < evs.len() ==> Some(#[trigger] en.event_avgs@[i]) == valid_avg(db, p, evs[i] as int)
}

/// The relay ranking lists the qualifying persons by total, then person,
/// through rank 1000 without splitting a tie on the total.
pub open spec fn relay_ok(db: IndexedDb, evs: Seq<usize>, out: Seq<RelayEntry>) -> bool {
    let tab = relay_totals(db, evs);
    exists|ranked: Seq<(usize, usize)>, sk: Seq<SortKey>| {
        &&& is_sorted_perm(table_keys(tab, total_key(), tab.len() as int), sk)
        &&& #[trigger] ranked_prefix(ranked, sk, 1)
        &&& out.len() == ranked.len()
        &&& forall|i: int|
            0 <= i < out.len() ==> {
                &&& tab[ranked[i].1 as int] is Some
                &&& relay_entry_ok(db, evs, ranked[i].1 as int, ranked[i].0, #[trigger] out[i])
            }
    }
}

/// A qualifying person's total fits.
proof fn lemma_sum_fits(db: IndexedDb, evs: Seq<usize>, p: int)
    requires
        relay_sums_fit(db, evs),
        0 <= p < db.n_persons,
        has_all(db, evs, p, evs.len() as int),
    ensures
        0 <= avg_sum(db, evs, p, evs.len() as int) <= i32::MAX,
{
    reveal(relay_sums_fit);
    lemma_avg_sum_mono(db, evs, p, 0, evs.len() as int);
}

/// Partial sums of valid averages grow with the number of events.
proof fn lemma_avg_sum_mono(db: IndexedDb, evs: Seq<usize>, p: int, j: int, n: int)
    requires
        0 <= j <= n <= evs.len(),
        has_all(db, evs, p, n),
    ensures
        0 <= avg_sum(db, evs, p, j) <= avg_sum(db, evs, p, n),
    decreases n,
{
    if n > 0 {
        assert(valid_avg(db, p, evs[n - 1] as int) is Some);
        assert(has_all(db, evs, p, n - 1));
        if j < n {
            lemma_avg_sum_mono(db, evs, p, j, n - 1);
        } else {
            lemma_avg_sum_mono(db, evs, p, n - 1, n - 1);
        }
    }
}

fn make_entry(db: &IndexedDb, evs: &Vec<usize>, cols: &Vec<Vec<Option<RankRow>>>, p: usize, rank: usize, total: i32) -> (en: RelayEntry)
    requires
        db.wf(),
        p < db.n_persons,
        cols@.len() == evs@.len(),
        forall|j: int| 0 <= j < evs@.len() ==> (#[trigger] cols@[j])@.len() == db.n_persons,
        forall|j: int, q: int|
            0 <= j < evs@.len() && 0 <= q < db.n_persons ==> #[trigger] cols@[j]@[q] == rank_entry(
                db.ranks_average@,
                q,
                evs@[j] as int,
                db.ranks_average@.len() as int,
            ),
        has_all(*db, evs@, p as int, evs@.len() as int),
        total as int == avg_sum(*db, evs@, p as int, evs@.len() as int),
    ensures
        relay_entry_ok(*db, evs@, p as int, rank, en),
{
    let mut avgs: Vec<i32> = Vec::new();
    let mut j: usize = 0;
    while j < evs.len()
        invariant
            p < db.n_persons,
            cols@.len() == evs@.len(),
            forall|j: int| 0 <= j < evs@.len() ==> (#[trigger] cols@[j])@.len() == db.n_persons,
            forall|j: int, q: int|
                0 <= j < evs@.len() && 0 <= q < db.n_persons ==> #[trigger] cols@[j]@[q] == rank_entry(
                    db.ranks_average@,
                    q,
                    evs@[j] as int,
                    db.ranks_average@.len() as int,
                ),
            has_all(*db, evs@, p as int, evs@.len() as int),
            j <= evs@.len(),
            avgs@.len() == j,
            forall|q: int| 0 <= q < j ==> Some(#[trigger] avgs@[q]) == valid_avg(*db, p as int, evs@[q] as int),
        decreases evs.len() - j,
    {
        assert(cols@[j as int]@[p as int] == rank_entry(db.ranks_average@, p as int, evs@[j as int] as int, db.ranks_average@.len() as int));
        assert(valid_avg(*db, p as int, evs@[j as int] as int) is Some);
        let b = match cols[j][p] {
            Some(r) => r.best,
            None => 0,
        };
        avgs.push(b);
        j = j + 1;
    }
    let person_name = match &db.person_names[p] {
        Some(n) => n.clone(),
        None => db.person_ids[p].clone(),
    };
    let country_id = match db.person_country[p] {
        Some(c) => db.country_ids[c].clone(),
        None => String::from_str("Unknown"),
    };
    proof {
        reveal_strlit("Unknown");
    }
    RelayEntry {
        rank,
        person_id: db.person_ids[p].clone(),
        person_name,
        country_id,
        total_cs: total,
        event_avgs: avgs,
    }
}

/// Whether person `p` has a valid average in every event, and then the sum.
fn person_total(db: &IndexedDb, evs: &Vec<usize>, cols: &Vec<Vec<Option<RankRow>>>, p: usize) -> (r: (bool, i32))
    requires
        db.wf(),
        relay_sums_fit(*db, evs@),
        p < db.n_persons,
        1 <= evs@.len(),
        cols@.len() == evs@.len(),
        forall|j: int| 0 <= j < evs@.len() ==> (#[trigger] cols@[j])@.len() == db.n_persons,
        forall|j: int, q: int|
            0 <= j < evs@.len() && 0 <= q < db.n_persons ==> #[trigger] cols@[j]@[q] == rank_entry(
                db.ranks_average@,
                q,
                evs@[j] as int,
                db.ranks_average@.len() as int,
            ),
    ensures
        r.0 == has_all(*db, evs@, p as int, evs@.len() as int),
        r.0 ==> r.1 as int == avg_sum(*db, evs@, p as int, evs@.len() as int),
{
    let np = db.n_persons;

    let mut ok = true;
    let mut j: usize = 0;
    while j < evs.len()
        invariant
            db.wf(),
            np == db.n_persons,
            p < np,
            1 <= evs@.len(),
            cols@.len() == evs@.len(),
            forall|j: int| 0 <= j < evs@.len() ==> (#[trigger] cols@[j])@.len() == np,
            forall|j: int, q: int|
                0 <= j < evs@.len() && 0 <= q < np ==> #[trigger] cols@[j]@[q] == rank_entry(
                    db.ranks_average@,
                    q,
                    evs@[j] as int,
                    db.ranks_average@.len() as int,
                ),
            j <= evs@.len(),
            ok == has_all(*db, evs@, p as int, j as int),
        decreases evs.len() - j,
    {
        assert(cols@[j as int]@[p as int] == rank_entry(db.ranks_average@, p as int, evs@[j as int] as int, db.ranks_average@.len() as int));
        let v = match cols[j][p] {
            Some(r) => if r.best > 0 { Some(r.best) } else { None },
            None => None,
        };
        assert(v == valid_avg(*db, p as int, evs@[j as int] as int));
        if v.is_none() {
            ok = false;
        }
        proof {
            if ok {
                assert forall|i: int| 0 <= i < j + 1 implies #[trigger] valid_avg(*db, p as int, evs@[i] as int) is Some by {
                    if i < j {
                        assert(has_all(*db, evs@, p as int, j as int));
                    }
                }
            } else {
                if v is None {
                    assert(!(valid_avg(*db, p as int, evs@[j as int] as int) is Some));
                } else {
                    assert(!has_all(*db, evs@, p as int, j as int));
                    let i = choose|i: int| 0 <= i < j && !(#[trigger] valid_avg(*db, p as int, evs@[i] as int) is Some);
                }
            }
        }
        j = j + 1;
    }
    // Sum the averages of a qualifying person.
    let mut total: i32 = 0;
    if ok {
        let mut k: usize = 0;
        while k < evs.len()
            invariant
                db.wf(),
                relay_sums_fit(*db, evs@),
                np == db.n_persons,
                p < np,
                cols@.len() == evs@.len(),
                forall|j: int| 0 <= j < evs@.len() ==> (#[trigger] cols@[j])@.len() == np,
                forall|j: int, q: int|
                    0 <= j < evs@.len() && 0 <= q < np ==> #[trigger] cols@[j]@[q] == rank_entry(
                        db.ranks_average@,
                        q,
                        evs@[j] as int,
                        db.ranks_average@.len() as int,
                    ),
                has_all(*db, evs@, p as int, evs@.len() as int),
                k <= evs@.len(),
                total as int == avg_sum(*db, evs@, p as int, k as int),
            decreases evs.len() - k,
        {
            assert(cols@[k as int]@[p as int] == rank_entry(db.ranks_average@, p as int, evs@[k as int] as int, db.ranks_average@.len() as int));
            assert(valid_avg(*db, p as int, evs@[k as int] as int) is Some);
            let b = match cols[k][p] {
                Some(r) => r.best,
                None => 0,
            };
            proof {
                lemma_avg_sum_mono(*db, evs@, p as int, k + 1, evs@.len() as int);
                lemma_sum_fits(*db, evs@, p as int);
            }
            total = total + b;
            k = k + 1;
        }
    }
    (ok, total)
}
/// Sort keys of the qualifying persons by total, and every person's total.
fn relay_keys(db: &IndexedDb, evs: &Vec<usize>, cols: &Vec<Vec<Option<RankRow>>>) -> (r: (Vec<SortKey>, Vec<i32>))
    requires
        db.wf(),
        relay_sums_fit(*db, evs@),
        1 <= evs@.len(),
        cols@.len() == evs@.len(),
        forall|j: int| 0 <= j < evs@.len() ==> (#[trigger] cols@[j])@.len() == db.n_persons,
        forall|j: int, q: int|
            0 <= j < evs@.len() && 0 <= q < db.n_persons ==> #[trigger] cols@[j]@[q] == rank_entry(
                db.ranks_average@,
                q,
                evs@[j] as int,
                db.ranks_average@.len() as int,
            ),
    ensures
        r.0@ == table_keys(relay_totals(*db, evs@), total_key(), db.n_persons as int),
        r.1@.len() == db.n_persons,
        forall|q: int| 0 <= q < db.n_persons ==> (#[trigger] relay_totals(*db, evs@)[q] matches Some(t) ==> r.1@[q] == t),
{
    let np = db.n_persons;
    let ghost tab = relay_totals(*db, evs@);
    let mut keys: Vec<SortKey> = Vec::new();
    let mut totals: Vec<i32> = Vec::new();
    let mut p: usize = 0;
    while p < np
        invariant
            db.wf(),
            relay_sums_fit(*db, evs@),
            np == db.n_persons,
            1 <= evs@.len(),
            cols@.len() == evs@.len(),
            forall|j: int| 0 <= j < evs@.len() ==> (#[trigger] cols@[j])@.len() == np,
            forall|j: int, q: int|
                0 <= j < evs@.len() && 0 <= q < np ==> #[trigger] cols@[j]@[q] == rank_entry(
                    db.ranks_average@,
                    q,
                    evs@[j] as int,
                    db.ranks_average@.len() as int,
                ),
            tab == relay_totals(*db, evs@),
            p <= np,
            keys@ == table_keys(tab, total_key(), p as int),
            totals@.len() == p,
            forall|q: int| 0 <= q < p ==> (#[trigger] tab[q] matches Some(t) ==> totals@[q] == t),
        decreases np - p,
    {
        let (ok, total) = person_total(db, evs, &cols, p);
        proof {
            if ok {
                lemma_sum_fits(*db, evs@, p as int);
            }
        }
        assert(tab[p as int] == if ok { Some(avg_sum(*db, evs@, p as int, evs@.len() as int) as i32) } else { None::<i32> });
        if ok {
            keys.push((total as i64, 0, 0, p as i64, p));
        }
        totals.push(total);
        p = p + 1;
    }
    (keys, totals)
}
/// The ranking of the relay challenge over the events at positions `evs`.
#[verifier::spinoff_prover]
#[verifier::rlimit(100)]
pub fn relay_ranking(db: &IndexedDb, evs: &Vec<usize>) -> (out: Vec<RelayEntry>)
    requires
        db.wf(),
        relay_sums_fit(*db, evs@),
        db.n_persons < 0x1000_0000,
        1 <= evs@.len(),
        forall|i: int| 0 <= i < evs@.len() ==> #[trigger] evs@[i] < db.events@.len(),
    ensures
        relay_ok(*db, evs@, out@),
{
    let np = db.n_persons;
    let mut cols: Vec<Vec<Option<RankRow>>> = Vec::new();
    let mut i: usize = 0;
    while i < evs.len()
        invariant
            db.wf(),
            np == db.n_persons,
            i <= evs@.len(),
            cols@.len() == i,
            forall|j: int| 0 <= j < i ==> (#[trigger] cols@[j])@.len() == np,
            forall|j: int, p: int|
                0 <= j < i && 0 <= p < np ==> #[trigger] cols@[j]@[p] == rank_entry(
                    db.ranks_average@,
                    p,
                    evs@[j] as int,
                    db.ranks_average@.len() as int,
                ),
        decreases evs.len() - i,
    {
        let col = event_column(&db.ranks_average, np, evs[i]);
        cols.push(col);
        i = i + 1;
    }
    let ghost tab = relay_totals(*db, evs@);
    let (keys, totals) = relay_keys(db, evs, &cols);
    let ranked = rank_keys(&keys, 1);
    let ghost sk = choose|sk: Seq<SortKey>| #[trigger] is_sorted_perm(keys@, sk) && ranked_prefix(ranked@, sk, 1);
    proof {
        lemma_ranked_len(ranked@, sk, 1);
        crate::search::lemma_perm_members(keys@, sk);
        lemma_table_keys(tab, total_key(), np as int);
        assert forall|q: int| 0 <= q < ranked@.len() implies (#[trigger] ranked@[q]).1 < np && tab[ranked@[q].1 as int] is Some by {
            assert(keys@.contains(sk[q]));
            let kj = choose|kj: int| 0 <= kj < keys@.len() && keys@[kj] == sk[q];
        }
        assert forall|q: int| 0 <= q < np && #[trigger] tab[q] is Some implies has_all(*db, evs@, q, evs@.len() as int)
            && totals@[q] as int == avg_sum(*db, evs@, q, evs@.len() as int) by {
            lemma_sum_fits(*db, evs@, q);
        }
    }
    let mut out: Vec<RelayEntry> = Vec::new();
    let mut i: usize = 0;
    while i < ranked.len()
        invariant
            db.wf(),
            np == db.n_persons,
            cols@.len() == evs@.len(),
            forall|j: int| 0 <= j < evs@.len() ==> (#[trigger] cols@[j])@.len() == np,
            forall|j: int, q: int|
                0 <= j < evs@.len() && 0 <= q < np ==> #[trigger] cols@[j]@[q] == rank_entry(
                    db.ranks_average@,
                    q,
                    evs@[j] as int,
                    db.ranks_average@.len() as int,
                ),
            totals@.len() == np,
            forall|q: int| 0 <= q < np && #[trigger] tab[q] is Some ==> has_all(*db, evs@, q, evs@.len() as int)
                && totals@[q] as int == avg_sum(*db, evs@, q, evs@.len() as int),
            forall|q: int| 0 <= q < ranked@.len() ==> (#[trigger] ranked@[q]).1 < np && tab[ranked@[q].1 as int] is Some,
            i <= ranked@.len(),
            out@.len() == i,
            forall|q: int|
                0 <= q < i ==> relay_entry_ok(*db, evs@, ranked@[q].1 as int, ranked@[q].0, #[trigger] out@[q]),
        decreases ranked.len() - i,
    {
        let (rank, p) = ranked[i];
        assert(tab[p as int] is Some);
        let en = make_entry(db, evs, &cols, p, rank, totals[p]);
        out.push(en);
        i = i + 1;
    }
    proof {
        assert(out@.len() == ranked@.len());
        assert(is_sorted_perm(table_keys(tab, total_key(), tab.len() as int), sk));
    }
    out
}

/// The first position of each event id, where every id names an event.
pub open spec fn positions_of(db: IndexedDb, ids: Seq<&str>, evs: Seq<usize>) -> bool {
    &&& evs.len() == ids.len()
    &&& forall|i: int|
        0 <= i < ids.len() ==> {
            let e = #[trigger] evs[i];
            &&& e < db.events@.len()
            &&& db.events@[e as int]@ == ids[i]@
            &&& forall|q: int| 0 <= q < e ==> (#[trigger] db.events@[q])@ != ids[i]@
        }
}

/// No event has id `id`.
pub open spec fn unknown_id(db: IndexedDb, id: &str) -> bool {
    forall|q: int| 0 <= q < db.events@.len() ==> (#[trigger] db.events@[q])@ != id@
}

/// The ranking of a relay challenge given by event ids; empty when some id
/// names no event (nobody can have an average in it).
pub fn relay_for(db: &IndexedDb, ids: &Vec<&str>) -> (out: Vec<RelayEntry>)
    requires
        db.wf(),
        forall|evs: Seq<usize>| #[trigger] positions_of(*db, ids@, evs) ==> relay_sums_fit(*db, evs),
        db.n_persons < 0x1000_0000,
        1 <= ids@.len(),
    ensures
        (exists|evs: Seq<usize>| #[trigger] positions_of(*db, ids@, evs) && relay_ok(*db, evs, out@))
            || ((exists|i: int| 0 <= i < ids@.len() && #[trigger] unknown_id(*db, ids@[i])) && out@.len() == 0),
{
    let mut evs: Vec<usize> = Vec::new();
    let mut i: usize = 0;
    while i < ids.len()
        invariant
            i <= ids@.len(),
            evs@.len() == i,
            forall|j: int|
                0 <= j < i ==> {
                    let e = #[trigger] evs@[j];
                    &&& e < db.events@.len()
                    &&& db.events@[e as int]@ == ids@[j]@
                    &&& forall|q: int| 0 <= q < e ==> (#[trigger] db.events@[q])@ != ids@[j]@
                },
        decreases ids.len() - i,
    {
        match event_position(db, ids[i]) {
            Some(e) => {
                evs.push(e);
            },
            None => {
                assert(unknown_id(*db, ids@[i as int]));
                return Vec::new();
            },
        }
        i = i + 1;
    }
    assert(positions_of(*db, ids@, evs@));
    relay_ranking(db, &evs)
}

} // verus!
