//! Per-competition results of each person in an event, the input of the
//! skill estimates: at each competition, the sum and number of the person's
//! valid solves (or of the average or single where attempts are missing).
use vstd::prelude::*;
use std::collections::HashMap;
use crate::index::{IndexedDb, Row, start_day, str_is, comp_start_days};
use crate::sort::{SortKey, sort_keys, sorted_keys, key_le};
use crate::sub_x::{weight, row_weight, lemma_weight_mono};

verus! {

broadcast use vstd::std_specs::hash::group_hash_axioms;

/// Events left out of the skill estimates (blindfolded, fewest moves,
/// multi-blind, feet and retired puzzles).
pub open spec fn skill_excluded(id: Seq<char>) -> bool {
    ||| id == "333bf"@
    ||| id == "444bf"@
    ||| id == "555bf"@
    ||| id == "333mbf"@
    ||| id == "333mbo"@
    ||| id == "333fm"@
    ||| id == "333ft"@
    ||| id == "magic"@
    ||| id == "mmagic"@
}

pub fn is_skill_excluded(id: &String) -> (r: bool)
    ensures
        r == skill_excluded(id@),
{
    str_is(id, "333bf") || str_is(id, "444bf") || str_is(id, "555bf") || str_is(id, "333mbf") || str_is(id, "333mbo")
        || str_is(id, "333fm") || str_is(id, "333ft") || str_is(id, "magic") || str_is(id, "mmagic")
}

/// The blindfolded events (3x3x3 to 5x5x5 and multi-blind, old and new),
/// fewest moves, feet and the retired Magic events have no skill estimate;
/// every cube event from 2x2x2 to 7x7x7, one-handed, Clock, Megaminx,
/// Pyraminx, Skewb and Square-1 do.
pub proof fn lemma_skill_exclusions()
    ensures
        forall|n: int| 3 <= n <= 5 ==> skill_excluded(#[trigger] crate::relay::cube_id(n) + "bf"@),
        skill_excluded(crate::relay::cube_id(3) + "mbf"@),
        skill_excluded(crate::relay::cube_id(3) + "mbo"@),
        skill_excluded(crate::relay::cube_id(3) + "fm"@),
        skill_excluded(crate::relay::cube_id(3) + "ft"@),
        skill_excluded("magic"@),
        skill_excluded("mmagic"@),
        forall|n: int| 2 <= n <= 7 ==> !skill_excluded(#[trigger] crate::relay::cube_id(n)),
        !skill_excluded(crate::relay::cube_id(3) + "oh"@),
        !skill_excluded("clock"@),
        !skill_excluded("minx"@),
        !skill_excluded("pyram"@),
        !skill_excluded("skewb"@),
        !skill_excluded("sq1"@),
{
    reveal_strlit("333bf");
    reveal_strlit("444bf");
    reveal_strlit("555bf");
    reveal_strlit("333mbf");
    reveal_strlit("333mbo");
    reveal_strlit("333fm");
    reveal_strlit("333ft");
    reveal_strlit("magic");
    reveal_strlit("mmagic");
    reveal_strlit("bf");
    reveal_strlit("mbf");
    reveal_strlit("mbo");
    reveal_strlit("fm");
    reveal_strlit("ft");
    reveal_strlit("oh");
    reveal_strlit("clock");
    reveal_strlit("minx");
    reveal_strlit("pyram");
    reveal_strlit("skewb");
    reveal_strlit("sq1");
    assert(crate::relay::cube_id(3) + "bf"@ =~= "333bf"@);
    assert(crate::relay::cube_id(4) + "bf"@ =~= "444bf"@);
    assert(crate::relay::cube_id(5) + "bf"@ =~= "555bf"@);
    assert(crate::relay::cube_id(3) + "mbf"@ =~= "333mbf"@);
    assert(crate::relay::cube_id(3) + "mbo"@ =~= "333mbo"@);
    assert(crate::relay::cube_id(3) + "fm"@ =~= "333fm"@);
    assert(crate::relay::cube_id(3) + "ft"@ =~= "333ft"@);
    assert forall|n: int| 2 <= n <= 7 implies !skill_excluded(#[trigger] crate::relay::cube_id(n)) by {
        assert(crate::relay::cube_id(n).len() == 3);
    }
    let oh = crate::relay::cube_id(3) + "oh"@;
    assert(oh.len() == 5 && oh[3] == 'o');
    assert(oh != "333bf"@ && oh != "444bf"@ && oh != "555bf"@ && oh != "333fm"@ && oh != "333ft"@ && oh != "magic"@) by {
        assert("333bf"@[3] == 'b' && "444bf"@[3] == 'b' && "555bf"@[3] == 'b' && "333fm"@[3] == 'f' && "333ft"@[3] == 'f'
            && "magic"@[3] == 'i');
    }
    assert("clock"@[0] == 'c' && "minx"@.len() == 4 && "pyram"@[0] == 'p' && "skewb"@[0] == 's' && "sq1"@.len() == 3);
    assert("333bf"@[0] == '3' && "444bf"@[0] == '4' && "555bf"@[0] == '5' && "333fm"@[0] == '3' && "333ft"@[0] == '3'
        && "magic"@[0] == 'm');
    assert("skewb"@ != "333bf"@ && "skewb"@ != "444bf"@ && "skewb"@ != "555bf"@ && "skewb"@ != "333fm"@
        && "skewb"@ != "333ft"@ && "skewb"@ != "magic"@) by {
        assert("skewb"@[0] != "333bf"@[0] && "skewb"@[0] != "444bf"@[0] && "skewb"@[0] != "555bf"@[0]
            && "skewb"@[0] != "magic"@[0]);
    }
    assert("pyram"@ != "333bf"@ && "pyram"@ != "444bf"@ && "pyram"@ != "555bf"@ && "pyram"@ != "333fm"@
        && "pyram"@ != "333ft"@ && "pyram"@ != "magic"@) by {
        assert("pyram"@[0] != "333bf"@[0] && "pyram"@[0] != "444bf"@[0] && "pyram"@[0] != "555bf"@[0]
            && "pyram"@[0] != "magic"@[0]);
    }
    assert("clock"@ != "333bf"@ && "clock"@ != "444bf"@ && "clock"@ != "555bf"@ && "clock"@ != "333fm"@
        && "clock"@ != "333ft"@ && "clock"@ != "magic"@) by {
        assert("clock"@[0] != "333bf"@[0] && "clock"@[0] != "444bf"@[0] && "clock"@[0] != "555bf"@[0]
            && "clock"@[0] != "magic"@[0]);
    }
}

/// Sum and number of the valid (positive) attempts among the first `n`.
pub open spec fn valid_sum(att: Seq<i32>, n: int) -> int
    decreases n,
{
    if n <= 0 {
        0
    } else {
        valid_sum(att, n - 1) + if att[n - 1] > 0 { att[n - 1] as int } else { 0 }
    }
}

pub open spec fn valid_count(att: Seq<i32>, n: int) -> int
    decreases n,
{
    if n <= 0 {
        0
    } else {
        valid_count(att, n - 1) + if att[n - 1] > 0 { 1int } else { 0int }
    }
}

/// What a row contributes: its valid attempts; without any, its average,
/// else its single, as one solve; nothing when none of these is valid.
pub open spec fn contribution(r: Row) -> Option<(int, int)> {
    let (s, c) = match r.attempts {
        Some(att) => (valid_sum(att@, att@.len() as int), valid_count(att@, att@.len() as int)),
        None => (0int, 0int),
    };
    if c > 0 {
        Some((s, c))
    } else if r.average > 0 {
        Some((r.average as int, 1int))
    } else if r.best > 0 {
        Some((r.best as int, 1int))
    } else {
        None
    }
}

/// Key of (person, competition).
pub open spec fn pc_key(p: usize, c: usize) -> u64 {
    (p as int * 0x1_0000_0000 + c as int) as u64
}

/// Running (sum, count) per (person, competition) over the first `n` rows of
/// event `e` at competitions of known date.
pub open spec fn skill_table(db: IndexedDb, e: int, n: int) -> Map<u64, (i64, u32)>
    decreases n,
{
    if n <= 0 {
        Map::empty()
    } else {
        let t = skill_table(db, e, n - 1);
        let r = db.rows@[n - 1];
        let key = pc_key(r.person, r.comp);
        if r.event == e && start_day(db, r.comp as int) is Some && contribution(r) is Some {
            let (s, c) = contribution(r).unwrap();
            if t.contains_key(key) {
                t.insert(key, ((t[key].0 + s) as i64, (t[key].1 + c) as u32))
            } else {
                t.insert(key, (s as i64, c as u32))
            }
        } else {
            t
        }
    }
}

/// Bounds under which keys are exact and sums and counts fit: rows and
/// attempts together number no more than `u32::MAX`, so that counts fit a
/// `u32` and sums of positive `i32` values an `i64`.
pub open spec fn skill_sizes_ok(db: IndexedDb) -> bool {
    &&& db.wf()
    &&& db.n_persons < 0x1000_0000
    &&& db.comps@.len() < 0x1000_0000
    &&& weight(db, db.rows@.len() as int) <= u32::MAX
}

/// One person's results at one competition.
pub struct SkillComp {
    pub person: usize,
    pub comp: usize,
    pub jdn: i32,
    pub sum: i64,
    pub cnt: u32,
}

fn row_contribution(r: &Row) -> (c: Option<(i64, u32)>)
    requires
        row_weight(*r) <= u32::MAX,
    ensures
        match contribution(*r) {
            Some(x) => c == Some((x.0 as i64, x.1 as u32)) && 0 < x.0 <= row_weight(*r) * 0x8000_0000 && 0 < x.1 <= row_weight(*r),
            None => c is None,
        },
{
    let mut s: i64 = 0;
    let mut n: u32 = 0;
    if let Some(att) = &r.attempts {
        let mut i: usize = 0;
        while i < att.len()
            invariant
                att@.len() < u32::MAX,
                i <= att@.len(),
                s as int == valid_sum(att@, i as int),
                n as int == valid_count(att@, i as int),
                0 <= s <= i * 0x8000_0000,
                0 <= n <= i,
                n == 0 ==> s == 0,
                n > 0 ==> s > 0,
            decreases att.len() - i,
        {
            if att[i] > 0 {
                s = s + att[i] as i64;
                n = n + 1;
            }
            i = i + 1;
        }
    }
    if n > 0 {
        Some((s, n))
    } else if r.average > 0 {
        Some((r.average as i64, 1))
    } else if r.best > 0 {
        Some((r.best as i64, 1))
    } else {
        None
    }
}

proof fn lemma_table_bounds(db: IndexedDb, e: int, n: int)
    requires
        skill_sizes_ok(db),
        0 <= n <= db.rows@.len(),
    ensures
        forall|key: u64| #[trigger] skill_table(db, e, n).contains_key(key) ==> 0 < skill_table(db, e, n)[key].0 <= weight(db, n) * 0x8000_0000
            && 0 < skill_table(db, e, n)[key].1 <= weight(db, n),
    decreases n,
{
    if n > 0 {
        lemma_table_bounds(db, e, n - 1);
        let r = db.rows@[n - 1];
        lemma_contribution_bounds(r);
        let t = skill_table(db, e, n - 1);
        let key = pc_key(r.person, r.comp);
        let t2 = skill_table(db, e, n);
        assert(weight(db, n) == weight(db, n - 1) + row_weight(r));
        lemma_weight_mono(db, n, db.rows@.len() as int);
        assert forall|key2: u64| #[trigger] t2.contains_key(key2) implies 0 < t2[key2].0 <= weight(db, n) * 0x8000_0000
            && 0 < t2[key2].1 <= weight(db, n) by {
            if r.event == e && start_day(db, r.comp as int) is Some && contribution(r) is Some && key2 == key {
                let (s, c) = contribution(r).unwrap();
                if t.contains_key(key) {
                    assert(t[key].0 + s <= weight(db, n) * 0x8000_0000);
                    assert(t[key].1 + c <= weight(db, n));
                }
            } else if key2 != key || !(r.event == e && start_day(db, r.comp as int) is Some && contribution(r) is Some) {
                assert(t.contains_key(key2));
            }
        }
    }
}

proof fn lemma_contribution_bounds(r: Row)
    ensures
        contribution(r) matches Some(x) ==> 0 < x.0 <= row_weight(r) * 0x8000_0000 && 0 < x.1 <= row_weight(r),
{
    if let Some(att) = r.attempts {
        lemma_valid_bounds(att@, att@.len() as int);
    }
}

proof fn lemma_valid_bounds(att: Seq<i32>, n: int)
    requires
        0 <= n <= att.len(),
    ensures
        0 <= valid_sum(att, n) <= n * 0x8000_0000,
        0 <= valid_count(att, n) <= n,
        valid_count(att, n) == 0 ==> valid_sum(att, n) == 0,
        valid_count(att, n) > 0 ==> valid_sum(att, n) > 0,
    decreases n,
{
    if n > 0 {
        lemma_valid_bounds(att, n - 1);
    }
}

/// Folds the rows of event `e` into the (person, competition) table, and
/// lists the (person, competition) pairs in the order they first appear.
fn fold_skill(db: &IndexedDb, e: usize) -> (r: (HashMap<u64, (i64, u32)>, Vec<(usize, usize)>))
    requires
        skill_sizes_ok(*db),
    ensures
        r.0@ == skill_table(*db, e as int, db.rows@.len() as int),
        forall|i: int| 0 <= i < r.1@.len() ==> (#[trigger] r.1@[i]).0 < db.n_persons && r.1@[i].1 < db.comps@.len()
            && start_day(*db, r.1@[i].1 as int) is Some,
        forall|i: int| 0 <= i < r.1@.len() ==> r.0@.contains_key(pc_key((#[trigger] r.1@[i]).0, r.1@[i].1)),
        forall|key: u64| #[trigger] r.0@.contains_key(key) ==> exists|i: int| 0 <= i < r.1@.len() && pc_key(r.1@[i].0, r.1@[i].1) == key,
        forall|a: int, b: int| 0 <= a < b < r.1@.len() ==> r.1@[a] != r.1@[b],
{
    let days = comp_start_days(db);
    let mut acc: HashMap<u64, (i64, u32)> = HashMap::new();
    let mut pairs: Vec<(usize, usize)> = Vec::new();
    let mut k: usize = 0;
    while k < db.rows.len()
        invariant
            skill_sizes_ok(*db),
            days@.len() == db.comps@.len(),
            forall|c: int| 0 <= c < db.comps@.len() ==> #[trigger] days@[c] == start_day(*db, c),
            k <= db.rows@.len(),
            acc@ == skill_table(*db, e as int, k as int),
            forall|i: int| 0 <= i < pairs@.len() ==> (#[trigger] pairs@[i]).0 < db.n_persons && pairs@[i].1 < db.comps@.len()
                && start_day(*db, pairs@[i].1 as int) is Some,
            forall|i: int| 0 <= i < pairs@.len() ==> acc@.contains_key(pc_key((#[trigger] pairs@[i]).0, pairs@[i].1)),
            forall|key: u64| #[trigger] acc@.contains_key(key) ==> exists|i: int| 0 <= i < pairs@.len() && pc_key(pairs@[i].0, pairs@[i].1) == key,
            forall|a: int, b: int| 0 <= a < b < pairs@.len() ==> pairs@[a] != pairs@[b],
        decreases db.rows.len() - k,
    {
        let r = &db.rows[k];
        assert(db.rows@[k as int] == *r);
        proof {
            lemma_table_bounds(*db, e as int, k as int);
            lemma_table_bounds(*db, e as int, k + 1);
            lemma_weight_mono(*db, k + 1, db.rows@.len() as int);
            assert(weight(*db, k + 1) == weight(*db, k as int) + row_weight(*r));
            lemma_contribution_bounds(*r);
        }
        if r.event == e && days[r.comp].is_some() {
            if let Some((s, c)) = row_contribution(r) {
                let key: u64 = (r.person as u64) * 0x1_0000_0000 + r.comp as u64;
                assert(key == pc_key(r.person, r.comp));
                match acc.get(&key) {
                    Some(old) => {
                        let v = (old.0 + s, old.1 + c);
                        acc.insert(key, v);
                    },
                    None => {
                        acc.insert(key, (s, c));
                        let ghost before = pairs@;
                        pairs.push((r.person, r.comp));
                        proof {
                            assert forall|a: int, b: int| 0 <= a < b < pairs@.len() implies pairs@[a] != pairs@[b] by {
                                if b == pairs@.len() - 1 {
                                    assert(acc@.contains_key(pc_key(before[a].0, before[a].1)));
                                    if pairs@[a] == pairs@[b] {
                                        assert(pc_key(before[a].0, before[a].1) == key);
                                    }
                                }
                            }
                            assert forall|key2: u64| #[trigger] acc@.contains_key(key2) implies exists|i: int|
                                0 <= i < pairs@.len() && pc_key(pairs@[i].0, pairs@[i].1) == key2 by {
                                if key2 == key {
                                    assert(pc_key(pairs@[pairs@.len() - 1].0, pairs@[pairs@.len() - 1].1) == key2);
                                } else {
                                    let i = choose|i: int| 0 <= i < before.len() && pc_key(before[i].0, before[i].1) == key2;
                                    assert(pairs@[i] == before[i]);
                                }
                            }
                        }
                    },
                }
            }
        }
        k = k + 1;
    }
    (acc, pairs)
}

/// Entry `en` is the table's (person, competition) entry.
pub open spec fn comp_ok(db: IndexedDb, e: int, en: SkillComp) -> bool {
    let t = skill_table(db, e, db.rows@.len() as int);
    &&& en.person < db.n_persons
    &&& en.comp < db.comps@.len()
    &&& t.contains_key(pc_key(en.person, en.comp))
    &&& t[pc_key(en.person, en.comp)] == (en.sum, en.cnt)
    &&& start_day(db, en.comp as int) == Some(en.jdn)
}

pub open spec fn comp_listed(out: Seq<SkillComp>, key: u64) -> bool {
    exists|i: int| 0 <= i < out.len() && pc_key(out[i].person, out[i].comp) == key
}

/// `a` comes before `b`: an earlier person, or the same person and an
/// earlier competition day, or the same day and an earlier competition.
pub open spec fn comp_before(a: SkillComp, b: SkillComp) -> bool {
    ||| a.person < b.person
    ||| a.person == b.person && a.jdn < b.jdn
    ||| a.person == b.person && a.jdn == b.jdn && a.comp < b.comp
}

/// Every (person, competition) result of event `e`, ordered by person, then
/// competition day, then competition.
pub fn skill_comps(db: &IndexedDb, e: usize) -> (out: Vec<SkillComp>)
    requires
        skill_sizes_ok(*db),
    ensures
        forall|i: int| 0 <= i < out@.len() ==> comp_ok(*db, e as int, #[trigger] out@[i]),
        forall|key: u64| #[trigger] skill_table(*db, e as int, db.rows@.len() as int).contains_key(key) ==> comp_listed(out@, key),
        forall|a: int, b: int| 0 <= a < b < out@.len() ==> comp_before(out@[a], out@[b]),
{
    let (acc, pairs) = fold_skill(db, e);
    let days = comp_start_days(db);
    let mut keys: Vec<SortKey> = Vec::new();
    let mut i: usize = 0;
    while i < pairs.len()
        invariant
            skill_sizes_ok(*db),
            days@.len() == db.comps@.len(),
            forall|c: int| 0 <= c < db.comps@.len() ==> #[trigger] days@[c] == start_day(*db, c),
            forall|c: int| 0 <= c < days@.len() ==> (#[trigger] days@[c] matches Some(j) ==> 1_000_000 <= j <= 30_000_000),
            forall|i: int| 0 <= i < pairs@.len() ==> (#[trigger] pairs@[i]).0 < db.n_persons && pairs@[i].1 < db.comps@.len()
                && start_day(*db, pairs@[i].1 as int) is Some,
            i <= pairs@.len(),
            keys@.len() == i,
            forall|j: int| 0 <= j < i ==> #[trigger] keys@[j] == (pairs@[j].0 as i64, start_day(*db, pairs@[j].1 as int).unwrap() as i64,
                pairs@[j].1 as i64, 0i64, j as usize),
        decreases pairs.len() - i,
    {
        let (p, c) = pairs[i];
        let jdn = match days[c] {
            Some(d) => d,
            None => 0,
        };
        keys.push((p as i64, jdn as i64, c as i64, 0, i));
        i = i + 1;
    }
    let sk = sort_keys(&keys);
    let npairs = pairs.len();
    proof {
        crate::search::lemma_perm_members(keys@, sk@);
        crate::search::lemma_perm_distinct(keys@, sk@);
    }
    let mut out: Vec<SkillComp> = Vec::new();
    let mut t: usize = 0;
    while t < sk.len()
        invariant
            skill_sizes_ok(*db),
            acc@ == skill_table(*db, e as int, db.rows@.len() as int),
            forall|i: int| 0 <= i < pairs@.len() ==> (#[trigger] pairs@[i]).0 < db.n_persons && pairs@[i].1 < db.comps@.len()
                && start_day(*db, pairs@[i].1 as int) is Some,
            forall|i: int| 0 <= i < pairs@.len() ==> acc@.contains_key(pc_key((#[trigger] pairs@[i]).0, pairs@[i].1)),
            keys@.len() == pairs@.len(),
            npairs == pairs@.len(),
            forall|j: int| 0 <= j < keys@.len() ==> #[trigger] keys@[j] == (pairs@[j].0 as i64, start_day(*db, pairs@[j].1 as int).unwrap() as i64,
                pairs@[j].1 as i64, 0i64, j as usize),
            forall|j: int| 0 <= j < sk@.len() ==> keys@.contains(#[trigger] sk@[j]),
            t <= sk@.len(),
            out@.len() == t,
            forall|i: int| 0 <= i < t ==> comp_ok(*db, e as int, #[trigger] out@[i]),
            forall|i: int| 0 <= i < t ==> (#[trigger] out@[i]).person as int == sk@[i].0 && out@[i].jdn as int == sk@[i].1
                && out@[i].comp as int == sk@[i].2,
        decreases sk.len() - t,
    {
        let j = sk[t].4;
        proof {
            assert(keys@.contains(sk@[t as int]));
            let q = choose|q: int| 0 <= q < keys@.len() && keys@[q] == sk@[t as int];
            assert(keys@[q].4 == q);
        }
        let (p, c) = pairs[j];
        let key: u64 = (p as u64) * 0x1_0000_0000 + c as u64;
        assert(key == pc_key(p, c));
        let v = match acc.get(&key) {
            Some(v) => *v,
            None => (0, 0),
        };
        let jdn = sk[t].1 as i32;
        out.push(SkillComp { person: p, comp: c, jdn, sum: v.0, cnt: v.1 });
        t = t + 1;
    }
    proof {
        assert forall|a: int, b: int| 0 <= a < b < out@.len() implies comp_before(out@[a], out@[b]) by {
            assert(key_le(sk@[a], sk@[b]));
            assert(sk@[a] != sk@[b]);
            assert(keys@.contains(sk@[a]));
            assert(keys@.contains(sk@[b]));
            let qa = choose|q: int| 0 <= q < keys@.len() && keys@[q] == sk@[a];
            let qb = choose|q: int| 0 <= q < keys@.len() && keys@[q] == sk@[b];
            if sk@[a].0 == sk@[b].0 && sk@[a].1 == sk@[b].1 && sk@[a].2 == sk@[b].2 {
                assert(pairs@[qa] == pairs@[qb]);
            }
        }
        assert forall|key: u64| #[trigger] skill_table(*db, e as int, db.rows@.len() as int).contains_key(key) implies comp_listed(out@, key) by {
            let i = choose|i: int| 0 <= i < pairs@.len() && pc_key(pairs@[i].0, pairs@[i].1) == key;
            crate::search::lemma_perm_members(keys@, sk@);
            assert(sk@.contains(keys@[i]));
            let t = choose|t: int| 0 <= t < sk@.len() && sk@[t] == keys@[i];
            assert(out@[t].person == pairs@[i].0 && out@[t].comp == pairs@[i].1);
        }
    }
    out
}

/// The name and country shown for person `p` in event `e`: those of the
/// persons table, else those recorded with the person's first result of the
/// event that counts.
pub open spec fn first_counted(db: IndexedDb, e: int, p: int, n: int) -> Option<int>
    decreases n,
{
    if n <= 0 {
        None
    } else {
        let prev = first_counted(db, e, p, n - 1);
        let r = db.rows@[n - 1];
        if prev is None && r.event == e && r.person == p && start_day(db, r.comp as int) is Some && contribution(r) is Some {
            Some(n - 1)
        } else {
            prev
        }
    }
}

pub open spec fn identity_ok(db: IndexedDb, e: int, p: int, id: (String, String)) -> bool {
    match db.person_names@[p] {
        Some(nm) => id.0@ == nm@ && db.person_country@[p] is Some && id.1@ == db.country_ids@[db.person_country@[p].unwrap() as int]@,
        None => match first_counted(db, e, p, db.rows@.len() as int) {
            Some(k) => id.0@ == db.rows@[k].person_name@ && id.1@ == db.country_ids@[db.rows@[k].country as int]@,
            None => id.0@.len() == 0 && id.1@.len() == 0,
        },
    }
}

proof fn lemma_first_counted_bound(db: IndexedDb, e: int, p: int, n: int)
    ensures
        first_counted(db, e, p, n) matches Some(k) ==> 0 <= k < n,
    decreases n,
{
    if n > 0 {
        lemma_first_counted_bound(db, e, p, n - 1);
    }
}

/// The shown name and country of person `p` in event `e`.
pub fn skill_identity(db: &IndexedDb, e: usize, p: usize) -> (id: (String, String))
    requires
        skill_sizes_ok(*db),
        p < db.n_persons,
    ensures
        identity_ok(*db, e as int, p as int, id),
{
    if let Some(nm) = &db.person_names[p] {
        assert(db.person_country@[p as int] is Some);
        let c = match db.person_country[p] {
            Some(c) => db.country_ids[c].clone(),
            None => String::new(),
        };
        return (nm.clone(), c);
    }
    let days = comp_start_days(db);
    let mut k: usize = 0;
    while k < db.rows.len()
        invariant
            skill_sizes_ok(*db),
            days@.len() == db.comps@.len(),
            forall|c: int| 0 <= c < db.comps@.len() ==> #[trigger] days@[c] == start_day(*db, c),
            k <= db.rows@.len(),
            p < db.n_persons,
            db.person_names@[p as int] is None,
            first_counted(*db, e as int, p as int, k as int) is None,
            first_counted(*db, e as int, p as int, db.rows@.len() as int) == first_counted(*db, e as int, p as int, k as int)
                || first_counted(*db, e as int, p as int, k as int) is None,
        decreases db.rows.len() - k,
    {
        let r = &db.rows[k];
        assert(db.rows@[k as int] == *r);
        proof {
            lemma_weight_mono(*db, k + 1, db.rows@.len() as int);
            assert(weight(*db, k + 1) == weight(*db, k as int) + row_weight(*r));
        }
        if r.event == e && r.person == p && days[r.comp].is_some() && row_contribution(r).is_some() {
            proof {
                assert(first_counted(*db, e as int, p as int, k + 1) == Some(k as int));
                lemma_first_counted_stable(*db, e as int, p as int, k + 1, db.rows@.len() as int);
            }
            return (r.person_name.clone(), db.country_ids[r.country].clone());
        }
        k = k + 1;
    }
    (String::new(), String::new())
}

proof fn lemma_first_counted_stable(db: IndexedDb, e: int, p: int, m: int, n: int)
    requires
        0 <= m <= n,
        first_counted(db, e, p, m) is Some,
    ensures
        first_counted(db, e, p, n) == first_counted(db, e, p, m),
    decreases n - m,
{
    if n > m {
        lemma_first_counted_stable(db, e, p, m, n - 1);
    }
}

/// The events with skill estimates: active, not excluded, with results.
pub fn skill_events(db: &IndexedDb) -> (out: Vec<usize>)
    requires
        db.wf(),
    ensures
        forall|i: int| 0 <= i < out@.len() ==> (#[trigger] out@[i]) < db.events@.len() && db.event_active@[out@[i] as int]
            && !skill_excluded(db.events@[out@[i] as int]@) && exists|k: int| 0 <= k < db.rows@.len() && #[trigger] db.rows@[k].event == out@[i],
        forall|e: int| 0 <= e < db.events@.len() && db.event_active@[e] && !skill_excluded(db.events@[e]@)
            && (exists|k: int| 0 <= k < db.rows@.len() && #[trigger] db.rows@[k].event == e) ==> out@.contains(e as usize),
        forall|a: int, b: int| 0 <= a < b < out@.len() ==> out@[a] < out@[b],
{
    let ne = db.events.len();
    let mut seen: Vec<bool> = Vec::new();
    let mut e: usize = 0;
    while e < ne
        invariant
            e <= ne,
            seen@.len() == e,
            forall|q: int| 0 <= q < e ==> !(#[trigger] seen@[q]),
        decreases ne - e,
    {
        seen.push(false);
        e = e + 1;
    }
    let mut k: usize = 0;
    while k < db.rows.len()
        invariant
            db.wf(),
            ne == db.events@.len(),
            seen@.len() == ne,
            k <= db.rows@.len(),
            forall|q: int| 0 <= q < ne ==> #[trigger] seen@[q] == exists|j: int| 0 <= j < k && #[trigger] db.rows@[j].event == q,
        decreases db.rows.len() - k,
    {
        let ev = db.rows[k].event;
        assert(db.rows@[k as int].event < ne);
        seen.set(ev, true);
        proof {
            assert forall|q: int| 0 <= q < ne implies #[trigger] seen@[q] == exists|j: int| 0 <= j < k + 1 && #[trigger] db.rows@[j].event == q by {
                if q == ev as int {
                    assert(db.rows@[k as int].event == q);
                }
            }
        }
        k = k + 1;
    }
    let mut out: Vec<usize> = Vec::new();
    let mut e: usize = 0;
    while e < ne
        invariant
            db.wf(),
            ne == db.events@.len(),
            seen@.len() == ne,
            forall|q: int| 0 <= q < ne ==> #[trigger] seen@[q] == exists|j: int| 0 <= j < db.rows@.len() && #[trigger] db.rows@[j].event == q,
            e <= ne,
            forall|i: int| 0 <= i < out@.len() ==> (#[trigger] out@[i]) < e && db.event_active@[out@[i] as int]
                && !skill_excluded(db.events@[out@[i] as int]@) && seen@[out@[i] as int],
            forall|q: int| 0 <= q < e && db.event_active@[q] && !skill_excluded(db.events@[q]@) && #[trigger] seen@[q] ==> out@.contains(q as usize),
            forall|a: int, b: int| 0 <= a < b < out@.len() ==> out@[a] < out@[b],
        decreases ne - e,
    {
        if db.event_active[e] && !is_skill_excluded(&db.events[e]) && seen[e] {
            let ghost before = out@;
            out.push(e);
            proof {
                assert forall|q: int| 0 <= q < e + 1 && db.event_active@[q] && !skill_excluded(db.events@[q]@) && #[trigger] seen@[q]
                    implies out@.contains(q as usize) by {
                    if q < e {
                        let i = choose|i: int| 0 <= i < before.len() && before[i] == q as usize;
                        assert(out@[i] == before[i]);
                    } else {
                        assert(out@[out@.len() - 1] == q as usize);
                    }
                }
            }
        }
        e = e + 1;
    }
    proof {
        assert forall|i: int| 0 <= i < out@.len() implies (#[trigger] out@[i]) < db.events@.len() && db.event_active@[out@[i] as int]
            && !skill_excluded(db.events@[out@[i] as int]@) && exists|k: int| 0 <= k < db.rows@.len() && #[trigger] db.rows@[k].event == out@[i] by {
            assert(seen@[out@[i] as int]);
        }
        assert forall|e: int| 0 <= e < db.events@.len() && db.event_active@[e] && !skill_excluded(db.events@[e]@)
            && (exists|k: int| 0 <= k < db.rows@.len() && #[trigger] db.rows@[k].event == e) implies out@.contains(e as usize) by {
            assert(seen@[e]);
        }
    }
    out
}

} // verus!
