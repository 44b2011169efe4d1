//! The export with its text ids replaced by positions in per-kind id tables,
//! which is the form the statistics compute on.
//!
//! Person positions follow the order of WCA ids, so comparing two positions
//! compares the ids.
use vstd::prelude::*;

verus! {

/// One result row with its ids as table positions.
pub struct Row {
    pub best: i32,
    pub average: i32,
    /// Position in `IndexedDb::events`.
    pub event: usize,
    /// Position in the person table.
    pub person: usize,
    /// Position in `IndexedDb::comps`.
    pub comp: usize,
    /// Position in the country table (the person's country at the time).
    pub country: usize,
    /// Position in `IndexedDb::formats`.
    pub format: usize,
    /// Position in `IndexedDb::round_types`.
    pub round_type: usize,
    /// Regional record label of the single, as a position in `IndexedDb::labels`.
    pub single_record: Option<usize>,
    /// Regional record label of the average, as a position in `IndexedDb::labels`.
    pub average_record: Option<usize>,
    /// The individual attempts, in attempt order, when the export has them.
    pub attempts: Option<Vec<i32>>,
    /// The competitor's name as recorded with the result.
    pub person_name: String,
}

/// Start and end dates of a competition.
pub struct CompDates {
    pub year: u16,
    pub month: u8,
    pub day: u8,
    pub end_year: u16,
    pub end_month: u8,
    pub end_day: u8,
}

/// One row of a rankings table (personal bests).
#[derive(Clone, Copy)]
pub struct RankRow {
    /// Position in the person table.
    pub person: usize,
    /// Position in `IndexedDb::events`.
    pub event: usize,
    pub best: i32,
    pub world_rank: u32,
}

/// The indexed export.
pub struct IndexedDb {
    pub rows: Vec<Row>,
    /// Event ids by position.
    pub events: Vec<String>,
    /// Whether each event is in the events table (retired events are not).
    pub event_active: Vec<bool>,
    /// Format ids by position.
    pub formats: Vec<String>,
    /// Whether each round type is a final.
    pub round_is_final: Vec<bool>,
    /// Record labels by position ("WR", "ER", ...).
    pub labels: Vec<String>,
    /// Dates of each competition of the competitions table, and of each
    /// competition a result names; `None` where the table lacks it.
    pub comps: Vec<Option<CompDates>>,
    /// Number of persons (the person table's length).
    pub n_persons: usize,
    /// WCA id of each person.
    pub person_ids: Vec<String>,
    /// Current name of each person, where the persons file lists the person.
    pub person_names: Vec<Option<String>>,
    /// Current country of each person, where the persons file lists the person.
    pub person_country: Vec<Option<usize>>,
    /// Country ids by position.
    pub country_ids: Vec<String>,
    /// Name of each country, where the countries file lists it.
    pub country_names: Vec<Option<String>>,
    /// Competition ids by position.
    pub comp_ids: Vec<String>,
    /// The single rankings table, in file order.
    pub ranks_single: Vec<RankRow>,
    /// The average rankings table, in file order.
    pub ranks_average: Vec<RankRow>,
}

impl IndexedDb {
    /// Every position a row holds is inside its table, and persons are
    /// numbered in the order of their ids.
    pub open spec fn wf(&self) -> bool {
        &&& self.person_ids@.len() == self.n_persons
        &&& ids_ascending(self.person_ids@)
        &&& self.country_names@.len() == self.country_ids@.len()
        &&& self.person_names@.len() == self.n_persons
        &&& self.person_country@.len() == self.n_persons
        &&& forall|p: int| 0 <= p < self.n_persons ==> match #[trigger] self.person_country@[p] {
            Some(c) => c < self.country_ids@.len() && self.person_names@[p] is Some,
            None => self.person_names@[p] is None,
        }
        &&& self.comp_ids@.len() == self.comps@.len()
        &&& self.event_active@.len() == self.events@.len()
        &&& forall|k: int| 0 <= k < self.rows@.len() ==> {
            let r = #[trigger] self.rows@[k];
            &&& r.country < self.country_ids@.len()
            &&& r.event < self.events@.len()
            &&& r.person < self.n_persons
            &&& r.comp < self.comps@.len()
            &&& r.format < self.formats@.len()
            &&& r.round_type < self.round_is_final@.len()
            &&& (r.single_record matches Some(l) ==> l < self.labels@.len())
            &&& (r.average_record matches Some(l) ==> l < self.labels@.len())
        }
        &&& forall|k: int| 0 <= k < self.ranks_single@.len() ==> #[trigger] self.ranks_single@[k].person < self.n_persons
            && self.ranks_single@[k].event < self.events@.len()
        &&& forall|k: int| 0 <= k < self.ranks_average@.len() ==> #[trigger] self.ranks_average@[k].person < self.n_persons
            && self.ranks_average@[k].event < self.events@.len()
    }
}

/// Strict order of texts: by the code point of the first differing character,
/// a proper prefix first. This is the order of `String`'s `Ord`, since UTF-8
/// keeps the order of code points.
pub open spec fn text_lt(a: Seq<char>, b: Seq<char>) -> bool
    decreases a.len(),
{
    if a.len() == 0 {
        b.len() > 0
    } else if b.len() == 0 {
        false
    } else if a[0] != b[0] {
        a[0] < b[0]
    } else {
        text_lt(a.drop_first(), b.drop_first())
    }
}

/// The texts are in strictly ascending order.
#[verifier::opaque]
pub open spec fn ids_ascending(ids: Seq<String>) -> bool {
    forall|i: int, j: int| 0 <= i < j < ids.len() ==> text_lt(#[trigger] ids[i]@, #[trigger] ids[j]@)
}

/// No text precedes itself, and two texts are never each before the other.
pub proof fn lemma_text_lt_strict(a: Seq<char>, b: Seq<char>)
    ensures
        !text_lt(a, a),
        !(text_lt(a, b) && text_lt(b, a)),
    decreases a.len(),
{
    if a.len() > 0 && b.len() > 0 {
        lemma_text_lt_strict(a.drop_first(), b.drop_first());
    }
    if a.len() > 0 {
        lemma_text_lt_strict(a.drop_first(), a.drop_first());
    }
}

/// The order of texts is transitive.
pub proof fn lemma_text_lt_trans(a: Seq<char>, b: Seq<char>, c: Seq<char>)
    requires
        text_lt(a, b),
        text_lt(b, c),
    ensures
        text_lt(a, c),
    decreases a.len(),
{
    if a.len() > 0 && b.len() > 0 && c.len() > 0 && a[0] == b[0] && b[0] == c[0] {
        lemma_text_lt_trans(a.drop_first(), b.drop_first(), c.drop_first());
    }
}

/// Person positions follow id order: an earlier position has the smaller id.
pub proof fn lemma_person_order(db: IndexedDb, p: int, q: int)
    requires
        db.wf(),
        0 <= p < db.n_persons,
        0 <= q < db.n_persons,
    ensures
        p < q <==> text_lt(db.person_ids@[p]@, db.person_ids@[q]@),
{
    reveal(ids_ascending);
    lemma_text_lt_strict(db.person_ids@[p]@, db.person_ids@[q]@);
    if q < p {
        assert(text_lt(db.person_ids@[q]@, db.person_ids@[p]@));
    }
}

/// Whether text `a` comes strictly before text `b`.
pub fn text_less(a: &str, b: &str) -> (r: bool)
    ensures
        r == text_lt(a@, b@),
{
    let n = a.unicode_len();
    let m = b.unicode_len();
    let mut i: usize = 0;
    proof {
        assert(a@.skip(0) =~= a@);
        assert(b@.skip(0) =~= b@);
    }
    while i < n && i < m
        invariant
            n == a@.len(),
            m == b@.len(),
            i <= n && i <= m,
            text_lt(a@, b@) == text_lt(a@.skip(i as int), b@.skip(i as int)),
        decreases n - i,
    {
        let ca = a.get_char(i);
        let cb = b.get_char(i);
        proof {
            assert(a@.skip(i as int)[0] == ca);
            assert(b@.skip(i as int)[0] == cb);
        }
        if ca != cb {
            return ca < cb;
        }
        proof {
            assert(a@.skip(i as int).drop_first() =~= a@.skip(i + 1));
            assert(b@.skip(i as int).drop_first() =~= b@.skip(i + 1));
        }
        i = i + 1;
    }
    i < m && i == n
}

/// Whether the ids are in strictly ascending order.
pub fn ids_in_order(ids: &Vec<String>) -> (r: bool)
    ensures
        r == ids_ascending(ids@),
{
    reveal(ids_ascending);
    let mut k: usize = 1;
    if ids.len() < 2 {
        return true;
    }
    while k < ids.len()
        invariant
            1 <= k <= ids@.len(),
            forall|i: int, j: int| 0 <= i < j < k ==> text_lt(#[trigger] ids@[i]@, #[trigger] ids@[j]@),
        decreases ids@.len() - k,
    {
        if !text_less(ids[k - 1].as_str(), ids[k].as_str()) {
            proof {
                reveal(ids_ascending);
                assert(!text_lt(ids@[k - 1]@, ids@[k as int]@));
            }
            return false;
        }
        proof {
            assert forall|i: int, j: int| 0 <= i < j < k + 1 implies text_lt(#[trigger] ids@[i]@, #[trigger] ids@[j]@) by {
                if j == k && i < k - 1 {
                    lemma_text_lt_trans(ids@[i]@, ids@[k - 1]@, ids@[k as int]@);
                }
            }
        }
        k = k + 1;
    }
    true
}

/// Two texts are equal or one comes before the other.
pub proof fn lemma_text_lt_total(a: Seq<char>, b: Seq<char>)
    ensures
        a == b || text_lt(a, b) || text_lt(b, a),
    decreases a.len(),
{
    if a.len() == 0 {
        if b.len() == 0 {
            assert(a =~= b);
        }
    } else if b.len() > 0 && a[0] == b[0] {
        lemma_text_lt_total(a.drop_first(), b.drop_first());
        if a.drop_first() == b.drop_first() {
            assert(a.drop_first().len() == a.len() - 1);
            assert(b.drop_first().len() == b.len() - 1);
            assert(a.len() == b.len());
            assert forall|i: int| 0 <= i < a.len() implies a[i] == b[i] by {
                if i > 0 {
                    assert(a[i] == a.drop_first()[i - 1]);
                    assert(b[i] == b.drop_first()[i - 1]);
                }
            }
            assert(a =~= b);
        }
    } else if b.len() > 0 {
    }
}

/// Position of `id` in the ascending id table `ids`, if it is there.
pub fn find_id(ids: &Vec<String>, id: &str) -> (r: Option<usize>)
    requires
        ids_ascending(ids@),
    ensures
        match r {
            Some(i) => i < ids@.len() && ids@[i as int]@ == id@,
            None => forall|i: int| 0 <= i < ids@.len() ==> (#[trigger] ids@[i])@ != id@,
        },
{
    let mut lo: usize = 0;
    let mut hi: usize = ids.len();
    while lo < hi
        invariant
            ids_ascending(ids@),
            lo <= hi <= ids@.len(),
            forall|i: int| 0 <= i < lo ==> text_lt((#[trigger] ids@[i])@, id@),
            forall|i: int| hi <= i < ids@.len() ==> text_lt(id@, (#[trigger] ids@[i])@),
        decreases hi - lo,
    {
        let mid = lo + (hi - lo) / 2;
        if str_is(&ids[mid], id) {
            return Some(mid);
        }
        if text_less(ids[mid].as_str(), id) {
            proof {
                reveal(ids_ascending);
                assert forall|i: int| 0 <= i < mid + 1 implies text_lt((#[trigger] ids@[i])@, id@) by {
                    if i < mid {
                        lemma_text_lt_trans(ids@[i]@, ids@[mid as int]@, id@);
                    }
                }
            }
            lo = mid + 1;
        } else {
            proof {
                reveal(ids_ascending);
                lemma_text_lt_total(ids@[mid as int]@, id@);
                assert forall|i: int| mid <= i < ids@.len() implies text_lt(id@, (#[trigger] ids@[i])@) by {
                    if i > mid {
                        lemma_text_lt_trans(id@, ids@[mid as int]@, ids@[i]@);
                    }
                }
            }
            hi = mid;
        }
    }
    proof {
        assert forall|i: int| 0 <= i < ids@.len() implies (#[trigger] ids@[i])@ != id@ by {
            lemma_text_lt_strict(id@, id@);
            if i < lo {
                assert(text_lt(ids@[i]@, id@));
            } else {
                assert(text_lt(id@, ids@[i]@));
            }
        }
    }
    None
}

/// Whether `s` spells `lit`.
pub fn str_is(s: &String, lit: &str) -> (r: bool)
    ensures
        r == (s@ == lit@),
{
    let t: &str = s.as_str();
    let n = t.unicode_len();
    let m = lit.unicode_len();
    if n != m {
        return false;
    }
    let mut i: usize = 0;
    while i < n
        invariant
            n == t@.len(),
            m == lit@.len(),
            n == m,
            t@ == s@,
            i <= n,
            forall|k: int| 0 <= k < i ==> t@[k] == lit@[k],
        decreases n - i,
    {
        if t.get_char(i) != lit.get_char(i) {
            return false;
        }
        i = i + 1;
    }
    proof {
        assert(t@ =~= lit@);
    }
    true
}

/// Whether two texts are equal.
pub fn str_is_str(s: &str, lit: &str) -> (r: bool)
    ensures
        r == (s@ == lit@),
{
    let n = s.unicode_len();
    let m = lit.unicode_len();
    if n != m {
        return false;
    }
    let mut i: usize = 0;
    while i < n
        invariant
            n == s@.len(),
            m == lit@.len(),
            n == m,
            i <= n,
            forall|k: int| 0 <= k < i ==> s@[k] == lit@[k],
        decreases n - i,
    {
        if s.get_char(i) != lit.get_char(i) {
            return false;
        }
        i = i + 1;
    }
    proof {
        assert(s@ =~= lit@);
    }
    true
}

/// End date of a competition as the number `yyyymmdd`, or `u32::MAX` when the
/// competition is unknown (so that such results sort last).
pub fn end_date(comp: Option<&CompDates>) -> (r: u32)
    ensures
        r == match comp {
            Some(c) => c.end_year as int * 10_000 + c.end_month as int * 100 + c.end_day as int,
            None => u32::MAX as int,
        },
{
    match comp {
        Some(c) => (c.end_year as u32) * 10_000 + (c.end_month as u32) * 100 + c.end_day as u32,
        None => u32::MAX,
    }
}

/// The entry of a rankings table for person `p` in event `e` among its first
/// `n` rows: the last such row, as a table keyed by person and event keeps.
pub open spec fn rank_entry(rows: Seq<RankRow>, p: int, e: int, n: int) -> Option<RankRow>
    decreases n,
{
    if n <= 0 {
        None
    } else if rows[n - 1].person == p && rows[n - 1].event == e {
        Some(rows[n - 1])
    } else {
        rank_entry(rows, p, e, n - 1)
    }
}

/// Each person's entry of a rankings table in event `e`.
pub fn event_column(rows: &Vec<RankRow>, n_persons: usize, e: usize) -> (col: Vec<Option<RankRow>>)
    requires
        forall|k: int| 0 <= k < rows@.len() ==> #[trigger] rows@[k].person < n_persons,
    ensures
        col@.len() == n_persons,
        forall|p: int| 0 <= p < n_persons ==> #[trigger] col@[p] == rank_entry(rows@, p, e as int, rows@.len() as int),
{
    let mut col: Vec<Option<RankRow>> = Vec::new();
    let mut p: usize = 0;
    while p < n_persons
        invariant
            p <= n_persons,
            col@.len() == p,
            forall|q: int| 0 <= q < p ==> #[trigger] col@[q] is None,
        decreases n_persons - p,
    {
        col.push(None);
        p = p + 1;
    }
    let mut k: usize = 0;
    while k < rows.len()
        invariant
            forall|k: int| 0 <= k < rows@.len() ==> #[trigger] rows@[k].person < n_persons,
            k <= rows@.len(),
            col@.len() == n_persons,
            forall|q: int| 0 <= q < n_persons ==> #[trigger] col@[q] == rank_entry(rows@, q, e as int, k as int),
        decreases rows.len() - k,
    {
        let r = rows[k];
        if r.event == e {
            col.set(r.person, Some(r));
        }
        k = k + 1;
    }
    col
}

/// The name to show for a result: the person's current name where the person
/// table has one, else the name recorded with the result.
pub fn person_name<'a>(current: Option<&'a String>, recorded: &'a String) -> (r: &'a String)
    ensures
        r == match current {
            Some(n) => n,
            None => recorded,
        },
{
    match current {
        Some(n) => n,
        None => recorded,
    }
}

/// Start day number of competition `c`, where its dates are known.
pub open spec fn start_day(db: IndexedDb, c: int) -> Option<i32> {
    match db.comps@[c] {
        Some(d) => Some(crate::dates::jdn_of(d.year as int, d.month as int, d.day as int) as i32),
        None => None::<i32>,
    }
}

/// Start day number of each competition (`None` where unknown).
pub fn comp_start_days(db: &IndexedDb) -> (r: Vec<Option<i32>>)
    ensures
        r@.len() == db.comps@.len(),
        forall|c: int| 0 <= c < db.comps@.len() ==> #[trigger] r@[c] == start_day(*db, c),
        forall|c: int| 0 <= c < r@.len() ==> (#[trigger] r@[c] matches Some(j) ==> 1_000_000 <= j <= 30_000_000),
{
    let mut out: Vec<Option<i32>> = Vec::new();
    let mut c: usize = 0;
    while c < db.comps.len()
        invariant
            c <= db.comps@.len(),
            out@.len() == c,
            forall|k: int| 0 <= k < c ==> #[trigger] out@[k] == match db.comps@[k] {
                Some(d) => Some(crate::dates::jdn_of(d.year as int, d.month as int, d.day as int) as i32),
                None => None::<i32>,
            },
            forall|k: int| 0 <= k < c ==> (#[trigger] out@[k] matches Some(j) ==> 1_000_000 <= j <= 30_000_000),
        decreases db.comps@.len() - c,
    {
        match &db.comps[c] {
            Some(d) => {
                let j = crate::dates::ymd_to_jdn(d.year, d.month, d.day);
                out.push(Some(j));
            },
            None => {
                out.push(None);
            },
        }
        c = c + 1;
    }
    out
}

} // verus!
