//! Rows of the WCA results export, and the checks applied while reading them.
use vstd::prelude::*;
use std::collections::HashMap;
use crate::sort::{SortKey, sort_keys};
use crate::ranking::is_sorted_perm;

verus! {

/// One row per person per round. `best`/`average` are centiseconds;
/// -1 = DNF, -2 = DNS, 0 = not applicable (e.g. no average in format).
pub struct RawResult {
    pub id: u32,
    pub pos: i32,
    pub best: i32,
    pub average: i32,
    pub competition_id: String,
    pub round_type_id: String,
    pub event_id: String,
    pub person_name: String,
    pub person_id: String,
    pub format_id: String,
    pub regional_single_record: Option<String>,
    pub regional_average_record: Option<String>,
    pub person_country_id: String,
}

/// Individual solve attempt linked to a result row.
/// `value` uses the same centisecond encoding as `best`/`average`.
pub struct RawResultAttempt {
    pub value: i32,
    pub attempt_number: u8,
    pub result_id: u32,
}

/// One row per current name (sub_id == 1); sub_id > 1 rows are historical name changes.
pub struct RawPerson {
    pub name: String,
    pub gender: String,
    pub wca_id: String,
    pub sub_id: u8,
    pub country_id: String,
}

pub struct RawCompetition {
    pub id: String,
    pub name: String,
    pub information: Option<String>,
    pub external_website: Option<String>,
    pub venue: String,
    pub city_name: String,
    pub country_id: String,
    pub venue_address: String,
    pub venue_details: String,
    pub cell_name: String,
    pub cancelled: u8,
    pub event_specs: String,
    pub delegates: String,
    pub organizers: String,
    pub year: u16,
    pub month: u8,
    pub day: u8,
    pub end_year: u16,
    pub end_month: u8,
    pub end_day: u8,
    pub latitude_microdegrees: Option<i64>,
    pub longitude_microdegrees: Option<i64>,
}

pub struct RawRank {
    pub best: i32,
    pub person_id: String,
    pub event_id: String,
    pub world_rank: u32,
    pub continent_rank: u32,
    pub country_rank: u32,
}

pub struct RawChampionship {
    pub id: u32,
    pub competition_id: String,
    pub championship_type: String,
}

pub struct RawEvent {
    pub id: String,
    pub format: String,
    pub name: String,
    pub rank: u32,
}

pub struct RawCountry {
    pub id: String,
    pub iso2: String,
    pub name: String,
    pub continent_id: String,
}

pub struct RawContinent {
    pub id: String,
    pub name: String,
    pub record_name: String,
}

pub struct RawRoundType {
    pub id: String,
    pub is_final: u8,
    pub name: String,
    pub rank: u32,
    pub cell_name: String,
}

pub struct RawFormat {
    pub id: String,
    pub expected_solve_count: u8,
    pub name: String,
    pub sort_by: String,
    pub sort_by_second: String,
    pub trim_fastest_n: u8,
    pub trim_slowest_n: u8,
}

/// The export, keyed the way the statistics look things up.
pub struct WcaDb {
    pub results: Vec<RawResult>,
    /// Attempt values, sorted by attempt number, keyed by result id.
    pub attempts: HashMap<u32, Vec<i32>>,
    pub persons: HashMap<String, RawPerson>,
    pub competitions: HashMap<String, RawCompetition>,
    pub events: HashMap<String, RawEvent>,
    pub formats: HashMap<String, RawFormat>,
    pub countries: HashMap<String, RawCountry>,
    pub continents: HashMap<String, RawContinent>,
    pub round_types: HashMap<String, RawRoundType>,
    /// competition_id → list of championship types at that competition.
    pub championships: HashMap<String, Vec<String>>,
    pub ranks_single: HashMap<(String, String), RawRank>,
    pub ranks_average: HashMap<(String, String), RawRank>,
}

/// Whether `c` has the Unicode `White_Space` property: the 25 code points
/// U+0009–U+000D, U+0020, U+0085, U+00A0, U+1680, U+2000–U+200A, U+2028,
/// U+2029, U+202F, U+205F and U+3000.
pub open spec fn spec_is_whitespace(c: char) -> bool {
    let u = c as u32;
    ||| 0x09 <= u <= 0x0D
    ||| u == 0x20 || u == 0x85 || u == 0xA0 || u == 0x1680
    ||| 0x2000 <= u <= 0x200A
    ||| u == 0x2028 || u == 0x2029 || u == 0x202F || u == 0x205F || u == 0x3000
}

/// Whether `c` has the Unicode `White_Space` property (what
/// `char::is_whitespace` answers).
pub fn is_whitespace(c: char) -> (r: bool)
    ensures
        r == spec_is_whitespace(c),
{
    let u = c as u32;
    (0x09 <= u && u <= 0x0D) || u == 0x20 || u == 0x85 || u == 0xA0 || u == 0x1680
        || (0x2000 <= u && u <= 0x200A) || u == 0x2028 || u == 0x2029 || u == 0x202F || u == 0x205F
        || u == 0x3000
}

/// Length of the leading run of non-white-space characters.
pub open spec fn run_len(s: Seq<char>) -> nat
    decreases s.len(),
{
    if s.len() == 0 || spec_is_whitespace(s[0]) {
        0
    } else {
        1 + run_len(s.drop_first())
    }
}

/// The white-space separated words of `s`, in order.
pub open spec fn words(s: Seq<char>) -> Seq<Seq<char>>
    decreases s.len(),
{
    if s.len() == 0 {
        Seq::empty()
    } else if spec_is_whitespace(s[0]) {
        words(s.drop_first())
    } else {
        let k = run_len(s);
        proof {
            lemma_run_len_bound(s);
        }
        seq![s.subrange(0, k as int)] + words(s.subrange(k as int, s.len() as int))
    }
}

pub proof fn lemma_run_len_bound(s: Seq<char>)
    ensures
        run_len(s) <= s.len(),
        s.len() > 0 && !spec_is_whitespace(s[0]) ==> run_len(s) >= 1,
    decreases s.len(),
{
    if s.len() > 0 && !spec_is_whitespace(s[0]) {
        lemma_run_len_bound(s.drop_first());
    }
}

proof fn lemma_run_len_exact(s: Seq<char>, k: int)
    requires
        0 <= k <= s.len(),
        forall|i: int| 0 <= i < k ==> !spec_is_whitespace(#[trigger] s[i]),
        k == s.len() || spec_is_whitespace(s[k]),
    ensures
        run_len(s) == k,
    decreases k,
{
    if k > 0 {
        lemma_run_len_exact(s.drop_first(), k - 1);
    }
}

impl RawCompetition {
    /// The event ids listed in `event_specs`, in order.
    pub fn events(&self) -> (r: Vec<String>)
        ensures
            r@.len() == words(self.event_specs@).len(),
            forall|i: int| 0 <= i < r@.len() ==> #[trigger] r@[i]@ == words(self.event_specs@)[i],
    {
        let s: &str = self.event_specs.as_str();
        let n = s.unicode_len();
        let ghost sv = s@;
        let mut out: Vec<String> = Vec::new();
        let mut i: usize = 0;
        proof {
            assert(sv.subrange(0, n as int) =~= sv);
        }
        while i < n
            invariant
                sv == s@,
                sv == self.event_specs@,
                n == sv.len(),
                i <= n,
                out@.map_values(|w: String| w@) + words(sv.subrange(i as int, n as int)) == words(sv),
            decreases n - i,
        {
            let c = s.get_char(i);
            if is_whitespace(c) {
                proof {
                    assert(sv.subrange(i as int, n as int).drop_first() =~= sv.subrange(i + 1, n as int));
                }
                i = i + 1;
            } else {
                let mut j = i + 1;
                while j < n && !is_whitespace(s.get_char(j))
                    invariant
                        sv == s@,
                        n == sv.len(),
                        i < j <= n,
                        forall|q: int| i <= q < j ==> !spec_is_whitespace(#[trigger] sv[q]),
                    decreases n - j,
                {
                    j = j + 1;
                }
                let word = String::from_str(s.substring_char(i, j));
                let ghost rest = sv.subrange(i as int, n as int);
                proof {
                    lemma_run_len_exact(rest, j - i);
                    assert(rest.subrange(0, j - i) =~= sv.subrange(i as int, j as int));
                    assert(rest.subrange(j - i, rest.len() as int) =~= sv.subrange(j as int, n as int));
                }
                let ghost before = out@.map_values(|w: String| w@);
                out.push(word);
                proof {
                    assert(out@.map_values(|w: String| w@) =~= before.push(sv.subrange(i as int, j as int)));
                }
                i = j;
            }
        }
        proof {
            assert(sv.subrange(n as int, n as int) =~= Seq::<char>::empty());
            assert(out@.map_values(|w: String| w@) =~= words(sv));
        }
        out
    }
}

/// The text "NULL" stands for a missing value.
pub open spec fn is_null(s: Seq<char>) -> bool {
    s == seq!['N', 'U', 'L', 'L']
}

fn str_is_null(s: &String) -> (r: bool)
    ensures
        r == is_null(s@),
{
    let t: &str = s.as_str();
    let n = t.unicode_len();
    if n != 4 {
        return false;
    }
    let r = t.get_char(0) == 'N' && t.get_char(1) == 'U' && t.get_char(2) == 'L' && t.get_char(3) == 'L';
    proof {
        if r {
            assert(t@ =~= seq!['N', 'U', 'L', 'L']);
        }
    }
    r
}

/// A text field where "NULL" means absent.
pub fn null_str(s: String) -> (r: Option<String>)
    ensures
        is_null(s@) ==> r is None,
        !is_null(s@) ==> r == Some(s),
{
    if str_is_null(&s) {
        None
    } else {
        Some(s)
    }
}

/// Whether every character of `s` is an ASCII digit.
pub open spec fn all_digits(s: Seq<char>) -> bool {
    forall|i: int| 0 <= i < s.len() ==> 48 <= #[trigger] (s[i] as u32) <= 57
}

/// The value of a text of ASCII digits.
pub open spec fn digits_value(s: Seq<char>) -> int
    decreases s.len(),
{
    if s.len() == 0 {
        0
    } else {
        digits_value(s.drop_last()) * 10 + (s.last() as u32 - 48)
    }
}

/// What `str::parse::<i64>` gives: an optional `+` or `-` sign followed by at
/// least one ASCII digit and nothing else, whose value fits an `i64`.
pub open spec fn spec_parse_i64(s: Seq<char>) -> Option<i64> {
    let signed = s.len() > 0 && (s[0] == '-' || s[0] == '+');
    let body = if signed { s.drop_first() } else { s };
    let v = if s.len() > 0 && s[0] == '-' { -digits_value(body) } else { digits_value(body) };
    if body.len() == 0 || !all_digits(body) || v < i64::MIN || v > i64::MAX {
        None
    } else {
        Some(v as i64)
    }
}

/// `str::parse::<i64>`: std documents that it accepts an optional `+` or `-`
/// sign followed by decimal digits, failing on any other text and on values
/// outside the range of `i64`.
#[verifier::external_body]
fn parse_i64(s: &str) -> (r: Option<i64>)
    ensures
        r == spec_parse_i64(s@),
{
    s.parse::<i64>().ok()
}

/// Keys ordering one result's attempt rows (number, value) by attempt number,
/// then by position.
pub open spec fn attempt_keys(rows: Seq<(u8, i32)>) -> Seq<SortKey> {
    Seq::new(rows.len(), |i: int| (rows[i].0 as i64, 0i64, 0i64, 0i64, i as usize))
}

/// `vals` are the values of `rows` in attempt-number order (rows with the
/// same number keep their order).
pub open spec fn attempts_in_order(rows: Seq<(u8, i32)>, vals: Seq<i32>) -> bool {
    exists|sk: Seq<SortKey>| {
        &&& #[trigger] is_sorted_perm(attempt_keys(rows), sk)
        &&& vals.len() == rows.len()
        &&& forall|i: int| 0 <= i < vals.len() ==> (sk[i].4 as int) < rows.len() && #[trigger] vals[i] == rows[sk[i].4 as int].1
    }
}

/// The values of one result's attempt rows, in attempt-number order.
pub fn attempt_values(rows: &Vec<(u8, i32)>) -> (vals: Vec<i32>)
    ensures
        attempts_in_order(rows@, vals@),
{
    let mut keys: Vec<SortKey> = Vec::new();
    let mut i: usize = 0;
    while i < rows.len()
        invariant
            i <= rows@.len(),
            keys@ == attempt_keys(rows@).subrange(0, i as int),
        decreases rows.len() - i,
    {
        keys.push((rows[i].0 as i64, 0, 0, 0, i));
        proof {
            assert(keys@ =~= attempt_keys(rows@).subrange(0, i + 1));
        }
        i = i + 1;
    }
    proof {
        assert(keys@ =~= attempt_keys(rows@));
    }
    let sk = sort_keys(&keys);
    proof {
        crate::search::lemma_perm_members(keys@, sk@);
    }
    let mut vals: Vec<i32> = Vec::new();
    let mut k: usize = 0;
    while k < sk.len()
        invariant
            k <= sk@.len(),
            sk@.len() == rows@.len(),
            keys@ == attempt_keys(rows@),
            forall|p: int| 0 <= p < sk@.len() ==> keys@.contains(#[trigger] sk@[p]),
            vals@.len() == k,
            forall|j: int| 0 <= j < k ==> (sk@[j].4 as int) < rows@.len() && #[trigger] vals@[j] == rows@[sk@[j].4 as int].1,
        decreases sk.len() - k,
    {
        proof {
            assert(keys@.contains(sk@[k as int]));
            let w = choose|w: int| 0 <= w < keys@.len() && keys@[w] == sk@[k as int];
            assert(keys@[w].4 == w);
        }
        vals.push(rows[sk[k].4].1);
        k = k + 1;
    }
    proof {
        assert(is_sorted_perm(attempt_keys(rows@), sk@));
    }
    vals
}

/// An integer field that is neither "NULL" nor a decimal integer.
pub struct BadInteger {
    pub text: String,
}

/// An integer field where "NULL" means absent.
pub fn null_i64(s: String) -> (r: Result<Option<i64>, BadInteger>)
    ensures
        is_null(s@) ==> r == Ok::<Option<i64>, BadInteger>(None),
        !is_null(s@) ==> match spec_parse_i64(s@) {
            Some(v) => r == Ok::<Option<i64>, BadInteger>(Some(v)),
            None => r is Err && r->Err_0.text == s,
        },
{
    if str_is_null(&s) {
        Ok(None)
    } else {
        match parse_i64(s.as_str()) {
            Some(v) => Ok(Some(v)),
            None => Err(BadInteger { text: s }),
        }
    }
}

} // verus!
