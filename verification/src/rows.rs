//! Turning the export's result and ranking rows into indexed rows: every id
//! is replaced by its position in the ascending id table of its kind.
use vstd::prelude::*;
use std::collections::HashMap;
use crate::index::{Row, RankRow, ids_ascending, find_id};
use crate::models::{RawResult, RawRank};

verus! {

broadcast use vstd::std_specs::hash::group_hash_axioms;

/// The ascending id tables of each kind.
pub struct IdTables {
    pub events: Vec<String>,
    pub formats: Vec<String>,
    pub round_types: Vec<String>,
    pub labels: Vec<String>,
    pub comps: Vec<String>,
    pub persons: Vec<String>,
    pub countries: Vec<String>,
}

impl IdTables {
    /// Every table is in strictly ascending order.
    pub open spec fn wf(&self) -> bool {
        &&& ids_ascending(self.events@)
        &&& ids_ascending(self.formats@)
        &&& ids_ascending(self.round_types@)
        &&& ids_ascending(self.labels@)
        &&& ids_ascending(self.comps@)
        &&& ids_ascending(self.persons@)
        &&& ids_ascending(self.countries@)
    }
}

/// `id` occurs in `ids`.
pub open spec fn has_id(ids: Seq<String>, id: Seq<char>) -> bool {
    exists|i: int| 0 <= i < ids.len() && #[trigger] ids[i]@ == id
}

/// Position `p` of `ids` holds `id`.
pub open spec fn at(ids: Seq<String>, p: usize, id: Seq<char>) -> bool {
    p < ids.len() && ids[p as int]@ == id
}

/// Every id of result `r` occurs in its table.
pub open spec fn resolvable(r: RawResult, t: IdTables) -> bool {
    &&& has_id(t.events@, r.event_id@)
    &&& has_id(t.formats@, r.format_id@)
    &&& has_id(t.round_types@, r.round_type_id@)
    &&& has_id(t.comps@, r.competition_id@)
    &&& has_id(t.persons@, r.person_id@)
    &&& has_id(t.countries@, r.person_country_id@)
    &&& (r.regional_single_record matches Some(l) ==> has_id(t.labels@, l@))
    &&& (r.regional_average_record matches Some(l) ==> has_id(t.labels@, l@))
}

/// A record label given as a position of `labels`.
pub open spec fn label_ok(labels: Seq<String>, l: Option<String>, p: Option<usize>) -> bool {
    match l {
        Some(l) => p matches Some(q) && at(labels, q, l@),
        None => p is None,
    }
}

/// `row` is result `r` with its ids as positions, and `att` as its attempts.
pub open spec fn row_of(r: RawResult, att: Option<Seq<i32>>, t: IdTables, row: Row) -> bool {
    &&& row.best == r.best && row.average == r.average
    &&& at(t.events@, row.event, r.event_id@)
    &&& at(t.formats@, row.format, r.format_id@)
    &&& at(t.round_types@, row.round_type, r.round_type_id@)
    &&& at(t.comps@, row.comp, r.competition_id@)
    &&& at(t.persons@, row.person, r.person_id@)
    &&& at(t.countries@, row.country, r.person_country_id@)
    &&& label_ok(t.labels@, r.regional_single_record, row.single_record)
    &&& label_ok(t.labels@, r.regional_average_record, row.average_record)
    &&& match att {
        Some(a) => row.attempts matches Some(v) && v@ == a,
        None => row.attempts is None,
    }
    &&& row.person_name@ == r.person_name@
}

fn copy_values(v: &Vec<i32>) -> (r: Vec<i32>)
    ensures
        r@ == v@,
{
    let mut r: Vec<i32> = Vec::new();
    let mut i: usize = 0;
    while i < v.len()
        invariant
            i <= v@.len(),
            r@ == v@.subrange(0, i as int),
        decreases v.len() - i,
    {
        r.push(v[i]);
        proof {
            assert(v@.subrange(0, i + 1) =~= v@.subrange(0, i as int).push(v@[i as int]));
        }
        i = i + 1;
    }
    proof {
        assert(v@.subrange(0, v@.len() as int) =~= v@);
    }
    r
}

fn find_label(labels: &Vec<String>, l: &Option<String>) -> (r: Result<Option<usize>, ()>)
    requires
        ids_ascending(labels@),
    ensures
        match r {
            Ok(p) => label_ok(labels@, *l, p),
            Err(_) => l matches Some(s) && !has_id(labels@, s@),
        },
{
    match l {
        Some(s) => match find_id(labels, s.as_str()) {
            Some(p) => Ok(Some(p)),
            None => Err(()),
        },
        None => Ok(None),
    }
}

/// Result `r` as an indexed row with attempts `att`; `None` when one of its
/// ids is missing from its table.
pub fn index_result(r: &RawResult, att: Option<&Vec<i32>>, t: &IdTables) -> (row: Option<Row>)
    requires
        t.wf(),
    ensures
        row is Some <==> resolvable(*r, *t),
        row matches Some(x) ==> row_of(*r, match att { Some(a) => Some(a@), None => None }, *t, x),
{
    let event = find_id(&t.events, r.event_id.as_str());
    let format = find_id(&t.formats, r.format_id.as_str());
    let round_type = find_id(&t.round_types, r.round_type_id.as_str());
    let comp = find_id(&t.comps, r.competition_id.as_str());
    let person = find_id(&t.persons, r.person_id.as_str());
    let country = find_id(&t.countries, r.person_country_id.as_str());
    let single = find_label(&t.labels, &r.regional_single_record);
    let average = find_label(&t.labels, &r.regional_average_record);
    proof {
        if event is None {
            assert(!has_id(t.events@, r.event_id@));
        }
        if format is None {
            assert(!has_id(t.formats@, r.format_id@));
        }
        if round_type is None {
            assert(!has_id(t.round_types@, r.round_type_id@));
        }
        if comp is None {
            assert(!has_id(t.comps@, r.competition_id@));
        }
        if person is None {
            assert(!has_id(t.persons@, r.person_id@));
        }
        if country is None {
            assert(!has_id(t.countries@, r.person_country_id@));
        }
        if let Ok(p) = single {
            if r.regional_single_record is Some {
                assert(has_id(t.labels@, r.regional_single_record.unwrap()@));
            }
        }
        if let Ok(p) = average {
            if r.regional_average_record is Some {
                assert(has_id(t.labels@, r.regional_average_record.unwrap()@));
            }
        }
        if let Some(e) = event {
            assert(has_id(t.events@, r.event_id@));
        }
        if let Some(e) = format {
            assert(has_id(t.formats@, r.format_id@));
        }
        if let Some(e) = round_type {
            assert(has_id(t.round_types@, r.round_type_id@));
        }
        if let Some(e) = comp {
            assert(has_id(t.comps@, r.competition_id@));
        }
        if let Some(e) = person {
            assert(has_id(t.persons@, r.person_id@));
        }
        if let Some(e) = country {
            assert(has_id(t.countries@, r.person_country_id@));
        }
    }
    match (event, format, round_type, comp, person, country, single, average) {
        (Some(event), Some(format), Some(round_type), Some(comp), Some(person), Some(country), Ok(single_record), Ok(
            average_record,
        )) => {
            let attempts = match att {
                Some(a) => Some(copy_values(a)),
                None => None,
            };
            Some(Row {
                best: r.best,
                average: r.average,
                event,
                person,
                comp,
                country,
                format,
                round_type,
                single_record,
                average_record,
                attempts,
                person_name: r.person_name.clone(),
            })
        },
        _ => None,
    }
}

/// The indexed rows of `results`, with the attempts of each result from
/// `attempts` (by result id); the id of the first result with an unknown id
/// otherwise.
pub fn index_results(results: &Vec<RawResult>, attempts: &HashMap<u32, Vec<i32>>, t: &IdTables) -> (r: Result<Vec<Row>, u32>)
    requires
        t.wf(),
    ensures
        r is Ok <==> forall|k: int| 0 <= k < results@.len() ==> resolvable(#[trigger] results@[k], *t),
        r matches Ok(rows) ==> rows@.len() == results@.len() && forall|k: int| 0 <= k < results@.len() ==> row_of(
            #[trigger] results@[k],
            match attempts@.get(results@[k].id) {
                Some(a) => Some(a@),
                None => None,
            },
            *t,
            rows@[k],
        ),
        r matches Err(id) ==> exists|k: int| 0 <= k < results@.len() && !resolvable(#[trigger] results@[k], *t) && results@[k].id == id,
{
    let mut rows: Vec<Row> = Vec::new();
    let mut k: usize = 0;
    while k < results.len()
        invariant
            t.wf(),
            k <= results@.len(),
            rows@.len() == k,
            forall|j: int| 0 <= j < k ==> resolvable(#[trigger] results@[j], *t),
            forall|j: int| 0 <= j < k ==> row_of(
                #[trigger] results@[j],
                match attempts@.get(results@[j].id) {
                    Some(a) => Some(a@),
                    None => None,
                },
                *t,
                rows@[j],
            ),
        decreases results.len() - k,
    {
        let res = &results[k];
        let att = attempts.get(&res.id);
        match index_result(res, att, t) {
            Some(row) => {
                rows.push(row);
            },
            None => {
                return Err(res.id);
            },
        }
        k = k + 1;
    }
    Ok(rows)
}

/// Ranking row `r` as an indexed row; `None` when its person or event is
/// missing from its table.
pub fn index_rank(r: &RawRank, t: &IdTables) -> (row: Option<RankRow>)
    requires
        t.wf(),
    ensures
        row is Some <==> has_id(t.persons@, r.person_id@) && has_id(t.events@, r.event_id@),
        row matches Some(x) ==> at(t.persons@, x.person, r.person_id@) && at(t.events@, x.event, r.event_id@)
            && x.best == r.best && x.world_rank == r.world_rank,
{
    let person = find_id(&t.persons, r.person_id.as_str());
    let event = find_id(&t.events, r.event_id.as_str());
    proof {
        if let Some(p) = person {
            assert(has_id(t.persons@, r.person_id@));
        }
        if let Some(e) = event {
            assert(has_id(t.events@, r.event_id@));
        }
    }
    match (person, event) {
        (Some(person), Some(event)) => Some(RankRow { person, event, best: r.best, world_rank: r.world_rank }),
        _ => None,
    }
}

} // verus!
