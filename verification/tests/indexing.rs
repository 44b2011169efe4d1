use std::collections::HashMap;

use wca_stats::models::{RawRank, RawResult};
use wca_stats::rows::{index_rank, index_result, index_results, IdTables};

fn s(x: &str) -> String {
    x.to_string()
}

fn tables() -> IdTables {
    IdTables {
        events: vec![s("222"), s("333"), s("444")],
        formats: vec![s("a"), s("m")],
        round_types: vec![s("1"), s("f")],
        labels: vec![s("ER"), s("NR"), s("WR")],
        comps: vec![s("AOpen2019"), s("BOpen2020")],
        persons: vec![s("2010AAAA01"), s("2012BBBB01")],
        countries: vec![s("China"), s("USA")],
    }
}

fn result(id: u32, event: &str, person: &str, single: Option<&str>) -> RawResult {
    RawResult {
        id,
        pos: 1,
        best: 900,
        average: 1000,
        competition_id: s("BOpen2020"),
        round_type_id: s("f"),
        event_id: s(event),
        person_name: s("Bob"),
        person_id: s(person),
        format_id: s("a"),
        regional_single_record: single.map(s),
        regional_average_record: None,
        person_country_id: s("USA"),
    }
}

#[test]
fn result_ids_become_positions() {
    let t = tables();
    let att = vec![900, 1000, 1100, 950, 1050];
    let row = index_result(&result(7, "333", "2012BBBB01", Some("NR")), Some(&att), &t).unwrap();
    assert_eq!((row.event, row.person, row.comp, row.country, row.format, row.round_type), (1, 1, 1, 1, 0, 1));
    assert_eq!((row.single_record, row.average_record), (Some(1), None));
    assert_eq!(row.attempts, Some(att));
    assert_eq!((row.best, row.average, row.person_name.as_str()), (900, 1000, "Bob"));
    assert!(index_result(&result(7, "555", "2012BBBB01", None), None, &t).is_none());
    assert!(index_result(&result(7, "333", "2012BBBB01", Some("AsR")), None, &t).is_none());
}

#[test]
fn results_with_attempts_by_id() {
    let t = tables();
    let mut attempts: HashMap<u32, Vec<i32>> = HashMap::new();
    attempts.insert(2, vec![300, 310, 320]);
    let rs = vec![result(1, "222", "2010AAAA01", None), result(2, "444", "2010AAAA01", Some("WR"))];
    let rows = index_results(&rs, &attempts, &t).unwrap();
    assert_eq!(rows.len(), 2);
    assert_eq!((rows[0].event, rows[0].attempts.clone()), (0, None));
    assert_eq!((rows[1].event, rows[1].single_record, rows[1].attempts.clone()), (2, Some(2), Some(vec![300, 310, 320])));
    let bad = vec![result(1, "222", "2010AAAA01", None), result(9, "222", "2099ZZZZ01", None)];
    assert!(matches!(index_results(&bad, &attempts, &t), Err(9)));
}

#[test]
fn ranking_rows_become_positions() {
    let t = tables();
    let r = RawRank { best: 700, person_id: s("2012BBBB01"), event_id: s("444"), world_rank: 3, continent_rank: 2, country_rank: 1 };
    let row = index_rank(&r, &t).unwrap();
    assert_eq!((row.person, row.event, row.best, row.world_rank), (1, 2, 700, 3));
    let unknown = RawRank { best: 700, person_id: s("2012BBBB02"), event_id: s("444"), world_rank: 3, continent_rank: 2, country_rank: 1 };
    assert!(index_rank(&unknown, &t).is_none());
}
