use wca_stats::first_records::{better, is_cr, is_wr, is_wr_or_cr, record_level, Candidate};
use wca_stats::index::{CompDates, IndexedDb, RankRow, Row};
use wca_stats::two_man::{solve, Person};

const E222: usize = 0;
const E333: usize = 1;
const EMBF: usize = 2;
const EMAGIC: usize = 4;
const CHINA: usize = 0;
const USA: usize = 1;
const WR: usize = 3;
const ASR: usize = 0;

fn row(event: usize, person: usize, comp: usize, country: usize, format: usize, attempts: Option<Vec<i32>>, best: i32, average: i32,
    single_record: Option<usize>, average_record: Option<usize>, name: &str) -> Row {
    Row {
        best,
        average,
        event,
        person,
        comp,
        country,
        format,
        round_type: 0,
        single_record,
        average_record,
        attempts,
        person_name: name.to_string(),
    }
}

fn date(year: u16, month: u8, day: u8) -> Option<CompDates> {
    Some(CompDates { year, month, day, end_year: year, end_month: month, end_day: day })
}

fn rank(person: usize, event: usize, best: i32, world_rank: u32) -> RankRow {
    RankRow { person, event, best, world_rank }
}

/// Five persons (the fourth is absent from the persons table), three
/// competitions, and results in 2x2x2, 3x3x3, multi-blind and a retired event.
fn fixture() -> IndexedDb {
    let s = |x: &str| x.to_string();
    let rows = vec![
        row(E333, 0, 0, USA, 1, Some(vec![1000, 950, 1100, 900, 1200]), 900, 1017, Some(WR), Some(WR), "Ann"),
        row(E333, 4, 0, USA, 1, Some(vec![1050, 980, 990, 1020, -1]), 980, 1020, None, None, "Eve"),
        row(E333, 1, 1, CHINA, 1, Some(vec![890, 1000, 1010, 995, 1005]), 890, 1000, Some(WR), Some(WR), "Bob"),
        row(E333, 0, 2, USA, 1, Some(vec![880, 890, 900, 910, 930]), 880, 900, Some(WR), Some(WR), "Ann"),
        row(E333, 3, 1, CHINA, 1, Some(vec![700, 800, 810, 820, -1]), 700, 810, Some(ASR), Some(ASR), "Dee"),
        row(EMBF, 2, 1, USA, 0, Some(vec![400354502, 950360000, 500354500]), 400354502, 0, None, None, "Cid"),
        row(E222, 0, 0, USA, 1, Some(vec![300, 310, 290, 305, 320]), 290, 305, Some(WR), Some(WR), "Ann"),
        row(EMAGIC, 0, 0, USA, 1, None, 500, 0, Some(WR), None, "Ann"),
    ];
    IndexedDb {
        rows,
        events: vec![s("222"), s("333"), s("333mbf"), s("444"), s("magic")],
        event_active: vec![true, true, true, true, false],
        formats: vec![s("3"), s("a"), s("m")],
        round_is_final: vec![true],
        labels: vec![s("AsR"), s("ER"), s("NAR"), s("WR")],
        comps: vec![date(2019, 1, 5), date(2019, 2, 9), date(2019, 3, 2)],
        n_persons: 5,
        person_ids: vec![s("2010AAAA01"), s("2011BBBB01"), s("2012CCCC01"), s("2013DDDD01"), s("2014EEEE01")],
        person_names: vec![Some(s("Ann")), Some(s("Bob")), Some(s("Cid")), None, Some(s("Eve"))],
        person_country: vec![Some(USA), Some(CHINA), Some(USA), None, Some(USA)],
        country_ids: vec![s("China"), s("USA")],
        country_names: vec![Some(s("PR China")), None],
        comp_ids: vec![s("C1"), s("C2"), s("C3")],
        ranks_single: vec![
            rank(3, E333, 700, 1),
            rank(0, E333, 880, 2),
            rank(1, E333, 890, 3),
            rank(4, E333, 980, 4),
            rank(2, EMBF, 400354502, 1),
        ],
        ranks_average: vec![
            rank(3, E222, 200, 1),
            rank(1, E222, 250, 2),
            rank(0, E222, 300, 3),
            rank(3, E333, 800, 1),
            rank(0, E333, 900, 2),
            rank(4, E333, 950, 3),
            rank(1, E333, 1000, 4),
            rank(2, E333, 1100, 5),
        ],
    }
}

#[test]
fn relay_ranks_by_summed_averages() {
    let db = fixture();
    let out = wca_stats::relay::relay_for(&db, &vec!["222", "333"]);
    let got: Vec<(usize, &str, i32, Vec<i32>)> =
        out.iter().map(|e| (e.rank, e.person_id.as_str(), e.total_cs, e.event_avgs.clone())).collect();
    assert_eq!(
        got,
        vec![(1, "2013DDDD01", 1000, vec![200, 800]), (2, "2010AAAA01", 1200, vec![300, 900]), (3, "2011BBBB01", 1250, vec![250, 1000])]
    );
    assert_eq!(out[0].person_name, "2013DDDD01");
    assert_eq!(out[0].country_id, "Unknown");
    assert_eq!(out[1].person_name, "Ann");
    assert_eq!(out[1].country_id, "USA");
    // An event nobody has: nobody qualifies.
    assert!(wca_stats::relay::relay_for(&db, &vec!["222", "777"]).is_empty());
}

#[test]
fn sub_x_counts_attempts_under_the_threshold() {
    let db = fixture();
    let out = wca_stats::sub_x::sub_x_for(&db, "333", 1000, true);
    let got: Vec<(&str, u32, i32)> = out.iter().map(|e| (e.id.as_str(), e.count, e.pb)).collect();
    assert_eq!(got, vec![("2010AAAA01", 7, 880), ("2011BBBB01", 2, 890), ("2014EEEE01", 2, 980)]);
    assert_eq!(out[0].name, "Ann");
    assert_eq!(out[0].country, "USA");
    // Averages under 10.00: only Bob's 10.00 is not under it, Ann's 9.00 is.
    let avg = wca_stats::sub_x::sub_x_for(&db, "333", 1000, false);
    let got: Vec<(&str, u32, i32)> = avg.iter().map(|e| (e.id.as_str(), e.count, e.pb)).collect();
    assert_eq!(got, vec![("2010AAAA01", 1, 900)]);
    assert!(wca_stats::sub_x::sub_x_for(&db, "777", 10000, true).is_empty());
}

#[test]
fn sub_x_lists_every_defined_event() {
    let db = fixture();
    let all = wca_stats::sub_x::sub_x_all(&db);
    let ids: Vec<&str> = all.iter().map(|e| e.event_id).collect();
    assert_eq!(ids, vec!["333", "222", "444", "555", "666", "777", "pyram", "skewb"]);
    assert_eq!(all[0].single.len(), 3);
    assert_eq!(all[0].avg.len(), 3);
    assert_eq!(all[6].avg.len(), 0);
}

#[test]
fn nations_cup_needs_three_competitors() {
    let db = fixture();
    let out = wca_stats::nations_cup::nations_cup(&db, E333, false);
    assert_eq!(out.len(), 1);
    assert_eq!(out[0].country, "USA");
    assert_eq!(out[0].total, 900 + 950 + 1100);
    let members: Vec<(&str, i32, &str)> =
        out[0].members.iter().map(|m| (m.person_id.as_str(), m.avg_cs, m.comp.as_str())).collect();
    assert_eq!(members, vec![("2010AAAA01", 900, "C3"), ("2014EEEE01", 950, ""), ("2012CCCC01", 1100, "")]);
    let all = wca_stats::nations_cup::nations_cup_all(&db);
    assert_eq!(all.len(), 17);
    assert_eq!(all[1].0, "333");
    assert_eq!(all[1].1.len(), 1);
    assert!(all[0].1.is_empty());
}

#[test]
fn first_records_prefer_the_earliest_then_world_records() {
    let db = fixture();
    let single = wca_stats::first_records::first_records(&db, false);
    let got: Vec<(usize, usize, &str, &str, &str, i32)> = single
        .iter()
        .map(|(c, e, f)| (*c, *e, f.pid.as_str(), f.date.as_str(), f.record.as_str(), f.value))
        .collect();
    assert_eq!(
        got,
        vec![
            (CHINA, E333, "2011BBBB01", "2019-02-09", "WR", 890),
            (USA, E222, "2010AAAA01", "2019-01-05", "WR", 290),
            (USA, E333, "2010AAAA01", "2019-01-05", "WR", 900),
            (USA, EMAGIC, "2010AAAA01", "2019-01-05", "WR", 500),
        ]
    );
    assert_eq!(single[0].2.comp, "C2");
    assert_eq!(single[0].2.name, "Bob");
    let average = wca_stats::first_records::first_records(&db, true);
    assert_eq!(average.len(), 3);
    let countries = wca_stats::first_records::country_table(&db, &single, &average);
    assert_eq!(countries, vec![("China".to_string(), "PR China".to_string()), ("USA".to_string(), "USA".to_string())]);
    let none: Vec<(usize, usize, wca_stats::first_records::FirstRecord)> = Vec::new();
    let only_listed = wca_stats::first_records::country_table(&db, &none, &none);
    assert_eq!(only_listed, vec![("China".to_string(), "PR China".to_string())]);
    let present = wca_stats::first_records::present_events(db.events.len(), &single, &average);
    assert_eq!(present, vec![true, true, false, false, true]);
    assert_eq!(wca_stats::first_records::display_order(&db, &present), vec!["333", "222", "magic"]);
}

#[test]
fn record_levels() {
    assert_eq!(record_level(&"WR".to_string()), Some(true));
    assert_eq!(record_level(&"OcR".to_string()), Some(false));
    assert_eq!(record_level(&"NR".to_string()), None);
    let (wr, sar, nr) = ("WR".to_string(), "SAR".to_string(), "NR".to_string());
    assert!(is_wr(Some(&wr)) && !is_cr(Some(&wr)) && is_wr_or_cr(Some(&wr)));
    assert!(!is_wr(Some(&sar)) && is_cr(Some(&sar)) && is_wr_or_cr(Some(&sar)));
    assert!(!is_wr(Some(&nr)) && !is_cr(Some(&nr)) && !is_wr_or_cr(Some(&nr)));
    assert!(!is_wr(None) && !is_cr(None) && !is_wr_or_cr(None));
    let c = |jdn: i32, is_wr: bool, value: i32| Candidate { jdn, is_wr, value, row: 0 };
    assert!(better(&c(1, false, 900), &c(2, true, 100)));
    assert!(better(&c(1, true, 900), &c(1, false, 100)));
    assert!(!better(&c(1, false, 100), &c(1, true, 900)));
    assert!(better(&c(1, true, 99), &c(1, true, 100)));
    assert!(!better(&c(1, true, 100), &c(1, true, 100)));
}

#[test]
fn half_life_of_the_records_in_force() {
    let db = fixture();
    let pts = wca_stats::wr_half_life::half_life(&db);
    let got: Vec<(i32, u32)> = pts.iter().map(|p| (p.half_life, p.n_wr)).collect();
    assert_eq!(got, vec![(35, 4), (28, 4), (21, 4), (14, 4), (7, 4), (21, 4), (14, 4), (7, 4)]);
    assert_eq!(pts[0].date, "2019-01-05");
    assert_eq!(pts[5].date, "2019-02-09");
}

#[test]
fn multi_blind_rankings() {
    let db = fixture();
    let r = wca_stats::mbld::mbld_rankings(&db, EMBF);
    assert_eq!(r.perfect.len(), 1);
    assert_eq!((r.perfect[0].solved, r.perfect[0].attempted, r.perfect[0].time_s), (49, 49, 3545));
    assert_eq!(r.solved.len(), 1);
    assert_eq!((r.solved[0].solved, r.solved[0].attempted, r.solved[0].time_s), (61, 63, 3545));
    assert_eq!(r.mean.len(), 1);
    assert_eq!((r.mean[0].points_sum, r.mean[0].time_total_s), (112, 10690));
    assert_eq!(r.mean[0].person_name, "Cid");
    assert_eq!(r.mean[0].competition_id, "C2");
    assert_eq!(r.mean[0].rank, 1);
}

#[test]
fn second_best_solve_rankings() {
    let db = fixture();
    let out = wca_stats::nth_solve::nth_rankings(&db, true, 1);
    assert_eq!(out.len(), 2);
    assert_eq!(out[0].0, E222);
    assert_eq!(out[0].1[0].value_cs, 300);
    assert_eq!(out[1].0, E333);
    let got: Vec<(usize, &str, i32)> = out[1].1.iter().map(|e| (e.rank, e.person_id.as_str(), e.value_cs)).collect();
    assert_eq!(got, vec![(1, "2013DDDD01", 800), (2, "2010AAAA01", 890), (3, "2014EEEE01", 990), (4, "2011BBBB01", 995)]);
    assert_eq!(out[1].1[0].person_name, "Dee");
    assert_eq!(out[1].1[0].country_id, "China");
    assert_eq!((out[1].1[0].single_cs, out[1].1[0].average_cs), (700, 810));
    assert_eq!(out[1].1[1].competition_id, "C3");
}

#[test]
fn skill_inputs_per_competition() {
    let db = fixture();
    assert_eq!(wca_stats::skill::skill_events(&db), vec![E222, E333]);
    let comps = wca_stats::skill::skill_comps(&db, E333);
    let got: Vec<(usize, usize, i64, u32)> = comps.iter().map(|c| (c.person, c.comp, c.sum, c.cnt)).collect();
    assert_eq!(got, vec![(0, 0, 5150, 5), (0, 2, 4510, 5), (1, 1, 4900, 5), (3, 1, 3130, 4), (4, 0, 4040, 4)]);
    assert_eq!(comps[0].jdn, wca_stats::dates::ymd_to_jdn(2019, 1, 5));
    assert_eq!(wca_stats::skill::skill_identity(&db, E333, 3), ("Dee".to_string(), "China".to_string()));
    assert_eq!(wca_stats::skill::skill_identity(&db, E333, 1), ("Bob".to_string(), "China".to_string()));
}

#[test]
fn country_shares_by_world_rank() {
    let db = fixture();
    let shares = wca_stats::ranking_countries::country_shares(&db);
    let got: Vec<(usize, usize, Vec<u32>, Vec<u32>)> =
        shares.iter().map(|s| (s.event, s.total, s.china_cum.clone(), s.usa_cum.clone())).collect();
    assert_eq!(
        got,
        vec![
            (E222, 3, vec![0, 0, 1, 1], vec![0, 0, 0, 1]),
            (E333, 5, vec![0, 0, 0, 0, 1, 1], vec![0, 0, 1, 2, 2, 3]),
            (EMBF, 1, vec![0, 0], vec![0, 1]),
        ]
    );
}

#[test]
fn all_ranks_of_the_pool() {
    let db = fixture();
    let out = wca_stats::ranks_export::all_ranks(&db);
    assert_eq!(out.events.len(), 17);
    assert_eq!(out.events[1], "333");
    assert_eq!((out.total_s[1], out.total_a[1], out.wr_s[1], out.wr_a[1]), (4, 5, 700, 800));
    assert_eq!((out.total_s[9], out.total_a[9], out.wr_s[9], out.wr_a[9]), (1, 0, 400354502, 0));
    assert_eq!(out.persons.len(), 5);
    let dee = &out.persons[3];
    assert_eq!((dee.id.as_str(), dee.name.as_str(), dee.country.as_str()), ("2013DDDD01", "2013DDDD01", "Unknown"));
    assert_eq!((dee.sr[1], dee.ps[1], dee.ar[0], dee.pa[0]), (1, 700, 1, 200));
    assert_eq!((dee.sr[0], dee.ps[0]), (0, 0));
}

#[test]
fn two_person_relay_split() {
    let db = fixture();
    let out = wca_stats::two_man::two_man_for(&db, &vec!["222", "333"]);
    assert_eq!(out.events, vec!["222", "333"]);
    assert_eq!(out.pairs.len(), 1);
    let p = &out.pairs[0];
    assert_eq!((p.a.id.as_str(), p.b.id.as_str()), ("2010AAAA01", "2011BBBB01"));
    assert_eq!((p.time_cs, p.time_a, p.time_b), (900, 900, 250));
    assert_eq!(p.events_a, vec!["333"]);
    assert_eq!(p.events_b, vec!["222"]);
    assert!(out.countries.is_empty());
}

#[test]
fn two_person_splits_and_country_bests() {
    let mk = |id: &str, country: &str, avgs: Vec<i32>| Person {
        id: id.to_string(),
        name: id.to_string(),
        country: country.to_string(),
        total: avgs.iter().sum(),
        avgs,
    };
    let people = vec![
        mk("A", "US", vec![100, 200]),
        mk("B", "US", vec![150, 150]),
        mk("C", "CN", vec![300, 300]),
        mk("D", "CN", vec![400, 100]),
        mk("E", "FR", vec![1000, 1000]),
    ];
    let events = vec!["222".to_string(), "333".to_string()];
    let out = solve(&people, &events);
    assert_eq!(out.pairs.len(), 10);
    let head: Vec<(&str, &str, i32, i32, i32)> = out.pairs[..3]
        .iter()
        .map(|p| (p.a.id.as_str(), p.b.id.as_str(), p.time_cs, p.time_a, p.time_b))
        .collect();
    assert_eq!(head, vec![("A", "D", 100, 100, 100), ("A", "B", 150, 100, 150), ("B", "D", 150, 150, 100)]);
    assert_eq!(out.pairs[0].events_a, vec!["222"]);
    assert_eq!(out.pairs[0].events_b, vec!["333"]);
    assert_eq!(out.pairs[9].time_cs, 600);
    let countries: Vec<(&str, &str, &str, i32)> = out
        .countries
        .iter()
        .map(|c| (c.country.as_str(), c.pair.a.id.as_str(), c.pair.b.id.as_str(), c.pair.time_cs))
        .collect();
    assert_eq!(countries, vec![("US", "A", "B", 150), ("CN", "D", "C", 300)]);
}

#[test]
fn chunk_tables_merge_into_the_whole_table() {
    let db = fixture();
    let n = db.rows.len();
    for &(is_ao5, pos) in &[(true, 1usize), (true, 4), (false, 1), (false, 2)] {
        let whole: std::collections::HashMap<u64, (i32, usize)> = wca_stats::nth_solve::chunk_table(&db, is_ao5, pos, 0, n);
        for mid in 0..=n {
            let mut left = wca_stats::nth_solve::chunk_table(&db, is_ao5, pos, 0, mid);
            let right: Vec<(u64, (i32, usize))> =
                wca_stats::nth_solve::chunk_table(&db, is_ao5, pos, mid, n).into_iter().collect();
            wca_stats::nth_solve::merge_slot(&mut left, &right);
            assert_eq!(left, whole);
        }
    }
}

#[test]
fn event_pool_by_day() {
    let db = fixture();
    let days = wca_stats::index::comp_start_days(&db);
    let pool = wca_stats::wr_longevity::event_pool(&db, &days, E333, false);
    let d0 = wca_stats::dates::ymd_to_jdn(2019, 1, 5);
    let d1 = wca_stats::dates::ymd_to_jdn(2019, 2, 9);
    let d2 = wca_stats::dates::ymd_to_jdn(2019, 3, 2);
    assert_eq!(pool, vec![(d0, 0, 900), (d0, 4, 980), (d1, 1, 890), (d1, 3, 700), (d2, 0, 880)]);
    let avgs = wca_stats::wr_longevity::event_pool(&db, &days, EMBF, true);
    assert!(avgs.is_empty());
}

#[test]
fn two_person_challenge_with_no_events() {
    let mk = |id: &str, country: &str| Person {
        id: id.to_string(),
        name: id.to_string(),
        country: country.to_string(),
        total: 0,
        avgs: Vec::new(),
    };
    let people = vec![mk("A", "US"), mk("B", "US"), mk("C", "CN")];
    let out = solve(&people, &Vec::new());
    assert!(out.events.is_empty());
    let pairs: Vec<(&str, &str, i32, i32, i32)> =
        out.pairs.iter().map(|p| (p.a.id.as_str(), p.b.id.as_str(), p.time_cs, p.time_a, p.time_b)).collect();
    assert_eq!(pairs, vec![("A", "B", 0, 0, 0), ("A", "C", 0, 0, 0), ("B", "C", 0, 0, 0)]);
    assert!(out.pairs.iter().all(|p| p.events_a.is_empty() && p.events_b.is_empty()));
    assert_eq!(out.countries.len(), 1);
    assert_eq!((out.countries[0].country.as_str(), out.countries[0].pair.a.id.as_str()), ("US", "A"));
}
