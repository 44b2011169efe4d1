use wca_stats::fenwick::Bit;
use wca_stats::progression::progression;
use wca_stats::ranking::{competition_ranks, cutoff_at_1000, rank_keys};
use wca_stats::search::{count_below, index_of, sorted_distinct};
use wca_stats::sort::{sort_keys, sort_values};
use wca_stats::wr_cross_rank::{build_steps, rank_queries, value_at};
use wca_stats::wr_half_life::{half_life_points, wr_timeline};
use wca_stats::wr_longevity::{find_days, kth_best_timeline};

#[test]
fn merge_sort_orders_keys() {
    let keys = vec![(3, 0, 0, 0, 0), (1, 5, 0, 0, 1), (1, 2, 0, 0, 2), (3, 0, 0, 0, 3), (-4, 9, 9, 9, 4)];
    let sorted = sort_keys(&keys);
    assert_eq!(sorted, vec![(-4, 9, 9, 9, 4), (1, 2, 0, 0, 2), (1, 5, 0, 0, 1), (3, 0, 0, 0, 0), (3, 0, 0, 0, 3)]);
    assert_eq!(sort_keys(&vec![]), vec![]);
}

#[test]
fn insertion_sort_orders_values() {
    assert_eq!(sort_values(&vec![5, -1, 3, 3, i32::MAX, 0]), vec![-1, 0, 3, 3, 5, i32::MAX]);
}

#[test]
fn cutoff_keeps_ties_past_rank_1000() {
    assert_eq!(cutoff_at_1000(&vec![false; 10]), 10);
    let mut same = vec![false; 1005];
    assert_eq!(cutoff_at_1000(&same), 1000);
    same[1000] = true;
    same[1001] = true;
    assert_eq!(cutoff_at_1000(&same), 1002);
}

#[test]
fn ties_share_the_rank_of_their_first_row() {
    assert_eq!(competition_ranks(&vec![false, false, true, true, false]), vec![1, 2, 2, 2, 5]);
}

#[test]
fn ranked_keys_carry_ranks_and_payloads() {
    let keys = vec![(20, 0, 0, 0, 7), (10, 0, 0, 0, 8), (20, 1, 0, 0, 9)];
    // Ties on the first field only.
    assert_eq!(rank_keys(&keys, 1), vec![(1, 8), (2, 7), (2, 9)]);
    // Ties on the first two fields.
    assert_eq!(rank_keys(&keys, 2), vec![(1, 8), (2, 7), (3, 9)]);
}

#[test]
fn fenwick_prefix_sums() {
    let mut b = Bit::new(8);
    b.add(0, 3);
    b.add(4, 2);
    b.add(7, 1);
    b.add(4, 5);
    assert_eq!(b.prefix(0), 0);
    assert_eq!(b.prefix(1), 3);
    assert_eq!(b.prefix(5), 10);
    assert_eq!(b.prefix(8), 11);
}

#[test]
fn sorted_search() {
    let s = sorted_distinct(&vec![5, 1, 5, 3, 1]);
    assert_eq!(s, vec![1, 3, 5]);
    assert_eq!(index_of(&s, 3), 1);
    assert_eq!(count_below(&s, 5), 2);
    assert_eq!(count_below(&s, 0), 0);
}

#[test]
fn progression_keeps_improving_days() {
    // (day, value): day 2 has the better of two rows; day 3 does not improve.
    let rows = vec![(1, 900), (2, 850), (2, 800), (3, 820), (4, 700), (4, 700)];
    assert_eq!(progression(&rows), vec![0, 2, 4]);
}

#[test]
fn timeline_closes_each_record_at_the_next() {
    let rows = vec![(4, 700), (1, 900), (2, 800), (3, 820)];
    assert_eq!(wr_timeline(&rows), vec![(1, 2), (2, 4), (4, i32::MAX)]);
    assert_eq!(wr_timeline(&vec![]), vec![]);
}

#[test]
fn half_life_is_the_lower_median() {
    let d0 = 2_450_000;
    // Three record series; on d0 their records stand for 7, 20 and forever.
    let tls = vec![
        vec![(d0 - 10, d0 + 7), (d0 + 7, i32::MAX)],
        vec![(d0 - 3, d0 + 20), (d0 + 20, i32::MAX)],
        vec![(d0 - 1, i32::MAX)],
    ];
    let pts = half_life_points(&tls, d0, d0);
    assert_eq!(pts.len(), 1);
    assert_eq!(pts[0].half_life, 20);
    assert_eq!(pts[0].n_wr, 3);
    assert_eq!(pts[0].date, wca_stats::dates::jdn_to_iso(d0));
    // A week later: 13 days and two standing records; the median stands.
    assert_eq!(half_life_points(&tls, d0 + 7, d0 + 7).len(), 0);
    // Before any record: nothing.
    assert_eq!(half_life_points(&tls, d0 - 20, d0 - 20).len(), 0);
}

#[test]
fn value_in_force_on_a_day() {
    let tl = vec![(10, 500), (20, 400), (30, 300)];
    assert_eq!(value_at(&tl, 5), None);
    assert_eq!(value_at(&tl, 10), Some(500));
    assert_eq!(value_at(&tl, 29), Some(400));
    assert_eq!(value_at(&tl, 99), Some(300));
}

#[test]
fn steps_of_a_record_series() {
    let s = |d: i32, v: i32, n: &str| (d, v, n.to_string(), format!("p{n}"), format!("c{d}"));
    let raw = vec![s(5, 1000, "a"), s(3, 1200, "b"), s(5, 990, "c"), s(7, 995, "d"), s(9, 980, "e")];
    let steps = build_steps(&raw);
    let days: Vec<(i32, i32)> = steps.iter().map(|x| (x.0, x.1)).collect();
    assert_eq!(days, vec![(3, 1200), (5, 990), (9, 980)]);
    assert_eq!(steps[1].2, "c");
}

#[test]
fn rank_among_personal_bests_so_far() {
    // (day, person, value) by day.
    let pool = vec![(1, 0, 900), (2, 1, 800), (3, 0, 700), (5, 2, 750)];
    let out = rank_queries(&pool, &vec![(0, 850), (2, 850), (3, 800), (9, 760)]);
    assert_eq!(out, vec![(1, 0), (2, 2), (2, 2), (3, 3)]);
}

#[test]
fn kth_best_changes() {
    let pool = vec![(1, 0, 900), (2, 1, 800), (3, 0, 700), (5, 2, 750)];
    // The best: 900 on day 1, 800 on day 2, 700 on day 3.
    assert_eq!(kth_best_timeline(&pool, 1), vec![(1, 900), (2, 800), (3, 700)]);
    // The second best: 900 on day 2, 800 stays through day 3, 750 on day 5.
    assert_eq!(kth_best_timeline(&pool, 2), vec![(2, 900), (3, 800), (5, 750)]);
}

#[test]
fn stay_in_the_top() {
    let tl = vec![(2, 900), (3, 800), (5, 750)];
    // A record of 780 set on day 3 leaves when the k-th best drops below it (day 5).
    assert_eq!(find_days(&tl, 3, 780, 100), (2, false));
    // A record of 700 is never pushed out.
    assert_eq!(find_days(&tl, 3, 700, 100), (97, true));
}

#[test]
fn merging_slot_tables_keeps_lower_values() {
    let mut a: std::collections::HashMap<u64, (i32, usize)> = std::collections::HashMap::new();
    a.insert(1, (500, 0));
    a.insert(3, (100, 1));
    let b = vec![(1u64, (400, 5usize)), (2, (300, 6)), (1, (400, 7)), (2, (200, 8)), (3, (100, 9))];
    wca_stats::nth_solve::merge_slot(&mut a, &b);
    assert_eq!(a.len(), 3);
    assert_eq!(a[&1], (400, 5));
    assert_eq!(a[&2], (200, 8));
    assert_eq!(a[&3], (100, 1));
}

#[test]
fn fenwick_with_negative_counters() {
    let mut b = Bit::new(5);
    b.add(0, 1);
    b.add(3, 2);
    b.add(4, -1);
    assert_eq!(b.prefix(0), 0);
    assert_eq!(b.prefix(3), 1);
    assert_eq!(b.prefix(4), 3);
    assert_eq!(b.prefix(5), 2);
    b.add(1, -5);
    assert_eq!(b.prefix(2), -4);
    assert_eq!(b.prefix(5), -3);
}
