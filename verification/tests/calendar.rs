use wca_stats::dates::{jdn_from_unix_secs, jdn_to_iso, jdn_to_ymd, weekday, ymd_to_jdn};

#[test]
fn jdn_of_known_dates() {
    assert_eq!(ymd_to_jdn(2000, 1, 1), 2451545);
    assert_eq!(ymd_to_jdn(1970, 1, 1), 2440588);
    assert_eq!(ymd_to_jdn(2024, 2, 29), 2460370);
}

#[test]
fn iso_text_of_day_numbers() {
    assert_eq!(jdn_to_iso(2451545), "2000-01-01");
    assert_eq!(jdn_to_iso(2460370), "2024-02-29");
    assert_eq!(jdn_to_iso(2440588), "1970-01-01");
}

#[test]
fn ymd_round_trip() {
    for &(y, m, d) in &[(1982u16, 6u8, 5u8), (2003, 8, 23), (2019, 12, 31), (2020, 3, 1)] {
        let j = ymd_to_jdn(y, m, d);
        assert_eq!(jdn_to_ymd(j), (y as i32, m as i32, d as i32));
    }
}

#[test]
fn consecutive_days_differ_by_one() {
    assert_eq!(ymd_to_jdn(2020, 3, 1) - ymd_to_jdn(2020, 2, 29), 1);
    assert_eq!(ymd_to_jdn(2021, 1, 1) - ymd_to_jdn(2020, 12, 31), 1);
    assert_eq!(ymd_to_jdn(2019, 3, 1) - ymd_to_jdn(2019, 2, 28), 1);
}

#[test]
fn weekday_is_day_number_mod_seven() {
    // 2000-01-01 was a Saturday; Monday is 0.
    assert_eq!(weekday(2451545), 5);
    assert_eq!(weekday(2451547), 0);
}

#[test]
fn unix_epoch_day() {
    assert_eq!(jdn_from_unix_secs(0), 2440588);
    assert_eq!(jdn_from_unix_secs(86_400 * 10_957), 2451545);
}

#[test]
fn century_years_and_leap_days() {
    assert_eq!(ymd_to_jdn(2100, 3, 1) - ymd_to_jdn(2100, 2, 28), 1);
    assert_eq!(ymd_to_jdn(2000, 3, 1) - ymd_to_jdn(2000, 2, 29), 1);
    assert_eq!(jdn_to_ymd(ymd_to_jdn(2000, 2, 29)), (2000, 2, 29));
    assert_eq!(jdn_to_ymd(ymd_to_jdn(1900, 3, 1)), (1900, 3, 1));
    assert_eq!(jdn_to_iso(ymd_to_jdn(2100, 12, 31)), "2100-12-31");
}
