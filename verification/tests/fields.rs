use wca_stats::mbld::decode;
use wca_stats::models::{null_i64, null_str, RawCompetition};

fn comp(event_specs: &str) -> RawCompetition {
    RawCompetition {
        id: "TestOpen2024".to_string(),
        name: "Test Open 2024".to_string(),
        information: None,
        external_website: None,
        venue: String::new(),
        city_name: String::new(),
        country_id: "USA".to_string(),
        venue_address: String::new(),
        venue_details: String::new(),
        cell_name: String::new(),
        cancelled: 0,
        event_specs: event_specs.to_string(),
        delegates: String::new(),
        organizers: String::new(),
        year: 2024,
        month: 5,
        day: 4,
        end_year: 2024,
        end_month: 5,
        end_day: 5,
        latitude_microdegrees: None,
        longitude_microdegrees: None,
    }
}

#[test]
fn null_text_fields() {
    assert_eq!(null_str("NULL".to_string()), None);
    assert_eq!(null_str("WR".to_string()), Some("WR".to_string()));
    assert_eq!(null_str("null".to_string()), Some("null".to_string()));
    assert_eq!(null_str(String::new()), Some(String::new()));
}

#[test]
fn null_integer_fields() {
    assert!(matches!(null_i64("NULL".to_string()), Ok(None)));
    assert!(matches!(null_i64("42".to_string()), Ok(Some(42))));
    assert!(matches!(null_i64("-73985130".to_string()), Ok(Some(-73985130))));
    match null_i64("4x2".to_string()) {
        Err(bad) => assert_eq!(bad.text, "4x2"),
        Ok(_) => panic!("a malformed integer must be refused"),
    }
}

#[test]
fn competition_events_split_on_white_space() {
    assert_eq!(comp("333 222 444bf").events(), vec!["333", "222", "444bf"]);
    assert_eq!(comp("  333\t clock\n").events(), vec!["333", "clock"]);
    assert!(comp("").events().is_empty());
    assert!(comp(" \t ").events().is_empty());
}

#[test]
fn multi_blind_decoding() {
    // 59 points, 3545 s, 2 missed: 61 solved out of 63.
    assert_eq!(decode(400354502), Some((59, 3545, 2, 61, 63)));
    // All 4 solved in 1 hour.
    assert_eq!(decode(950360000), Some((4, 3600, 0, 4, 4)));
    assert_eq!(decode(-1), None);
    assert_eq!(decode(0), None);
    // No points: not a success.
    assert_eq!(decode(990360001), None);
}

#[test]
fn text_order_of_ids() {
    assert!(wca_stats::index::text_less("2010AAAA01", "2010AAAB01"));
    assert!(wca_stats::index::text_less("2010", "2010AAAA01"));
    assert!(!wca_stats::index::text_less("2010AAAA01", "2010AAAA01"));
    assert!(!wca_stats::index::text_less("Z", "A"));
    assert!(wca_stats::index::text_less("Z", "a"));
    let ids = vec!["2009ZZZZ01".to_string(), "2010AAAA01".to_string(), "2010AAAA02".to_string()];
    assert!(wca_stats::index::ids_in_order(&ids));
    let bad = vec!["2010AAAA02".to_string(), "2010AAAA01".to_string()];
    assert!(!wca_stats::index::ids_in_order(&bad));
    let dup = vec!["2010AAAA01".to_string(), "2010AAAA01".to_string()];
    assert!(!wca_stats::index::ids_in_order(&dup));
}

#[test]
fn integer_field_edges() {
    assert!(matches!(null_i64("+7".to_string()), Ok(Some(7))));
    assert!(matches!(null_i64("-9223372036854775808".to_string()), Ok(Some(i64::MIN))));
    assert!(matches!(null_i64("9223372036854775807".to_string()), Ok(Some(i64::MAX))));
    assert!(null_i64("9223372036854775808".to_string()).is_err());
    assert!(null_i64("-".to_string()).is_err());
    assert!(null_i64("".to_string()).is_err());
    assert!(null_i64(" 1".to_string()).is_err());
}

#[test]
fn unicode_white_space_separates_events() {
    assert_eq!(comp("333\u{00A0}222\u{3000}clock\u{2028}pyram").events(), vec!["333", "222", "clock", "pyram"]);
    assert_eq!(comp("333\u{200B}222").events(), vec!["333\u{200B}222"]);
}

#[test]
fn attempts_in_attempt_number_order() {
    let rows: Vec<(u8, i32)> = vec![(3, 1200), (1, 1000), (5, -1), (2, 950), (4, 1100)];
    assert_eq!(wca_stats::models::attempt_values(&rows), vec![1000, 950, 1200, 1100, -1]);
    assert!(wca_stats::models::attempt_values(&Vec::new()).is_empty());
}

#[test]
fn white_space_agrees_with_std_on_every_char() {
    for u in 0u32..=0x10FFFF {
        if let Some(c) = char::from_u32(u) {
            assert_eq!(wca_stats::models::is_whitespace(c), c.is_whitespace(), "U+{u:04X}");
        }
    }
}
