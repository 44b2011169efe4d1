use wca_stats::skill_sim::{subs_for, Rng, GOLDEN_GAMMA};

#[test]
fn sub_x_thresholds_per_event() {
    assert_eq!(subs_for("333"), vec![1000, 800, 700, 600, 500]);
    assert_eq!(subs_for("666"), vec![13000, 11000]);
    assert_eq!(subs_for("minx"), vec![4000, 3500, 3000]);
    assert!(subs_for("clock").is_empty());
    assert!(subs_for("33").is_empty());
}

#[test]
fn splitmix_from_zero() {
    let mut rng = Rng(0);
    assert_eq!(rng.next_u64(), 0xE220A8397B1DCDAF);
    assert_eq!(rng.0, GOLDEN_GAMMA);
    assert_eq!(rng.next_u64(), 0x6E789E6AA1B965F4);
    assert_eq!(rng.0, GOLDEN_GAMMA.wrapping_mul(2));
}
