use neat::fixed::{abs_diff, add_saturating, clamp, divide, multiply, narrow, ONE};
use neat::random::{chance, fraction, rand_pos_neg};
use rand::{SeedableRng, StdRng};

#[test]
fn one_is_a_million() {
    assert_eq!(ONE, 1_000_000);
}

#[test]
fn products_are_scaled_and_rounded_toward_zero() {
    assert_eq!(multiply(2_000_000, 3_000_000), 6_000_000);
    assert_eq!(multiply(500_000, 500_000), 250_000);
    assert_eq!(multiply(-1_500_000, 2_000_000), -3_000_000);
    assert_eq!(multiply(1, 999_999), 0);
    assert_eq!(multiply(-1, 999_999), 0);
    assert_eq!(multiply(3, 500_000), 1);
    assert_eq!(multiply(-3, 500_000), -1);
}

#[test]
fn products_and_sums_saturate() {
    assert_eq!(multiply(i64::MAX, i64::MAX), i64::MAX);
    assert_eq!(multiply(i64::MIN, i64::MAX), i64::MIN);
    assert_eq!(multiply(i64::MIN, i64::MIN), i64::MAX);
    assert_eq!(add_saturating(i64::MAX, 1), i64::MAX);
    assert_eq!(add_saturating(i64::MIN, -1), i64::MIN);
    assert_eq!(add_saturating(-5, 7), 2);
    assert_eq!(narrow(1i128 << 70), i64::MAX);
    assert_eq!(narrow(-(1i128 << 70)), i64::MIN);
    assert_eq!(narrow(-42), -42);
}

#[test]
fn quotients_round_toward_zero() {
    assert_eq!(divide(7, 2), 3);
    assert_eq!(divide(-7, 2), -3);
    assert_eq!(divide(0, 5), 0);
}

#[test]
fn differences_and_limits() {
    assert_eq!(abs_diff(3, -4), 7);
    assert_eq!(abs_diff(-4, 3), 7);
    assert_eq!(abs_diff(i64::MIN, i64::MAX), u64::MAX);
    assert_eq!(clamp(9, 8), 8);
    assert_eq!(clamp(-9, 8), -8);
    assert_eq!(clamp(-3, 8), -3);
}

#[test]
fn a_draw_below_a_bound_stays_below_it() {
    let mut rng = StdRng::from_seed(&[7usize, 8, 9][..]);
    for _ in 0..1000 {
        let f = fraction(&mut rng);
        assert!(0 <= f && f < 1_000_000);
        let s = rand_pos_neg(&mut rng);
        assert!(s == 1 || s == -1);
    }
}

#[test]
fn certain_and_impossible_chances() {
    let mut rng = StdRng::from_seed(&[1usize][..]);
    for _ in 0..200 {
        assert!(chance(&mut rng, 1_000_000));
        assert!(!chance(&mut rng, 0));
    }
}

#[test]
fn chances_come_about_as_often_as_they_should() {
    let mut rng = StdRng::from_seed(&[3usize, 1, 4][..]);
    let mut hits = 0;
    for _ in 0..10_000 {
        if chance(&mut rng, 250_000) {
            hits += 1;
        }
    }
    assert!(2_000 < hits && hits < 3_000);
}
