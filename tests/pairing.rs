use number_pairing::make_line;
use number_pairing::number_pairing::{NumberPairing, DEFAULT_SUM, MAX_SUM, TICKS_PER_UNIT};

const U: u64 = TICKS_PER_UNIT;

#[test]
fn new_keeps_a_number_within_range() {
    let p = NumberPairing::new(3 * U as i64, 8 * U);
    assert_eq!(p.first(), 3 * U);
    assert_eq!(p.second(), 5 * U);
    assert_eq!(p.sum(), 8 * U);
}

#[test]
fn new_reflects_a_negative_number() {
    let p = NumberPairing::new(-(3 * U as i64), 8 * U);
    assert_eq!(p.first(), 3 * U);
    assert_eq!(p.second(), 5 * U);
}

#[test]
fn new_caps_at_the_sum() {
    let p = NumberPairing::new(12 * U as i64, 8 * U);
    assert_eq!(p.first(), 8 * U);
    assert_eq!(p.second(), 0);
    let q = NumberPairing::new(-(12 * U as i64), 8 * U);
    assert_eq!(q.first(), 8 * U);
}

#[test]
fn new_handles_the_extreme_request() {
    let p = NumberPairing::new(i64::MIN, MAX_SUM);
    assert_eq!(p.first(), MAX_SUM);
    assert_eq!(p.second(), 0);
}

#[test]
fn second_is_sum_less_first_for_many_requests() {
    for x in [-9_i64, -1, 0, 1, 2, 7, 8, 9, 100] {
        for sum in [0_u64, 1, 5, 8, 9] {
            let p = NumberPairing::new(x, sum);
            assert!(p.first() <= sum);
            assert_eq!(p.second(), sum - p.first());
        }
    }
}

#[test]
fn clamping_twice_changes_nothing() {
    for x in [-20_i64, -3, 0, 3, 20] {
        let once = NumberPairing::new(x, 10);
        let twice = NumberPairing::new(once.first() as i64, 10);
        assert_eq!(once.first(), twice.first());
    }
}

#[test]
fn set_first_and_set_second_clamp() {
    let mut p = NumberPairing::new(0, 8 * U);
    p.set_first(-(2 * U as i64));
    assert_eq!(p.first(), 2 * U);
    p.set_first(20 * U as i64);
    assert_eq!(p.first(), 8 * U);
    p.set_second(3 * U as i64);
    assert_eq!(p.first(), 5 * U);
    assert_eq!(p.second(), 3 * U);
    p.set_second(-(20 * U as i64));
    assert_eq!(p.first(), 0);
    assert_eq!(p.second(), 8 * U);
}

#[test]
fn derived_quantities_are_exact() {
    let p = NumberPairing::new(2, 8);
    assert_eq!(p.product(), 12);
    assert_eq!(p.difference(), 4);
    assert_eq!(p.result(), 48);
    let q = NumberPairing::new(6, 8);
    assert_eq!(q.difference(), 4);
    assert_eq!(q.result(), 48);
    let even = NumberPairing::new(4, 8);
    assert_eq!(even.difference(), 0);
    assert_eq!(even.result(), 0);
}

#[test]
fn score_in_ticks_matches_units() {
    let p = NumberPairing::new(2 * U as i64, 8 * U);
    let u = U as u128;
    assert_eq!(p.result(), 48 * u * u * u);
}

#[test]
fn the_largest_sum_does_not_overflow() {
    let p = NumberPairing::new((MAX_SUM / 4) as i64, MAX_SUM);
    let a = (MAX_SUM / 4) as u128;
    let b = (MAX_SUM - MAX_SUM / 4) as u128;
    assert_eq!(p.result(), a * b * (b - a));
}

#[test]
fn default_uses_a_sum_of_eight() {
    let p = NumberPairing::default(3 * U as i64);
    assert_eq!(p.sum(), DEFAULT_SUM);
    assert_eq!(NumberPairing::default_sum(), 8 * U);
    assert_eq!(p.second(), 5 * U);
}

#[test]
fn difference_from_is_symmetric() {
    let p = NumberPairing::new(2, 8);
    let q = NumberPairing::new(1, 8);
    assert_eq!(q.result(), 42);
    assert_eq!(p.difference_from(&q), 6);
    assert_eq!(q.difference_from(&p), 6);
}

#[test]
fn equivalence_uses_the_minimum_precision() {
    let p = NumberPairing::new(2, 8);
    let q = NumberPairing::new(1, 8);
    assert!(p.is_equivalent_to(&q));
    let a = NumberPairing::new(2 * U as i64, 8 * U);
    let b = NumberPairing::new(1 * U as i64, 8 * U);
    assert!(!a.is_equivalent_to(&b));
    assert!(a.is_equivalent_to(&a));
}

#[test]
fn equality_ignores_which_number_is_stored() {
    let a = NumberPairing::new(3, 8);
    let b = NumberPairing::new(5, 8);
    assert!(a == b);
    assert!(a == NumberPairing::new(3, 8));
    assert!(a != NumberPairing::new(4, 8));
    assert!(a != NumberPairing::new(3, 9));
}

#[test]
fn swapped_pairings_are_equal() {
    for (a, b) in [(0_u64, 0_u64), (1, 2), (7, 3), (5, 5)] {
        let x = NumberPairing::new(a as i64, a + b);
        let y = NumberPairing::new(b as i64, a + b);
        assert!(x == y);
    }
}

#[test]
fn ordering_follows_the_score() {
    let low = NumberPairing::new(1, 8);
    let high = NumberPairing::new(2, 8);
    assert!(low < high);
    assert!(high > low);
    assert!(!(high < low));
    let mirror = NumberPairing::new(6, 8);
    assert!(!(high < mirror) && !(mirror < high));
    assert_eq!(high.partial_cmp(&mirror), Some(std::cmp::Ordering::Equal));
}

#[test]
fn make_line_repeats_dashes() {
    assert_eq!(make_line(0), "");
    assert_eq!(make_line(1), "-");
    assert_eq!(make_line(15), "---------------");
}
