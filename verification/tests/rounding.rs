use pixel_lighting::rounding::{round_half_down, MAX_DECIMALS};

#[test]
fn a_tie_goes_to_the_lower_neighbour() {
    assert_eq!(round_half_down(1, 2, 0), Some(0));
    assert_eq!(round_half_down(3, 2, 0), Some(1));
    assert_eq!(round_half_down(5, 2, 0), Some(2));
    assert_eq!(round_half_down(255, 2, 0), Some(127));
}

#[test]
fn a_tie_below_zero_goes_to_the_lower_neighbour() {
    assert_eq!(round_half_down(-1, 2, 0), Some(-1));
    assert_eq!(round_half_down(-3, 2, 0), Some(-2));
    assert_eq!(round_half_down(-5, 2, 0), Some(-3));
}

#[test]
fn anything_but_a_tie_goes_to_the_nearest() {
    assert_eq!(round_half_down(0, 7, 0), Some(0));
    assert_eq!(round_half_down(16, 10, 0), Some(2));
    assert_eq!(round_half_down(14, 10, 0), Some(1));
    assert_eq!(round_half_down(1605276, 10000, 0), Some(161));
    assert_eq!(round_half_down(-16, 10, 0), Some(-2));
    assert_eq!(round_half_down(-14, 10, 0), Some(-1));
    assert_eq!(round_half_down(-1, 3, 0), Some(0));
    assert_eq!(round_half_down(7, 1, 0), Some(7));
    assert_eq!(round_half_down(-7, 1, 0), Some(-7));
}

#[test]
fn decimal_places_count_units_of_the_last_place() {
    assert_eq!(round_half_down(314159, 100000, 3), Some(3142));
    assert_eq!(round_half_down(314159, 100000, 2), Some(314));
    assert_eq!(round_half_down(5, 4, 1), Some(12));
    assert_eq!(round_half_down(-5, 4, 1), Some(-13));
    assert_eq!(round_half_down(1, 3, 4), Some(3333));
    assert_eq!(round_half_down(2, 3, 4), Some(6667));
}

#[test]
fn the_largest_inputs_are_rounded_too() {
    assert_eq!(
        round_half_down(i64::MAX, 1, MAX_DECIMALS),
        Some(9223372036854775807000000000000000000)
    );
    assert_eq!(
        round_half_down(i64::MIN, 1, MAX_DECIMALS),
        Some(-9223372036854775808000000000000000000)
    );
    assert_eq!(round_half_down(i64::MIN, u32::MAX, 0), Some(-2147483649));
    assert_eq!(round_half_down(i64::MAX, u32::MAX, 0), Some(2147483648));
}

#[test]
fn no_fraction_has_denominator_zero() {
    assert_eq!(round_half_down(1, 0, 0), None);
    assert_eq!(round_half_down(0, 0, 3), None);
}

#[test]
fn no_more_decimal_places_than_the_limit() {
    assert_eq!(MAX_DECIMALS, 18);
    assert_eq!(round_half_down(1, 2, 19), None);
    assert_eq!(round_half_down(1, 2, 255), None);
}

#[test]
fn whole_fractions_agree_with_the_rounding_of_floats() {
    let mut n: i64 = -2000;
    while n <= 2000 {
        let eighths: f64 = math::round::half_down(n as f64 / 8.0, 0);
        assert_eq!(round_half_down(n, 8, 0), Some(eighths as i128));
        let tenths: f64 = math::round::half_down(n as f64 / 10.0, 0);
        assert_eq!(round_half_down(n, 10, 0), Some(tenths as i128));
        n += 1;
    }
}
