use libreviewer::numeric::{calc_average, divide_rounded};

#[test]
fn test_calc_average() {
    let total = 20;
    assert_eq!(5.0, calc_average(total, 4).unwrap() as f64 / 10000.0);
    assert_eq!(4.0, calc_average(total, 5).unwrap() as f64 / 10000.0);
    assert_eq!(0.4, calc_average(total, 50).unwrap() as f64 / 10000.0);
}

#[test]
fn average_of_nothing() {
    assert_eq!(calc_average(20, 0), None);
    assert_eq!(calc_average(0, 0), None);
}

#[test]
fn average_is_rounded_to_four_digits() {
    // 15.123456 rounds to 15.1235.
    assert_eq!(calc_average(15123456, 1000000), Some(151235));
    assert_eq!(calc_average(1, 3), Some(3333));
    assert_eq!(calc_average(2, 3), Some(6667));
    assert_eq!(calc_average(u64::MAX, 1), Some(u64::MAX as u128 * 10000));
}

#[test]
fn division_rounds_half_up() {
    assert_eq!(divide_rounded(5, 2), 3);
    assert_eq!(divide_rounded(4, 2), 2);
    assert_eq!(divide_rounded(1, 3), 0);
    assert_eq!(divide_rounded(2, 3), 1);
    assert_eq!(divide_rounded(1, 2), 1);
    assert_eq!(divide_rounded(0, 7), 0);
    assert_eq!(divide_rounded(u128::MAX, 1), u128::MAX);
    assert_eq!(divide_rounded(u128::MAX, u128::MAX), 1);
    assert_eq!(divide_rounded(u128::MAX - 1, u128::MAX), 1);
    assert_eq!(divide_rounded(u128::MAX / 2, u128::MAX), 0);
    assert_eq!(divide_rounded(u128::MAX / 2 + 1, u128::MAX), 1);
}
