use dutop::rounding::{hundredths_of, round_to_nearest, round_to_significant};

#[test]
fn halves_go_to_the_even_number() {
    assert_eq!(round_to_nearest(0, 1), 0);
    assert_eq!(round_to_nearest(7, 2), 4);
    assert_eq!(round_to_nearest(5, 2), 2);
    assert_eq!(round_to_nearest(1, 2), 0);
    assert_eq!(round_to_nearest(3, 2), 2);
    assert_eq!(round_to_nearest(14, 10), 1);
    assert_eq!(round_to_nearest(15, 10), 2);
    assert_eq!(round_to_nearest(16, 10), 2);
    assert_eq!(round_to_nearest(25, 10), 2);
    assert_eq!(round_to_nearest(26, 10), 3);
    assert_eq!(round_to_nearest(10, 3), 3);
    assert_eq!(round_to_nearest(11, 3), 4);
    assert_eq!(round_to_nearest(u128::MAX, 1), u128::MAX);
    assert_eq!(round_to_nearest(u128::MAX, 2), 1 << 127);
    assert_eq!(round_to_nearest(u128::MAX, u128::MAX), 1);
    assert_eq!(round_to_nearest(1, u128::MAX), 0);
}

#[test]
fn numbers_are_rounded_to_53_bits_as_a_conversion_rounds_them() {
    assert_eq!(round_to_significant(0), 0);
    assert_eq!(round_to_significant(1), 1);
    assert_eq!(round_to_significant((1 << 53) - 1), (1 << 53) - 1);
    assert_eq!(round_to_significant(1 << 53), 1 << 53);
    assert_eq!(round_to_significant((1 << 53) + 1), 1 << 53);
    assert_eq!(round_to_significant((1 << 53) + 2), (1 << 53) + 2);
    assert_eq!(round_to_significant((1 << 53) + 3), (1 << 53) + 4);
    assert_eq!(round_to_significant(u64::MAX), 1 << 64);
    let mut state: u64 = 7;
    for round in 0..100_000 {
        state ^= state << 13;
        state ^= state >> 7;
        state ^= state << 17;
        let number = state >> (round % 12);
        assert_eq!(round_to_significant(number), (number as f64) as u128, "number {}", number);
    }
}

#[test]
fn hundredths_are_those_of_floating_point_division() {
    assert_eq!(hundredths_of(0, 1000), 0);
    assert_eq!(hundredths_of(1, 1_000_000_000), 0);
    assert_eq!(hundredths_of(4, 1000), 0);
    assert_eq!(hundredths_of(5, 1000), 1);
    assert_eq!(hundredths_of(15, 1000), 1);
    assert_eq!(hundredths_of(25, 1000), 3);
    assert_eq!(hundredths_of(u64::MAX, 1), 1_844_674_407_370_955_161_600);
    assert_eq!(hundredths_of(1000, 1000), 100);
    assert_eq!(hundredths_of(1005, 1000), 100);
    assert_eq!(hundredths_of(1015, 1000), 101);
    assert_eq!(hundredths_of(1125, 1000), 112);
    assert_eq!(hundredths_of(1375, 1000), 138);
    assert_eq!(hundredths_of(8345, 1000), 835);
    assert_eq!(hundredths_of(123_456_789, 1_000_000), 12346);
    assert_eq!(hundredths_of(867_000_000_000_000, 1_000_000_000), 86_700_000);
    for number in 1..20_000u64 {
        for unit in [1_000u64, 1_000_000, 1_000_000_000] {
            let expected = format!("{:.2}", number as f64 / unit as f64).replace(".", "");
            let expected: u128 = expected.parse().unwrap();
            assert_eq!(hundredths_of(number, unit), expected, "{} / {}", number, unit);
        }
    }
}
