use dutop::text::{
    append_decimal, digit_of, digit_text, ends_with_char, parse_usize, starts_with_char,
    text_equals,
};

#[test]
fn texts_are_equal_where_their_characters_are() {
    assert!(text_equals("", ""));
    assert!(text_equals("all", "all"));
    assert!(text_equals("héllo", "héllo"));
    assert!(!text_equals("all", "al"));
    assert!(!text_equals("all", "alL"));
    assert!(!text_equals("", "a"));
    assert!(!text_equals("äb", "ab"));
}

#[test]
fn the_first_and_the_last_character_are_found() {
    assert!(starts_with_char(".git", '.'));
    assert!(!starts_with_char("git.", '.'));
    assert!(!starts_with_char("", '.'));
    assert!(ends_with_char("dir/", '/'));
    assert!(!ends_with_char("/dir", '/'));
    assert!(!ends_with_char("", '/'));
    assert!(ends_with_char("é", 'é'));
}

#[test]
fn digits_have_their_values() {
    assert_eq!(digit_of('0'), Some(0));
    assert_eq!(digit_of('7'), Some(7));
    assert_eq!(digit_of('9'), Some(9));
    assert_eq!(digit_of('/'), None);
    assert_eq!(digit_of(':'), None);
    assert_eq!(digit_of('a'), None);
    assert_eq!(digit_of('٣'), None);
    for digit in 0..10u8 {
        assert_eq!(digit_text(digit), digit.to_string());
    }
}

#[test]
fn unsigned_numbers_are_read() {
    assert_eq!(parse_usize("0"), Some(0));
    assert_eq!(parse_usize("12"), Some(12));
    assert_eq!(parse_usize("+12"), Some(12));
    assert_eq!(parse_usize("0012"), Some(12));
    assert_eq!(parse_usize(&usize::MAX.to_string()), Some(usize::MAX));
    assert_eq!(parse_usize(""), None);
    assert_eq!(parse_usize("+"), None);
    assert_eq!(parse_usize("-12"), None);
    assert_eq!(parse_usize("12 "), None);
    assert_eq!(parse_usize("1 2"), None);
    assert_eq!(parse_usize("18446744073709551616"), None);
    assert_eq!(parse_usize("184467440737095516150"), None);
    assert_eq!(parse_usize("99999999999999999999x"), None);
}

#[test]
fn numbers_are_written_in_decimal() {
    let samples = [0u128, 1, 9, 10, 11, 99, 100, 101, 12345, u64::MAX as u128, u128::MAX];
    for sample in samples {
        let mut out = String::from("n=");
        append_decimal(&mut out, sample);
        assert_eq!(out, format!("n={}", sample));
    }
}

#[test]
fn a_number_that_is_written_reads_back() {
    let mut number: usize = 1;
    for _ in 0..200 {
        let mut written = String::new();
        append_decimal(&mut written, number as u128);
        assert_eq!(parse_usize(&written), Some(number));
        number = number.wrapping_mul(31).wrapping_add(7);
    }
}
