use digit_grouping::split_digits;

#[test]
fn test_split_digits() {
    assert_eq!(
        ("1 000".to_string(), "12 345 678".to_string()),
        split_digits("1000.12345678")
    );
    assert_eq!(
        ("1".to_string(), "12 345 678".to_string()),
        split_digits("1.12345678")
    );
    assert_eq!(
        ("0".to_string(), "12 345 678".to_string()),
        split_digits("0.12345678")
    );
    assert_eq!(
        ("0".to_string(), "00 000 001".to_string()),
        split_digits("0.00000001")
    );
    assert_eq!(
        ("1".to_string(), "00 000 000".to_string()),
        split_digits("1")
    );
    assert_eq!(
        ("5 100".to_string(), "00 000 000".to_string()),
        split_digits("5100.00000000")
    );
    assert_eq!(
        ("1 000".to_string(), "10 000 000".to_string()),
        split_digits("1000.1")
    );
    assert_eq!(
        ("1 000".to_string(), "10 100 000".to_string()),
        split_digits("1000.101")
    );
}

#[test]
fn zero_without_fraction() {
    assert_eq!(("0".to_string(), "00 000 000".to_string()), split_digits("0"));
}

#[test]
fn trailing_dot_pads_to_eight_zeros() {
    assert_eq!(("5".to_string(), "00 000 000".to_string()), split_digits("5."));
}

#[test]
fn exact_multiples_of_three() {
    assert_eq!(
        ("123 456".to_string(), "00 000 000".to_string()),
        split_digits("123456")
    );
    assert_eq!(
        ("1 234 567".to_string(), "00 000 000".to_string()),
        split_digits("1234567")
    );
    assert_eq!(
        ("12 345 678".to_string(), "00 000 000".to_string()),
        split_digits("12345678")
    );
}

#[test]
fn long_integer_part() {
    assert_eq!(
        (
            "123 456 789 012 345 678 901".to_string(),
            "00 000 000".to_string()
        ),
        split_digits("123456789012345678901.0")
    );
}

#[test]
fn fraction_longer_than_eight_is_kept() {
    assert_eq!(
        ("0".to_string(), "123 456 789".to_string()),
        split_digits("0.123456789")
    );
}

#[test]
fn parts_hold_only_digits_and_single_interior_spaces() {
    let (integer, fraction) = split_digits("1234567.123");
    for part in [&integer, &fraction] {
        assert!(part
            .chars()
            .all(|c| c.is_ascii_digit() || c == ' '));
        assert!(!part.starts_with(' '));
        assert!(!part.ends_with(' '));
        assert!(!part.contains("  "));
    }
}

#[test]
fn removing_spaces_restores_the_digits() {
    let (integer, fraction) = split_digits("1234567.123");
    assert_eq!(integer.replace(' ', ""), "1234567");
    assert_eq!(fraction.replace(' ', ""), "12300000");
}

#[test]
fn all_groups_after_the_first_have_three_digits() {
    let (integer, fraction) = split_digits("12345678901.12345");
    for part in [&integer, &fraction] {
        let clusters: Vec<&str> = part.split(' ').collect();
        assert!(!clusters[0].is_empty() && clusters[0].len() <= 3);
        for cluster in &clusters[1..] {
            assert_eq!(cluster.len(), 3);
        }
    }
}
