use tommaso_pfm::amount::{amount_text, parse_amount};

#[test]
fn reads_a_negative_amount_with_one_decimal() {
    assert_eq!(parse_amount("-20.0"), Some(-2000));
}

#[test]
fn reads_whole_numbers_and_signs() {
    assert_eq!(parse_amount("12"), Some(1200));
    assert_eq!(parse_amount("+12"), Some(1200));
    assert_eq!(parse_amount("-12"), Some(-1200));
    assert_eq!(parse_amount("0"), Some(0));
    assert_eq!(parse_amount("-0"), Some(0));
    assert_eq!(parse_amount("007"), Some(700));
}

#[test]
fn reads_one_and_two_decimals_exactly() {
    assert_eq!(parse_amount("1.5"), Some(150));
    assert_eq!(parse_amount("1.05"), Some(105));
    assert_eq!(parse_amount("-500.00"), Some(-50000));
    assert_eq!(parse_amount("0.01"), Some(1));
}

#[test]
fn a_point_may_stand_first_or_last() {
    assert_eq!(parse_amount(".5"), Some(50));
    assert_eq!(parse_amount("5."), Some(500));
    assert_eq!(parse_amount("-.25"), Some(-25));
}

#[test]
fn rounds_further_decimals_half_away_from_zero() {
    assert_eq!(parse_amount("3.456"), Some(346));
    assert_eq!(parse_amount("3.454"), Some(345));
    assert_eq!(parse_amount("0.005"), Some(1));
    assert_eq!(parse_amount("-0.005"), Some(-1));
    assert_eq!(parse_amount("-0.004"), Some(0));
    assert_eq!(parse_amount("0.995"), Some(100));
    assert_eq!(parse_amount("1.0049999"), Some(100));
    assert_eq!(parse_amount("20.12999"), Some(2013));
}

#[test]
fn rejects_text_that_is_no_decimal_numeral() {
    assert_eq!(parse_amount(""), None);
    assert_eq!(parse_amount("."), None);
    assert_eq!(parse_amount("-"), None);
    assert_eq!(parse_amount("+"), None);
    assert_eq!(parse_amount("-."), None);
    assert_eq!(parse_amount("abc"), None);
    assert_eq!(parse_amount("12a"), None);
    assert_eq!(parse_amount("1.2.3"), None);
    assert_eq!(parse_amount("1.2x"), None);
    assert_eq!(parse_amount("1.234x"), None);
    assert_eq!(parse_amount("--1"), None);
    assert_eq!(parse_amount("1-"), None);
    assert_eq!(parse_amount(" 1"), None);
    assert_eq!(parse_amount("1 "), None);
    assert_eq!(parse_amount("1,5"), None);
    assert_eq!(parse_amount("٣"), None);
}

#[test]
fn rejects_exponents_and_the_names_of_non_finite_numbers() {
    assert_eq!(parse_amount("1e3"), None);
    assert_eq!(parse_amount("1E-2"), None);
    assert_eq!(parse_amount("inf"), None);
    assert_eq!(parse_amount("-infinity"), None);
    assert_eq!(parse_amount("NaN"), None);
}

#[test]
fn reads_the_largest_and_the_smallest_amount() {
    assert_eq!(parse_amount("92233720368547758.07"), Some(i64::MAX));
    assert_eq!(parse_amount("-92233720368547758.08"), Some(i64::MIN));
    assert_eq!(parse_amount("-92233720368547758.075"), Some(i64::MIN));
}

#[test]
fn rejects_amounts_beyond_the_range() {
    assert_eq!(parse_amount("92233720368547758.08"), None);
    assert_eq!(parse_amount("92233720368547758.075"), None);
    assert_eq!(parse_amount("-92233720368547758.09"), None);
    assert_eq!(parse_amount("92233720368547759"), None);
    assert_eq!(parse_amount("100000000000000000000000000000"), None);
    assert_eq!(parse_amount("-100000000000000000000000000000.5"), None);
    assert_eq!(parse_amount("100000000000000000000000000000x"), None);
}

#[test]
fn leading_zeros_do_not_make_an_amount_too_large() {
    assert_eq!(parse_amount("0000000000000000000000000000001.50"), Some(150));
}

#[test]
fn writes_amounts_with_two_decimals() {
    assert_eq!(amount_text(0), "0.00");
    assert_eq!(amount_text(5), "0.05");
    assert_eq!(amount_text(-5), "-0.05");
    assert_eq!(amount_text(50), "0.50");
    assert_eq!(amount_text(-27500), "-275.00");
    assert_eq!(amount_text(123456), "1234.56");
    assert_eq!(amount_text(-100), "-1.00");
    assert_eq!(amount_text(i64::MAX as i128), "92233720368547758.07");
    assert_eq!(amount_text(i64::MIN as i128), "-92233720368547758.08");
    assert_eq!(
        amount_text(i128::MAX),
        "1701411834604692317316873037158841057.27"
    );
    assert_eq!(
        amount_text(i128::MIN),
        "-1701411834604692317316873037158841057.28"
    );
}

#[test]
fn the_text_of_an_amount_reads_back() {
    for amount in [0, 1, -1, 9, 10, 99, 100, -100, 101, -2000, 123456789, i64::MAX, i64::MIN] {
        assert_eq!(parse_amount(&amount_text(amount as i128)), Some(amount));
    }
}
