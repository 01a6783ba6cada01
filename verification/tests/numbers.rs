use string_mult::Decimal;

fn number(text: &str) -> Decimal {
    Decimal::parse(text).expect("a number")
}

fn shown(text: &str) -> String {
    number(text).to_text()
}

#[test]
fn parse_takes_whole_numbers_and_fractions() {
    assert!(Decimal::parse("12").is_some());
    assert!(Decimal::parse("-12").is_some());
    assert!(Decimal::parse("0.5").is_some());
    assert!(Decimal::parse("-0.5").is_some());
    assert!(Decimal::parse("007.50").is_some());
}

#[test]
fn parse_refuses_what_is_no_number() {
    assert!(Decimal::parse("").is_none());
    assert!(Decimal::parse("-").is_none());
    assert!(Decimal::parse("1.").is_none());
    assert!(Decimal::parse(".5").is_none());
    assert!(Decimal::parse("--1").is_none());
    assert!(Decimal::parse("+1").is_none());
    assert!(Decimal::parse("1.5x").is_none());
    assert!(Decimal::parse("1.5.5").is_none());
    assert!(Decimal::parse(" 1").is_none());
    assert!(Decimal::parse("1e5").is_none());
}

#[test]
fn literal_keeps_every_digit() {
    assert_eq!(number("007.50").to_literal(), "007.50");
    assert_eq!(number("-0").to_literal(), "-0");
    assert_eq!(number("12").to_literal(), "12");
    assert_eq!(number("-0.000000001").to_literal(), "-0.000000001");
}

#[test]
fn shown_without_zeros_at_the_end() {
    assert_eq!(shown("1.50"), "1.5");
    assert_eq!(shown("100"), "100");
    assert_eq!(shown("100.000"), "100");
    assert_eq!(shown("0.0"), "0");
    assert_eq!(shown("12.3400"), "12.34");
}

#[test]
fn shown_without_zeros_at_the_start() {
    assert_eq!(shown("007"), "7");
    assert_eq!(shown("000"), "0");
    assert_eq!(shown("00.5"), "0.5");
    assert_eq!(shown("-01"), "-1");
}

#[test]
fn shown_with_eight_places_at_most() {
    assert_eq!(shown("0.123456789"), "0.12345679");
    assert_eq!(shown("0.123456781"), "0.12345678");
    assert_eq!(shown("0.12345678"), "0.12345678");
    assert_eq!(shown("3.14159265358979"), "3.14159265");
}

#[test]
fn a_tie_goes_to_the_even_digit() {
    assert_eq!(shown("0.000000005"), "0");
    assert_eq!(shown("0.000000015"), "0.00000002");
    assert_eq!(shown("0.000000025"), "0.00000002");
    assert_eq!(shown("0.0000000250001"), "0.00000003");
    assert_eq!(shown("0.000000035"), "0.00000004");
}

#[test]
fn rounding_carries_into_the_whole_part() {
    assert_eq!(shown("0.999999995"), "1");
    assert_eq!(shown("9.999999996"), "10");
    assert_eq!(shown("99.999999999"), "100");
    assert_eq!(shown("0.099999999"), "0.1");
}

#[test]
fn the_sign_stays_where_the_digits_vanish() {
    assert_eq!(shown("-0"), "-0");
    assert_eq!(shown("-0.000000001"), "-0");
    assert_eq!(shown("-0.5"), "-0.5");
}

#[test]
fn products_are_exact() {
    assert_eq!(number("3").multiply(&number("-4.1")).to_text(), "-12.3");
    assert_eq!(number("0.1").multiply(&number("0.1")).to_text(), "0.01");
    assert_eq!(number("0.1").multiply(&number("3")).to_text(), "0.3");
    assert_eq!(number("12").multiply(&number("10.1")).to_text(), "121.2");
    assert_eq!(number("-2").multiply(&number("-3")).to_text(), "6");
    assert_eq!(
        number("12345678901234567890").multiply(&number("2")).to_text(),
        "24691357802469135780"
    );
    assert_eq!(
        number("99999999999").multiply(&number("99999999999")).to_text(),
        "9999999999800000000001"
    );
    assert_eq!(number("0.0001").multiply(&number("0.0001")).to_text(), "0.00000001");
    assert_eq!(number("0.0001").multiply(&number("0.00001")).to_text(), "0");
}

#[test]
fn a_product_keeps_the_sign_of_zero() {
    assert_eq!(number("0").multiply(&number("-3")).to_text(), "-0");
    assert_eq!(number("-0").multiply(&number("-3")).to_text(), "0");
}

#[test]
fn a_product_keeps_all_places_until_it_is_shown() {
    let small = number("0.00001").multiply(&number("0.00001"));
    assert_eq!(small.to_text(), "0");
    assert_eq!(small.multiply(&number("100000")).to_text(), "0.00001");
}

#[test]
fn whole_numbers_become_decimals() {
    assert_eq!(Decimal::from_integer(15), number("15"));
    assert_eq!(Decimal::from_integer(0), number("0"));
    assert_eq!(Decimal::from_integer(-7), number("-7"));
    assert_eq!(Decimal::from_integer(100).to_text(), "100");
    assert_eq!(Decimal::from_integer(isize::MIN).to_text(), isize::MIN.to_string());
    assert_eq!(Decimal::from_integer(isize::MAX).to_text(), isize::MAX.to_string());
}

#[test]
fn small_products_agree_with_binary_arithmetic() {
    let factors = ["0", "1", "2", "3.5", "-4.1", "10.1", "0.25", "-6.1", "7", "12", "0.001"];
    for a in factors {
        for b in factors {
            let exact = number(a).multiply(&number(b)).to_text();
            let x: f64 = a.parse().unwrap();
            let y: f64 = b.parse().unwrap();
            let rounded = format!("{:.8}", x * y);
            let binary = rounded.trim_end_matches('0').trim_end_matches('.');
            assert_eq!(exact, binary, "{} times {}", a, b);
        }
    }
}

#[test]
fn a_copy_is_equal() {
    let n = number("-12.50");
    assert_eq!(n.clone(), n);
}

#[test]
fn the_same_number_is_shown_the_same() {
    assert_eq!(shown("1.50"), shown("01.50"));
    assert_eq!(shown("0.999999995"), shown("000.999999995"));
    assert_eq!(shown("-0.000000015"), shown("-00.000000015"));
    let once = number("2.5").multiply(&number("1"));
    let twice = once.multiply(&number("1"));
    assert_eq!(once.to_text(), "2.5");
    assert_eq!(twice.to_text(), "2.5");
}

#[test]
fn rounding_is_to_the_nearest() {
    assert_eq!(shown("0.000000004999999999"), "0");
    assert_eq!(shown("0.000000005000000001"), "0.00000001");
    assert_eq!(shown("1.999999994999"), "1.99999999");
    assert_eq!(shown("1.999999995"), "2");
    assert_eq!(shown("1.999999985"), "1.99999998");
}

#[test]
fn products_within_eight_places_agree_with_binary_arithmetic() {
    let mut state: u64 = 12345;
    let mut next = |below: u64| {
        state = state.wrapping_mul(6364136223846793005).wrapping_add(1442695040888963407);
        (state >> 33) % below
    };
    for (left, right) in [(2usize, 3usize), (4, 4), (3, 5), (1, 7)] {
        for _ in 0..2000 {
            let sign = if next(2) == 0 { "" } else { "-" };
            let a = format!("{}{}.{:0w$}", sign, next(1000), next(10u64.pow(left as u32)), w = left);
            let b = format!("{}.{:0w$}", next(1000), next(10u64.pow(right as u32)), w = right);
            let exact = number(&a).multiply(&number(&b)).to_text();
            let x: f64 = a.parse().unwrap();
            let y: f64 = b.parse().unwrap();
            let rounded = format!("{:.8}", x * y);
            let binary = rounded.trim_end_matches('0').trim_end_matches('.');
            assert_eq!(exact, binary, "{} times {}", a, b);
        }
    }
}
