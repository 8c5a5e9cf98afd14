use computerv1::decimal::Decimal;
use computerv1::utils::{abs, fmt_number_with_vars};

fn num(text: &str) -> Decimal {
    Decimal::from_text(text).unwrap()
}

#[test]
fn literals_are_read_exactly() {
    assert_eq!(num("0").to_string(), "0");
    assert_eq!(num("-0").to_string(), "0");
    assert_eq!(num("0.0").to_string(), "0");
    assert_eq!(num("12").to_string(), "12");
    assert_eq!(num("0012").to_string(), "12");
    assert_eq!(num("-3.25").to_string(), "-3.25");
    assert_eq!(num("2.50").to_string(), "2.5");
    assert_eq!(num("0.5").to_string(), "0.5");
    assert_eq!(num("0.05").to_string(), "0.05");
    assert_eq!(num("100").to_string(), "100");
    assert_eq!(num("100.001").to_string(), "100.001");
    assert_eq!(num("2.50"), num("2.5"));
    assert_eq!(num("-0"), Decimal::zero());
    assert_eq!(num("1"), Decimal::one());
    assert_eq!(num("1.0"), Decimal::one());
}

#[test]
fn text_that_is_no_literal_is_refused() {
    for text in ["", "-", ".", "1.", ".1", "1.2.3", "+1", " 1", "1 ", "1e5", "--1", "X", "1,5"] {
        assert_eq!(Decimal::from_text(text), None);
    }
}

#[test]
fn whole_numbers_are_built_from_integers() {
    assert_eq!(Decimal::from_u32(0), Decimal::zero());
    assert_eq!(Decimal::from_u32(1), Decimal::one());
    assert_eq!(Decimal::from_u32(4), num("4"));
    assert_eq!(Decimal::from_u32(1200), num("1200"));
    assert_eq!(Decimal::from_u32(4294967295).to_string(), "4294967295");
}

#[test]
fn sums_are_exact() {
    assert_eq!(num("76.12").plus(&num("2.5")), num("78.62"));
    assert_eq!(num("0.1").plus(&num("0.2")), num("0.3"));
    assert_eq!(num("999").plus(&num("1")), num("1000"));
    assert_eq!(num("0.999").plus(&num("0.001")), num("1"));
    assert_eq!(num("5").plus(&num("-5")), Decimal::zero());
    assert_eq!(num("5").plus(&num("-7.5")), num("-2.5"));
    assert_eq!(num("-5").plus(&num("7.5")), num("2.5"));
    assert_eq!(num("-5").plus(&num("-7.5")), num("-12.5"));
    assert_eq!(num("0").plus(&num("-7.5")), num("-7.5"));
    assert_eq!(num("1000").plus(&num("-0.001")), num("999.999"));
}

#[test]
fn differences_are_exact() {
    assert_eq!(num("1").minus(&num("0.9")), num("0.1"));
    assert_eq!(num("2").minus(&num("6")), num("-4"));
    assert_eq!(num("-2").minus(&num("-6")), num("4"));
    assert_eq!(num("3.3").minus(&num("1.1")), num("2.2"));
    assert_eq!(num("3.3").minus(&num("3.3")), Decimal::zero());
    assert_eq!(num("100").minus(&num("0.01")), num("99.99"));
}

#[test]
fn products_are_exact() {
    assert_eq!(num("1.5").times(&num("1.5")), num("2.25"));
    assert_eq!(num("-2").times(&num("3")), num("-6"));
    assert_eq!(num("-2").times(&num("-3")), num("6"));
    assert_eq!(num("0.5").times(&num("2")), Decimal::one());
    assert_eq!(num("0").times(&num("-3")), Decimal::zero());
    assert_eq!(num("-3").times(&num("0")), Decimal::zero());
    assert_eq!(num("0.001").times(&num("0.001")), num("0.000001"));
    assert_eq!(num("99").times(&num("99")), num("9801"));
    assert_eq!(
        num("123456789.123456789").times(&num("987654321.987654321")),
        num("121932631356500531.347203169112635269")
    );
}

#[test]
fn signs_and_magnitudes() {
    assert!(num("0").is_zero());
    assert!(!num("0.001").is_zero());
    assert!(num("-0.001").is_negative());
    assert!(!num("0.001").is_negative());
    assert!(!num("0").is_negative());
    assert!(num("1").is_unit());
    assert!(num("-1").is_unit());
    assert!(num("1.000").is_unit());
    assert!(!num("10").is_unit());
    assert!(!num("0.1").is_unit());
    assert!(!num("0").is_unit());
    assert_eq!(num("2").negated(), num("-2"));
    assert_eq!(num("-2").negated(), num("2"));
    assert_eq!(num("0").negated(), num("0"));
    assert_eq!(num("-2.5").magnitude(), num("2.5"));
    assert_eq!(num("2.5").clone(), num("2.5"));
}

#[test]
fn abs_drops_the_sign() {
    assert_eq!(abs(num("-7.25")), num("7.25"));
    assert_eq!(abs(num("7.25")), num("7.25"));
    assert_eq!(abs(num("0")), num("0"));
}

#[test]
fn sums_of_terms_are_written_in_order() {
    let table = vec![
        (num("2"), String::new()),
        (num("6"), String::from("X")),
        (num("98"), String::from("X^2")),
    ];
    assert_eq!(fmt_number_with_vars(table), "2 + 6X + 98X^2");

    let table = vec![
        (num("98"), String::from("X^2")),
        (num("-6"), String::from("X")),
        (num("2"), String::new()),
    ];
    assert_eq!(fmt_number_with_vars(table), "98X^2 - 6X + 2");
}

#[test]
fn terms_that_are_zero_are_left_out() {
    assert_eq!(fmt_number_with_vars(Vec::new()), "0");
    let table = vec![(num("0"), String::new()), (num("0"), String::from("X"))];
    assert_eq!(fmt_number_with_vars(table), "0");
    let table = vec![
        (num("0"), String::new()),
        (num("-7"), String::from("X^2")),
        (num("0"), String::from("X^3")),
        (num("4"), String::from("X^4")),
    ];
    assert_eq!(fmt_number_with_vars(table), "-7X^2 + 4X^4");
}

#[test]
fn a_magnitude_of_one_is_not_written_before_a_symbol() {
    let table = vec![
        (num("1"), String::new()),
        (num("1"), String::from("X")),
        (num("-1"), String::from("X^2")),
    ];
    assert_eq!(fmt_number_with_vars(table), "1 + X - X^2");
    let table = vec![(num("-1"), String::from("X"))];
    assert_eq!(fmt_number_with_vars(table), "-X");
    let table = vec![(num("-1"), String::new())];
    assert_eq!(fmt_number_with_vars(table), "-1");
}

#[test]
fn complex_roots_are_written_as_sums() {
    let table = vec![(num("-0.5"), String::new()), (num("1.5"), String::from("i"))];
    assert_eq!(fmt_number_with_vars(table), "-0.5 + 1.5i");
    let table = vec![(num("-0.5"), String::new()), (num("-1"), String::from("i"))];
    assert_eq!(fmt_number_with_vars(table), "-0.5 - i");
    let table = vec![(num("0"), String::new()), (num("2"), String::from("i"))];
    assert_eq!(fmt_number_with_vars(table), "2i");
}

#[test]
fn the_first_term_is_the_first_that_is_written() {
    let table = vec![(num("1"), String::from("0")), (num("5"), String::from("X"))];
    assert_eq!(fmt_number_with_vars(table), "0 + 5X");
}

#[test]
fn numbers_are_written_as_floats_are() {
    for text in ["2", "2.5", "0.001", "78.62", "100", "1.50", "0.30", "123456.789", "0"] {
        let float: f64 = text.parse().unwrap();
        assert_eq!(num(text).to_string(), format!("{}", float));
    }
}

fn written(mantissa: i128, scale: usize) -> String {
    let digits = format!("{}", mantissa.unsigned_abs());
    let padded = if digits.len() <= scale {
        format!("{}{}", "0".repeat(scale + 1 - digits.len()), digits)
    } else {
        digits
    };
    let (whole, fraction) = padded.split_at(padded.len() - scale);
    let sign = if mantissa < 0 { "-" } else { "" };
    if scale == 0 {
        format!("{}{}", sign, whole)
    } else {
        format!("{}{}.{}", sign, whole, fraction)
    }
}

#[test]
fn arithmetic_agrees_with_machine_integers() {
    let mut state: u64 = 0x9E37_79B9_7F4A_7C15;
    let mut next = move || {
        state ^= state << 13;
        state ^= state >> 7;
        state ^= state << 17;
        state
    };
    for _ in 0..3000 {
        let a = (next() % 2_000_000_001) as i128 - 1_000_000_000;
        let b = (next() % 2_000_000_001) as i128 - 1_000_000_000;
        let p = (next() % 7) as usize;
        let q = (next() % 7) as usize;
        let x = num(&written(a, p));
        let y = num(&written(b, q));
        let scale = p.max(q);
        let left = a * 10i128.pow((scale - p) as u32);
        let right = b * 10i128.pow((scale - q) as u32);
        assert_eq!(x.plus(&y), num(&written(left + right, scale)));
        assert_eq!(x.minus(&y), num(&written(left - right, scale)));
        assert_eq!(x.times(&y), num(&written(a * b, p + q)));
        assert_eq!(x.is_zero(), a == 0);
        assert_eq!(x.is_negative(), a < 0);
    }
}

#[test]
fn written_numbers_read_back() {
    let mut state: u64 = 0xD1B5_4A32_D192_ED03;
    for _ in 0..3000 {
        state ^= state << 13;
        state ^= state >> 7;
        state ^= state << 17;
        let mantissa = (state % 2_000_000_001) as i128 - 1_000_000_000;
        let scale = ((state >> 40) % 12) as usize;
        let x = num(&written(mantissa, scale));
        assert_eq!(num(&x.to_string()), x);
        let float: f64 = written(mantissa, scale).parse().unwrap();
        assert_eq!(x.to_string(), format!("{}", float));
    }
}
