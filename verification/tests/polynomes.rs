use computerv1::decimal::Decimal;
use computerv1::polynomes::{Error, Polynome};
use std::collections::HashMap;

fn dec(text: &str) -> Decimal {
    Decimal::from_text(text).unwrap()
}

fn poly(entries: &[(u32, &str)]) -> Polynome {
    let mut table = HashMap::new();
    for (power, value) in entries {
        table.insert(*power, dec(value));
    }
    Polynome::new(table)
}

#[test]
fn display_polynomes() {
    let polytest1 = Polynome::new(HashMap::new());
    assert_eq!(polytest1.to_string(), "0");

    let mut hashmap = HashMap::new();
    hashmap.insert(0, dec("2"));
    hashmap.insert(1, dec("6"));
    hashmap.insert(2, dec("98"));
    let polytest2 = Polynome::new(hashmap);
    assert_eq!(polytest2.to_string(), "2 + 6X + 98X^2");

    let mut hashmap = HashMap::new();
    hashmap.insert(0, dec("-54"));
    hashmap.insert(1, dec("0"));
    hashmap.insert(2, dec("-7"));
    let polytest3 = Polynome::new(hashmap);
    assert_eq!(polytest3.to_string(), "-54 - 7X^2");
}

#[test]
fn parse_polynomes() {
    let polytest1 = Polynome::parse("0").unwrap();
    let mut hashmap = HashMap::new();
    hashmap.insert(0, dec("0"));
    assert_eq!(polytest1, Polynome::new(hashmap));

    let polytest2 = Polynome::parse("2 + 47 * X^2").unwrap();
    let mut hashmap = HashMap::new();
    hashmap.insert(0, dec("2"));
    hashmap.insert(2, dec("47"));
    assert_eq!(polytest2, Polynome::new(hashmap));

    let polytest3 = Polynome::parse("-6 * X^0 + 12 * X^1 - -15 * X^2").unwrap();
    let mut hashmap = HashMap::new();
    hashmap.insert(0, dec("-6"));
    hashmap.insert(1, dec("12"));
    hashmap.insert(2, dec("15"));
    assert_eq!(polytest3, Polynome::new(hashmap));

    let polytest4 = Polynome::parse("76.12 + 2.5X^0 - 6.7 * X^1 + 98.3 * X^2").unwrap();
    let mut hashmap = HashMap::new();
    hashmap.insert(0, dec("78.62"));
    hashmap.insert(1, dec("-6.7"));
    hashmap.insert(2, dec("98.3"));
    assert_eq!(polytest4, Polynome::new(hashmap));
}

#[test]
fn zero_polynomial_is_written_as_zero() {
    assert_eq!(Polynome::zero().to_string(), "0");
    assert_eq!(Polynome::parse("0").unwrap().to_string(), "0");
    assert_eq!(Polynome::parse("0").unwrap(), Polynome::zero());
    assert_eq!(Polynome::parse("0 * X^5").unwrap(), Polynome::zero());
}

#[test]
fn parse_accepts_each_form_of_term() {
    assert_eq!(Polynome::parse("X").unwrap(), poly(&[(1, "1")]));
    assert_eq!(Polynome::parse("x").unwrap(), poly(&[(1, "1")]));
    assert_eq!(Polynome::parse("-X").unwrap(), poly(&[(1, "-1")]));
    assert_eq!(Polynome::parse("+X").unwrap(), poly(&[(1, "1")]));
    assert_eq!(Polynome::parse("- X").unwrap(), poly(&[(1, "-1")]));
    assert_eq!(Polynome::parse("2X").unwrap(), poly(&[(1, "2")]));
    assert_eq!(Polynome::parse("2 * X").unwrap(), poly(&[(1, "2")]));
    assert_eq!(Polynome::parse("2*X").unwrap(), poly(&[(1, "2")]));
    assert_eq!(Polynome::parse("2 * 3X").unwrap(), poly(&[(1, "6")]));
    assert_eq!(Polynome::parse("2 * -X").unwrap(), poly(&[(1, "-2")]));
    assert_eq!(Polynome::parse("-2 * -3.5x^4").unwrap(), poly(&[(4, "7")]));
    assert_eq!(Polynome::parse("X^0").unwrap(), poly(&[(0, "1")]));
    assert_eq!(Polynome::parse("X^1").unwrap(), poly(&[(1, "1")]));
    assert_eq!(Polynome::parse("X^007").unwrap(), poly(&[(7, "1")]));
    assert_eq!(Polynome::parse("  42  ").unwrap(), poly(&[(0, "42")]));
    assert_eq!(Polynome::parse("--2").unwrap(), poly(&[(0, "2")]));
    assert_eq!(Polynome::parse("- -2").unwrap(), poly(&[(0, "2")]));
    assert_eq!(Polynome::parse("1.50").unwrap(), poly(&[(0, "1.5")]));
}

#[test]
fn parse_adds_terms_of_the_same_power() {
    assert_eq!(Polynome::parse("X + X").unwrap(), poly(&[(1, "2")]));
    assert_eq!(Polynome::parse("X - X").unwrap(), Polynome::zero());
    assert_eq!(Polynome::parse("0.1 + 0.2").unwrap(), poly(&[(0, "0.3")]));
    assert_eq!(
        Polynome::parse("3X^2 + 1 - 2X^2 + 4 - X^2").unwrap(),
        poly(&[(0, "5")])
    );
}

#[test]
fn malformed_side_is_invalid() {
    assert_eq!(Polynome::parse("5 * X^2 ++ 2"), Err(Error::Invalid));
    assert_eq!(Polynome::parse(""), Err(Error::Invalid));
    assert_eq!(Polynome::parse(" "), Err(Error::Invalid));
    assert_eq!(Polynome::parse("2 * 3"), Err(Error::Invalid));
    assert_eq!(Polynome::parse("X^"), Err(Error::Invalid));
    assert_eq!(Polynome::parse("2."), Err(Error::Invalid));
    assert_eq!(Polynome::parse(".5"), Err(Error::Invalid));
    assert_eq!(Polynome::parse("2 3"), Err(Error::Invalid));
    assert_eq!(Polynome::parse("Y"), Err(Error::Invalid));
    assert_eq!(Polynome::parse("2 + "), Err(Error::Invalid));
    assert_eq!(Polynome::parse("X * 2"), Err(Error::Invalid));
    assert_eq!(Polynome::parse("2\u{e9}"), Err(Error::Invalid));
    assert_eq!(Polynome::parse("\u{663}"), Err(Error::Invalid));
}

#[test]
fn exponent_above_u32_overflows() {
    assert_eq!(Polynome::parse("X^4294967296"), Err(Error::OverflowPower));
    assert_eq!(
        Polynome::parse("X^99999999999999999999999999"),
        Err(Error::OverflowPower)
    );
    assert_eq!(
        Polynome::parse("X^4294967295").unwrap(),
        poly(&[(4294967295, "1")])
    );
}

#[test]
fn overflow_is_reported_before_bad_syntax() {
    assert_eq!(
        Polynome::parse("what + X^4294967296"),
        Err(Error::OverflowPower)
    );
    assert_eq!(
        Polynome::parse("X^4294967296 what"),
        Err(Error::OverflowPower)
    );
}

#[test]
fn degree_is_the_highest_power() {
    assert_eq!(Polynome::zero().get_degree(), 0);
    assert_eq!(Polynome::parse("5").unwrap().get_degree(), 0);
    assert_eq!(Polynome::parse("5 + X").unwrap().get_degree(), 1);
    assert_eq!(Polynome::parse("X^7 + X^3").unwrap().get_degree(), 7);
    assert_eq!(Polynome::parse("X^7 - X^7 + X^3").unwrap().get_degree(), 3);
}

#[test]
fn coefficient_is_zero_where_absent() {
    let p = Polynome::parse("3 + 2.5X^2").unwrap();
    assert_eq!(p.get_multiplier_degree(0), dec("3"));
    assert_eq!(p.get_multiplier_degree(1), Decimal::zero());
    assert_eq!(p.get_multiplier_degree(2), dec("2.5"));
    assert_eq!(p.get_multiplier_degree(3), Decimal::zero());
}

#[test]
fn subtraction_works_power_by_power() {
    let left = Polynome::parse("5 * X^2 + 2").unwrap();
    let right = Polynome::parse("6 * X^2 + 1 * X^1").unwrap();
    assert_eq!(left - right, poly(&[(0, "2"), (1, "-1"), (2, "-1")]));

    let left = Polynome::parse("X^3 + X").unwrap();
    let right = Polynome::parse("X^3 + 4").unwrap();
    assert_eq!(left - right, poly(&[(0, "-4"), (1, "1")]));

    let p = Polynome::parse("1.5X^2 - 3").unwrap();
    assert_eq!(p.clone() - p, Polynome::zero());
    let p = Polynome::parse("1.5X^2 - 3").unwrap();
    assert_eq!(p.clone() - Polynome::zero(), p);
}

#[test]
fn new_leaves_out_zero_entries() {
    let once = poly(&[(0, "0"), (1, "4"), (2, "0.0"), (3, "-1")]);
    assert_eq!(once, poly(&[(1, "4"), (3, "-1")]));
    let mut table = HashMap::new();
    table.insert(1, once.get_multiplier_degree(1));
    table.insert(2, once.get_multiplier_degree(2));
    table.insert(3, once.get_multiplier_degree(3));
    assert_eq!(Polynome::new(table), once);
}

#[test]
fn text_of_a_polynomial_reads_back() {
    let samples = [
        poly(&[]),
        poly(&[(0, "1")]),
        poly(&[(0, "-1")]),
        poly(&[(1, "1")]),
        poly(&[(1, "-1")]),
        poly(&[(0, "2"), (1, "-1")]),
        poly(&[(0, "-0.5"), (1, "1"), (2, "-1"), (10, "12.25")]),
        poly(&[(2, "3"), (4294967295, "-7.001")]),
        poly(&[(0, "100000000000000000000000000000.000000000000000000001")]),
    ];
    for p in samples.iter() {
        assert_eq!(Polynome::parse(&p.to_string()).unwrap(), *p);
    }
    assert_eq!(
        poly(&[(0, "-0.5"), (1, "1"), (2, "-1"), (10, "12.25")]).to_string(),
        "-0.5 + X - X^2 + 12.25X^10"
    );
}

#[test]
fn errors_have_their_messages() {
    assert_eq!(
        Error::BadDegree.to_string(),
        "computerv1 can't solve polynomes of degree higher than 2"
    );
    assert_eq!(Error::Invalid.to_string(), "Invalid input");
    assert_eq!(
        Error::OverflowPower.to_string(),
        "The value of an exponent is greater than the maximal u32 value"
    );
}
