use computerv1::decimal::Decimal;
use computerv1::equation::{classify, reduce, Solution};
use computerv1::polynomes::{Error, Polynome};

fn value(text: &str) -> Decimal {
    Decimal::from_text(text).unwrap()
}

#[test]
fn equation_of_degree_two_with_two_roots() {
    let reduced = reduce("5 * X^2 + 2 = 6 * X^2 + 1 * X^1").unwrap();
    assert_eq!(reduced.to_string(), "2 - X - X^2");
    assert_eq!(reduced.get_degree(), 2);
    assert_eq!(reduced.get_multiplier_degree(2), value("-1"));
    assert_eq!(reduced.get_multiplier_degree(1), value("-1"));
    assert_eq!(reduced.get_multiplier_degree(0), value("2"));
    assert_eq!(
        classify(&reduced),
        Ok(Solution::TwoRoots {
            a: value("-1"),
            b: value("-1"),
            discriminant: value("9"),
        })
    );
}

#[test]
fn discriminant_is_b_squared_minus_four_a_c() {
    let reduced = reduce("5 * X^2 + 1 = 6 * X^2 + 1 * X^1").unwrap();
    assert_eq!(
        classify(&reduced),
        Ok(Solution::TwoRoots {
            a: value("-1"),
            b: value("-1"),
            discriminant: value("5"),
        })
    );
    let a: f64 = -1.0;
    let b: f64 = -1.0;
    let root = 5f64.sqrt();
    assert!(((-b + root) / (2.0 * a) - (1.0 + root) / -2.0).abs() < 1e-12);
    assert!(((-b - root) / (2.0 * a) - (1.0 - root) / -2.0).abs() < 1e-12);
}

#[test]
fn equation_above_degree_two_is_not_solved() {
    let reduced = reduce("X^3 = 1").unwrap();
    assert_eq!(reduced.get_degree(), 3);
    assert_eq!(classify(&reduced), Err(Error::BadDegree));
    let reduced = reduce("X^3 + X^2 = X^3").unwrap();
    assert_eq!(reduced.get_degree(), 2);
    assert!(classify(&reduced).is_ok());
    let reduced = reduce("X^4294967295 = 0").unwrap();
    assert_eq!(classify(&reduced), Err(Error::BadDegree));
}

#[test]
fn malformed_equation_is_invalid() {
    assert_eq!(reduce("5 * X^2 ++ 2 = 6"), Err(Error::Invalid));
    assert_eq!(reduce("5 * X^2 + 2"), Err(Error::Invalid));
    assert_eq!(reduce("1 = 2 = 3"), Err(Error::Invalid));
    assert_eq!(reduce("= 2"), Err(Error::Invalid));
    assert_eq!(reduce("2 ="), Err(Error::Invalid));
    assert_eq!(reduce("="), Err(Error::Invalid));
    assert_eq!(reduce(""), Err(Error::Invalid));
}

#[test]
fn error_of_the_left_side_comes_first() {
    assert_eq!(reduce("X^4294967296 = what"), Err(Error::OverflowPower));
    assert_eq!(reduce("what = X^4294967296"), Err(Error::Invalid));
    assert_eq!(reduce("1 = X^4294967296"), Err(Error::OverflowPower));
    assert_eq!(reduce("X^4294967296 = X^4294967296 = 1"), Err(Error::Invalid));
}

#[test]
fn equations_of_degree_zero() {
    assert_eq!(classify(&reduce("42 = 42").unwrap()), Ok(Solution::AllReals));
    assert_eq!(classify(&reduce("X = X").unwrap()), Ok(Solution::AllReals));
    assert_eq!(classify(&reduce("42 = 41").unwrap()), Ok(Solution::NoSolution));
    assert_eq!(classify(&Polynome::zero()), Ok(Solution::AllReals));
}

#[test]
fn equation_of_degree_one() {
    assert_eq!(
        classify(&reduce("5 + 4 * X = 1.5").unwrap()),
        Ok(Solution::OneRoot {
            constant: value("3.5"),
            slope: value("4"),
        })
    );
    assert_eq!(
        classify(&reduce("2X = 0").unwrap()),
        Ok(Solution::OneRoot {
            constant: value("0"),
            slope: value("2"),
        })
    );
}

#[test]
fn equation_with_a_double_root() {
    assert_eq!(
        classify(&reduce("X^2 + 2X + 1 = 0").unwrap()),
        Ok(Solution::DoubleRoot {
            a: value("1"),
            b: value("2"),
        })
    );
    assert_eq!(
        classify(&reduce("0.01X^2 = 0.2X - 1").unwrap()),
        Ok(Solution::DoubleRoot {
            a: value("0.01"),
            b: value("-0.2"),
        })
    );
}

#[test]
fn equation_with_complex_roots() {
    assert_eq!(
        classify(&reduce("X^2 + X + 1 = 0").unwrap()),
        Ok(Solution::ComplexRoots {
            a: value("1"),
            b: value("1"),
            discriminant: value("-3"),
        })
    );
}
