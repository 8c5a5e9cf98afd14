use computerv1::polynomes::{Error, Polynome};
use regex::Regex;
use std::collections::HashMap;

const PATTERN: &str = r"(?:(?:^|(?P<operator>\+|\-))(?:(?: *(?P<a1>-?\d+(?:\.\d+)?) *\* *(?:(?P<a2>-?(?:\d+(?:\.\d+)?)?)?(X|x)(?:\^(?P<b1>\d+))?) *)|(?: *(?:(?P<a3>-?(?:\d+(?:\.\d+)?)?)?(X|x)(?:\^(?P<b2>\d+))?) *)|(?: *(?P<a4>-?\d+(?:\.\d+)?) *)))";

fn factor(text: &str) -> f64 {
    if text == "-" {
        -1.
    } else if let Ok(value) = text.parse() {
        value
    } else {
        1.
    }
}

/// Reads one side with a regular expression for the same grammar, in
/// floating point.
fn read_with_pattern(pattern: &Regex, input: &str) -> Result<HashMap<u32, f64>, Error> {
    let mut table: HashMap<u32, f64> = HashMap::new();
    let mut total = 0;
    for cap in pattern.captures_iter(input) {
        total += cap.get(0).unwrap().as_str().len();
        let a1 = cap.name("a1").map_or(1., |a| factor(a.as_str()));
        let a2 = cap.name("a2").map_or(1., |a| factor(a.as_str()));
        let a3 = cap.name("a3").map_or(1., |a| factor(a.as_str()));
        let a4 = cap.name("a4").map_or(1., |a| factor(a.as_str()));
        let operator = cap
            .name("operator")
            .map_or(1., |x| if x.as_str() == "-" { -1. } else { 1. });
        let mut a = a1 * a2 * a3 * a4 * operator;
        let b: u32 = if let Some(b) = cap.name("b1").or(cap.name("b2")) {
            if let Ok(x) = b.as_str().parse() {
                x
            } else {
                return Err(Error::OverflowPower);
            }
        } else if cap.name("a4").is_some() {
            0
        } else {
            1
        };
        if let Some(previous) = table.get(&b) {
            a += previous;
        }
        table.insert(b, a);
    }
    if total != input.len() || total == 0 {
        return Err(Error::Invalid);
    }
    Ok(table)
}

fn close(a: f64, b: f64) -> bool {
    (a - b).abs() <= 1e-9 * (1. + a.abs() + b.abs())
}

fn same_outcome(pattern: &Regex, input: &str) {
    let expected = read_with_pattern(pattern, input);
    let got = Polynome::parse(input);
    match (expected, got) {
        (Err(e), Err(g)) => assert_eq!(e, g, "input {:?}", input),
        (Ok(table), Ok(poly)) => {
            let mut highest = poly.get_degree();
            for power in table.keys() {
                if *power > highest {
                    highest = *power;
                }
            }
            let mut powers: Vec<u32> = table.keys().copied().collect();
            powers.push(poly.get_degree());
            for power in powers {
                let value: f64 = poly.get_multiplier_degree(power).to_string().parse().unwrap();
                let other = table.get(&power).copied().unwrap_or(0.);
                assert!(
                    close(value, other),
                    "input {:?} power {}: {} and {}",
                    input,
                    power,
                    value,
                    other
                );
            }
            assert!(highest >= poly.get_degree());
        }
        (e, g) => panic!("input {:?}: {:?} and {:?}", input, e, g.map(|p| p.to_string())),
    }
}

fn every_text(alphabet: &[char], length: usize, pattern: &Regex) {
    let mut indices = vec![0usize; length];
    loop {
        let text: String = indices.iter().map(|i| alphabet[*i]).collect();
        same_outcome(pattern, &text);
        let mut place = 0;
        while place < length {
            indices[place] += 1;
            if indices[place] < alphabet.len() {
                break;
            }
            indices[place] = 0;
            place += 1;
        }
        if place == length {
            break;
        }
    }
}

#[test]
fn short_texts_read_as_the_pattern_reads_them() {
    let pattern = Regex::new(PATTERN).unwrap();
    let alphabet = ['1', '0', '.', '-', '+', '*', 'X', '^', ' '];
    for length in 0..5 {
        every_text(&alphabet, length, &pattern);
    }
}

#[test]
fn texts_of_five_characters_read_as_the_pattern_reads_them() {
    let pattern = Regex::new(PATTERN).unwrap();
    let alphabet = ['2', '.', '-', '+', '*', 'x', '^', ' '];
    every_text(&alphabet, 5, &pattern);
}

#[test]
fn longer_texts_read_as_the_pattern_reads_them() {
    let pattern = Regex::new(PATTERN).unwrap();
    let alphabet = [
        '1', '2', '5', '0', '.', '-', '+', '*', 'X', 'x', '^', ' ', ' ', '=', 'Y',
    ];
    let mut state: u64 = 0x2545_F491_4F6C_DD1D;
    for _ in 0..20000 {
        let mut text = String::new();
        state ^= state << 13;
        state ^= state >> 7;
        state ^= state << 17;
        let length = 1 + (state % 14) as usize;
        for _ in 0..length {
            state ^= state << 13;
            state ^= state >> 7;
            state ^= state << 17;
            text.push(alphabet[(state % alphabet.len() as u64) as usize]);
        }
        same_outcome(&pattern, &text);
    }
}

#[test]
fn well_formed_texts_read_as_the_pattern_reads_them() {
    let pattern = Regex::new(PATTERN).unwrap();
    let numbers = ["", "-", "1", "-1", "2.5", "-0.25", "10", "007", "3.0"];
    let powers = ["", "X", "x", "X^0", "X^1", "x^2", "X^12", "X^4294967295", "X^4294967296"];
    let stars = ["", "*", " * ", "* ", " *"];
    let operators = ["", "+", "-", " + ", " - ", "- ", " +"];
    for first in numbers {
        for star in stars {
            for second in numbers {
                for power in powers {
                    for operator in operators {
                        let term = format!("{}{}{}{}", first, star, second, power);
                        same_outcome(&pattern, &format!("{}{}", operator, term));
                        same_outcome(&pattern, &format!("1{}{}", operator, term));
                        same_outcome(&pattern, &format!("{}{}{}2X", term, operator, term));
                    }
                }
            }
        }
    }
}

#[test]
fn overflow_behind_a_gap_reads_as_the_pattern_reads_it() {
    let pattern = Regex::new(PATTERN).unwrap();
    for text in [
        "YX^4294967296",
        "Y+X^4294967296",
        "Y +X^4294967296",
        "Y-2 * X^4294967296",
        "=X^99999999999",
        " X^4294967296",
        "  + X^4294967296 Y",
        "X^4294967296Y",
        "X^4294967295Y",
        "2 * 3 + X^4294967296",
        "2 * 3X^4294967296",
        "1 2 3X^4294967296",
        "1 2 +3X^4294967296",
        "X^4294967296 + X^1",
        "X^1 + X^4294967296",
        "^X^4294967296",
        "*-X^4294967296",
        "X^00000000000000000000000000000001",
        "X^00000000004294967295",
        "X^00000000004294967296",
    ] {
        same_outcome(&pattern, text);
    }
}
