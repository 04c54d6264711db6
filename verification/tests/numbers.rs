//! Numbers, held against the machine's own.

use rxeval::number::{decimal, Number};

fn of(x: f64) -> Number {
    Number::from_bits(x.to_bits())
}

fn back(n: Number) -> f64 {
    f64::from_bits(n.to_bits())
}

fn agree(ours: Number, theirs: f64, what: &str) {
    if theirs.is_nan() {
        assert!(ours.is_nan(), "{what}: {} instead of NaN", back(ours));
    } else {
        assert_eq!(
            ours.to_bits(),
            theirs.to_bits(),
            "{what}: {} instead of {theirs}",
            back(ours)
        );
    }
}

fn specials() -> Vec<f64> {
    vec![
        0.0,
        -0.0,
        1.0,
        -1.0,
        0.1,
        0.5,
        1.5,
        2.5,
        -2.5,
        3.0,
        7.25,
        10.0,
        -17.75,
        100.0,
        1235.5,
        0.3,
        1e-7,
        1e15,
        1e16,
        1e21,
        1.0e22,
        123456789012345680.0,
        9007199254740991.0,
        9007199254740992.0,
        9007199254740993.0,
        9223372036854775807.0,
        -9223372036854775808.0,
        1.7976931348623157e308,
        -1.7976931348623157e308,
        2.2250738585072014e-308,
        5e-324,
        -5e-324,
        1e-310,
        f64::INFINITY,
        f64::NEG_INFINITY,
        f64::NAN,
        4503599627370496.5,
        4503599627370497.5,
        0.49999999999999994,
    ]
}

/// A few thousand bit patterns, the same on every run.
fn patterns() -> Vec<f64> {
    let mut state: u64 = 0x9e3779b97f4a7c15;
    let mut out = Vec::new();
    for i in 0..400u64 {
        state = state.wrapping_mul(6364136223846793005).wrapping_add(1442695040888963407);
        let bits = state ^ (state >> 29);
        out.push(f64::from_bits(bits));
        // and some of ordinary size
        out.push(((bits % 2_000_000) as f64 - 1_000_000.0) / ((i % 97 + 1) as f64));
    }
    out
}

#[test]
fn arithmetic_is_the_machines() {
    let mut values = specials();
    values.extend(patterns().into_iter().take(60));
    for x in &values {
        for y in &values {
            let (a, b) = (of(*x), of(*y));
            agree(a.plus(b), x + y, &format!("{x} + {y}"));
            agree(a.minus(b), x - y, &format!("{x} - {y}"));
            agree(a.times(b), x * y, &format!("{x} * {y}"));
            agree(a.over(b), x / y, &format!("{x} / {y}"));
            assert_eq!(a.less(b), x < y, "{x} < {y}");
            assert_eq!(a.less_or_same(b), x <= y, "{x} <= {y}");
            assert_eq!(a == b, x == y, "{x} == {y}");
        }
    }
}

#[test]
fn remainders_are_the_machines() {
    let mut values = specials();
    values.extend(patterns().into_iter().skip(1).step_by(2).take(60));
    for x in &values {
        for y in &values {
            agree(of(*x).modulo(of(*y)), x % y, &format!("{x} % {y}"));
        }
    }
}

#[test]
fn rounding_is_the_machines() {
    let mut values = specials();
    values.extend(patterns());
    for x in &values {
        let n = of(*x);
        agree(n.floor(), x.floor(), &format!("floor {x}"));
        agree(n.ceil(), x.ceil(), &format!("ceil {x}"));
        agree(n.trunc(), x.trunc(), &format!("trunc {x}"));
        agree(n.round(), x.round(), &format!("round {x}"));
        agree(n.abs(), x.abs(), &format!("abs {x}"));
        agree(n.negated(), -x, &format!("-{x}"));
        agree(n.sqrt(), x.sqrt(), &format!("sqrt {x}"));
        assert_eq!(n.to_usize(), *x as usize, "{x} as usize");
    }
}

#[test]
fn the_lesser_and_the_greater_pass_over_nan() {
    for x in specials() {
        for y in specials() {
            let (low, high) = (of(x).min(of(y)), of(x).max(of(y)));
            if x.is_nan() && y.is_nan() {
                assert!(low.is_nan() && high.is_nan());
            } else {
                assert_eq!(back(low), x.min(y), "min {x} {y}");
                assert_eq!(back(high), x.max(y), "max {x} {y}");
            }
        }
    }
}

#[test]
fn display_writes_what_the_machine_writes() {
    let mut values = specials();
    values.extend(patterns().into_iter().step_by(2).take(15));
    values.extend(patterns().into_iter().skip(1).step_by(2).take(150));
    for x in &values {
        assert_eq!(of(*x).display(), format!("{x}"));
        assert_eq!(of(*x).debug(), format!("{x:?}"));
    }
}

#[test]
fn what_is_displayed_reads_back() {
    let mut values = specials();
    values.extend(patterns().into_iter().step_by(2).take(15));
    values.extend(patterns().into_iter().skip(1).step_by(2).take(150));
    for x in values.iter().filter(|x| !x.is_nan()) {
        let text: Vec<char> = of(*x).display().chars().collect();
        let read = decimal::parse(&text).unwrap();
        assert_eq!(read.to_bits(), x.to_bits(), "{x}");
    }
}

#[test]
fn texts_read_as_the_machine_reads_them() {
    for text in [
        "0", "-0", "1", "+1", "-1.5", ".5", "5.", "1e3", "1E-3", "1e400", "-1e400", "1e-400",
        "123456789.987654321", "0.1", "9007199254740993", "9007199254740992.5",
        "2.2250738585072011e-308", "4.9e-324", "2.4703282292062328e-324", "inf", "-inf",
        "infinity", "nan", "NaN", "INF", "", ".", "-", "e5", "1e", "1e+", "0x10", " 1", "1 ",
        "1_000", "१", "179769313486231580793728971405301e276",
    ] {
        let chars: Vec<char> = text.chars().collect();
        match (decimal::parse(&chars), text.parse::<f64>()) {
            (Some(ours), Ok(theirs)) => agree(ours, theirs, text),
            (None, Err(_)) => {}
            (ours, theirs) => panic!("{text:?}: {ours:?} instead of {theirs:?}"),
        }
    }
}

fn close(ours: f64, theirs: f64, what: &str) {
    if theirs.is_nan() {
        assert!(ours.is_nan(), "{what}: {ours} instead of NaN");
    } else if theirs.is_infinite() || theirs == 0.0 {
        assert_eq!(ours.to_bits(), theirs.to_bits(), "{what}");
    } else {
        // the machine's own may be off by a little; ours is the nearest
        let gap = (ours.to_bits() as i64 - theirs.to_bits() as i64).abs();
        assert!(gap <= 2, "{what}: {ours} instead of {theirs}");
    }
}

#[test]
fn logarithms_and_powers_stay_close_to_the_machines() {
    let values = [
        0.0, -0.0, 1.0, 2.0, 0.5, 10.0, 100.0, 1000.0, 0.001, 2.718281828459045, 3.7, 1e-300, 1e300,
        5e-324, -1.0, -2.5, 1.0000000000000002, 0.9999999999999999, 700.0, -700.0, 745.0, -745.0,
        709.7, 710.0, -750.0, f64::INFINITY, f64::NEG_INFINITY, f64::NAN,
    ];
    for x in values {
        close(back(of(x).ln()), x.ln(), &format!("ln {x}"));
        close(back(of(x).log10()), x.log10(), &format!("log10 {x}"));
        close(back(of(x).exp()), x.exp(), &format!("exp {x}"));
        for y in [0.0, 1.0, 2.0, 3.0, -1.0, -2.0, 0.5, -0.5, 10.0, 0.1, 2.5, 1e3, f64::INFINITY, f64::NEG_INFINITY, f64::NAN] {
            close(back(of(x).powf(of(y))), x.powf(y), &format!("{x} ^ {y}"));
        }
    }
}

#[test]
fn exact_powers_are_exact() {
    assert_eq!(back(of(2.0).powf(of(10.0))), 1024.0);
    assert_eq!(back(of(10.0).powf(of(-2.0))), 0.01);
    assert_eq!(back(of(-3.0).powf(of(3.0))), -27.0);
    assert_eq!(back(of(4.0).powf(of(0.5))), 2.0);
    assert_eq!(back(of(1000.0).log10()), 3.0);
    assert_eq!(back(of(1.0).ln()), 0.0);
    assert_eq!(back(of(0.0).exp()), 1.0);
    assert_eq!(back(of(1.0).exp()), 2.718281828459045);
    assert_eq!(back(of(2.0).ln()), 0.6931471805599453);
}

#[test]
fn counts_become_numbers() {
    assert_eq!(back(Number::from_count(0)), 0.0);
    assert_eq!(back(Number::from_count(3)), 3.0);
    assert_eq!(
        back(Number::from_count(9007199254740993)),
        9007199254740992.0
    );
}

#[test]
fn whole_numbers_carry_no_point() {
    let text = |x: f64| rxeval::functions::number_to_string(of(x));
    assert_eq!(text(3.0), "3");
    assert_eq!(text(-0.0), "0");
    assert_eq!(text(-12.0), "-12");
    assert_eq!(text(0.1), "0.1");
    assert_eq!(text(1e21), "1000000000000000000000");
    assert_eq!(text(1e19), "10000000000000000000");
    assert_eq!(text(-1e20), "-100000000000000000000");
    // every digit is the number's own
    assert_eq!(text(590295810358705651712.0), "590295810358705651712");
    assert_eq!(text(f64::NAN), "NaN");
    assert_eq!(text(f64::NEG_INFINITY), "-Infinity");
}
