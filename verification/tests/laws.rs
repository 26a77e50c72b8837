use rdc::fixed::Fixed;

fn parse(s: &str) -> Fixed {
    Fixed::parse(s.as_bytes(), 10)
}

fn show(f: &Fixed) -> String {
    String::from_utf8(f.to_string_radix(10)).unwrap()
}

const SAMPLES: [&str; 6] = ["0", "1.5", "20", "0.003", "123.456", "7"];

#[test]
fn addition_commutes() {
    for a in SAMPLES {
        for b in SAMPLES {
            let (x, y) = (parse(a), parse(b));
            assert_eq!(show(&x.add(&y)), show(&y.add(&x)));
        }
    }
}

#[test]
fn multiplication_commutes() {
    for a in SAMPLES {
        for b in SAMPLES {
            let (x, y) = (parse(a), parse(b));
            assert_eq!(show(&x.mul(&y, 2)), show(&y.mul(&x, 2)));
        }
    }
}

#[test]
fn add_then_sub_gives_back() {
    for a in SAMPLES {
        for b in SAMPLES {
            let (x, y) = (parse(a), parse(b));
            assert_eq!(x.add(&y).sub(&y), x);
        }
    }
}

#[test]
fn sub_self_is_zero() {
    for a in SAMPLES {
        let x = parse(a);
        assert_eq!(show(&x.sub(&x)), "0");
    }
}

#[test]
fn negation_twice() {
    let x = parse("12.5");
    assert_eq!(show(&x.neg()), "-12.5");
    assert_eq!(show(&x.neg().neg()), "12.5");
}

#[test]
fn equality_ignores_trailing_zeros() {
    assert_eq!(parse("1.50"), parse("1.5"));
    assert_eq!(parse("2"), parse("2.000"));
    assert_ne!(parse("2"), parse("2.001"));
}

#[test]
fn trichotomy() {
    for a in SAMPLES {
        for b in SAMPLES {
            let (x, y) = (parse(a), parse(b));
            let n = [x.less_than(&y), x.equals(&y), y.less_than(&x)]
                .iter()
                .filter(|c| **c)
                .count();
            assert_eq!(n, 1);
        }
    }
}

#[test]
fn integer_division_and_remainder() {
    for (a, b, q, r) in [("7", "2", "3", "1"), ("_7", "2", "-3", "-1"), ("7", "_2", "-3", "1")] {
        let a = if let Some(s) = a.strip_prefix('_') { parse(s).neg() } else { parse(a) };
        let b = if let Some(s) = b.strip_prefix('_') { parse(s).neg() } else { parse(b) };
        assert_eq!(show(&a.div(&b, 0)), q);
        assert_eq!(show(&a.rem(&b, 0)), r);
    }
}

#[test]
fn printing_keeps_trailing_zeros() {
    assert_eq!(show(&parse("1.50")), "1.50");
    assert_eq!(show(&parse(".0500")), ".0500");
}

#[test]
fn zeros_parse_to_zero_in_any_radix() {
    assert_eq!(show(&Fixed::parse(b"00.000", 16)), "0");
    assert_eq!(show(&Fixed::parse(b".", 2)), "0");
}

#[test]
fn parse_in_other_radix() {
    assert_eq!(show(&Fixed::parse(b"FF", 16)), "255");
    assert_eq!(show(&Fixed::parse(b"0.1", 2)), ".5");
    assert_eq!(show(&Fixed::parse(b"0.8", 16)), ".5");
}

#[test]
fn saturating_conversion() {
    assert_eq!(parse("12.9").to_u32_saturating(), 12);
    assert_eq!(parse("5").neg().to_u32_saturating(), 0);
    assert_eq!(parse("99999999999").to_u32_saturating(), u32::MAX);
}

#[test]
fn power_edge_cases() {
    assert!(parse("2").checked_pow(&parse("5").neg(), 0).is_none());
    assert!(parse("2").checked_pow(&parse("99999999999"), 0).is_none());
    assert_eq!(show(&parse("1.5").checked_pow(&parse("2.9"), 0).unwrap()), "2.2");
    assert_eq!(show(&parse("1.5").checked_pow(&parse("2"), 4).unwrap()), "2.25");
}

#[test]
fn new_normalizes_zero() {
    assert!(Fixed::new(rdc::num::BigNum::zero(), 7).is_zero());
    assert_eq!(show(&Fixed::new(rdc::num::BigNum::zero(), 7)), "0");
}

#[test]
fn signs() {
    assert!(parse("3").neg().is_negative());
    assert!(!parse("3").is_negative());
    assert!(parse("0.000").is_zero());
}

#[test]
fn adding_zero() {
    for a in SAMPLES {
        let x = parse(a);
        assert_eq!(x.add(&Fixed::zero()), x);
        assert_eq!(x.add(&Fixed::default()), x);
    }
}

#[test]
fn equal_exactly_when_difference_is_zero() {
    for a in SAMPLES {
        for b in SAMPLES {
            let (x, y) = (parse(a), parse(b));
            assert_eq!(x == y, x.sub(&y).is_zero());
        }
    }
}

#[test]
fn equality_is_transitive() {
    let (x, y, z) = (parse("2.5"), parse("2.50"), parse("2.500"));
    assert!(x == y && y == z && x == z);
}

#[test]
fn square_root_rounds_down() {
    // 2 at four digits: 1.4142^2 <= 2 < 1.4143^2
    assert_eq!(show(&parse("2").sqrt(4)), "1.4142");
    assert_eq!(show(&parse("0.5").sqrt(3)), ".707");
}
