use rdc::fixed::Fixed;

fn parse(s: &str) -> Fixed {
    Fixed::parse(s.as_bytes(), 10)
}

fn show(f: &Fixed) -> String {
    String::from_utf8(f.to_string_radix(10)).unwrap()
}

fn check_parse_zero(s: &str) {
    assert_eq!("0", show(&parse(s)));
}

#[test]
fn parse_zeros_zero() {
    check_parse_zero("0");
}

#[test]
fn parse_zeros_middle_dot() {
    check_parse_zero("0.0");
}

#[test]
fn parse_zeros_dot_before() {
    check_parse_zero(".0");
}

#[test]
fn parse_zeros_dot_after() {
    check_parse_zero("0.");
}

#[test]
fn parse_zeros_multiple() {
    check_parse_zero("000000");
}

#[test]
fn parse_zeros_multiple_with_middle_dot() {
    check_parse_zero("000000.000");
}

#[test]
fn parse_and_print() {
    for s in [
        "10000",
        "123456789",
        "12345678.9",
        "123456.789",
        "12.3456789",
        "1.23456789",
        ".12345678",
        ".00000012",
    ] {
        assert_eq!(s, show(&parse(s)));
    }
}

#[test]
fn add() {
    for (l, r, e) in [
        ("2", "2", "4"),
        ("0.1", "0.2", "0.3"),
        ("1.111", "0.02", "1.131"),
        ("1234", "0.000056", "1234.000056"),
        ("0.000056", "1234", "1234.000056"),
        ("0.3", "20", "20.3"),
        ("20", "0.3", "20.3"),
    ] {
        assert_eq!(parse(l).add(&parse(r)), parse(e));
    }
}

#[test]
fn mul() {
    for (l, r, e) in [
        ("2", "2", "4"),
        ("0.3", "20", "6"),
        ("20", "0.3", "6"),
        ("0.01", "0.003", "0.00003"),
    ] {
        assert_eq!(parse(l).mul(&parse(r), 8), parse(e));
    }
}

#[test]
fn div() {
    for (l, r, e) in [
        ("84", "2", "42"),
        ("20", "0.5", "40"),
        ("0.5", "20", "0.025"),
        ("0.03", "0.0001", "300"),
        ("0.00005", "20", "0.0000025"),
        ("20", "0.00005", "400000"),
        ("13.34", "7.892", "1.69031931"),
        ("7.892", "13.34", "0.59160419"),
    ] {
        assert_eq!(parse(l).div(&parse(r), 8), parse(e));
    }
}

#[test]
fn rem() {
    for (l, r, e) in [
        ("2", "2", "0"),
        ("3", "2", "1"),
        ("53", "22", "9"),
        ("31", "12", "7"),
        ("31.234", "12", "7.234"),
    ] {
        assert_eq!(parse(l).rem(&parse(r), 0), parse(e));
    }
}

#[test]
fn pow() {
    for (l, r, e) in [("3.1415", "0", "1"), ("3.1415", "1", "3.1415"), ("5", "2", "25")] {
        assert_eq!(parse(l).checked_pow(&parse(r), 0).unwrap(), parse(e));
    }
}

#[test]
fn sqrt() {
    for (v, e) in [("0", "0"), ("4", "2"), ("0.04", "0.2"), ("0.0004", "0.02")] {
        assert_eq!(parse(v).sqrt(4), parse(e));
    }
}
