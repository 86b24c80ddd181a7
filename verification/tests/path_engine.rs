use svag::{format_number, parse_path, serialize_path, Command, Number, SavageError};

fn num(x: f64) -> Number {
    Number::parse(&format!("{}", x)).unwrap()
}

#[test]
fn test_parse_simple_path() {
    let path = parse_path("M10 20 L30 40").unwrap();
    assert_eq!(path.commands.len(), 2);
}

#[test]
fn test_parse_relative_path() {
    let path = parse_path("m10,20 l30,40").unwrap();
    assert_eq!(path.commands.len(), 2);
    assert!(matches!(path.commands[0], Command::MoveTo { rel: true, .. }));
}

#[test]
fn test_parse_implicit_lineto() {
    let path = parse_path("M10 20 30 40").unwrap();
    assert_eq!(path.commands.len(), 2);
    assert!(matches!(path.commands[1], Command::LineTo { .. }));
}

#[test]
fn test_parse_arc() {
    let path = parse_path("A 10 20 30 1 0 40 50").unwrap();
    assert_eq!(path.commands.len(), 1);
    if let Command::Arc { large_arc, sweep, .. } = &path.commands[0] {
        assert!(*large_arc);
        assert!(!*sweep);
    } else {
        panic!("Expected Arc command");
    }
}

#[test]
fn test_format_number() {
    assert_eq!(format_number(&num(0.0), 2), "0");
    assert_eq!(format_number(&num(1.0), 2), "1");
    assert_eq!(format_number(&num(1.5), 2), "1.5");
    assert_eq!(format_number(&num(1.50), 2), "1.5");
    assert_eq!(format_number(&num(0.5), 2), ".5");
    assert_eq!(format_number(&num(-0.5), 2), "-.5");
    assert_eq!(format_number(&num(1.234), 2), "1.23");
    assert_eq!(format_number(&num(1.235), 2), "1.24");
}

#[test]
fn test_serialize_path() {
    let path = parse_path("M 10.00 20.00 L 30.00 40.00 Z").unwrap();
    let out = serialize_path(&path, 0);
    assert_eq!(out, "M10 20 30 40z");
}

#[test]
fn test_serialize_compact() {
    let path = parse_path("M 0.5 0.5 L -0.5 -0.5").unwrap();
    let out = serialize_path(&path, 1);
    assert_eq!(out, "M.5 .5-.5-.5");
}

fn minified(d: &str, precision: u8) -> String {
    serialize_path(&parse_path(d).unwrap(), precision)
}

fn path_error(d: &str) -> String {
    match parse_path(d) {
        Err(SavageError::InvalidPath(detail)) => detail,
        Err(_) => panic!("not a path error"),
        Ok(_) => panic!("path data was accepted"),
    }
}

#[test]
fn single_move_keeps_its_letter() {
    assert_eq!(minified("M 1 2", 2), "M1 2");
    assert_eq!(minified("m 1 2", 2), "m1 2");
}

#[test]
fn numbers_round_half_away_from_zero() {
    assert_eq!(format_number(&Number::parse("0.125").unwrap(), 2), ".13");
    assert_eq!(format_number(&Number::parse("-0.125").unwrap(), 2), "-.13");
    assert_eq!(format_number(&Number::parse("0.124").unwrap(), 2), ".12");
    assert_eq!(format_number(&Number::parse("9.995").unwrap(), 2), "10");
    assert_eq!(format_number(&Number::parse("99.5").unwrap(), 0), "100");
    assert_eq!(format_number(&Number::parse("-0.004").unwrap(), 2), "0");
    assert_eq!(format_number(&Number::parse("-0").unwrap(), 2), "0");
}

#[test]
fn numbers_with_exponents() {
    assert_eq!(format_number(&Number::parse("1e2").unwrap(), 2), "100");
    assert_eq!(format_number(&Number::parse("1.5e1").unwrap(), 2), "15");
    assert_eq!(format_number(&Number::parse("15e-1").unwrap(), 2), "1.5");
    assert_eq!(format_number(&Number::parse("+.5E+1").unwrap(), 2), "5");
    assert_eq!(format_number(&Number::parse("125e-4").unwrap(), 3), ".013");
    assert_eq!(format_number(&Number::parse("1.e0").unwrap(), 2), "1");
    assert!(Number::parse("1e").is_none());
    assert!(Number::parse(".").is_none());
    assert!(Number::parse("-").is_none());
    assert!(Number::parse("").is_none());
    assert!(Number::parse("1 ").is_none());
    assert_eq!(format_number(&Number::parse("1e-1000").unwrap(), 2), "0");
    assert_eq!(format_number(&Number::parse("-25e-0000000000000000000000003").unwrap(), 2), "-.03");
    assert_eq!(format_number(&Number::parse("12e1000").unwrap(), 2).len(), 1002);
    assert!(Number::parse("1e99999999999999999999999999999999").is_none());
    assert_eq!(minified("M1e-1000 0", 2), "M0 0");
}

#[test]
fn precision_zero_and_large() {
    assert_eq!(format_number(&Number::parse("1.49").unwrap(), 0), "1");
    assert_eq!(format_number(&Number::parse("1.5").unwrap(), 0), "2");
    assert_eq!(format_number(&Number::parse("1.123456789").unwrap(), 255), "1.123456789");
}

#[test]
fn letters_are_left_out_where_they_repeat() {
    assert_eq!(minified("L 1 2 L 3 4 l 5 6 l 7 8", 2), "L1 2 3 4l5 6 7 8");
    assert_eq!(minified("M 1 2 L 3 4 L 5 6", 2), "M1 2 3 4 5 6");
    assert_eq!(minified("m 1 2 l 3 4", 2), "m1 2 3 4");
    assert_eq!(minified("M 1 2 l 3 4", 2), "M1 2l3 4");
    assert_eq!(minified("H 1 H 2 V 3 v 4", 2), "H1 2V3v4");
    assert_eq!(minified("M0 0 Z Z", 2), "M0 0zz");
}

#[test]
fn arcs_keep_their_flags_apart() {
    assert_eq!(minified("A 10 20 30 1 0 40 50", 2), "A10 20 30 1 0 40 50");
    assert_eq!(minified("a 1.5 2.5 0 0 1 -4 -5", 2), "a1.5 2.5 0 0 1-4-5");
    assert_eq!(minified("A1 1 0 0 0 .5 .5 1 1 0 1 1 2 2", 2), "A1 1 0 0 0 .5 .5 1 1 0 1 1 2 2");
}

#[test]
fn all_commands_round_trip() {
    let d = "M1 2L3 4H5V6C1 2 3 4 5 6S1 2 3 4Q1 2 3 4T1 2A1 2 3 0 1 4 5z";
    assert_eq!(minified(d, 2), "M1 2 3 4H5V6C1 2 3 4 5 6S1 2 3 4Q1 2 3 4T1 2A1 2 3 0 1 4 5z");
    let r = "m1 2l3 4h5v6c1 2 3 4 5 6s1 2 3 4q1 2 3 4t1 2a1 2 3 0 1 4 5z";
    assert_eq!(minified(r, 2), "m1 2 3 4h5v6c1 2 3 4 5 6s1 2 3 4q1 2 3 4t1 2a1 2 3 0 1 4 5z");
    let h = "H1V2L3 4M5 6z";
    assert_eq!(minified(h, 2), h);
    assert_eq!(minified(&minified("M 0.50 -0.25 C 1,2 3,4 5,6 7,8 9,10 11,12", 2), 2),
        minified("M 0.50 -0.25 C 1,2 3,4 5,6 7,8 9,10 11,12", 2));
}

#[test]
fn path_errors() {
    assert_eq!(path_error("10 20"), "Expected command letter");
    assert_eq!(path_error("X 10 20"), "Unknown command: X");
    assert_eq!(path_error("M 10"), "Expected number");
    assert_eq!(path_error("M 10 L"), "Expected number");
    assert_eq!(path_error("M 10 1e"), "Invalid number: 1e");
    assert_eq!(path_error("M . 1"), "Invalid number: .");
    assert_eq!(path_error("A 1 1 0 2 0 1 1"), "Expected flag (0 or 1), got: 2");
    assert_eq!(path_error("A 1 1 0"), "Expected flag");
    assert_eq!(path_error("M0 0z 5 5"), "Expected command letter");
    assert_eq!(path_error("M1,,2"), "Expected number");
}

#[test]
fn separators() {
    assert_eq!(minified("M1,2", 2), "M1 2");
    assert_eq!(minified("  M 1 , 2  ", 2), "M1 2");
    assert_eq!(minified("M,1,2,", 2), "M1 2");
    assert_eq!(minified("M1-2", 2), "M1-2");
    assert_eq!(minified("M.5.5", 2), "M.5 .5");
    assert_eq!(minified("", 2), "");
    assert_eq!(minified("   ", 2), "");
}
