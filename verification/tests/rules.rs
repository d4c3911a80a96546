use cornucopia::error::{Error, ParsedPosition, ValidationError};
use cornucopia::number::{decimal_string, parse_i16};
use cornucopia::pair::{Pair, Rule};
use cornucopia::parsed::Parsed;
use cornucopia::replace::replaced_in_string;
use cornucopia::validate::{
    duplicate_param, i16_index, more_bind_params_than_params, unused_param,
};

fn place(line: usize, col: usize) -> ParsedPosition {
    ParsedPosition { line, col, line_str: format!("line {}", line) }
}

fn bind(value: i16, col: usize) -> Parsed<i16> {
    Parsed { pos: place(1, col), value }
}

fn param(value: &str, col: usize) -> Parsed<String> {
    Parsed { pos: place(2, col), value: value.to_string() }
}

#[test]
fn map_keeps_the_place() {
    let p = param("abc", 7);
    let mapped = p.map(|s: &String| s.len());
    assert_eq!(mapped.value, 3);
    assert_eq!((mapped.pos.line, mapped.pos.col), (2, 7));
    assert_eq!(mapped.pos.line_str, "line 2");
}

#[test]
fn indices_within_the_number_of_parameters() {
    assert!(more_bind_params_than_params(&[], 0).is_ok());
    assert!(more_bind_params_than_params(&[bind(1, 1), bind(2, 2)], 2).is_ok());
    assert!(more_bind_params_than_params(&[bind(-1, 1)], 0).is_ok());
    assert!(more_bind_params_than_params(&[bind(i16::MAX, 1)], 32767).is_ok());
    match more_bind_params_than_params(&[bind(2, 1), bind(3, 5), bind(4, 9)], 2) {
        Err(Error::Validation(ValidationError::MoreBindParamsThanParams { nb_params, pos })) => {
            assert_eq!(nb_params, 2);
            assert_eq!(pos.col, 5);
        }
        other => panic!("{:?}", other),
    }
}

#[test]
fn more_parameters_than_indices() {
    assert!(more_bind_params_than_params(&[bind(1, 2)], 32768).is_ok());
    assert!(more_bind_params_than_params(&[bind(3, 1)], 65538).is_ok());
    assert!(more_bind_params_than_params(&[bind(i16::MAX, 1)], 40000).is_ok());
    assert!(more_bind_params_than_params(&[bind(i16::MAX, 1)], usize::MAX).is_ok());
    assert!(more_bind_params_than_params(&[bind(i16::MAX, 1)], 32766).is_err());
    assert!(more_bind_params_than_params(&[bind(i16::MIN, 1)], 0).is_ok());
}

#[test]
fn parameter_without_an_index_is_not_used() {
    let params: Vec<Parsed<String>> = (0..32768).map(|i| param("p", i + 1)).collect();
    let mut binds: Vec<Parsed<i16>> = (1..=i16::MAX).rev().map(|i| bind(i, 1)).collect();
    assert!(unused_param(&params[..32767], &binds).is_ok());
    binds.push(bind(i16::MIN, 1));
    match unused_param(&params, &binds) {
        Err(Error::Validation(ValidationError::UnusedParam { index, pos })) => {
            assert_eq!(index, 32768);
            assert_eq!(pos.col, 32768);
        }
        other => panic!("{:?}", other),
    }
}

#[test]
fn every_parameter_is_used() {
    let params = [param("a", 1), param("b", 4), param("c", 7)];
    assert!(unused_param(&params, &[bind(3, 1), bind(1, 2), bind(2, 3)]).is_ok());
    assert!(unused_param(&[], &[bind(3, 1)]).is_ok());
    match unused_param(&params, &[bind(1, 1), bind(2, 2), bind(4, 3)]) {
        Err(Error::Validation(ValidationError::UnusedParam { index, pos })) => {
            assert_eq!(index, 3);
            assert_eq!((pos.line, pos.col), (2, 7));
        }
        other => panic!("{:?}", other),
    }
    match unused_param(&params, &[]) {
        Err(Error::Validation(ValidationError::UnusedParam { index, pos })) => {
            assert_eq!(index, 1);
            assert_eq!(pos.col, 1);
        }
        other => panic!("{:?}", other),
    }
}

#[test]
fn parameter_already_in_the_list() {
    let input = "x\nyy zz";
    let it = Pair { rule: Rule::Ident, start: 5, end: 7, inner: vec![] };
    let params = [param("aa", 1), param("zz", 2)];
    match duplicate_param(input, &it, &params, "zz") {
        Err(Error::Validation(ValidationError::DuplicateParam { pos })) => {
            assert_eq!((pos.line, pos.col), (2, 4));
            assert_eq!(pos.line_str, "yy zz");
        }
        other => panic!("{:?}", other),
    }
    assert_eq!(
        duplicate_param(input, &it, &params, "z").unwrap(),
        (2, 4, "yy zz".to_string())
    );
}

#[test]
fn index_of_a_bind_parameter() {
    assert_eq!(i16_index("1", 1, 1, "").unwrap(), 1);
    assert_eq!(i16_index("32767", 1, 1, "").unwrap(), 32767);
    assert_eq!(i16_index("00012", 1, 1, "").unwrap(), 12);
    assert_eq!(i16_index("+5", 1, 1, "").unwrap(), 5);
    assert_eq!(i16_index("-5", 1, 1, "").unwrap(), -5);
    for s in ["0", "-0", "000", "32768", "99999999999999999999", "", "+", "-", "+-1", "1a", " 1", "1 ", "1_0", "٣"] {
        match i16_index(s, 3, 4, "the line") {
            Err(Error::Validation(ValidationError::InvalidI16Index { pos })) => {
                assert_eq!((pos.line, pos.col), (3, 4));
                assert_eq!(pos.line_str, "the line");
            }
            other => panic!("{:?} {:?}", s, other),
        }
    }
}

#[test]
fn numbers_are_read_as_by_the_standard_library() {
    for s in ["0", "-0", "+0", "7", "-7", "32767", "32768", "-32768", "-32769", "327670", "", "-", "+", "--1", "0x1", "9z", "z9", "1.0", "１", "-00001", "000000000000000001"] {
        assert_eq!(parse_i16(s), s.parse::<i16>().ok(), "{:?}", s);
    }
    for n in -33000i32..33000 {
        assert_eq!(parse_i16(&n.to_string()), n.to_string().parse::<i16>().ok());
    }
}

#[test]
fn numbers_are_written_as_by_the_standard_library() {
    for n in [0, 1, 9, 10, 11, 99, 100, 101, 12345, 65535, usize::MAX] {
        assert_eq!(decimal_string(n), n.to_string());
    }
}

#[test]
fn written_index_is_read_back() {
    for n in 1..=32767usize {
        assert_eq!(i16_index(&decimal_string(n), 1, 1, "").unwrap() as usize, n);
    }
}

#[test]
fn replacing_from_the_last_to_the_first() {
    let mut values = vec![
        ((8, 9), "three".to_string()),
        ((0, 1), "1".to_string()),
        ((4, 5), "".to_string()),
    ];
    let r = replaced_in_string("ab--cd--ef".to_string(), &mut values);
    assert_eq!(r, "1----three");
    let starts: Vec<usize> = values.iter().map(|v| v.0 .0).collect();
    assert_eq!(starts, [0, 4, 8]);
}

#[test]
fn replacing_nothing() {
    assert_eq!(replaced_in_string("abc".to_string(), &mut []), "abc");
}

#[test]
fn replacing_characters_of_several_bytes() {
    let s = "é☃x𝄞";
    let mut values = vec![((6, 9), "G".to_string()), ((2, 4), "snow ☃".to_string())];
    assert_eq!(replaced_in_string(s.to_string(), &mut values), "ésnow ☃xG");
}

#[test]
fn replacements_that_begin_alike_keep_their_order() {
    let mut values = vec![
        ((1, 2), "x".to_string()),
        ((0, 0), "y".to_string()),
        ((1, 1), "zz".to_string()),
    ];
    let r = replaced_in_string("abcd".to_string(), &mut values);
    // First "b" becomes "zz", then "zz" becomes "x", then "a" becomes "y".
    assert_eq!(r, "yxcd");
    let order: Vec<&str> = values.iter().map(|v| v.1.as_str()).collect();
    assert_eq!(order, ["y", "x", "zz"]);
}
