use redismodule_cmd::numeric::{float_literal, parse_integer, parse_unsigned_integer};
use redismodule_cmd::value::Scalar;
use redismodule_cmd::{CmdError, Value, ValueKind};

#[test]
fn narrowing_to_own_kind_round_trips() {
    assert_eq!(Value::Str("a".to_owned()).as_string().unwrap(), "a".to_owned());
    assert_eq!(Value::U64(7).as_u64().unwrap(), 7);
    assert_eq!(Value::I64(-7).as_i64().unwrap(), -7);
    assert_eq!(Value::F64("2.5".to_owned()).as_f64_text().unwrap(), "2.5".to_owned());
    let v = Value::Vec(vec![Scalar::Str("x".to_owned()), Scalar::Str("y".to_owned())]);
    assert_eq!(v.as_stringvec().unwrap(), vec!["x".to_owned(), "y".to_owned()]);
    let v = Value::Vec(vec![Scalar::F64("1".to_owned())]);
    assert_eq!(v.as_f64vec_text().unwrap(), vec!["1".to_owned()]);
    let v = Value::Vec(vec![Scalar::U64(1), Scalar::U64(2)]);
    let items = v.as_vec().unwrap();
    assert_eq!(items.len(), 2);
    assert_eq!(items[1].kind(), ValueKind::U64);
}

#[test]
fn narrowing_to_other_kind_is_a_mismatch() {
    let err = Value::U64(1).as_string().unwrap_err();
    assert_eq!(err, CmdError::TypeMismatch { actual: ValueKind::U64, requested: ValueKind::Str });
    let err = Value::Str("1".to_owned()).as_u64().unwrap_err();
    assert_eq!(err, CmdError::TypeMismatch { actual: ValueKind::Str, requested: ValueKind::U64 });
    let err = Value::U64(1).as_i64().unwrap_err();
    assert_eq!(err, CmdError::TypeMismatch { actual: ValueKind::U64, requested: ValueKind::I64 });
    let err = Value::I64(1).as_f64_text().unwrap_err();
    assert_eq!(err, CmdError::TypeMismatch { actual: ValueKind::I64, requested: ValueKind::F64 });
    let err = Value::I64(1).as_u64vec().unwrap_err();
    assert_eq!(err, CmdError::TypeMismatch { actual: ValueKind::I64, requested: ValueKind::Vec });
    let err = Value::Vec(vec![Scalar::Str("a".to_owned())]).as_u64().unwrap_err();
    assert_eq!(err, CmdError::TypeMismatch { actual: ValueKind::Vec, requested: ValueKind::U64 });
}

#[test]
fn sequence_narrowing_stops_at_first_bad_element() {
    let v = Value::Vec(vec![Scalar::I64(1), Scalar::U64(2), Scalar::Str("3".to_owned())]);
    let err = v.as_i64vec().unwrap_err();
    assert_eq!(err, CmdError::TypeMismatch { actual: ValueKind::U64, requested: ValueKind::I64 });
    let v = Value::Vec(vec![Scalar::Str("a".to_owned()), Scalar::I64(2)]);
    let err = v.as_stringvec().unwrap_err();
    assert_eq!(err, CmdError::TypeMismatch { actual: ValueKind::I64, requested: ValueKind::Str });
}

#[test]
fn duplicate_keeps_kind_and_contents() {
    let v = Value::Vec(vec![Scalar::U64(3), Scalar::U64(4)]);
    assert_eq!(v.duplicate().as_u64vec().unwrap(), vec![3, 4]);
    assert_eq!(v.as_u64vec().unwrap(), vec![3, 4]);
}

#[test]
fn unsigned_integers() {
    assert_eq!(parse_unsigned_integer("0").unwrap(), 0);
    assert_eq!(parse_unsigned_integer("0042").unwrap(), 42);
    assert_eq!(parse_unsigned_integer("18446744073709551615").unwrap(), u64::MAX);
    assert!(parse_unsigned_integer("18446744073709551616").is_err());
    assert!(parse_unsigned_integer("").is_err());
    assert!(parse_unsigned_integer("-1").is_err());
    assert!(parse_unsigned_integer("+1").is_err());
    assert_eq!(parse_unsigned_integer("1a").unwrap_err(), CmdError::InvalidNumber("1a".to_owned()));
}

#[test]
fn signed_integers() {
    assert_eq!(parse_integer("-9223372036854775808").unwrap(), i64::MIN);
    assert_eq!(parse_integer("9223372036854775807").unwrap(), i64::MAX);
    assert_eq!(parse_integer("+5").unwrap(), 5);
    assert_eq!(parse_integer("-0").unwrap(), 0);
    assert!(parse_integer("9223372036854775808").is_err());
    assert!(parse_integer("-9223372036854775809").is_err());
    assert!(parse_integer("-").is_err());
    assert!(parse_integer("").is_err());
    assert!(parse_integer("1 ").is_err());
}

#[test]
fn float_notation() {
    for ok in ["1", "-1.5", "+.5", "1.", "3.00", "1e5", "2.5E-3", "-0e+0"] {
        assert!(float_literal(ok), "{}", ok);
        assert!(ok.parse::<f64>().is_ok());
    }
    for bad in ["", ".", "e5", "1e", "1e+", "abc", "1.2.3", "--1", "1 ", "0x10"] {
        assert!(!float_literal(bad), "{}", bad);
    }
}
