use redismodule_cmd::{Arg, ArgType, CmdError, Collection, Command, ScalarType, Value};

fn tokens(v: &[&str]) -> Vec<String> {
    v.iter().map(|s| s.to_string()).collect()
}

fn schema_a(desc: bool) -> Command {
    let d = |s: &'static str| if desc { s } else { "" };
    let mut cmd = Command::new("test", d("foo"));
    cmd.add_arg(Arg::new("required", d("bar"), ArgType::Arg, ScalarType::Str, Collection::Unit, None));
    cmd.add_arg(Arg::new(
        "optional",
        d("baz"),
        ArgType::Arg,
        ScalarType::Str,
        Collection::Unit,
        Some(Value::Str("foo".to_owned())),
    ));
    cmd.add_arg(Arg::new("uintarg", d("an uint"), ArgType::Kwarg, ScalarType::U64, Collection::Unit, Some(Value::U64(1))));
    cmd.add_arg(Arg::new("intarg", d("an int"), ArgType::Kwarg, ScalarType::I64, Collection::Unit, None));
    cmd.add_arg(Arg::new("floatarg", d("a float"), ArgType::Kwarg, ScalarType::F64, Collection::Unit, None));
    cmd
}

fn schema_c(desc: bool) -> Command {
    let d = |s: &'static str| if desc { s } else { "" };
    let mut cmd = Command::new("test", d("test desc"));
    cmd.add_arg(Arg::new("foo", d("bar"), ArgType::Arg, ScalarType::Str, Collection::Unit, None));
    cmd.add_arg(Arg::new("vec1", d("a vec of u64"), ArgType::Arg, ScalarType::U64, Collection::Vec, None));
    cmd.add_arg(Arg::new("vec2", d("a vec of i64"), ArgType::Kwarg, ScalarType::I64, Collection::Vec, None));
    cmd.add_arg(Arg::new("fizz", d("buzz"), ArgType::Kwarg, ScalarType::Str, Collection::Unit, None));
    cmd
}

fn float_of(v: Value) -> f64 {
    v.as_f64_text().unwrap().parse::<f64>().unwrap()
}

fn check_parse_args(cmd: &Command, float_token: &str, expected: f64) {
    let raw_args = tokens(&["test"]);
    let parsed = cmd.parse_args(raw_args);
    assert_eq!(parsed.is_err(), true);

    let raw_args = tokens(&["test", "bar", "intarg", "2", "floatarg", float_token]);
    let parsed = cmd.parse_args(raw_args);
    assert_eq!(parsed.is_ok(), true);
    assert_eq!(parsed.is_err(), false);

    let mut parsed = parsed.unwrap();
    assert_eq!(parsed.remove("required").unwrap().as_string().unwrap(), "bar".to_owned());
    assert_eq!(parsed.remove("optional").unwrap().as_string().unwrap(), "foo".to_owned());
    assert_eq!(parsed.remove("uintarg").unwrap().as_u64().unwrap(), 1_u64);
    assert_eq!(parsed.remove("intarg").unwrap().as_i64().unwrap(), 2_i64);
    assert!((float_of(parsed.remove("floatarg").unwrap()) - expected).abs() < f64::EPSILON);
}

fn check_parse_vec_args(cmd: &Command) {
    let raw_args = tokens(&["test", "bar", "1"]);
    let parsed = cmd.parse_args(raw_args);
    assert_eq!(parsed.is_err(), true);

    let raw_args = tokens(&["test", "bar", "2", "1", "1", "vec2", "3", "2", "2", "2", "fizz", "buzz"]);
    let parsed = cmd.parse_args(raw_args);
    assert_eq!(parsed.is_ok(), true);
    assert_eq!(parsed.is_err(), false);

    let mut parsed = parsed.unwrap();
    assert_eq!(parsed.remove("foo").unwrap().as_string().unwrap(), "bar".to_owned());
    assert_eq!(parsed.remove("vec1").unwrap().as_u64vec().unwrap(), vec![1_u64; 2]);
    assert_eq!(parsed.remove("vec2").unwrap().as_i64vec().unwrap(), vec![2_i64; 3]);
    assert_eq!(parsed.remove("fizz").unwrap().as_string().unwrap(), "buzz".to_owned());
}

#[test]
fn parse_args_test() {
    check_parse_args(&schema_a(false), "3.14", 3.14);
}

#[test]
fn lib_parse_args_test() {
    check_parse_args(&schema_a(true), "3.00", 3.0);
}

#[test]
fn parse_vec_args_test() {
    check_parse_vec_args(&schema_c(false));
}

#[test]
fn lib_parse_vec_args_test() {
    check_parse_vec_args(&schema_c(true));
}

#[test]
fn scenario_a_binds_every_argument() {
    let cmd = schema_a(true);
    let mut parsed = cmd.parse_args(tokens(&["test", "bar", "intarg", "2", "floatarg", "3.00"])).unwrap();
    assert_eq!(parsed.len(), 5);
    assert!(parsed.contains_key("floatarg"));
    assert_eq!(parsed.get("intarg").unwrap().kind(), redismodule_cmd::ValueKind::I64);
    assert_eq!(parsed.remove("floatarg").unwrap().as_f64_text().unwrap(), "3.00".to_owned());
    assert_eq!(parsed.len(), 4);
    assert!(parsed.remove("floatarg").is_none());
}

#[test]
fn scenario_b_missing_required() {
    let cmd = schema_a(true);
    let err = cmd.parse_args(tokens(&["test"])).unwrap_err();
    assert_eq!(err, CmdError::MissingRequired("required".to_owned()));
}

#[test]
fn scenario_d_short_sequence_is_arity() {
    let cmd = schema_c(true);
    let err = cmd.parse_args(tokens(&["test", "bar", "1"])).unwrap_err();
    assert_eq!(err, CmdError::Arity);
}

#[test]
fn scenario_e_required_positionals_take_precedence() {
    let mut cmd = Command::new("test", "");
    cmd.add_arg(Arg::new("a", "", ArgType::Arg, ScalarType::Str, Collection::Unit, None));
    cmd.add_arg(Arg::new("k", "", ArgType::Kwarg, ScalarType::U64, Collection::Unit, None));
    let err = cmd.parse_args(tokens(&["test", "k", "1"])).unwrap_err();
    assert_eq!(err, CmdError::UnexpectedArgument("1".to_owned()));
    let mut parsed = cmd.parse_args(tokens(&["test", "k", "k", "1"])).unwrap();
    assert_eq!(parsed.remove("a").unwrap().as_string().unwrap(), "k".to_owned());
    assert_eq!(parsed.remove("k").unwrap().as_u64().unwrap(), 1);
}

#[test]
fn empty_line_is_arity() {
    let cmd = schema_a(true);
    assert_eq!(cmd.parse_args(Vec::new()).unwrap_err(), CmdError::Arity);
}

#[test]
fn other_command_name_is_rejected() {
    let cmd = schema_a(true);
    let err = cmd.parse_args(tokens(&["other", "bar"])).unwrap_err();
    assert_eq!(err, CmdError::NameMismatch("other".to_owned()));
}

#[test]
fn names_and_keywords_match_in_any_case() {
    let cmd = schema_a(true);
    let mut parsed = cmd.parse_args(tokens(&["TeSt", "bar", "INTARG", "-7", "FloatArg", "1e3"])).unwrap();
    assert_eq!(parsed.remove("intarg").unwrap().as_i64().unwrap(), -7);
    assert_eq!(float_of(parsed.remove("floatarg").unwrap()), 1000.0);
}

#[test]
fn keyword_without_value_is_arity() {
    let cmd = schema_a(true);
    let err = cmd.parse_args(tokens(&["test", "bar", "intarg"])).unwrap_err();
    assert_eq!(err, CmdError::Arity);
}

#[test]
fn bad_number_is_invalid() {
    let cmd = schema_a(true);
    let err = cmd.parse_args(tokens(&["test", "bar", "uintarg", "-1"])).unwrap_err();
    assert_eq!(err, CmdError::InvalidNumber("-1".to_owned()));
    let err = cmd.parse_args(tokens(&["test", "bar", "intarg", "2", "floatarg", "x1"])).unwrap_err();
    assert_eq!(err, CmdError::InvalidNumber("x1".to_owned()));
}

#[test]
fn bad_sequence_element_is_invalid() {
    let cmd = schema_c(true);
    let err = cmd.parse_args(tokens(&["test", "bar", "2", "1", "x"])).unwrap_err();
    assert_eq!(err, CmdError::InvalidNumber("x".to_owned()));
    let err = cmd.parse_args(tokens(&["test", "bar", "two"])).unwrap_err();
    assert_eq!(err, CmdError::InvalidNumber("two".to_owned()));
}

#[test]
fn sequence_keeps_input_order_and_may_be_empty() {
    let cmd = schema_c(true);
    let mut parsed = cmd
        .parse_args(tokens(&["test", "bar", "3", "5", "0", "9", "fizz", "z", "vec2", "0"]))
        .unwrap();
    assert_eq!(parsed.remove("vec1").unwrap().as_u64vec().unwrap(), vec![5, 0, 9]);
    assert_eq!(parsed.remove("vec2").unwrap().as_i64vec().unwrap(), Vec::<i64>::new());
}

#[test]
fn optional_positional_is_closed_after_a_keyword() {
    let cmd = schema_a(true);
    let err = cmd
        .parse_args(tokens(&["test", "bar", "intarg", "2", "floatarg", "1", "opt"]))
        .unwrap_err();
    assert_eq!(err, CmdError::UnexpectedArgument("opt".to_owned()));
    let mut parsed = cmd
        .parse_args(tokens(&["test", "bar", "opt", "intarg", "2", "floatarg", "1"]))
        .unwrap();
    assert_eq!(parsed.remove("optional").unwrap().as_string().unwrap(), "opt".to_owned());
}

#[test]
fn omitted_arguments_take_their_defaults() {
    let mut cmd = Command::new("test", "");
    cmd.add_arg(Arg::new("o", "", ArgType::Arg, ScalarType::I64, Collection::Unit, Some(Value::I64(-4))));
    cmd.add_arg(Arg::new("k", "", ArgType::Kwarg, ScalarType::U64, Collection::Vec, Some(Value::Vec(vec![]))));
    cmd.add_arg(Arg::new("s", "", ArgType::Kwarg, ScalarType::Str, Collection::Unit, Some(Value::Str("d".to_owned()))));
    let mut parsed = cmd.parse_args(tokens(&["test"])).unwrap();
    assert_eq!(parsed.len(), 3);
    assert_eq!(parsed.remove("o").unwrap().as_i64().unwrap(), -4);
    assert_eq!(parsed.remove("k").unwrap().as_u64vec().unwrap(), Vec::<u64>::new());
    assert_eq!(parsed.remove("s").unwrap().as_string().unwrap(), "d".to_owned());
}

#[test]
fn missing_keyword_without_default_is_required() {
    let cmd = schema_a(true);
    let err = cmd.parse_args(tokens(&["test", "bar", "intarg", "2"])).unwrap_err();
    assert_eq!(err, CmdError::MissingRequired("floatarg".to_owned()));
}

#[test]
fn repeated_keyword_keeps_the_last_value() {
    let cmd = schema_a(true);
    let mut parsed = cmd
        .parse_args(tokens(&["test", "bar", "intarg", "2", "intarg", "3", "floatarg", "0"]))
        .unwrap();
    assert_eq!(parsed.remove("intarg").unwrap().as_i64().unwrap(), 3);
}

#[test]
fn later_keyword_declaration_replaces_earlier() {
    let mut cmd = Command::new("test", "");
    cmd.add_arg(Arg::new("k", "", ArgType::Kwarg, ScalarType::U64, Collection::Unit, None));
    cmd.add_arg(Arg::new("k", "", ArgType::Kwarg, ScalarType::Str, Collection::Unit, Some(Value::Str("x".to_owned()))));
    let mut parsed = cmd.parse_args(tokens(&["test", "k", "abc"])).unwrap();
    assert_eq!(parsed.remove("k").unwrap().as_string().unwrap(), "abc".to_owned());
    assert_eq!(cmd.kwargs.len(), 1);
}

fn build(name: &'static str, desc: &'static str, args: Vec<Arg>) -> Command {
    let mut cmd = Command::new(name, desc);
    for arg in args {
        cmd.add_arg(arg);
    }
    cmd
}

fn check_schema_equality(desc: bool) {
    let d = |s: &'static str| if desc { s } else { "" };
    let cmd = build(
        "test",
        d("foo"),
        vec![
            Arg::new("stringarg", d("a string"), ArgType::Arg, ScalarType::Str, Collection::Unit, None),
            Arg::new("uintarg", d("an uint"), ArgType::Kwarg, ScalarType::U64, Collection::Unit, Some(Value::U64(1))),
            Arg::new("intarg", d("an int"), ArgType::Kwarg, ScalarType::I64, Collection::Unit, Some(Value::I64(1))),
            Arg::new(
                "floatarg",
                d("a float"),
                ArgType::Kwarg,
                ScalarType::F64,
                Collection::Unit,
                Some(Value::F64("1".to_owned())),
            ),
        ],
    );

    let mut exp = Command::new("test", d("foo"));
    let arg1 = Arg::new("stringarg", d("a string"), ArgType::Arg, ScalarType::Str, Collection::Unit, None);
    let arg2 = Arg::new("uintarg", d("an uint"), ArgType::Kwarg, ScalarType::U64, Collection::Unit, Some(Value::U64(1)));
    let arg3 = Arg::new("intarg", d("an int"), ArgType::Kwarg, ScalarType::I64, Collection::Unit, Some(Value::I64(1)));
    let arg4 = Arg::new(
        "floatarg",
        d("a float"),
        ArgType::Kwarg,
        ScalarType::F64,
        Collection::Unit,
        Some(Value::F64("1".to_owned())),
    );
    exp.add_arg(arg1);
    exp.add_arg(arg2);
    exp.add_arg(arg3);
    exp.add_arg(arg4);

    assert_eq!(cmd, exp);
}

#[test]
fn macro_test() {
    check_schema_equality(false);
}

#[test]
fn lib_macro_test() {
    check_schema_equality(true);
}

#[test]
fn schema_equality_ignores_keyword_order_and_default_values() {
    let a = build(
        "t",
        "",
        vec![
            Arg::new("x", "", ArgType::Kwarg, ScalarType::U64, Collection::Unit, Some(Value::U64(1))),
            Arg::new("y", "", ArgType::Kwarg, ScalarType::Str, Collection::Vec, None),
        ],
    );
    let b = build(
        "t",
        "",
        vec![
            Arg::new("y", "other", ArgType::Kwarg, ScalarType::Str, Collection::Vec, None),
            Arg::new("x", "", ArgType::Kwarg, ScalarType::U64, Collection::Unit, Some(Value::U64(9))),
        ],
    );
    assert_eq!(a, b);
    let c = build(
        "t",
        "",
        vec![
            Arg::new("x", "", ArgType::Kwarg, ScalarType::U64, Collection::Unit, None),
            Arg::new("y", "", ArgType::Kwarg, ScalarType::Str, Collection::Vec, None),
        ],
    );
    assert_ne!(a, c);
    let d = build("t", "", vec![Arg::new("x", "", ArgType::Arg, ScalarType::U64, Collection::Unit, None)]);
    let e = build("t", "", vec![Arg::new("x", "", ArgType::Arg, ScalarType::I64, Collection::Unit, None)]);
    assert_ne!(d, e);
}

#[test]
fn parse_lowered_uses_the_given_lower_case_forms() {
    let cmd = schema_a(true);
    let raw = tokens(&["TEST", "Bar", "IntArg", "2", "FLOATARG", "1.5"]);
    let low = tokens(&["test", "bar", "intarg", "2", "floatarg", "1.5"]);
    let keys = tokens(&["uintarg", "intarg", "floatarg"]);
    let name = "test".to_owned();
    let mut parsed = cmd.parse_lowered(&raw, &low, &name, &keys).unwrap();
    assert_eq!(parsed.remove("required").unwrap().as_string().unwrap(), "Bar".to_owned());
    assert_eq!(parsed.remove("intarg").unwrap().as_i64().unwrap(), 2);
    let err = cmd.parse_lowered(&raw, &raw, &name, &keys).unwrap_err();
    assert_eq!(err, CmdError::NameMismatch("TEST".to_owned()));
}

#[test]
fn schema_names_with_capitals_match_in_any_case() {
    let mut cmd = Command::new("Test", "");
    cmd.add_arg(Arg::new("first", "", ArgType::Arg, ScalarType::Str, Collection::Unit, None));
    cmd.add_arg(Arg::new("intArg", "", ArgType::Kwarg, ScalarType::I64, Collection::Unit, None));
    let mut parsed = cmd.parse_args(tokens(&["TEST", "x", "INTARG", "5"])).unwrap();
    assert_eq!(parsed.remove("intArg").unwrap().as_i64().unwrap(), 5);
    let mut parsed = cmd.parse_args(tokens(&["test", "y", "intarg", "6"])).unwrap();
    assert_eq!(parsed.remove("intArg").unwrap().as_i64().unwrap(), 6);
    let err = cmd.parse_args(tokens(&["tests", "y"])).unwrap_err();
    assert_eq!(err, CmdError::NameMismatch("tests".to_owned()));
}

#[test]
fn bound_names_are_listed_in_binding_order() {
    let cmd = schema_a(true);
    let parsed = cmd.parse_args(tokens(&["test", "bar", "floatarg", "1", "intarg", "2"])).unwrap();
    assert_eq!(parsed.names(), tokens(&["required", "floatarg", "intarg", "optional", "uintarg"]));
}
