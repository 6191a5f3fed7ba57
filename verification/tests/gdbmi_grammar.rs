use aili::gdbmi::grammar::parse_gdbmi_record;
use aili::gdbmi::raw_output::{
    AsyncExecClass, AsyncExecRecord, Record, ResultClass, ResultEntry, ResultRecord, ResultTuple,
    Value,
};

fn entry(key: &str, value: Value) -> ResultEntry {
    ResultEntry {
        key: key.to_owned(),
        value,
    }
}

#[test]
fn result_record_with_no_data() {
    let result = parse_gdbmi_record("^done\r\n").expect("Input should have parsed successfully");
    let expected = Record::Result(ResultRecord {
        token: None,
        result_class: ResultClass::Done,
        results: ResultTuple(Vec::new()),
    });
    assert_eq!(result, expected);
}

#[test]
fn result_record_different_class() {
    let result = parse_gdbmi_record("^exit\r\n").expect("Input should have parsed successfully");
    let expected = Record::Result(ResultRecord {
        token: None,
        result_class: ResultClass::Exit,
        results: ResultTuple(Vec::new()),
    });
    assert_eq!(result, expected);
}

#[test]
fn result_record_invalid_class() {
    parse_gdbmi_record("^none\r\n").expect_err("Input should not have parsed");
}

#[test]
fn result_record_with_token() {
    let result =
        parse_gdbmi_record("123^done\r\n").expect("Input should have parsed successfully");
    let expected = Record::Result(ResultRecord {
        token: Some("123".to_owned()),
        result_class: ResultClass::Done,
        results: ResultTuple(Vec::new()),
    });
    assert_eq!(result, expected);
}

#[test]
fn result_record_with_value() {
    let result = parse_gdbmi_record("^done,value=\"1\"\r\n")
        .expect("Input should have parsed successfully");
    let expected = Record::Result(ResultRecord {
        token: None,
        result_class: ResultClass::Done,
        results: ResultTuple(vec![entry("value", Value::Const("1".to_owned()))]),
    });
    assert_eq!(result, expected);
}

#[test]
fn result_record_with_tuples() {
    let result = parse_gdbmi_record("^done,a={},b={a=\"1\",b=\"2\"}")
        .expect("Input should have parsed successfully");
    let expected = Record::Result(ResultRecord {
        token: None,
        result_class: ResultClass::Done,
        results: ResultTuple(vec![
            entry("a", Value::Tuple(ResultTuple(Vec::new()))),
            entry(
                "b",
                Value::Tuple(ResultTuple(vec![
                    entry("a", Value::Const("1".to_owned())),
                    entry("b", Value::Const("2".to_owned())),
                ])),
            ),
        ]),
    });
    assert_eq!(result, expected);
}

#[test]
fn result_record_with_lists() {
    let result = parse_gdbmi_record("^done,a=[],b=[\"1\",\"2\"],c=[a=\"1\",b=\"2\"]")
        .expect("Input should have parsed successfully");
    let expected = Record::Result(ResultRecord {
        token: None,
        result_class: ResultClass::Done,
        results: ResultTuple(vec![
            entry("a", Value::List(Vec::new())),
            entry(
                "b",
                Value::List(vec![
                    Value::Const("1".to_owned()),
                    Value::Const("2".to_owned()),
                ]),
            ),
            entry(
                "c",
                Value::TupleList(ResultTuple(vec![
                    entry("a", Value::Const("1".to_owned())),
                    entry("b", Value::Const("2".to_owned())),
                ])),
            ),
        ]),
    });
    assert_eq!(result, expected);
}

#[test]
fn escape_sequences() {
    let result = parse_gdbmi_record(r#"^done,value="\\\"\n\12\123\x0\x42\0\\""#)
        .expect("Input should have parsed successfully");
    let expected = Record::Result(ResultRecord {
        token: None,
        result_class: ResultClass::Done,
        results: ResultTuple(vec![entry(
            "value",
            Value::Const("\\\"\n\x0a\x53\0\x42\0\\".to_owned()),
        )]),
    });
    assert_eq!(result, expected);
}

#[test]
fn async_exec_record() {
    let result = parse_gdbmi_record(r#"*stopped,reason="breakpoint""#)
        .expect("Input should have parsed successfully");
    let expected = Record::AsyncExec(AsyncExecRecord {
        async_exec_class: AsyncExecClass::Stopped,
        results: ResultTuple(vec![entry("reason", Value::Const("breakpoint".to_owned()))]),
    });
    assert_eq!(result, expected);
}

#[test]
fn gdbmi_rejects_whitespace_and_double_line_ends() {
    assert!(parse_gdbmi_record("^done, value=\"1\"").is_err());
    assert!(parse_gdbmi_record("^done\n\n").is_err());
    assert!(parse_gdbmi_record("^done\r").is_ok());
    assert!(parse_gdbmi_record("^done\n").is_ok());
}

#[test]
fn gdbmi_rejects_bad_escapes_and_unterminated_strings() {
    assert!(parse_gdbmi_record(r#"^done,a="\q""#).is_err());
    assert!(parse_gdbmi_record(r#"^done,a="\x""#).is_err());
    assert!(parse_gdbmi_record(r#"^done,a="\xff""#).is_err());
    assert!(parse_gdbmi_record(r#"^done,a="\777""#).is_err());
    assert!(parse_gdbmi_record(r#"^done,a="abc"#).is_err());
}

#[test]
fn gdbmi_async_running_and_trailing_comma() {
    let result = parse_gdbmi_record("*running,thread-id=\"all\"").unwrap();
    assert_eq!(
        result,
        Record::AsyncExec(AsyncExecRecord {
            async_exec_class: AsyncExecClass::Running,
            results: ResultTuple(vec![entry("thread-id", Value::Const("all".to_owned()))]),
        })
    );
    assert!(parse_gdbmi_record("^done,").is_err());
    assert!(parse_gdbmi_record("*done").is_err());
}

#[test]
fn result_class_from_str_names() {
    assert_eq!(ResultClass::from_str("connected").unwrap(), ResultClass::Connected);
    assert_eq!(ResultClass::from_str("error").unwrap(), ResultClass::Error);
    assert_eq!(ResultClass::from_str("bogus").unwrap_err().0, "bogus");
    assert_eq!(AsyncExecClass::from_str("running").unwrap(), AsyncExecClass::Running);
}
