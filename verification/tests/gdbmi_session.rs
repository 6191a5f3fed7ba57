use aili::gdbmi::raw_output::{AsyncExecClass, ResultClass};
use aili::gdbmi::result::{BadResponse, Error};
use aili::gdbmi::session::{
    data_evaluate_expression_command, empty_response, result_record_of_output,
    stack_info_depth_response, stack_list_frames_bounded_command, stack_list_frames_response,
    stack_list_variables_command, stack_list_variables_response, stack_select_frame_command,
    symbol_info_response, value_response, var_create_command, var_create_response,
    var_delete_command, var_list_children_command, var_list_children_response,
    var_update_command, var_update_response,
};
use aili::gdbmi::types::{PrintValues, VariableObject, VariableObjectFrameContext};

fn record(text: &str) -> aili::gdbmi::raw_output::ResultRecord {
    result_record_of_output(text.to_owned()).expect("the answer should be a result record")
}

#[test]
fn command_texts() {
    assert_eq!(stack_select_frame_command(12), "-stack-select-frame 12");
    assert_eq!(stack_select_frame_command(0), "-stack-select-frame 0");
    assert_eq!(
        stack_list_frames_bounded_command(3, 105),
        "-stack-list-frames 3 105"
    );
    assert_eq!(
        stack_list_variables_command(PrintValues::NoValues, false),
        "-stack-list-variables  0"
    );
    assert_eq!(
        stack_list_variables_command(PrintValues::SimpleValues, true),
        "-stack-list-variables --skip-unavailable 2"
    );
    assert_eq!(
        var_create_command(VariableObjectFrameContext::CurrentFrame, "x"),
        "-var-create - * x"
    );
    assert_eq!(
        var_create_command(VariableObjectFrameContext::Frame(7), "::g"),
        "-var-create - 7 ::g"
    );
    assert_eq!(
        var_create_command(VariableObjectFrameContext::Floating, "*(int*)4096"),
        "-var-create - @ *(int*)4096"
    );
    let object = VariableObject("var1".to_owned());
    assert_eq!(var_delete_command(&object), "-var-delete var1");
    assert_eq!(
        var_list_children_command(&object, PrintValues::AllValues),
        "-var-list-children 1 var1"
    );
    assert_eq!(var_update_command(PrintValues::SimpleValues), "-var-update 2 *");
    assert_eq!(
        data_evaluate_expression_command("*(char*)16"),
        "-data-evaluate-expression *(char*)16"
    );
}

#[test]
fn answer_must_be_a_result_record() {
    let output = "*stopped,reason=\"exited\"".to_owned();
    match result_record_of_output(output) {
        Err(Error::BadResponse(BadResponse::SyntaxError(s))) => {
            assert_eq!(s, "*stopped,reason=\"exited\"")
        }
        other => panic!("unexpected {other:?}"),
    }
    assert!(matches!(
        result_record_of_output("garbage".to_owned()),
        Err(Error::BadResponse(BadResponse::SyntaxError(_)))
    ));
}

#[test]
fn depth_is_read_from_done_record() {
    assert_eq!(
        stack_info_depth_response(record("^done,depth=\"3\"")).unwrap(),
        3
    );
    assert!(matches!(
        stack_info_depth_response(record("^done,depth=\"x\"")),
        Err(Error::BadResponse(BadResponse::BadValue(v))) if v == "x"
    ));
    assert!(matches!(
        stack_info_depth_response(record("^done")),
        Err(Error::BadResponse(BadResponse::MissingKey(k))) if k == "depth"
    ));
}

#[test]
fn error_record_is_an_error_response() {
    match stack_info_depth_response(record("^error,msg=\"No stack.\"")) {
        Err(Error::ErrorResponse(e)) => {
            assert_eq!(e.msg.as_deref(), Some("No stack."));
            assert_eq!(e.description(), "No stack.");
        }
        other => panic!("unexpected {other:?}"),
    }
    match empty_response(record("^error")) {
        Err(Error::ErrorResponse(e)) => {
            assert_eq!(e.msg, None);
            assert_eq!(e.description(), "(no description provided)");
        }
        other => panic!("unexpected {other:?}"),
    }
}

#[test]
fn other_result_classes_are_unexpected() {
    assert!(matches!(
        empty_response(record("^connected")),
        Err(Error::BadResponse(BadResponse::UnexpectedResultClass(c))) if c == "connected"
    ));
    assert!(matches!(
        empty_response(record("^exit")),
        Err(Error::BadResponse(BadResponse::UnexpectedResultClass(c))) if c == "exit"
    ));
    assert!(empty_response(record("^running")).is_ok());
    assert!(empty_response(record("^done,x=\"1\"")).is_ok());
}

#[test]
fn stack_frames_are_read() {
    let frames = stack_list_frames_response(record(
        "^done,stack=[frame={level=\"0\",addr=\"0x0000555555555131\",func=\"main\",file=\"a.c\",fullname=\"/tmp/a.c\",line=\"3\",arch=\"i386:x86-64\"}]",
    ))
    .unwrap();
    assert_eq!(frames.len(), 1);
    assert_eq!(frames[0].func, "main");
    assert_eq!(frames[0].level, 0);
    assert_eq!(frames[0].addr, 0x555555555131);
    assert_eq!(frames[0].line, 3);
}

#[test]
fn local_variables_are_read() {
    let locals = stack_list_variables_response(record(
        "^done,variables=[{name=\"x\"},{name=\"y\",arg=\"1\",value=\"2\"}]",
    ))
    .unwrap();
    assert_eq!(locals.len(), 2);
    assert_eq!(locals[0].name, "x");
    assert!(!locals[0].arg);
    assert_eq!(locals[1].value.as_deref(), Some("2"));
    assert!(locals[1].arg);
}

#[test]
fn variable_object_is_read() {
    let data = var_create_response(record(
        "^done,name=\"var1\",numchild=\"0\",value=\"5\",type=\"int\",thread-id=\"1\",has_more=\"0\"",
    ))
    .unwrap();
    assert_eq!(data.object, VariableObject("var1".to_owned()));
    assert_eq!(data.value.as_deref(), Some("5"));
    assert_eq!(data.type_string, "int");
    assert_eq!(data.numchild, 0);
}

#[test]
fn values_children_and_updates_are_read() {
    assert_eq!(
        value_response(record("^done,value=\"42 '*'\"")).unwrap(),
        "42 '*'"
    );
    let children = var_list_children_response(record(
        "^done,numchild=\"1\",children=[child={name=\"var1.a\",exp=\"a\",numchild=\"0\",type=\"int\",thread-id=\"1\"}],has_more=\"0\"",
    ))
    .unwrap();
    assert_eq!(children.numchild, 1);
    assert_eq!(children.children.len(), 1);
    assert_eq!(children.children[0].exp, "a");
    let updates = var_update_response(record(
        "^done,changelist=[{name=\"var1\",value=\"6\",in_scope=\"true\",type_changed=\"false\",has_more=\"0\"}]",
    ))
    .unwrap();
    assert_eq!(updates.len(), 1);
    assert_eq!(updates[0].object, VariableObject("var1".to_owned()));
    assert_eq!(updates[0].value.as_deref(), Some("6"));
}

#[test]
fn symbol_query_is_read() {
    let files = symbol_info_response(record(
        "^done,symbols={debug=[{filename=\"a.c\",fullname=\"/tmp/a.c\",symbols=[{line=\"1\",name=\"g\",type=\"int\",description=\"int g;\"}]}]}",
    ))
    .unwrap();
    assert_eq!(files.len(), 1);
    assert_eq!(files[0].symbols.len(), 1);
    assert_eq!(files[0].symbols[0].name, "g");
    assert!(matches!(
        symbol_info_response(record("^done,symbols={}")),
        Err(Error::BadResponse(BadResponse::MissingKey(k))) if k == "debug"
    ));
}

#[test]
fn error_messages_name_the_failure() {
    assert_eq!(
        Error::BadResponse(BadResponse::SyntaxError("^done,\"x".to_owned())).message(),
        "gdb returned unexpected response: failed to parse record: \"^done,\\\"x\""
    );
    assert_eq!(
        Error::BadResponse(BadResponse::MissingKey("value".to_owned())).message(),
        "gdb returned unexpected response: missing property: value"
    );
    assert_eq!(
        Error::IOError("broken pipe".to_owned()).message(),
        "io error: broken pipe"
    );
    assert_eq!(
        Error::ErrorResponse(aili::gdbmi::result::ErrorResponse { msg: None }).message(),
        "error response from gdb: (no description provided)"
    );
}

#[test]
fn class_names_read_back() {
    for c in [
        ResultClass::Done,
        ResultClass::Running,
        ResultClass::Connected,
        ResultClass::Error,
        ResultClass::Exit,
    ] {
        assert_eq!(ResultClass::from_str(&c.name()).unwrap(), c);
    }
    assert_eq!(ResultClass::Connected.name(), "connected");
    for a in [AsyncExecClass::Running, AsyncExecClass::Stopped] {
        assert_eq!(AsyncExecClass::from_str(&a.name()).unwrap(), a);
    }
    assert_eq!(AsyncExecClass::Stopped.name(), "stopped");
}

#[test]
fn result_record_keeps_its_token() {
    let with_token = record("42^running");
    assert_eq!(with_token.token, Some("42".to_owned()));
    assert_eq!(with_token.result_class, ResultClass::Running);
    let without_token = record("^done");
    assert_eq!(without_token.token, None);
    assert_eq!(without_token.result_class, ResultClass::Done);
}
