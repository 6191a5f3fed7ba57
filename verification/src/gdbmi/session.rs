//! The GDB/MI commands that the debugger uses: the text of each command,
//! and how the result record that answers it is read.
//!
//! Sending a command and waiting for the answer is left to the caller; the
//! functions here build the command line and decode the reply.

use super::grammar::{parse_gdbmi_record, spec_async_exec_class, spec_parse_record, spec_result_class};
use super::parsing::{
    agrees, local_variables_view, lookup, spec_child_list, spec_var_object, stack_frames_view,
    sv_decimal, sv_local_variable_list, sv_stack_trace, sv_string, sv_symbol_query_result,
    sv_tuple, sv_varobj_changelist, symbol_files_view, varobj_updates_view,
};
use super::raw_output::{
    opt_str_view, AsyncExecClass, Record, ResultClass, ResultRecord, ResultTuple, SpecEntry, SpecRecord, SpecValue, Value,
};
use super::result::{BadResponse, Error, ErrorResponse, SpecBadResponse, SpecError};
use super::types::{
    ChildList, LocalVariable, PrintValues, SpecChildList, SpecLocalVariable, SpecStackFrame,
    SpecSymbolFile, SpecVariableObjectData, SpecVariableObjectUpdate, StackFrame, SymbolFile,
    VariableObject, VariableObjectData, VariableObjectFrameContext, VariableObjectUpdate,
};
use crate::text::{push_str, string_from_chars};
use vstd::prelude::*;

verus! {

// ------------------------------------------------------------------
// Command text
// ------------------------------------------------------------------

/// The decimal digit for a number below ten.
pub open spec fn digit_char(d: int) -> char {
    if d == 0 {
        '0'
    } else if d == 1 {
        '1'
    } else if d == 2 {
        '2'
    } else if d == 3 {
        '3'
    } else if d == 4 {
        '4'
    } else if d == 5 {
        '5'
    } else if d == 6 {
        '6'
    } else if d == 7 {
        '7'
    } else if d == 8 {
        '8'
    } else {
        '9'
    }
}

/// Decimal representation of a natural number, without leading zeros.
pub open spec fn decimal_text(n: nat) -> Seq<char>
    decreases n,
{
    if n < 10 {
        seq![digit_char(n as int)]
    } else {
        decimal_text(n / 10).push(digit_char((n % 10) as int))
    }
}

fn digit_char_exec(d: u64) -> (c: char)
    requires
        d < 10,
    ensures
        c == digit_char(d as int),
{
    if d == 0 {
        '0'
    } else if d == 1 {
        '1'
    } else if d == 2 {
        '2'
    } else if d == 3 {
        '3'
    } else if d == 4 {
        '4'
    } else if d == 5 {
        '5'
    } else if d == 6 {
        '6'
    } else if d == 7 {
        '7'
    } else if d == 8 {
        '8'
    } else {
        '9'
    }
}

/// Appends the decimal representation of a number.
pub(crate) fn push_decimal(out: &mut Vec<char>, n: u64)
    ensures
        final(out)@ == old(out)@ + decimal_text(n as nat),
    decreases n,
{
    if n >= 10 {
        push_decimal(out, n / 10);
    }
    out.push(digit_char_exec(n % 10));
    proof {
        if n < 10 {
            assert(final(out)@ =~= old(out)@ + decimal_text(n as nat)) by {
                assert(decimal_text(n as nat) == seq![digit_char(n as int)]);
            }
        }
    }
}

/// Text of a print-values argument.
pub open spec fn print_values_text(p: PrintValues) -> Seq<char> {
    match p {
        PrintValues::NoValues => "0"@,
        PrintValues::AllValues => "1"@,
        PrintValues::SimpleValues => "2"@,
    }
}

/// Text of a frame argument of `-var-create`.
pub open spec fn frame_context_text(f: VariableObjectFrameContext) -> Seq<char> {
    match f {
        VariableObjectFrameContext::Frame(i) => decimal_text(i as nat),
        VariableObjectFrameContext::CurrentFrame => "*"@,
        VariableObjectFrameContext::Floating => "@"@,
    }
}

fn push_print_values(out: &mut Vec<char>, p: &PrintValues)
    ensures
        final(out)@ == old(out)@ + print_values_text(*p),
{
    match p {
        PrintValues::NoValues => push_str(out, "0"),
        PrintValues::AllValues => push_str(out, "1"),
        PrintValues::SimpleValues => push_str(out, "2"),
    }
}

/// `-symbol-info-variables`
pub fn symbol_info_variables_command() -> (r: String)
    ensures
        r@ == "-symbol-info-variables"@,
{
    String::from_str("-symbol-info-variables")
}

/// `-symbol-info-functions`
pub fn symbol_info_functions_command() -> (r: String)
    ensures
        r@ == "-symbol-info-functions"@,
{
    String::from_str("-symbol-info-functions")
}

/// `-stack-info-depth`
pub fn stack_info_depth_command() -> (r: String)
    ensures
        r@ == "-stack-info-depth"@,
{
    String::from_str("-stack-info-depth")
}

/// `-stack-select-frame <frame>`
pub fn stack_select_frame_command(target_frame: usize) -> (r: String)
    ensures
        r@ == "-stack-select-frame "@ + decimal_text(target_frame as nat),
{
    let mut out: Vec<char> = Vec::new();
    push_str(&mut out, "-stack-select-frame ");
    push_decimal(&mut out, target_frame as u64);
    string_from_chars(&out)
}

/// `-stack-list-frames`
pub fn stack_list_frames_command() -> (r: String)
    ensures
        r@ == "-stack-list-frames"@,
{
    String::from_str("-stack-list-frames")
}

/// `-stack-list-frames <start> <end>`
pub fn stack_list_frames_bounded_command(start: usize, end: usize) -> (r: String)
    ensures
        r@ == "-stack-list-frames "@ + decimal_text(start as nat) + " "@ + decimal_text(end as nat),
{
    let mut out: Vec<char> = Vec::new();
    push_str(&mut out, "-stack-list-frames ");
    push_decimal(&mut out, start as u64);
    push_str(&mut out, " ");
    push_decimal(&mut out, end as u64);
    string_from_chars(&out)
}

/// `-stack-list-variables [--skip-unavailable] <print-values>`; without the
/// option its place stays empty, so two spaces separate the command from the argument.
pub fn stack_list_variables_command(print_values: PrintValues, skip_unavailable: bool) -> (r: String)
    ensures
        r@ == "-stack-list-variables "@ + (if skip_unavailable {
            "--skip-unavailable"@
        } else {
            ""@
        }) + " "@ + print_values_text(print_values),
{
    let mut out: Vec<char> = Vec::new();
    push_str(&mut out, "-stack-list-variables ");
    if skip_unavailable {
        push_str(&mut out, "--skip-unavailable");
    } else {
        push_str(&mut out, "");
    }
    push_str(&mut out, " ");
    push_print_values(&mut out, &print_values);
    string_from_chars(&out)
}

/// `-var-create - <frame> <expression>`
pub fn var_create_command(frame: VariableObjectFrameContext, expression: &str) -> (r: String)
    ensures
        r@ == "-var-create - "@ + frame_context_text(frame) + " "@ + expression@,
{
    let mut out: Vec<char> = Vec::new();
    push_str(&mut out, "-var-create - ");
    match frame {
        VariableObjectFrameContext::Frame(i) => push_decimal(&mut out, i as u64),
        VariableObjectFrameContext::CurrentFrame => push_str(&mut out, "*"),
        VariableObjectFrameContext::Floating => push_str(&mut out, "@"),
    }
    push_str(&mut out, " ");
    push_str(&mut out, expression);
    string_from_chars(&out)
}

/// `-var-delete <object>`
pub fn var_delete_command(object: &VariableObject) -> (r: String)
    ensures
        r@ == "-var-delete "@ + object.0@,
{
    let mut out: Vec<char> = Vec::new();
    push_str(&mut out, "-var-delete ");
    push_str(&mut out, object.0.as_str());
    string_from_chars(&out)
}

/// `-var-evaluate-expression <object>`
pub fn var_evaluate_expression_command(object: &VariableObject) -> (r: String)
    ensures
        r@ == "-var-evaluate-expression "@ + object.0@,
{
    let mut out: Vec<char> = Vec::new();
    push_str(&mut out, "-var-evaluate-expression ");
    push_str(&mut out, object.0.as_str());
    string_from_chars(&out)
}

/// `-var-list-children <print-values> <object>`
pub fn var_list_children_command(object: &VariableObject, print_values: PrintValues) -> (r: String)
    ensures
        r@ == "-var-list-children "@ + print_values_text(print_values) + " "@ + object.0@,
{
    let mut out: Vec<char> = Vec::new();
    push_str(&mut out, "-var-list-children ");
    push_print_values(&mut out, &print_values);
    push_str(&mut out, " ");
    push_str(&mut out, object.0.as_str());
    string_from_chars(&out)
}

/// `-var-update <print-values> *`
pub fn var_update_command(print_values: PrintValues) -> (r: String)
    ensures
        r@ == "-var-update "@ + print_values_text(print_values) + " *"@,
{
    let mut out: Vec<char> = Vec::new();
    push_str(&mut out, "-var-update ");
    push_print_values(&mut out, &print_values);
    push_str(&mut out, " *");
    string_from_chars(&out)
}

/// `-data-evaluate-expression <expression>`
pub fn data_evaluate_expression_command(expression: &str) -> (r: String)
    ensures
        r@ == "-data-evaluate-expression "@ + expression@,
{
    let mut out: Vec<char> = Vec::new();
    push_str(&mut out, "-data-evaluate-expression ");
    push_str(&mut out, expression);
    string_from_chars(&out)
}

// ------------------------------------------------------------------
// Reading answers
// ------------------------------------------------------------------

/// Name of a result class, as GDB writes it.
pub open spec fn result_class_name(c: ResultClass) -> Seq<char> {
    match c {
        ResultClass::Done => "done"@,
        ResultClass::Running => "running"@,
        ResultClass::Connected => "connected"@,
        ResultClass::Error => "error"@,
        ResultClass::Exit => "exit"@,
    }
}

/// The message of an error record: its `msg` field, if that is a string.
pub open spec fn error_message(t: Seq<SpecEntry>) -> Option<Seq<char>> {
    match lookup(t, "msg"@) {
        Some(SpecValue::Const(s)) => Some(s),
        _ => None,
    }
}

/// The payload of a result record that must be `done` (or its alias `running`):
/// an `error` record is an error response, any other class is unexpected.
pub open spec fn sp_done_or_running(c: ResultClass, t: Seq<SpecEntry>) -> Result<
    Seq<SpecEntry>,
    SpecError,
> {
    match c {
        ResultClass::Error => Err(SpecError::ErrorResponse(error_message(t))),
        ResultClass::Done => Ok(t),
        ResultClass::Running => Ok(t),
        _ => Err(SpecError::BadResponse(SpecBadResponse::UnexpectedResultClass(result_class_name(c)))),
    }
}

/// A field of a tuple that was read, or the error that reading it gave.
pub open spec fn sp_field(r: Result<Seq<SpecEntry>, SpecError>, key: Seq<char>) -> Result<
    SpecValue,
    SpecError,
> {
    match r {
        Ok(p) => match lookup(p, key) {
            Some(v) => Ok(v),
            None => Err(SpecError::BadResponse(SpecBadResponse::MissingKey(key))),
        },
        Err(e) => Err(e),
    }
}

/// A field of the payload of a `done` record.
pub open spec fn sp_payload_field(c: ResultClass, t: Seq<SpecEntry>, key: Seq<char>) -> Result<
    SpecValue,
    SpecError,
> {
    sp_field(sp_done_or_running(c, t), key)
}

/// A payload field read by a value reader.
pub open spec fn sp_read<T>(
    field: Result<SpecValue, SpecError>,
    read: spec_fn(SpecValue) -> Result<T, SpecBadResponse>,
) -> Result<T, SpecError> {
    match field {
        Ok(v) => match read(v) {
            Ok(x) => Ok(x),
            Err(e) => Err(SpecError::BadResponse(e)),
        },
        Err(e) => Err(e),
    }
}

/// The payload of a `done` record read by a tuple reader.
pub open spec fn sp_read_payload<T>(
    c: ResultClass,
    t: Seq<SpecEntry>,
    read: spec_fn(Seq<SpecEntry>) -> Result<T, SpecBadResponse>,
) -> Result<T, SpecError> {
    match sp_done_or_running(c, t) {
        Ok(p) => match read(p) {
            Ok(x) => Ok(x),
            Err(e) => Err(SpecError::BadResponse(e)),
        },
        Err(e) => Err(e),
    }
}

/// True if an executable result agrees with its model under a view function.
pub open spec fn answers<T, V>(r: Result<T, Error>, s: Result<V, SpecError>, view: spec_fn(T) -> V) -> bool {
    match r {
        Ok(x) => s == Ok::<V, SpecError>(view(x)),
        Err(e) => s == Err::<V, SpecError>(e@),
    }
}

/// The name of an async execution class.
pub open spec fn async_exec_class_name(c: AsyncExecClass) -> Seq<char> {
    match c {
        AsyncExecClass::Running => "running"@,
        AsyncExecClass::Stopped => "stopped"@,
    }
}

impl ResultClass {
    /// The name of the class, as GDB writes it.
    pub fn name(&self) -> (r: String)
        ensures
            r@ == result_class_name(*self),
    {
        match self {
            ResultClass::Done => String::from_str("done"),
            ResultClass::Running => String::from_str("running"),
            ResultClass::Connected => String::from_str("connected"),
            ResultClass::Error => String::from_str("error"),
            ResultClass::Exit => String::from_str("exit"),
        }
    }
}

impl AsyncExecClass {
    /// The name of the class, as GDB writes it.
    pub fn name(&self) -> (r: String)
        ensures
            r@ == async_exec_class_name(*self),
    {
        match self {
            AsyncExecClass::Running => String::from_str("running"),
            AsyncExecClass::Stopped => String::from_str("stopped"),
        }
    }
}

/// Reading the name of a class gives the class back.
pub proof fn lemma_class_names_read_back(c: ResultClass, a: AsyncExecClass)
    ensures
        spec_result_class(result_class_name(c)) == Some(c),
        spec_async_exec_class(async_exec_class_name(a)) == Some(a),
{
    reveal_strlit("done");
    reveal_strlit("running");
    reveal_strlit("connected");
    reveal_strlit("error");
    reveal_strlit("exit");
    reveal_strlit("stopped");
    assert("done"@ =~= seq!['d', 'o', 'n', 'e']);
    assert("running"@ =~= seq!['r', 'u', 'n', 'n', 'i', 'n', 'g']);
    assert("connected"@ =~= seq!['c', 'o', 'n', 'n', 'e', 'c', 't', 'e', 'd']);
    assert("error"@ =~= seq!['e', 'r', 'r', 'o', 'r']);
    assert("exit"@ =~= seq!['e', 'x', 'i', 't']);
    assert("stopped"@ =~= seq!['s', 't', 'o', 'p', 'p', 'e', 'd']);
}

impl ResultRecord {
    /// The payload of a record that answers a command that was carried out:
    /// one of class `done` or `running`. An `error` record becomes an error
    /// response with its message; any other class is unexpected.
    pub fn must_be_done_or_running(self) -> (r: Result<ResultTuple, Error>)
        ensures
            answers(r, sp_done_or_running(self.result_class, self.results@), |t: ResultTuple| t@),
    {
        let mut results = self.results;
        if self.result_class == ResultClass::Error {
            let msg = match results.take("msg") {
                Ok(v) => match v.string() {
                    Ok(s) => Some(s),
                    Err(_) => None,
                },
                Err(_) => None,
            };
            return Err(Error::ErrorResponse(ErrorResponse { msg }));
        }
        if self.result_class != ResultClass::Done && self.result_class != ResultClass::Running {
            return Err(
                Error::BadResponse(
                    BadResponse::UnexpectedResultClass(self.result_class.name()),
                ),
            );
        }
        Ok(results)
    }
}

/// A field of the payload of a `done` record.
fn payload_field(record: ResultRecord, key: &str) -> (r: Result<Value, Error>)
    ensures
        answers(r, sp_payload_field(record.result_class, record.results@, key@), |v: Value| v@),
{
    match record.must_be_done_or_running() {
        Ok(mut t) => match t.take(key) {
            Ok(v) => Ok(v),
            Err(e) => Err(Error::BadResponse(e)),
        },
        Err(e) => Err(e),
    }
}

/// Reads the answer to a command as a record: it must be a result record.
pub fn result_record_of_output(output: String) -> (r: Result<ResultRecord, Error>)
    ensures
        match spec_parse_record(output@) {
            Some(SpecRecord::Result { token, result_class, results }) => r matches Ok(rec)
                && Record::Result(rec)@ == spec_parse_record(output@).unwrap() && opt_str_view(rec.token) == token
                && rec.result_class == result_class && rec.results@ == results,
            _ => r matches Err(Error::BadResponse(BadResponse::SyntaxError(s))) && s@ == output@,
        },
{
    match parse_gdbmi_record(output.as_str()) {
        Ok(Record::Result(r)) => Ok(r),
        _ => Err(Error::BadResponse(BadResponse::SyntaxError(output))),
    }
}

/// Reads the answer to `-symbol-info-variables` or `-symbol-info-functions`:
/// the `debug` field of the `symbols` tuple, as a symbol query result.
pub fn symbol_info_response(record: ResultRecord) -> (r: Result<Vec<SymbolFile>, Error>)
    ensures
        answers(
            r,
            sp_read(
                sp_field(
                    sp_read(
                        sp_payload_field(record.result_class, record.results@, "symbols"@),
                        |v| sv_tuple(v),
                    ),
                    "debug"@,
                ),
                |v| sv_symbol_query_result(v),
            ),
            |l: Vec<SymbolFile>| symbol_files_view(l@),
        ),
{
    let symbols = match payload_field(record, "symbols") {
        Ok(v) => v,
        Err(e) => return Err(e),
    };
    let mut t = match symbols.tuple() {
        Ok(t) => t,
        Err(e) => return Err(Error::BadResponse(e)),
    };
    let debug = match t.take("debug") {
        Ok(v) => v,
        Err(e) => return Err(Error::BadResponse(e)),
    };
    match debug.symbol_query_result() {
        Ok(l) => Ok(l),
        Err(e) => Err(Error::BadResponse(e)),
    }
}

/// Reads the answer to `-stack-info-depth`: the `depth` field as a number.
pub fn stack_info_depth_response(record: ResultRecord) -> (r: Result<usize, Error>)
    ensures
        answers(
            r,
            sp_read(
                sp_payload_field(record.result_class, record.results@, "depth"@),
                |v| sv_decimal(v, usize::MAX as int),
            ),
            |n: usize| n as int,
        ),
{
    match payload_field(record, "depth") {
        Ok(v) => match v.decimal_usize() {
            Ok(n) => Ok(n),
            Err(e) => Err(Error::BadResponse(e)),
        },
        Err(e) => Err(e),
    }
}

/// Reads the answer to a command that returns nothing, such as
/// `-stack-select-frame` or `-var-delete`.
pub fn empty_response(record: ResultRecord) -> (r: Result<(), Error>)
    ensures
        answers(
            r,
            sp_read_payload(record.result_class, record.results@, |t| Ok::<(), SpecBadResponse>(())),
            |u: ()| u,
        ),
{
    match record.must_be_done_or_running() {
        Ok(_) => Ok(()),
        Err(e) => Err(e),
    }
}

/// Reads the answer to `-stack-list-frames`: the `stack` field as a stack trace.
pub fn stack_list_frames_response(record: ResultRecord) -> (r: Result<Vec<StackFrame>, Error>)
    ensures
        answers(
            r,
            sp_read(
                sp_payload_field(record.result_class, record.results@, "stack"@),
                |v| sv_stack_trace(v),
            ),
            |l: Vec<StackFrame>| stack_frames_view(l@),
        ),
{
    match payload_field(record, "stack") {
        Ok(v) => match v.stack_trace() {
            Ok(l) => Ok(l),
            Err(e) => Err(Error::BadResponse(e)),
        },
        Err(e) => Err(e),
    }
}

/// Reads the answer to `-stack-list-variables`: the `variables` field as local variables.
pub fn stack_list_variables_response(record: ResultRecord) -> (r: Result<Vec<LocalVariable>, Error>)
    ensures
        answers(
            r,
            sp_read(
                sp_payload_field(record.result_class, record.results@, "variables"@),
                |v| sv_local_variable_list(v),
            ),
            |l: Vec<LocalVariable>| local_variables_view(l@),
        ),
{
    match payload_field(record, "variables") {
        Ok(v) => match v.local_variable_list() {
            Ok(l) => Ok(l),
            Err(e) => Err(Error::BadResponse(e)),
        },
        Err(e) => Err(e),
    }
}

/// Reads the answer to `-var-create`: the payload as a variable object.
pub fn var_create_response(record: ResultRecord) -> (r: Result<VariableObjectData, Error>)
    ensures
        answers(
            r,
            sp_read_payload(record.result_class, record.results@, |t| spec_var_object(t)),
            |d: VariableObjectData| d@,
        ),
{
    match record.must_be_done_or_running() {
        Ok(t) => match t.var_object() {
            Ok(d) => Ok(d),
            Err(e) => Err(Error::BadResponse(e)),
        },
        Err(e) => Err(e),
    }
}

/// Reads the answer to `-var-evaluate-expression` or `-data-evaluate-expression`:
/// the `value` field as a string.
pub fn value_response(record: ResultRecord) -> (r: Result<String, Error>)
    ensures
        answers(
            r,
            sp_read(sp_payload_field(record.result_class, record.results@, "value"@), |v| sv_string(v)),
            |s: String| s@,
        ),
{
    match payload_field(record, "value") {
        Ok(v) => match v.string() {
            Ok(s) => Ok(s),
            Err(e) => Err(Error::BadResponse(e)),
        },
        Err(e) => Err(e),
    }
}

/// Reads the answer to `-var-list-children`: the payload as a child list.
pub fn var_list_children_response(record: ResultRecord) -> (r: Result<ChildList, Error>)
    ensures
        answers(
            r,
            sp_read_payload(record.result_class, record.results@, |t| spec_child_list(t)),
            |c: ChildList| c@,
        ),
{
    match record.must_be_done_or_running() {
        Ok(t) => match t.child_list() {
            Ok(c) => Ok(c),
            Err(e) => Err(Error::BadResponse(e)),
        },
        Err(e) => Err(e),
    }
}

/// Reads the answer to `-var-update`: the `changelist` field as updates.
pub fn var_update_response(record: ResultRecord) -> (r: Result<Vec<VariableObjectUpdate>, Error>)
    ensures
        answers(
            r,
            sp_read(
                sp_payload_field(record.result_class, record.results@, "changelist"@),
                |v| sv_varobj_changelist(v),
            ),
            |l: Vec<VariableObjectUpdate>| varobj_updates_view(l@),
        ),
{
    match payload_field(record, "changelist") {
        Ok(v) => match v.varobj_changelist() {
            Ok(l) => Ok(l),
            Err(e) => Err(Error::BadResponse(e)),
        },
        Err(e) => Err(e),
    }
}

} // verus!
