//! Reading [`raw_output`](super::raw_output) payloads as [`types`](super::types).
//!
//! Fields of a tuple are looked up by name; the first entry with a name is the
//! one that counts. A decoder reports the first field (in the order in which the
//! fields are listed) that is missing or malformed.

use super::raw_output::{
    ResultEntry, ResultTuple, SpecEntry, SpecValue, Value, entries_view, lemma_entries_view_len,
    lemma_values_view_len, values_view,
};
use super::result::{BadResponse, SpecBadResponse};
use super::types::{
    ChildList, ChildVariableObject, InScope, LocalVariable, SpecChildList,
    SpecChildVariableObject, SpecLocalVariable, SpecStackFrame, SpecSymbol, SpecSymbolFile,
    SpecVariableObjectData, SpecVariableObjectUpdate, StackFrame, Symbol, SymbolFile, children_view,
    opt_view, symbols_view,
    VariableObject, VariableObjectData, VariableObjectUpdate,
};
use crate::text::{chars_of, parse_unsigned_range, spec_parse_unsigned, str_eq};
use vstd::prelude::*;

verus! {

// ------------------------------------------------------------------
// Specification
// ------------------------------------------------------------------

/// Index of the first entry named `key`.
pub open spec fn key_index(t: Seq<SpecEntry>, key: Seq<char>) -> Option<int>
    decreases t.len(),
{
    if t.len() == 0 {
        None
    } else if t[0].key == key {
        Some(0)
    } else {
        match key_index(t.skip(1), key) {
            Some(i) => Some(i + 1),
            None => None,
        }
    }
}

/// Value of the first entry named `key`.
pub open spec fn lookup(t: Seq<SpecEntry>, key: Seq<char>) -> Option<SpecValue> {
    match key_index(t, key) {
        Some(i) => Some(t[i].value),
        None => None,
    }
}

/// A value read as a string.
pub open spec fn sv_string(v: SpecValue) -> Result<Seq<char>, SpecBadResponse> {
    match v {
        SpecValue::Const(s) => Ok(s),
        _ => Err(SpecBadResponse::BadValueType),
    }
}

/// A value read as a tuple (a tuple list counts as a tuple).
pub open spec fn sv_tuple(v: SpecValue) -> Result<Seq<SpecEntry>, SpecBadResponse> {
    match v {
        SpecValue::Tuple(t) => Ok(t),
        SpecValue::TupleList(t) => Ok(t),
        _ => Err(SpecBadResponse::BadValueType),
    }
}

/// A value read as a list.
pub open spec fn sv_list(v: SpecValue) -> Result<Seq<SpecValue>, SpecBadResponse> {
    match v {
        SpecValue::List(l) => Ok(l),
        _ => Err(SpecBadResponse::BadValueType),
    }
}

/// A value read as a decimal number no larger than `max`.
pub open spec fn sv_decimal(v: SpecValue, max: int) -> Result<int, SpecBadResponse> {
    match sv_string(v) {
        Ok(s) => match spec_parse_unsigned(s, 10, max) {
            Some(n) => Ok(n),
            None => Err(SpecBadResponse::BadValue(s)),
        },
        Err(e) => Err(e),
    }
}

/// A value read as a `0x`-prefixed hexadecimal address.
pub open spec fn sv_hex(v: SpecValue) -> Result<u64, SpecBadResponse> {
    match sv_string(v) {
        Ok(s) => if s.len() >= 2 && s[0] == '0' && s[1] == 'x' && spec_parse_unsigned(
            s.skip(2),
            16,
            u64::MAX as int,
        ) is Some {
            Ok(spec_parse_unsigned(s.skip(2), 16, u64::MAX as int)->0 as u64)
        } else {
            Err(SpecBadResponse::BadValue(s))
        },
        Err(e) => Err(e),
    }
}

/// A value read as the flag `"0"` or `"1"`.
pub open spec fn sv_zero_or_one(v: SpecValue) -> Result<bool, SpecBadResponse> {
    match sv_string(v) {
        Ok(s) => if s == seq!['0'] {
            Ok(false)
        } else if s == seq!['1'] {
            Ok(true)
        } else {
            Err(SpecBadResponse::BadValue(s))
        },
        Err(e) => Err(e),
    }
}

/// A value read as a scope flag; unknown words mean [`InScope::Other`].
pub open spec fn sv_in_scope(v: SpecValue) -> Result<InScope, SpecBadResponse> {
    match sv_string(v) {
        Ok(s) => if s == "true"@ {
            Ok(InScope::True)
        } else if s == "false"@ {
            Ok(InScope::False)
        } else if s == "invalid"@ {
            Ok(InScope::Invalid)
        } else {
            Ok(InScope::Other)
        },
        Err(e) => Err(e),
    }
}

/// A required field.
pub open spec fn sf(t: Seq<SpecEntry>, key: Seq<char>) -> Result<SpecValue, SpecBadResponse> {
    match lookup(t, key) {
        Some(v) => Ok(v),
        None => Err(SpecBadResponse::MissingKey(key)),
    }
}

/// A required string field.
pub open spec fn sf_string(t: Seq<SpecEntry>, key: Seq<char>) -> Result<Seq<char>, SpecBadResponse> {
    match sf(t, key) {
        Ok(v) => sv_string(v),
        Err(e) => Err(e),
    }
}

/// A required decimal field no larger than `max`.
pub open spec fn sf_decimal(t: Seq<SpecEntry>, key: Seq<char>, max: int) -> Result<
    int,
    SpecBadResponse,
> {
    match sf(t, key) {
        Ok(v) => sv_decimal(v, max),
        Err(e) => Err(e),
    }
}

/// An optional string field.
pub open spec fn sf_opt_string(t: Seq<SpecEntry>, key: Seq<char>) -> Result<
    Option<Seq<char>>,
    SpecBadResponse,
> {
    match lookup(t, key) {
        Some(v) => match sv_string(v) {
            Ok(s) => Ok(Some(s)),
            Err(e) => Err(e),
        },
        None => Ok(None),
    }
}

/// An optional decimal field no larger than `max`.
pub open spec fn sf_opt_decimal(t: Seq<SpecEntry>, key: Seq<char>, max: int) -> Result<
    Option<int>,
    SpecBadResponse,
> {
    match lookup(t, key) {
        Some(v) => match sv_decimal(v, max) {
            Ok(n) => Ok(Some(n)),
            Err(e) => Err(e),
        },
        None => Ok(None),
    }
}

/// An optional `0`/`1` flag field that is false when absent.
pub open spec fn sf_flag(t: Seq<SpecEntry>, key: Seq<char>) -> Result<bool, SpecBadResponse> {
    match lookup(t, key) {
        Some(v) => sv_zero_or_one(v),
        None => Ok(false),
    }
}

/// Applies a decoder to every value of a list, stopping at the first error.
pub open spec fn map_all<T>(l: Seq<SpecValue>, f: spec_fn(SpecValue) -> Result<T, SpecBadResponse>) -> Result<
    Seq<T>,
    SpecBadResponse,
>
    decreases l.len(),
{
    if l.len() == 0 {
        Ok(Seq::empty())
    } else {
        match f(l[0]) {
            Ok(x) => match map_all(l.skip(1), f) {
                Ok(rest) => Ok(seq![x] + rest),
                Err(e) => Err(e),
            },
            Err(e) => Err(e),
        }
    }
}

/// Applies a decoder to the values of the entries named `key`, stopping at the first error.
pub open spec fn map_named<T>(
    l: Seq<SpecEntry>,
    key: Seq<char>,
    f: spec_fn(SpecValue) -> Result<T, SpecBadResponse>,
) -> Result<Seq<T>, SpecBadResponse>
    decreases l.len(),
{
    if l.len() == 0 {
        Ok(Seq::empty())
    } else if l[0].key == key {
        match f(l[0].value) {
            Ok(x) => match map_named(l.skip(1), key, f) {
                Ok(rest) => Ok(seq![x] + rest),
                Err(e) => Err(e),
            },
            Err(e) => Err(e),
        }
    } else {
        map_named(l.skip(1), key, f)
    }
}

/// A symbol read from its tuple: fields `line`, `name`, `type`, `description`.
pub open spec fn spec_symbol(t: Seq<SpecEntry>) -> Result<SpecSymbol, SpecBadResponse> {
    match sf_decimal(t, "line"@, u64::MAX as int) {
        Err(e) => Err(e),
        Ok(line) => match sf_string(t, "name"@) {
            Err(e) => Err(e),
            Ok(name) => match sf_string(t, "type"@) {
                Err(e) => Err(e),
                Ok(type_string) => match sf_string(t, "description"@) {
                    Err(e) => Err(e),
                    Ok(description) => Ok(
                        SpecSymbol { line: line as u64, name, type_string, description },
                    ),
                },
            },
        },
    }
}

/// A value read as a symbol tuple.
pub open spec fn sv_symbol(v: SpecValue) -> Result<SpecSymbol, SpecBadResponse> {
    match sv_tuple(v) {
        Ok(t) => spec_symbol(t),
        Err(e) => Err(e),
    }
}

/// Values read as symbols.
pub open spec fn sv_symbols(l: Seq<SpecValue>) -> Result<Seq<SpecSymbol>, SpecBadResponse> {
    map_all(l, |x: SpecValue| sv_symbol(x))
}

/// A value read as a list of symbols.
pub open spec fn sv_symbol_list(v: SpecValue) -> Result<Seq<SpecSymbol>, SpecBadResponse> {
    match sv_list(v) {
        Ok(l) => sv_symbols(l),
        Err(e) => Err(e),
    }
}

/// A symbol file read from its tuple: fields `filename`, `fullname`, `symbols`.
pub open spec fn spec_symbol_file(t: Seq<SpecEntry>) -> Result<SpecSymbolFile, SpecBadResponse> {
    match sf_string(t, "filename"@) {
        Err(e) => Err(e),
        Ok(filename) => match sf_string(t, "fullname"@) {
            Err(e) => Err(e),
            Ok(fullname) => match sf(t, "symbols"@) {
                Err(e) => Err(e),
                Ok(v) => match sv_symbol_list(v) {
                    Err(e) => Err(e),
                    Ok(symbols) => Ok(SpecSymbolFile { filename, fullname, symbols }),
                },
            },
        },
    }
}

/// A value read as a symbol file tuple.
pub open spec fn sv_symbol_file(v: SpecValue) -> Result<SpecSymbolFile, SpecBadResponse> {
    match sv_tuple(v) {
        Ok(t) => spec_symbol_file(t),
        Err(e) => Err(e),
    }
}

/// Values read as symbol files.
pub open spec fn sv_symbol_files(l: Seq<SpecValue>) -> Result<Seq<SpecSymbolFile>, SpecBadResponse> {
    map_all(l, |x: SpecValue| sv_symbol_file(x))
}

/// A value read as the list of files of a symbol query.
pub open spec fn sv_symbol_query_result(v: SpecValue) -> Result<
    Seq<SpecSymbolFile>,
    SpecBadResponse,
> {
    match sv_list(v) {
        Ok(l) => sv_symbol_files(l),
        Err(e) => Err(e),
    }
}

/// A stack frame read from its tuple: `level`, `addr`, `func`, `file`,
/// `fullname`, `line`, optional `from`, and `arch`.
pub open spec fn spec_stack_frame(t: Seq<SpecEntry>) -> Result<SpecStackFrame, SpecBadResponse> {
    match sf_decimal(t, "level"@, usize::MAX as int) {
        Err(e) => Err(e),
        Ok(level) => match sf(t, "addr"@) {
            Err(e) => Err(e),
            Ok(addr_v) => match sv_hex(addr_v) {
                Err(e) => Err(e),
                Ok(addr) => match sf_string(t, "func"@) {
                    Err(e) => Err(e),
                    Ok(func) => match sf_string(t, "file"@) {
                        Err(e) => Err(e),
                        Ok(file) => match sf_string(t, "fullname"@) {
                            Err(e) => Err(e),
                            Ok(fullname) => match sf_decimal(t, "line"@, u64::MAX as int) {
                                Err(e) => Err(e),
                                Ok(line) => match sf_opt_string(t, "from"@) {
                                    Err(e) => Err(e),
                                    Ok(from) => match sf_string(t, "arch"@) {
                                        Err(e) => Err(e),
                                        Ok(arch) => Ok(
                                            SpecStackFrame {
                                                level: level as usize,
                                                addr,
                                                func,
                                                file,
                                                fullname,
                                                line: line as u64,
                                                from,
                                                arch,
                                            },
                                        ),
                                    },
                                },
                            },
                        },
                    },
                },
            },
        },
    }
}

/// A value read as a stack frame tuple.
pub open spec fn sv_stack_frame(v: SpecValue) -> Result<SpecStackFrame, SpecBadResponse> {
    match sv_tuple(v) {
        Ok(t) => spec_stack_frame(t),
        Err(e) => Err(e),
    }
}

/// The `frame` entries of a tuple read as stack frames.
pub open spec fn sv_frames(t: Seq<SpecEntry>) -> Result<Seq<SpecStackFrame>, SpecBadResponse> {
    map_named(t, "frame"@, |x: SpecValue| sv_stack_frame(x))
}

/// A value read as a stack trace: the `frame` entries of a tuple.
pub open spec fn sv_stack_trace(v: SpecValue) -> Result<Seq<SpecStackFrame>, SpecBadResponse> {
    match sv_tuple(v) {
        Ok(t) => sv_frames(t),
        Err(e) => Err(e),
    }
}

/// A local variable read from its tuple: `name`, optional flag `arg`, optional `value`.
pub open spec fn spec_local_variable(t: Seq<SpecEntry>) -> Result<
    SpecLocalVariable,
    SpecBadResponse,
> {
    match sf_string(t, "name"@) {
        Err(e) => Err(e),
        Ok(name) => match sf_flag(t, "arg"@) {
            Err(e) => Err(e),
            Ok(arg) => match sf_opt_string(t, "value"@) {
                Err(e) => Err(e),
                Ok(value) => Ok(SpecLocalVariable { name, arg, value }),
            },
        },
    }
}

/// A value read as a local variable tuple.
pub open spec fn sv_local_variable(v: SpecValue) -> Result<SpecLocalVariable, SpecBadResponse> {
    match sv_tuple(v) {
        Ok(t) => spec_local_variable(t),
        Err(e) => Err(e),
    }
}

/// Values read as local variables.
pub open spec fn sv_local_variables(l: Seq<SpecValue>) -> Result<Seq<SpecLocalVariable>, SpecBadResponse> {
    map_all(l, |x: SpecValue| sv_local_variable(x))
}

/// A value read as a list of local variables.
pub open spec fn sv_local_variable_list(v: SpecValue) -> Result<
    Seq<SpecLocalVariable>,
    SpecBadResponse,
> {
    match sv_list(v) {
        Ok(l) => sv_local_variables(l),
        Err(e) => Err(e),
    }
}

/// A variable object read from its tuple: `name`, `numchild`, optional `value`,
/// `type`, optional flags `has_more` and `dynamic`, optional `thread-id`.
pub open spec fn spec_var_object(t: Seq<SpecEntry>) -> Result<
    SpecVariableObjectData,
    SpecBadResponse,
> {
    match sf_string(t, "name"@) {
        Err(e) => Err(e),
        Ok(object) => match sf_decimal(t, "numchild"@, usize::MAX as int) {
            Err(e) => Err(e),
            Ok(numchild) => match sf_opt_string(t, "value"@) {
                Err(e) => Err(e),
                Ok(value) => match sf_string(t, "type"@) {
                    Err(e) => Err(e),
                    Ok(type_string) => match sf_flag(t, "has_more"@) {
                        Err(e) => Err(e),
                        Ok(has_more) => match sf_flag(t, "dynamic"@) {
                            Err(e) => Err(e),
                            Ok(dynamic) => match sf_opt_string(t, "thread-id"@) {
                                Err(e) => Err(e),
                                Ok(thread_id) => Ok(
                                    SpecVariableObjectData {
                                        object,
                                        value,
                                        type_string,
                                        numchild: numchild as usize,
                                        dynamic,
                                        has_more,
                                        thread_id,
                                    },
                                ),
                            },
                        },
                    },
                },
            },
        },
    }
}

/// A child variable object read from its tuple: `exp` and then the variable object fields.
pub open spec fn spec_child_varobj(t: Seq<SpecEntry>) -> Result<
    SpecChildVariableObject,
    SpecBadResponse,
> {
    match sf_string(t, "exp"@) {
        Err(e) => Err(e),
        Ok(exp) => match spec_var_object(t) {
            Err(e) => Err(e),
            Ok(variable_object) => Ok(SpecChildVariableObject { variable_object, exp }),
        },
    }
}

/// A value read as a child variable object tuple.
pub open spec fn sv_child_varobj(v: SpecValue) -> Result<SpecChildVariableObject, SpecBadResponse> {
    match sv_tuple(v) {
        Ok(t) => spec_child_varobj(t),
        Err(e) => Err(e),
    }
}

/// The `child` entries of a tuple read as child variable objects.
pub open spec fn sv_children(t: Seq<SpecEntry>) -> Result<Seq<SpecChildVariableObject>, SpecBadResponse> {
    map_named(t, "child"@, |x: SpecValue| sv_child_varobj(x))
}

/// A value read as the `child` entries of a tuple.
pub open spec fn sv_child_list_inner(v: SpecValue) -> Result<
    Seq<SpecChildVariableObject>,
    SpecBadResponse,
> {
    match sv_tuple(v) {
        Ok(t) => sv_children(t),
        Err(e) => Err(e),
    }
}

/// A variable object update read from its tuple.
pub open spec fn spec_varobj_update(t: Seq<SpecEntry>) -> Result<
    SpecVariableObjectUpdate,
    SpecBadResponse,
> {
    match sf_string(t, "name"@) {
        Err(e) => Err(e),
        Ok(object) => match sf_opt_string(t, "value"@) {
            Err(e) => Err(e),
            Ok(value) => match sf(t, "in_scope"@) {
                Err(e) => Err(e),
                Ok(scope_v) => match sv_in_scope(scope_v) {
                    Err(e) => Err(e),
                    Ok(in_scope) => match sf_opt_string(t, "new_type_name"@) {
                        Err(e) => Err(e),
                        Ok(new_type_string) => match sf_opt_decimal(
                            t,
                            "new_num_children"@,
                            usize::MAX as int,
                        ) {
                            Err(e) => Err(e),
                            Ok(new_num_children) => match sf_flag(t, "has_more"@) {
                                Err(e) => Err(e),
                                Ok(has_more) => match sf_flag(t, "dynamic"@) {
                                    Err(e) => Err(e),
                                    Ok(dynamic) => match lookup(t, "new_children"@) {
                                        Some(nc) => match sv_child_list_inner(nc) {
                                            Err(e) => Err(e),
                                            Ok(new_children) => Ok(
                                                SpecVariableObjectUpdate {
                                                    object,
                                                    value,
                                                    in_scope,
                                                    new_type_string,
                                                    new_num_children: match new_num_children {
                                                        Some(n) => Some(n as usize),
                                                        None => None,
                                                    },
                                                    has_more,
                                                    dynamic,
                                                    new_children,
                                                },
                                            ),
                                        },
                                        None => Ok(
                                            SpecVariableObjectUpdate {
                                                object,
                                                value,
                                                in_scope,
                                                new_type_string,
                                                new_num_children: match new_num_children {
                                                    Some(n) => Some(n as usize),
                                                    None => None,
                                                },
                                                has_more,
                                                dynamic,
                                                new_children: Seq::empty(),
                                            },
                                        ),
                                    },
                                },
                            },
                        },
                    },
                },
            },
        },
    }
}

/// A value read as a variable object update tuple.
pub open spec fn sv_varobj_update(v: SpecValue) -> Result<SpecVariableObjectUpdate, SpecBadResponse> {
    match sv_tuple(v) {
        Ok(t) => spec_varobj_update(t),
        Err(e) => Err(e),
    }
}

/// Values read as variable object updates.
pub open spec fn sv_varobj_updates(l: Seq<SpecValue>) -> Result<
    Seq<SpecVariableObjectUpdate>,
    SpecBadResponse,
> {
    map_all(l, |x: SpecValue| sv_varobj_update(x))
}

/// A value read as a list of variable object updates.
pub open spec fn sv_varobj_changelist(v: SpecValue) -> Result<
    Seq<SpecVariableObjectUpdate>,
    SpecBadResponse,
> {
    match sv_list(v) {
        Ok(l) => sv_varobj_updates(l),
        Err(e) => Err(e),
    }
}

/// A child list read from its tuple: `numchild`, optional flag `has_more`, `children`.
pub open spec fn spec_child_list(t: Seq<SpecEntry>) -> Result<SpecChildList, SpecBadResponse> {
    match sf_decimal(t, "numchild"@, usize::MAX as int) {
        Err(e) => Err(e),
        Ok(numchild) => match sf_flag(t, "has_more"@) {
            Err(e) => Err(e),
            Ok(has_more) => match sf(t, "children"@) {
                Err(e) => Err(e),
                Ok(cv) => match sv_child_list_inner(cv) {
                    Err(e) => Err(e),
                    Ok(children) => Ok(
                        SpecChildList { numchild: numchild as usize, has_more, children },
                    ),
                },
            },
        },
    }
}

/// Models of a sequence of symbol files.
pub open spec fn symbol_files_view(l: Seq<SymbolFile>) -> Seq<SpecSymbolFile> {
    l.map_values(|x: SymbolFile| x@)
}

/// Models of a sequence of local variables.
pub open spec fn local_variables_view(l: Seq<LocalVariable>) -> Seq<SpecLocalVariable> {
    l.map_values(|x: LocalVariable| x@)
}

/// Models of a sequence of stack frames.
pub open spec fn stack_frames_view(l: Seq<StackFrame>) -> Seq<SpecStackFrame> {
    l.map_values(|x: StackFrame| x@)
}

/// Models of a sequence of variable object updates.
pub open spec fn varobj_updates_view(l: Seq<VariableObjectUpdate>) -> Seq<SpecVariableObjectUpdate> {
    l.map_values(|x: VariableObjectUpdate| x@)
}

// ------------------------------------------------------------------
// Executable decoders
// ------------------------------------------------------------------

/// True if the executable result and the modelled result agree.
pub open spec fn agrees<T: View>(r: Result<T, BadResponse>, s: Result<T::V, SpecBadResponse>) -> bool {
    match r {
        Ok(x) => s == Ok::<T::V, SpecBadResponse>(x@),
        Err(e) => s == Err::<T::V, SpecBadResponse>(e@),
    }
}

/// True if the executable result and the modelled result agree, for optional strings.
pub open spec fn agrees_opt_str(
    r: Result<Option<String>, BadResponse>,
    s: Result<Option<Seq<char>>, SpecBadResponse>,
) -> bool {
    match r {
        Ok(x) => s == Ok::<Option<Seq<char>>, SpecBadResponse>(opt_view(x)),
        Err(e) => s == Err::<Option<Seq<char>>, SpecBadResponse>(e@),
    }
}

proof fn lemma_key_index(t: Seq<SpecEntry>, key: Seq<char>, i: int)
    requires
        0 <= i <= t.len(),
        forall|j: int| 0 <= j < i ==> t[j].key != key,
    ensures
        i < t.len() && t[i].key == key ==> key_index(t, key) == Some(i),
        i == t.len() ==> key_index(t, key) is None,
    decreases i,
{
    if i > 0 {
        let u = t.skip(1);
        assert forall|j: int| 0 <= j < i - 1 implies u[j].key != key by {
            assert(u[j] == t[j + 1]);
        }
        lemma_key_index(u, key, i - 1);
        if i < t.len() {
            assert(u[i - 1] == t[i]);
        }
    }
}

proof fn lemma_key_index_bounds(t: Seq<SpecEntry>, key: Seq<char>)
    ensures
        key_index(t, key) matches Some(i) ==> 0 <= i < t.len() && t[i].key == key,
    decreases t.len(),
{
    if t.len() > 0 {
        lemma_key_index_bounds(t.skip(1), key);
    }
}

/// Index of the first entry named `key`.
fn find_key(t: &ResultTuple, key: &str) -> (r: Option<usize>)
    ensures
        r matches Some(i) ==> key_index(t@, key@) == Some(i as int) && i < t.0.len(),
        r is None ==> key_index(t@, key@) is None,
{
    proof {
        lemma_entries_view_len(t.0@);
    }
    let mut i: usize = 0;
    while i < t.0.len()
        invariant
            i <= t.0.len(),
            t@.len() == t.0.len(),
            forall|j: int| 0 <= j < t.0.len() ==> #[trigger] t@[j] == t.0@[j]@,
            forall|j: int| 0 <= j < i ==> t@[j].key != key@,
        decreases t.0.len() - i,
    {
        if str_eq(t.0[i].key.as_str(), key) {
            proof {
                lemma_key_index(t@, key@, i as int);
            }
            return Some(i);
        }
        i += 1;
    }
    proof {
        lemma_key_index(t@, key@, i as int);
    }
    None
}

/// Removing an entry removes its model.
proof fn lemma_entries_view_remove(l: Seq<ResultEntry>, i: int)
    requires
        0 <= i < l.len(),
    ensures
        entries_view(l.remove(i)) == entries_view(l).remove(i),
{
    lemma_entries_view_len(l);
    lemma_entries_view_len(l.remove(i));
    assert(entries_view(l.remove(i)) =~= entries_view(l).remove(i));
}

/// The value of the first field named `key`, borrowed.
fn field<'a>(t: &'a ResultTuple, key: &str) -> (r: Option<&'a Value>)
    ensures
        r matches Some(v) ==> lookup(t@, key@) == Some(v@),
        r is None ==> lookup(t@, key@) is None,
{
    proof {
        lemma_entries_view_len(t.0@);
    }
    match find_key(t, key) {
        Some(i) => Some(&t.0[i].value),
        None => None,
    }
}

impl ResultTuple {
    /// Extracts a named field from a tuple if it is present.
    ///
    /// The first entry with the name is removed and its value returned.
    pub fn take_optional(&mut self, key: &str) -> (r: Option<Value>)
        ensures
            match key_index(old(self)@, key@) {
                Some(i) => r == Some(old(self).0@[i].value) && final(self).0@ == old(self).0@.remove(
                    i,
                ) && final(self)@ == old(self)@.remove(i),
                None => r is None && final(self).0@ == old(self).0@,
            },
            r matches Some(v) ==> lookup(old(self)@, key@) == Some(v@),
            r is None ==> lookup(old(self)@, key@) is None,
    {
        proof {
            lemma_entries_view_len(self.0@);
            lemma_key_index_bounds(self@, key@);
        }
        match find_key(self, key) {
            Some(i) => {
                proof {
                    lemma_entries_view_remove(self.0@, i as int);
                }
                let e = self.0.remove(i);
                Some(e.value)
            },
            None => None,
        }
    }

    /// Extracts a named field from a tuple if it is present, returning an error otherwise.
    pub fn take(&mut self, key: &str) -> (r: Result<Value, BadResponse>)
        ensures
            match key_index(old(self)@, key@) {
                Some(i) => r == Ok::<Value, BadResponse>(old(self).0@[i].value) && final(self).0@
                    == old(self).0@.remove(i) && final(self)@ == old(self)@.remove(i),
                None => r matches Err(BadResponse::MissingKey(k)) && k@ == key@ && final(self).0@
                    == old(self).0@,
            },
            r matches Ok(v) ==> lookup(old(self)@, key@) == Some(v@),
            r is Err ==> lookup(old(self)@, key@) is None,
    {
        match self.take_optional(key) {
            Some(v) => Ok(v),
            None => Err(BadResponse::MissingKey(key.to_owned())),
        }
    }
}

fn str_of(v: &Value) -> (r: Result<String, BadResponse>)
    ensures
        agrees(r, sv_string(v@)),
{
    match v {
        Value::Const(s) => Ok(s.clone()),
        _ => Err(BadResponse::BadValueType),
    }
}

fn tuple_of(v: &Value) -> (r: Result<&ResultTuple, BadResponse>)
    ensures
        r matches Ok(t) ==> sv_tuple(v@) == Ok::<Seq<SpecEntry>, SpecBadResponse>(t@),
        r matches Err(e) ==> sv_tuple(v@) == Err::<Seq<SpecEntry>, SpecBadResponse>(e@),
{
    match v {
        Value::Tuple(t) => Ok(t),
        Value::TupleList(t) => Ok(t),
        _ => Err(BadResponse::BadValueType),
    }
}

fn list_of(v: &Value) -> (r: Result<&Vec<Value>, BadResponse>)
    ensures
        r matches Ok(l) ==> sv_list(v@) == Ok::<Seq<SpecValue>, SpecBadResponse>(values_view(l@)),
        r matches Err(e) ==> sv_list(v@) == Err::<Seq<SpecValue>, SpecBadResponse>(e@),
{
    match v {
        Value::List(l) => Ok(l),
        _ => Err(BadResponse::BadValueType),
    }
}

fn decimal_of(v: &Value, max: u64) -> (r: Result<u64, BadResponse>)
    ensures
        r matches Ok(n) ==> sv_decimal(v@, max as int) == Ok::<int, SpecBadResponse>(n as int),
        r matches Err(e) ==> sv_decimal(v@, max as int) == Err::<int, SpecBadResponse>(e@),
{
    let s = str_of(v)?;
    let c = chars_of(s.as_str());
    assert(c@.subrange(0, c@.len() as int) =~= s@);
    match parse_unsigned_range(&c, 0, c.len(), 10, max) {
        Some(n) => Ok(n),
        None => Err(BadResponse::BadValue(s)),
    }
}

fn hex_of(v: &Value) -> (r: Result<u64, BadResponse>)
    ensures
        agrees(r, sv_hex(v@)),
{
    let s = str_of(v)?;
    let c = chars_of(s.as_str());
    if c.len() >= 2 && c[0] == '0' && c[1] == 'x' {
        assert(s@.skip(2) =~= c@.subrange(2, c@.len() as int));
        match parse_unsigned_range(&c, 2, c.len(), 16, u64::MAX) {
            Some(n) => Ok(n),
            None => Err(BadResponse::BadValue(s)),
        }
    } else {
        Err(BadResponse::BadValue(s))
    }
}

fn zero_or_one_of(v: &Value) -> (r: Result<bool, BadResponse>)
    ensures
        agrees(r, sv_zero_or_one(v@)),
{
    let s = str_of(v)?;
    proof {
        reveal_strlit("0");
        reveal_strlit("1");
        assert("0"@ =~= seq!['0']);
        assert("1"@ =~= seq!['1']);
    }
    if str_eq(s.as_str(), "0") {
        Ok(false)
    } else if str_eq(s.as_str(), "1") {
        Ok(true)
    } else {
        Err(BadResponse::BadValue(s))
    }
}

fn in_scope_of(v: &Value) -> (r: Result<InScope, BadResponse>)
    ensures
        r matches Ok(x) ==> sv_in_scope(v@) == Ok::<InScope, SpecBadResponse>(x),
        r matches Err(e) ==> sv_in_scope(v@) == Err::<InScope, SpecBadResponse>(e@),
{
    let s = str_of(v)?;
    if str_eq(s.as_str(), "true") {
        Ok(InScope::True)
    } else if str_eq(s.as_str(), "false") {
        Ok(InScope::False)
    } else if str_eq(s.as_str(), "invalid") {
        Ok(InScope::Invalid)
    } else {
        Ok(InScope::Other)
    }
}

fn req_field<'a>(t: &'a ResultTuple, key: &str) -> (r: Result<&'a Value, BadResponse>)
    ensures
        r matches Ok(v) ==> sf(t@, key@) == Ok::<SpecValue, SpecBadResponse>(v@),
        r matches Err(e) ==> sf(t@, key@) == Err::<SpecValue, SpecBadResponse>(e@),
{
    match field(t, key) {
        Some(v) => Ok(v),
        None => Err(BadResponse::MissingKey(key.to_owned())),
    }
}

fn string_field(t: &ResultTuple, key: &str) -> (r: Result<String, BadResponse>)
    ensures
        agrees(r, sf_string(t@, key@)),
{
    let v = req_field(t, key)?;
    str_of(v)
}

fn decimal_field(t: &ResultTuple, key: &str, max: u64) -> (r: Result<u64, BadResponse>)
    ensures
        r matches Ok(n) ==> sf_decimal(t@, key@, max as int) == Ok::<int, SpecBadResponse>(
            n as int,
        ),
        r matches Err(e) ==> sf_decimal(t@, key@, max as int) == Err::<int, SpecBadResponse>(e@),
{
    let v = req_field(t, key)?;
    decimal_of(v, max)
}

fn opt_string_field(t: &ResultTuple, key: &str) -> (r: Result<Option<String>, BadResponse>)
    ensures
        agrees_opt_str(r, sf_opt_string(t@, key@)),
{
    match field(t, key) {
        Some(v) => {
            let s = str_of(v)?;
            Ok(Some(s))
        },
        None => Ok(None),
    }
}

fn opt_decimal_field(t: &ResultTuple, key: &str, max: u64) -> (r: Result<Option<u64>, BadResponse>)
    ensures
        r matches Ok(x) ==> sf_opt_decimal(t@, key@, max as int) == Ok::<
            Option<int>,
            SpecBadResponse,
        >(
            match x {
                Some(n) => Some(n as int),
                None => None,
            },
        ),
        r matches Err(e) ==> sf_opt_decimal(t@, key@, max as int) == Err::<
            Option<int>,
            SpecBadResponse,
        >(e@),
{
    match field(t, key) {
        Some(v) => {
            let n = decimal_of(v, max)?;
            Ok(Some(n))
        },
        None => Ok(None),
    }
}

fn flag_field(t: &ResultTuple, key: &str) -> (r: Result<bool, BadResponse>)
    ensures
        agrees(r, sf_flag(t@, key@)),
{
    match field(t, key) {
        Some(v) => zero_or_one_of(v),
        None => Ok(false),
    }
}

fn decode_symbol(t: &ResultTuple) -> (r: Result<Symbol, BadResponse>)
    ensures
        agrees(r, spec_symbol(t@)),
{
    let line = decimal_field(t, "line", u64::MAX)?;
    let name = string_field(t, "name")?;
    let type_string = string_field(t, "type")?;
    let description = string_field(t, "description")?;
    Ok(Symbol { line, name, type_string, description })
}

fn decode_value_symbol(v: &Value) -> (r: Result<Symbol, BadResponse>)
    ensures
        agrees(r, sv_symbol(v@)),
{
    let t = tuple_of(v)?;
    decode_symbol(t)
}

fn decode_symbol_list(v: &Value) -> (r: Result<Vec<Symbol>, BadResponse>)
    ensures
        r matches Ok(l) ==> sv_symbol_list(v@) == Ok::<Seq<SpecSymbol>, SpecBadResponse>(
            symbols_view(l@),
        ),
        r matches Err(e) ==> sv_symbol_list(v@) == Err::<Seq<SpecSymbol>, SpecBadResponse>(e@),
{
    let l = list_of(v)?;
    let ghost vv = values_view(l@);
    proof {
        lemma_values_view_len(l@);
        assert(vv.skip(0) =~= vv);
    }
    let mut out: Vec<Symbol> = Vec::new();
    let mut i: usize = 0;
    while i < l.len()
        invariant
            i <= l.len(),
            vv.len() == l.len(),
            forall|j: int| 0 <= j < l.len() ==> #[trigger] vv[j] == l@[j]@,
            sv_symbol_list(v@) == sv_symbols(vv),
            sv_symbols(vv.skip(i as int)) matches Ok(rest) ==> sv_symbols(vv) == Ok::<
                Seq<SpecSymbol>,
                SpecBadResponse,
            >(symbols_view(out@) + rest),
            sv_symbols(vv.skip(i as int)) matches Err(e) ==> sv_symbols(vv) == Err::<
                Seq<SpecSymbol>,
                SpecBadResponse,
            >(e),
        decreases l.len() - i,
    {
        let ghost old_out = out@;
        assert(vv.skip(i as int)[0] == vv[i as int]);
        assert(vv.skip(i as int).skip(1) =~= vv.skip(i + 1));
        let x = match decode_value_symbol(&l[i]) {
            Ok(x) => x,
            Err(e) => {
                assert(sv_symbols(vv.skip(i as int)) == Err::<Seq<SpecSymbol>, SpecBadResponse>(
                    e@,
                ));
                return Err(e);
            },
        };
        out.push(x);
        proof {
            assert(symbols_view(out@) =~= symbols_view(old_out).push(
                x@,
            ));
            if let Ok(rest) = sv_symbols(vv.skip(i + 1)) {
                assert(symbols_view(old_out) + (seq![x@] + rest) =~= symbols_view(out@) + rest);
            }
        }
        i += 1;
    }
    proof {
        assert(vv.skip(i as int) =~= Seq::<SpecValue>::empty());
        assert(symbols_view(out@) + Seq::<SpecSymbol>::empty() =~= symbols_view(out@));
    }
    Ok(out)
}

fn decode_symbol_query_result(v: &Value) -> (r: Result<Vec<SymbolFile>, BadResponse>)
    ensures
        r matches Ok(l) ==> sv_symbol_query_result(v@) == Ok::<Seq<SpecSymbolFile>, SpecBadResponse>(
            symbol_files_view(l@),
        ),
        r matches Err(e) ==> sv_symbol_query_result(v@) == Err::<Seq<SpecSymbolFile>, SpecBadResponse>(e@),
{
    let l = list_of(v)?;
    let ghost vv = values_view(l@);
    proof {
        lemma_values_view_len(l@);
        assert(vv.skip(0) =~= vv);
    }
    let mut out: Vec<SymbolFile> = Vec::new();
    let mut i: usize = 0;
    while i < l.len()
        invariant
            i <= l.len(),
            vv.len() == l.len(),
            forall|j: int| 0 <= j < l.len() ==> #[trigger] vv[j] == l@[j]@,
            sv_symbol_query_result(v@) == sv_symbol_files(vv),
            sv_symbol_files(vv.skip(i as int)) matches Ok(rest) ==> sv_symbol_files(vv) == Ok::<
                Seq<SpecSymbolFile>,
                SpecBadResponse,
            >(symbol_files_view(out@) + rest),
            sv_symbol_files(vv.skip(i as int)) matches Err(e) ==> sv_symbol_files(vv) == Err::<
                Seq<SpecSymbolFile>,
                SpecBadResponse,
            >(e),
        decreases l.len() - i,
    {
        let ghost old_out = out@;
        assert(vv.skip(i as int)[0] == vv[i as int]);
        assert(vv.skip(i as int).skip(1) =~= vv.skip(i + 1));
        let x = match decode_value_symbol_file(&l[i]) {
            Ok(x) => x,
            Err(e) => {
                assert(sv_symbol_files(vv.skip(i as int)) == Err::<Seq<SpecSymbolFile>, SpecBadResponse>(
                    e@,
                ));
                return Err(e);
            },
        };
        out.push(x);
        proof {
            assert(symbol_files_view(out@) =~= symbol_files_view(old_out).push(
                x@,
            ));
            if let Ok(rest) = sv_symbol_files(vv.skip(i + 1)) {
                assert(symbol_files_view(old_out) + (seq![x@] + rest) =~= symbol_files_view(out@) + rest);
            }
        }
        i += 1;
    }
    proof {
        assert(vv.skip(i as int) =~= Seq::<SpecValue>::empty());
        assert(symbol_files_view(out@) + Seq::<SpecSymbolFile>::empty() =~= symbol_files_view(out@));
    }
    Ok(out)
}

fn decode_local_variable_list(v: &Value) -> (r: Result<Vec<LocalVariable>, BadResponse>)
    ensures
        r matches Ok(l) ==> sv_local_variable_list(v@) == Ok::<Seq<SpecLocalVariable>, SpecBadResponse>(
            local_variables_view(l@),
        ),
        r matches Err(e) ==> sv_local_variable_list(v@) == Err::<Seq<SpecLocalVariable>, SpecBadResponse>(e@),
{
    let l = list_of(v)?;
    let ghost vv = values_view(l@);
    proof {
        lemma_values_view_len(l@);
        assert(vv.skip(0) =~= vv);
    }
    let mut out: Vec<LocalVariable> = Vec::new();
    let mut i: usize = 0;
    while i < l.len()
        invariant
            i <= l.len(),
            vv.len() == l.len(),
            forall|j: int| 0 <= j < l.len() ==> #[trigger] vv[j] == l@[j]@,
            sv_local_variable_list(v@) == sv_local_variables(vv),
            sv_local_variables(vv.skip(i as int)) matches Ok(rest) ==> sv_local_variables(vv) == Ok::<
                Seq<SpecLocalVariable>,
                SpecBadResponse,
            >(local_variables_view(out@) + rest),
            sv_local_variables(vv.skip(i as int)) matches Err(e) ==> sv_local_variables(vv) == Err::<
                Seq<SpecLocalVariable>,
                SpecBadResponse,
            >(e),
        decreases l.len() - i,
    {
        let ghost old_out = out@;
        assert(vv.skip(i as int)[0] == vv[i as int]);
        assert(vv.skip(i as int).skip(1) =~= vv.skip(i + 1));
        let x = match decode_value_local_variable(&l[i]) {
            Ok(x) => x,
            Err(e) => {
                assert(sv_local_variables(vv.skip(i as int)) == Err::<Seq<SpecLocalVariable>, SpecBadResponse>(
                    e@,
                ));
                return Err(e);
            },
        };
        out.push(x);
        proof {
            assert(local_variables_view(out@) =~= local_variables_view(old_out).push(
                x@,
            ));
            if let Ok(rest) = sv_local_variables(vv.skip(i + 1)) {
                assert(local_variables_view(old_out) + (seq![x@] + rest) =~= local_variables_view(out@) + rest);
            }
        }
        i += 1;
    }
    proof {
        assert(vv.skip(i as int) =~= Seq::<SpecValue>::empty());
        assert(local_variables_view(out@) + Seq::<SpecLocalVariable>::empty() =~= local_variables_view(out@));
    }
    Ok(out)
}

fn decode_varobj_changelist(v: &Value) -> (r: Result<Vec<VariableObjectUpdate>, BadResponse>)
    ensures
        r matches Ok(l) ==> sv_varobj_changelist(v@) == Ok::<Seq<SpecVariableObjectUpdate>, SpecBadResponse>(
            varobj_updates_view(l@),
        ),
        r matches Err(e) ==> sv_varobj_changelist(v@) == Err::<Seq<SpecVariableObjectUpdate>, SpecBadResponse>(e@),
{
    let l = list_of(v)?;
    let ghost vv = values_view(l@);
    proof {
        lemma_values_view_len(l@);
        assert(vv.skip(0) =~= vv);
    }
    let mut out: Vec<VariableObjectUpdate> = Vec::new();
    let mut i: usize = 0;
    while i < l.len()
        invariant
            i <= l.len(),
            vv.len() == l.len(),
            forall|j: int| 0 <= j < l.len() ==> #[trigger] vv[j] == l@[j]@,
            sv_varobj_changelist(v@) == sv_varobj_updates(vv),
            sv_varobj_updates(vv.skip(i as int)) matches Ok(rest) ==> sv_varobj_updates(vv) == Ok::<
                Seq<SpecVariableObjectUpdate>,
                SpecBadResponse,
            >(varobj_updates_view(out@) + rest),
            sv_varobj_updates(vv.skip(i as int)) matches Err(e) ==> sv_varobj_updates(vv) == Err::<
                Seq<SpecVariableObjectUpdate>,
                SpecBadResponse,
            >(e),
        decreases l.len() - i,
    {
        let ghost old_out = out@;
        assert(vv.skip(i as int)[0] == vv[i as int]);
        assert(vv.skip(i as int).skip(1) =~= vv.skip(i + 1));
        let x = match decode_value_varobj_update(&l[i]) {
            Ok(x) => x,
            Err(e) => {
                assert(sv_varobj_updates(vv.skip(i as int)) == Err::<Seq<SpecVariableObjectUpdate>, SpecBadResponse>(
                    e@,
                ));
                return Err(e);
            },
        };
        out.push(x);
        proof {
            assert(varobj_updates_view(out@) =~= varobj_updates_view(old_out).push(
                x@,
            ));
            if let Ok(rest) = sv_varobj_updates(vv.skip(i + 1)) {
                assert(varobj_updates_view(old_out) + (seq![x@] + rest) =~= varobj_updates_view(out@) + rest);
            }
        }
        i += 1;
    }
    proof {
        assert(vv.skip(i as int) =~= Seq::<SpecValue>::empty());
        assert(varobj_updates_view(out@) + Seq::<SpecVariableObjectUpdate>::empty() =~= varobj_updates_view(out@));
    }
    Ok(out)
}

fn decode_frames(t: &ResultTuple) -> (r: Result<Vec<StackFrame>, BadResponse>)
    ensures
        r matches Ok(l) ==> sv_frames(t@) == Ok::<Seq<SpecStackFrame>, SpecBadResponse>(stack_frames_view(l@)),
        r matches Err(e) ==> sv_frames(t@) == Err::<Seq<SpecStackFrame>, SpecBadResponse>(e@),
{
    let ghost es = t@;
    proof {
        lemma_entries_view_len(t.0@);
        assert(es.skip(0) =~= es);
    }
    let mut out: Vec<StackFrame> = Vec::new();
    let mut i: usize = 0;
    while i < t.0.len()
        invariant
            i <= t.0.len(),
            es == t@,
            es.len() == t.0.len(),
            forall|j: int| 0 <= j < t.0.len() ==> #[trigger] es[j] == t.0@[j]@,
            sv_frames(es.skip(i as int)) matches Ok(rest) ==> sv_frames(es) == Ok::<
                Seq<SpecStackFrame>,
                SpecBadResponse,
            >(stack_frames_view(out@) + rest),
            sv_frames(es.skip(i as int)) matches Err(e) ==> sv_frames(es) == Err::<
                Seq<SpecStackFrame>,
                SpecBadResponse,
            >(e),
        decreases t.0.len() - i,
    {
        let ghost old_out = out@;
        assert(es.skip(i as int)[0] == es[i as int]);
        assert(es.skip(i as int).skip(1) =~= es.skip(i + 1));
        if str_eq(t.0[i].key.as_str(), "frame") {
            let x = match decode_value_stack_frame(&t.0[i].value) {
                Ok(x) => x,
                Err(e) => {
                    assert(sv_frames(es.skip(i as int)) == Err::<Seq<SpecStackFrame>, SpecBadResponse>(e@));
                    return Err(e);
                },
            };
            out.push(x);
            proof {
                assert(stack_frames_view(out@) =~= stack_frames_view(old_out).push(x@));
                if let Ok(rest) = sv_frames(es.skip(i + 1)) {
                    assert(stack_frames_view(old_out) + (seq![x@] + rest) =~= stack_frames_view(out@) + rest);
                }
            }
        } else {
            assert(sv_frames(es.skip(i as int)) == sv_frames(es.skip(i + 1)));
        }
        i += 1;
    }
    proof {
        assert(es.skip(i as int) =~= Seq::<SpecEntry>::empty());
        assert(stack_frames_view(out@) + Seq::<SpecStackFrame>::empty() =~= stack_frames_view(out@));
    }
    Ok(out)
}

fn decode_children(t: &ResultTuple) -> (r: Result<Vec<ChildVariableObject>, BadResponse>)
    ensures
        r matches Ok(l) ==> sv_children(t@) == Ok::<Seq<SpecChildVariableObject>, SpecBadResponse>(children_view(l@)),
        r matches Err(e) ==> sv_children(t@) == Err::<Seq<SpecChildVariableObject>, SpecBadResponse>(e@),
{
    let ghost es = t@;
    proof {
        lemma_entries_view_len(t.0@);
        assert(es.skip(0) =~= es);
    }
    let mut out: Vec<ChildVariableObject> = Vec::new();
    let mut i: usize = 0;
    while i < t.0.len()
        invariant
            i <= t.0.len(),
            es == t@,
            es.len() == t.0.len(),
            forall|j: int| 0 <= j < t.0.len() ==> #[trigger] es[j] == t.0@[j]@,
            sv_children(es.skip(i as int)) matches Ok(rest) ==> sv_children(es) == Ok::<
                Seq<SpecChildVariableObject>,
                SpecBadResponse,
            >(children_view(out@) + rest),
            sv_children(es.skip(i as int)) matches Err(e) ==> sv_children(es) == Err::<
                Seq<SpecChildVariableObject>,
                SpecBadResponse,
            >(e),
        decreases t.0.len() - i,
    {
        let ghost old_out = out@;
        assert(es.skip(i as int)[0] == es[i as int]);
        assert(es.skip(i as int).skip(1) =~= es.skip(i + 1));
        if str_eq(t.0[i].key.as_str(), "child") {
            let x = match decode_value_child_varobj(&t.0[i].value) {
                Ok(x) => x,
                Err(e) => {
                    assert(sv_children(es.skip(i as int)) == Err::<Seq<SpecChildVariableObject>, SpecBadResponse>(e@));
                    return Err(e);
                },
            };
            out.push(x);
            proof {
                assert(children_view(out@) =~= children_view(old_out).push(x@));
                if let Ok(rest) = sv_children(es.skip(i + 1)) {
                    assert(children_view(old_out) + (seq![x@] + rest) =~= children_view(out@) + rest);
                }
            }
        } else {
            assert(sv_children(es.skip(i as int)) == sv_children(es.skip(i + 1)));
        }
        i += 1;
    }
    proof {
        assert(es.skip(i as int) =~= Seq::<SpecEntry>::empty());
        assert(children_view(out@) + Seq::<SpecChildVariableObject>::empty() =~= children_view(out@));
    }
    Ok(out)
}

fn decode_symbol_file(t: &ResultTuple) -> (r: Result<SymbolFile, BadResponse>)
    ensures
        agrees(r, spec_symbol_file(t@)),
{
    let filename = string_field(t, "filename")?;
    let fullname = string_field(t, "fullname")?;
    let sv = req_field(t, "symbols")?;
    let symbols = decode_symbol_list(sv)?;
    Ok(SymbolFile { filename, fullname, symbols })
}

fn decode_value_symbol_file(v: &Value) -> (r: Result<SymbolFile, BadResponse>)
    ensures
        agrees(r, sv_symbol_file(v@)),
{
    let t = tuple_of(v)?;
    decode_symbol_file(t)
}

fn decode_stack_frame(t: &ResultTuple) -> (r: Result<StackFrame, BadResponse>)
    ensures
        agrees(r, spec_stack_frame(t@)),
{
    let level = decimal_field(t, "level", usize::MAX as u64)?;
    let addr_v = req_field(t, "addr")?;
    let addr = hex_of(addr_v)?;
    let func = string_field(t, "func")?;
    let file = string_field(t, "file")?;
    let fullname = string_field(t, "fullname")?;
    let line = decimal_field(t, "line", u64::MAX)?;
    let from = opt_string_field(t, "from")?;
    let arch = string_field(t, "arch")?;
    Ok(StackFrame { level: level as usize, addr, func, file, fullname, line, from, arch })
}

fn decode_value_stack_frame(v: &Value) -> (r: Result<StackFrame, BadResponse>)
    ensures
        agrees(r, sv_stack_frame(v@)),
{
    let t = tuple_of(v)?;
    decode_stack_frame(t)
}

fn decode_stack_trace(v: &Value) -> (r: Result<Vec<StackFrame>, BadResponse>)
    ensures
        r matches Ok(l) ==> sv_stack_trace(v@) == Ok::<Seq<SpecStackFrame>, SpecBadResponse>(
            stack_frames_view(l@),
        ),
        r matches Err(e) ==> sv_stack_trace(v@) == Err::<Seq<SpecStackFrame>, SpecBadResponse>(
            e@,
        ),
{
    let t = tuple_of(v)?;
    decode_frames(t)
}

fn decode_local_variable(t: &ResultTuple) -> (r: Result<LocalVariable, BadResponse>)
    ensures
        agrees(r, spec_local_variable(t@)),
{
    let name = string_field(t, "name")?;
    let arg = flag_field(t, "arg")?;
    let value = opt_string_field(t, "value")?;
    Ok(LocalVariable { name, arg, value })
}

fn decode_value_local_variable(v: &Value) -> (r: Result<LocalVariable, BadResponse>)
    ensures
        agrees(r, sv_local_variable(v@)),
{
    let t = tuple_of(v)?;
    decode_local_variable(t)
}

fn decode_var_object(t: &ResultTuple) -> (r: Result<VariableObjectData, BadResponse>)
    ensures
        agrees(r, spec_var_object(t@)),
{
    let object = string_field(t, "name")?;
    let numchild = decimal_field(t, "numchild", usize::MAX as u64)?;
    let value = opt_string_field(t, "value")?;
    let type_string = string_field(t, "type")?;
    let has_more = flag_field(t, "has_more")?;
    let dynamic = flag_field(t, "dynamic")?;
    let thread_id = opt_string_field(t, "thread-id")?;
    Ok(
        VariableObjectData {
            object: VariableObject(object),
            value,
            type_string,
            numchild: numchild as usize,
            dynamic,
            has_more,
            thread_id,
        },
    )
}

fn decode_child_varobj(t: &ResultTuple) -> (r: Result<ChildVariableObject, BadResponse>)
    ensures
        agrees(r, spec_child_varobj(t@)),
{
    let exp = string_field(t, "exp")?;
    let variable_object = decode_var_object(t)?;
    Ok(ChildVariableObject { variable_object, exp })
}

fn decode_value_child_varobj(v: &Value) -> (r: Result<ChildVariableObject, BadResponse>)
    ensures
        agrees(r, sv_child_varobj(v@)),
{
    let t = tuple_of(v)?;
    decode_child_varobj(t)
}

fn decode_child_list_inner(v: &Value) -> (r: Result<Vec<ChildVariableObject>, BadResponse>)
    ensures
        r matches Ok(l) ==> sv_child_list_inner(v@) == Ok::<
            Seq<SpecChildVariableObject>,
            SpecBadResponse,
        >(children_view(l@)),
        r matches Err(e) ==> sv_child_list_inner(v@) == Err::<
            Seq<SpecChildVariableObject>,
            SpecBadResponse,
        >(e@),
{
    let t = tuple_of(v)?;
    decode_children(t)
}

fn decode_varobj_update(t: &ResultTuple) -> (r: Result<VariableObjectUpdate, BadResponse>)
    ensures
        agrees(r, spec_varobj_update(t@)),
{
    let object = string_field(t, "name")?;
    let value = opt_string_field(t, "value")?;
    let scope_v = req_field(t, "in_scope")?;
    let in_scope = in_scope_of(scope_v)?;
    let new_type_string = opt_string_field(t, "new_type_name")?;
    let new_num_children = match opt_decimal_field(t, "new_num_children", usize::MAX as u64)? {
        Some(n) => Some(n as usize),
        None => None,
    };
    let has_more = flag_field(t, "has_more")?;
    let dynamic = flag_field(t, "dynamic")?;
    let new_children = match field(t, "new_children") {
        Some(nc) => decode_child_list_inner(nc)?,
        None => {
            let l: Vec<ChildVariableObject> = Vec::new();
            assert(children_view(l@) =~= Seq::<SpecChildVariableObject>::empty());
            l
        },
    };
    Ok(
        VariableObjectUpdate {
            object: VariableObject(object),
            value,
            in_scope,
            new_type_string,
            new_num_children,
            has_more,
            dynamic,
            new_children,
        },
    )
}

fn decode_value_varobj_update(v: &Value) -> (r: Result<VariableObjectUpdate, BadResponse>)
    ensures
        agrees(r, sv_varobj_update(v@)),
{
    let t = tuple_of(v)?;
    decode_varobj_update(t)
}

fn decode_child_list(t: &ResultTuple) -> (r: Result<ChildList, BadResponse>)
    ensures
        agrees(r, spec_child_list(t@)),
{
    let numchild = decimal_field(t, "numchild", usize::MAX as u64)?;
    let has_more = flag_field(t, "has_more")?;
    let cv = req_field(t, "children")?;
    let children = decode_child_list_inner(cv)?;
    Ok(ChildList { numchild: numchild as usize, has_more, children })
}

/// Reading payload values as the formats defined in [`types`](super::types).
impl Value {
    /// Reads the value as a tuple (a tuple list counts as a tuple).
    pub fn tuple(self) -> (r: Result<ResultTuple, BadResponse>)
        ensures
            r matches Ok(t) ==> sv_tuple(self@) == Ok::<Seq<SpecEntry>, SpecBadResponse>(t@),
            r matches Err(e) ==> sv_tuple(self@) == Err::<Seq<SpecEntry>, SpecBadResponse>(e@),
    {
        match self {
            Value::Tuple(t) => Ok(t),
            Value::TupleList(t) => Ok(t),
            _ => Err(BadResponse::BadValueType),
        }
    }

    /// Reads the value as a list.
    pub fn list(self) -> (r: Result<Vec<Value>, BadResponse>)
        ensures
            r matches Ok(l) ==> sv_list(self@) == Ok::<Seq<SpecValue>, SpecBadResponse>(
                values_view(l@),
            ),
            r matches Err(e) ==> sv_list(self@) == Err::<Seq<SpecValue>, SpecBadResponse>(e@),
    {
        match self {
            Value::List(l) => Ok(l),
            _ => Err(BadResponse::BadValueType),
        }
    }

    /// Reads the value as a string.
    pub fn string(self) -> (r: Result<String, BadResponse>)
        ensures
            agrees(r, sv_string(self@)),
    {
        match self {
            Value::Const(s) => Ok(s),
            _ => Err(BadResponse::BadValueType),
        }
    }

    /// Reads the value as an unsigned decimal number (as `u64::from_str` does).
    pub fn decimal(self) -> (r: Result<u64, BadResponse>)
        ensures
            r matches Ok(n) ==> sv_decimal(self@, u64::MAX as int) == Ok::<int, SpecBadResponse>(
                n as int,
            ),
            r matches Err(e) ==> sv_decimal(self@, u64::MAX as int) == Err::<int, SpecBadResponse>(
                e@,
            ),
    {
        decimal_of(&self, u64::MAX)
    }

    /// Reads the value as an unsigned decimal number that fits in `usize`.
    pub fn decimal_usize(self) -> (r: Result<usize, BadResponse>)
        ensures
            r matches Ok(n) ==> sv_decimal(self@, usize::MAX as int) == Ok::<int, SpecBadResponse>(
                n as int,
            ),
            r matches Err(e) ==> sv_decimal(self@, usize::MAX as int) == Err::<
                int,
                SpecBadResponse,
            >(e@),
    {
        let n = decimal_of(&self, usize::MAX as u64)?;
        Ok(n as usize)
    }

    /// Reads the value as a `0x`-prefixed hexadecimal number.
    pub fn hex(self) -> (r: Result<u64, BadResponse>)
        ensures
            agrees(r, sv_hex(self@)),
    {
        hex_of(&self)
    }

    /// Reads the value as the flag `"0"` (false) or `"1"` (true).
    pub fn zero_or_one(self) -> (r: Result<bool, BadResponse>)
        ensures
            agrees(r, sv_zero_or_one(self@)),
    {
        zero_or_one_of(&self)
    }

    /// Reads the value as a scope flag.
    pub fn in_scope_flag(self) -> (r: Result<InScope, BadResponse>)
        ensures
            r matches Ok(x) ==> sv_in_scope(self@) == Ok::<InScope, SpecBadResponse>(x),
            r matches Err(e) ==> sv_in_scope(self@) == Err::<InScope, SpecBadResponse>(e@),
    {
        in_scope_of(&self)
    }

    /// Reads the value as the list of files of a symbol query.
    pub fn symbol_query_result(self) -> (r: Result<Vec<SymbolFile>, BadResponse>)
        ensures
            r matches Ok(l) ==> sv_symbol_query_result(self@) == Ok::<Seq<SpecSymbolFile>, SpecBadResponse>(symbol_files_view(l@)),
            r matches Err(e) ==> sv_symbol_query_result(self@) == Err::<Seq<SpecSymbolFile>, SpecBadResponse>(e@),
    {
        decode_symbol_query_result(&self)
    }

    /// Reads the value as a symbol file tuple.
    pub fn symbol_file(self) -> (r: Result<SymbolFile, BadResponse>)
        ensures
            agrees(r, sv_symbol_file(self@)),
    {
        decode_value_symbol_file(&self)
    }

    /// Reads the value as a list of symbols.
    pub fn symbol_list(self) -> (r: Result<Vec<Symbol>, BadResponse>)
        ensures
            r matches Ok(l) ==> sv_symbol_list(self@) == Ok::<Seq<SpecSymbol>, SpecBadResponse>(symbols_view(l@)),
            r matches Err(e) ==> sv_symbol_list(self@) == Err::<Seq<SpecSymbol>, SpecBadResponse>(e@),
    {
        decode_symbol_list(&self)
    }

    /// Reads the value as a symbol tuple.
    pub fn symbol(self) -> (r: Result<Symbol, BadResponse>)
        ensures
            agrees(r, sv_symbol(self@)),
    {
        decode_value_symbol(&self)
    }

    /// Reads the value as a stack trace: the `frame` entries of a tuple.
    pub fn stack_trace(self) -> (r: Result<Vec<StackFrame>, BadResponse>)
        ensures
            r matches Ok(l) ==> sv_stack_trace(self@) == Ok::<Seq<SpecStackFrame>, SpecBadResponse>(stack_frames_view(l@)),
            r matches Err(e) ==> sv_stack_trace(self@) == Err::<Seq<SpecStackFrame>, SpecBadResponse>(e@),
    {
        decode_stack_trace(&self)
    }

    /// Reads the value as a stack frame tuple.
    pub fn stack_frame(self) -> (r: Result<StackFrame, BadResponse>)
        ensures
            agrees(r, sv_stack_frame(self@)),
    {
        decode_value_stack_frame(&self)
    }

    /// Reads the value as a list of local variables.
    pub fn local_variable_list(self) -> (r: Result<Vec<LocalVariable>, BadResponse>)
        ensures
            r matches Ok(l) ==> sv_local_variable_list(self@) == Ok::<Seq<SpecLocalVariable>, SpecBadResponse>(local_variables_view(l@)),
            r matches Err(e) ==> sv_local_variable_list(self@) == Err::<Seq<SpecLocalVariable>, SpecBadResponse>(e@),
    {
        decode_local_variable_list(&self)
    }

    /// Reads the value as a local variable tuple.
    pub fn local_variable(self) -> (r: Result<LocalVariable, BadResponse>)
        ensures
            agrees(r, sv_local_variable(self@)),
    {
        decode_value_local_variable(&self)
    }

    /// Reads the value as the `child` entries of a tuple.
    pub fn child_list_inner(self) -> (r: Result<Vec<ChildVariableObject>, BadResponse>)
        ensures
            r matches Ok(l) ==> sv_child_list_inner(self@) == Ok::<Seq<SpecChildVariableObject>, SpecBadResponse>(children_view(l@)),
            r matches Err(e) ==> sv_child_list_inner(self@) == Err::<Seq<SpecChildVariableObject>, SpecBadResponse>(e@),
    {
        decode_child_list_inner(&self)
    }

    /// Reads the value as a child variable object tuple.
    pub fn child_varobj(self) -> (r: Result<ChildVariableObject, BadResponse>)
        ensures
            agrees(r, sv_child_varobj(self@)),
    {
        decode_value_child_varobj(&self)
    }

    /// Reads the value as a list of variable object updates.
    pub fn varobj_changelist(self) -> (r: Result<Vec<VariableObjectUpdate>, BadResponse>)
        ensures
            r matches Ok(l) ==> sv_varobj_changelist(self@) == Ok::<Seq<SpecVariableObjectUpdate>, SpecBadResponse>(varobj_updates_view(l@)),
            r matches Err(e) ==> sv_varobj_changelist(self@) == Err::<Seq<SpecVariableObjectUpdate>, SpecBadResponse>(e@),
    {
        decode_varobj_changelist(&self)
    }

    /// Reads the value as a variable object update tuple.
    pub fn varobj_update(self) -> (r: Result<VariableObjectUpdate, BadResponse>)
        ensures
            agrees(r, sv_varobj_update(self@)),
    {
        decode_value_varobj_update(&self)
    }
}

/// Reading payload tuples as the formats defined in [`types`](super::types).
impl ResultTuple {
    /// Reads the tuple as a symbol file.
    pub fn symbol_file(self) -> (r: Result<SymbolFile, BadResponse>)
        ensures
            agrees(r, spec_symbol_file(self@)),
    {
        decode_symbol_file(&self)
    }

    /// Reads the tuple as a symbol.
    pub fn symbol(self) -> (r: Result<Symbol, BadResponse>)
        ensures
            agrees(r, spec_symbol(self@)),
    {
        decode_symbol(&self)
    }

    /// Reads the tuple as a stack frame.
    pub fn stack_frame(self) -> (r: Result<StackFrame, BadResponse>)
        ensures
            agrees(r, spec_stack_frame(self@)),
    {
        decode_stack_frame(&self)
    }

    /// Reads the tuple as a local variable.
    pub fn local_variable(self) -> (r: Result<LocalVariable, BadResponse>)
        ensures
            agrees(r, spec_local_variable(self@)),
    {
        decode_local_variable(&self)
    }

    /// Reads the tuple as a variable object.
    pub fn var_object(self) -> (r: Result<VariableObjectData, BadResponse>)
        ensures
            agrees(r, spec_var_object(self@)),
    {
        decode_var_object(&self)
    }

    /// Reads the tuple as a child variable object.
    pub fn child_varobj(self) -> (r: Result<ChildVariableObject, BadResponse>)
        ensures
            agrees(r, spec_child_varobj(self@)),
    {
        decode_child_varobj(&self)
    }

    /// Reads the tuple as a variable object update.
    pub fn varobj_update(self) -> (r: Result<VariableObjectUpdate, BadResponse>)
        ensures
            agrees(r, spec_varobj_update(self@)),
    {
        decode_varobj_update(&self)
    }

    /// Reads the tuple as a child list.
    pub fn child_list(self) -> (r: Result<ChildList, BadResponse>)
        ensures
            agrees(r, spec_child_list(self@)),
    {
        decode_child_list(&self)
    }
}

} // verus!
