//! Deserialized raw output data from GDB.
//!
//! Based on the GDB/MI output syntax: result records (`^`) and
//! asynchronous execution records (`*`) carrying a payload of named values.

use vstd::prelude::*;

verus! {

/// Class of a result record.
#[derive(Clone, Copy, PartialEq, Eq, Debug, Structural)]
pub enum ResultClass {
    /// Requested action was completed.
    Done,
    /// Legacy alias for [`ResultClass::Done`].
    Running,
    /// Debugger has connected to a remote target.
    Connected,
    /// Error response.
    Error,
    /// The debugger has exited.
    Exit,
}

/// Class of an async record.
#[derive(Clone, Copy, PartialEq, Eq, Debug, Structural)]
pub enum AsyncExecClass {
    /// The debuggee has started executing.
    Running,
    /// The debuggee has stopped executing.
    Stopped,
}

/// A record in the output of GDB.
///
/// Currently, only [`ResultRecord`] and [`AsyncExecRecord`] are supported.
#[derive(PartialEq, Eq, Debug)]
pub enum Record {
    /// Result record.
    Result(ResultRecord),
    /// Async record.
    AsyncExec(AsyncExecRecord),
}

/// Full async record.
#[derive(PartialEq, Eq, Debug)]
pub struct AsyncExecRecord {
    /// Class of the record.
    pub async_exec_class: AsyncExecClass,
    /// Payload data.
    pub results: ResultTuple,
}

/// Full result record.
#[derive(PartialEq, Eq, Debug)]
pub struct ResultRecord {
    /// Token that was passed to the associated command, if any.
    pub token: Option<String>,
    /// Class of the record.
    pub result_class: ResultClass,
    /// Payload data.
    pub results: ResultTuple,
}

/// Data payload that contains named fields.
#[derive(PartialEq, Eq, Debug)]
pub struct ResultTuple(pub Vec<ResultEntry>);

/// Single entry of a [`ResultTuple`].
#[derive(PartialEq, Eq, Debug)]
pub struct ResultEntry {
    /// Name of the field.
    pub key: String,
    /// Value of the field.
    pub value: Value,
}

/// Any value in a GDB/MI payload.
#[derive(PartialEq, Eq, Debug)]
pub enum Value {
    /// String literal.
    Const(String),
    /// Structured data with named fields.
    Tuple(ResultTuple),
    /// List with named items.
    ///
    /// Names of the items are usualy all the same, so they may be ignored.
    TupleList(ResultTuple),
    /// List that contains a sequence of values.
    List(Vec<Value>),
}

// ------------------------------------------------------------------
// Mathematical model
// ------------------------------------------------------------------

/// Model of a [`Value`]: strings are sequences of characters.
pub enum SpecValue {
    Const(Seq<char>),
    Tuple(Seq<SpecEntry>),
    TupleList(Seq<SpecEntry>),
    List(Seq<SpecValue>),
}

/// Model of a [`ResultEntry`].
pub struct SpecEntry {
    pub key: Seq<char>,
    pub value: SpecValue,
}

/// Model of a [`Record`].
pub enum SpecRecord {
    Result { token: Option<Seq<char>>, result_class: ResultClass, results: Seq<SpecEntry> },
    AsyncExec { async_exec_class: AsyncExecClass, results: Seq<SpecEntry> },
}

/// Model of a value.
pub open spec fn value_view(v: Value) -> SpecValue
    decreases v, 0nat,
{
    match v {
        Value::Const(s) => SpecValue::Const(s@),
        Value::Tuple(t) => SpecValue::Tuple(entries_view(t.0@)),
        Value::TupleList(t) => SpecValue::TupleList(entries_view(t.0@)),
        Value::List(l) => SpecValue::List(values_view(l@)),
    }
}

/// Model of a sequence of values.
pub open spec fn values_view(l: Seq<Value>) -> Seq<SpecValue>
    decreases l, 1nat,
{
    if l.len() == 0 {
        Seq::empty()
    } else {
        values_view(l.subrange(0, l.len() - 1)).push(value_view(l[l.len() - 1]))
    }
}

/// Model of a sequence of entries.
pub open spec fn entries_view(l: Seq<ResultEntry>) -> Seq<SpecEntry>
    decreases l, 1nat,
{
    if l.len() == 0 {
        Seq::empty()
    } else {
        entries_view(l.subrange(0, l.len() - 1)).push(
            SpecEntry { key: l[l.len() - 1].key@, value: value_view(l[l.len() - 1].value) },
        )
    }
}

impl View for Value {
    type V = SpecValue;

    open spec fn view(&self) -> SpecValue {
        value_view(*self)
    }
}

impl View for ResultEntry {
    type V = SpecEntry;

    open spec fn view(&self) -> SpecEntry {
        SpecEntry { key: self.key@, value: value_view(self.value) }
    }
}

impl View for ResultTuple {
    type V = Seq<SpecEntry>;

    open spec fn view(&self) -> Seq<SpecEntry> {
        entries_view(self.0@)
    }
}

/// Model of an optional string.
pub open spec fn opt_str_view(s: Option<String>) -> Option<Seq<char>> {
    match s {
        Some(s) => Some(s@),
        None => None,
    }
}

impl View for Record {
    type V = SpecRecord;

    open spec fn view(&self) -> SpecRecord {
        match self {
            Record::Result(r) => SpecRecord::Result {
                token: opt_str_view(r.token),
                result_class: r.result_class,
                results: r.results@,
            },
            Record::AsyncExec(r) => SpecRecord::AsyncExec {
                async_exec_class: r.async_exec_class,
                results: r.results@,
            },
        }
    }
}

/// Appending a value appends its model.
pub proof fn lemma_values_view_push(l: Seq<Value>, v: Value)
    ensures
        values_view(l.push(v)) == values_view(l).push(value_view(v)),
{
    assert(l.push(v).subrange(0, l.len() as int) =~= l);
}

/// Appending an entry appends its model.
pub proof fn lemma_entries_view_push(l: Seq<ResultEntry>, e: ResultEntry)
    ensures
        entries_view(l.push(e)) == entries_view(l).push(e@),
{
    assert(l.push(e).subrange(0, l.len() as int) =~= l);
}

/// The model of a sequence of entries has one element per entry.
pub proof fn lemma_entries_view_len(l: Seq<ResultEntry>)
    ensures
        entries_view(l).len() == l.len(),
        forall|i: int| 0 <= i < l.len() ==> #[trigger] entries_view(l)[i] == l[i]@,
    decreases l.len(),
{
    if l.len() > 0 {
        lemma_entries_view_len(l.subrange(0, l.len() - 1));
    }
}

/// The model of a sequence of values has one element per value.
pub proof fn lemma_values_view_len(l: Seq<Value>)
    ensures
        values_view(l).len() == l.len(),
        forall|i: int| 0 <= i < l.len() ==> #[trigger] values_view(l)[i] == l[i]@,
    decreases l.len(),
{
    if l.len() > 0 {
        lemma_values_view_len(l.subrange(0, l.len() - 1));
    }
}

impl Value {
    /// Extracts a [`Value::Const`] from the value, if it is present.
    pub fn into_const(self) -> (r: Option<String>)
        ensures
            r == (match self {
                Value::Const(s) => Some(s),
                _ => None::<String>,
            }),
    {
        match self {
            Value::Const(s) => Some(s),
            _ => None,
        }
    }

    /// Extracts a [`Value::Tuple`] or [`Value::TupleList`] from the value, if it is present.
    pub fn into_tuple(self) -> (r: Option<ResultTuple>)
        ensures
            r == (match self {
                Value::Tuple(t) => Some(t),
                Value::TupleList(t) => Some(t),
                _ => None::<ResultTuple>,
            }),
    {
        match self {
            Value::Tuple(t) => Some(t),
            Value::TupleList(t) => Some(t),
            _ => None,
        }
    }

    /// Extracts a [`Value::List`] from the value, if it is present.
    pub fn into_list(self) -> (r: Option<Vec<Value>>)
        ensures
            r == (match self {
                Value::List(l) => Some(l),
                _ => None::<Vec<Value>>,
            }),
    {
        match self {
            Value::List(l) => Some(l),
            _ => None,
        }
    }
}

} // verus!
