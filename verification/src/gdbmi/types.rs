//! High-level data structures that represent data payloads returned by GDB.

use vstd::prelude::*;

verus! {

/// Single symbol in the response to a symbol query command.
#[derive(Clone, PartialEq, Eq, Debug)]
pub struct Symbol {
    /// Line number where the symbol is declared.
    pub line: u64,
    /// Name of the symbol.
    pub name: String,
    /// Name of the type of the symbol.
    pub type_string: String,
    /// Full declaration of the symbol.
    pub description: String,
}

/// Section of the response to a symbol query command
/// associated with a source file.
#[derive(PartialEq, Eq, Debug)]
pub struct SymbolFile {
    /// Short name of the source file.
    pub filename: String,
    /// Full path to the source file.
    pub fullname: String,
    /// Symbols found in the file.
    pub symbols: Vec<Symbol>,
}

/// Description of a single stack frame.
#[derive(Clone, PartialEq, Eq, Debug)]
pub struct StackFrame {
    /// Zero-based index of the frame, topmost is zero.
    pub level: usize,
    /// Memory address of the frame.
    pub addr: u64,
    /// Name of the function that created the frame.
    pub func: String,
    /// Short name of the source file where the function lives.
    pub file: String,
    /// Full path to the source file where the function lives.
    pub fullname: String,
    /// Number of the line that the program is currently executing.
    pub line: u64,
    /// Name of the shared library where the function lives, if any.
    pub from: Option<String>,
    /// Name of architecture for which the function is compiled.
    pub arch: String,
}

/// Description of a local variable.
#[derive(Clone, PartialEq, Eq, Debug)]
pub struct LocalVariable {
    /// Name of the variable.
    pub name: String,
    /// True if the variable is an argument.
    pub arg: bool,
    /// Current value of the variable, if requested.
    pub value: Option<String>,
}

/// Specifies which [`LocalVariable`] entries should include a [`LocalVariable::value`].
#[derive(Clone, Copy, PartialEq, Eq, Debug)]
pub enum PrintValues {
    /// No values should be returned.
    NoValues,
    /// Values should be returned for all variables.
    AllValues,
    /// Values should be returned for elementary variables, not arrays or structures.
    SimpleValues,
}

/// Handle to a GDB/MI variable object.
///
/// Internally, this is the name of the variable object.
#[derive(Clone, PartialEq, Eq, PartialOrd, Ord, Debug, Hash)]
pub struct VariableObject(pub String);

/// Full description of a [`VariableObject`].
#[derive(Clone, PartialEq, Eq, Debug)]
pub struct VariableObjectData {
    /// Handle to the variable object.
    pub object: VariableObject,
    /// Current value of the associated variable, if requested.
    pub value: Option<String>,
    /// Name of the type of the associated variable.
    pub type_string: String,
    /// How many children the object is known to have.
    pub numchild: usize,
    /// True if the variable object is dynamic.
    pub dynamic: bool,
    /// True if the variable object is dynamic and it may have more children.
    pub has_more: bool,
    /// ID of the thread that the associated variable belongs to, if any.
    pub thread_id: Option<String>,
}

/// Scope status of a [`VariableObject`].
#[derive(Clone, Copy, PartialEq, Eq, Debug, Structural)]
pub enum InScope {
    /// The associated variable remains in scope.
    True,
    /// The associated variable has gone out of scope, but remains valid.
    False,
    /// The associated variable is no longer valid.
    Invalid,
    /// A different value than any of the above.
    Other,
}

/// Description of a single child of a [`VariableObject`].
#[derive(Clone, PartialEq, Eq, Debug)]
pub struct ChildVariableObject {
    /// General description of the variable object.
    pub variable_object: VariableObjectData,
    /// Short displayable expression of the variable object.
    pub exp: String,
}

/// Update payload for a single [`VariableObject`].
#[derive(PartialEq, Eq, Debug)]
pub struct VariableObjectUpdate {
    /// Handle to the variable object.
    pub object: VariableObject,
    /// Current value of the associated variable, if requested.
    pub value: Option<String>,
    /// Whether the associated variable remains in scope.
    pub in_scope: InScope,
    /// New type name of the variable. Only present if the type has changed.
    pub new_type_string: Option<String>,
    /// New number of children.
    pub new_num_children: Option<usize>,
    /// True if the variable object is dynamic and it may have more children.
    pub has_more: bool,
    /// True if the variable object is dynamic.
    pub dynamic: bool,
    /// Newly created variable objects that correspond to newly added children.
    pub new_children: Vec<ChildVariableObject>,
}

/// Payload returned by `-var-list-children`.
#[derive(PartialEq, Eq, Debug)]
pub struct ChildList {
    /// Number of known children that are returned.
    pub numchild: usize,
    /// True if the variable object is dynamic and it may have more children.
    pub has_more: bool,
    /// Data of the child variable objects.
    pub children: Vec<ChildVariableObject>,
}

/// Specification of the stack frame where a variable object should live.
#[derive(Clone, Copy, PartialEq, Eq, Debug)]
pub enum VariableObjectFrameContext {
    /// Stack frame specified by zero-based index, zero is topmost.
    Frame(usize),
    /// The stack frame that is currently selected.
    CurrentFrame,
    /// Floating variable object.
    Floating,
}

// ------------------------------------------------------------------
// Models
// ------------------------------------------------------------------

/// Model of a [`Symbol`].
pub struct SpecSymbol {
    pub line: u64,
    pub name: Seq<char>,
    pub type_string: Seq<char>,
    pub description: Seq<char>,
}

/// Model of a [`SymbolFile`].
pub struct SpecSymbolFile {
    pub filename: Seq<char>,
    pub fullname: Seq<char>,
    pub symbols: Seq<SpecSymbol>,
}

/// Model of a [`StackFrame`].
pub struct SpecStackFrame {
    pub level: usize,
    pub addr: u64,
    pub func: Seq<char>,
    pub file: Seq<char>,
    pub fullname: Seq<char>,
    pub line: u64,
    pub from: Option<Seq<char>>,
    pub arch: Seq<char>,
}

/// Model of a [`LocalVariable`].
pub struct SpecLocalVariable {
    pub name: Seq<char>,
    pub arg: bool,
    pub value: Option<Seq<char>>,
}

/// Model of a [`VariableObjectData`].
pub struct SpecVariableObjectData {
    pub object: Seq<char>,
    pub value: Option<Seq<char>>,
    pub type_string: Seq<char>,
    pub numchild: usize,
    pub dynamic: bool,
    pub has_more: bool,
    pub thread_id: Option<Seq<char>>,
}

/// Model of a [`ChildVariableObject`].
pub struct SpecChildVariableObject {
    pub variable_object: SpecVariableObjectData,
    pub exp: Seq<char>,
}

/// Model of a [`VariableObjectUpdate`].
pub struct SpecVariableObjectUpdate {
    pub object: Seq<char>,
    pub value: Option<Seq<char>>,
    pub in_scope: InScope,
    pub new_type_string: Option<Seq<char>>,
    pub new_num_children: Option<usize>,
    pub has_more: bool,
    pub dynamic: bool,
    pub new_children: Seq<SpecChildVariableObject>,
}

/// Model of a [`ChildList`].
pub struct SpecChildList {
    pub numchild: usize,
    pub has_more: bool,
    pub children: Seq<SpecChildVariableObject>,
}

/// Model of an optional string.
pub open spec fn opt_view(s: Option<String>) -> Option<Seq<char>> {
    match s {
        Some(s) => Some(s@),
        None => None,
    }
}

/// Models of a sequence of symbols.
pub open spec fn symbols_view(l: Seq<Symbol>) -> Seq<SpecSymbol> {
    l.map_values(|x: Symbol| x@)
}

/// Models of a sequence of child variable objects.
pub open spec fn children_view(l: Seq<ChildVariableObject>) -> Seq<SpecChildVariableObject> {
    l.map_values(|x: ChildVariableObject| x@)
}

impl View for Symbol {
    type V = SpecSymbol;

    open spec fn view(&self) -> SpecSymbol {
        SpecSymbol {
            line: self.line,
            name: self.name@,
            type_string: self.type_string@,
            description: self.description@,
        }
    }
}

impl View for SymbolFile {
    type V = SpecSymbolFile;

    open spec fn view(&self) -> SpecSymbolFile {
        SpecSymbolFile {
            filename: self.filename@,
            fullname: self.fullname@,
            symbols: symbols_view(self.symbols@),
        }
    }
}

impl View for StackFrame {
    type V = SpecStackFrame;

    open spec fn view(&self) -> SpecStackFrame {
        SpecStackFrame {
            level: self.level,
            addr: self.addr,
            func: self.func@,
            file: self.file@,
            fullname: self.fullname@,
            line: self.line,
            from: opt_view(self.from),
            arch: self.arch@,
        }
    }
}

impl View for LocalVariable {
    type V = SpecLocalVariable;

    open spec fn view(&self) -> SpecLocalVariable {
        SpecLocalVariable { name: self.name@, arg: self.arg, value: opt_view(self.value) }
    }
}

impl View for VariableObjectData {
    type V = SpecVariableObjectData;

    open spec fn view(&self) -> SpecVariableObjectData {
        SpecVariableObjectData {
            object: self.object.0@,
            value: opt_view(self.value),
            type_string: self.type_string@,
            numchild: self.numchild,
            dynamic: self.dynamic,
            has_more: self.has_more,
            thread_id: opt_view(self.thread_id),
        }
    }
}

impl View for ChildVariableObject {
    type V = SpecChildVariableObject;

    open spec fn view(&self) -> SpecChildVariableObject {
        SpecChildVariableObject { variable_object: self.variable_object@, exp: self.exp@ }
    }
}

impl View for VariableObjectUpdate {
    type V = SpecVariableObjectUpdate;

    open spec fn view(&self) -> SpecVariableObjectUpdate {
        SpecVariableObjectUpdate {
            object: self.object.0@,
            value: opt_view(self.value),
            in_scope: self.in_scope,
            new_type_string: opt_view(self.new_type_string),
            new_num_children: self.new_num_children,
            has_more: self.has_more,
            dynamic: self.dynamic,
            new_children: children_view(self.new_children@),
        }
    }
}

impl View for ChildList {
    type V = SpecChildList;

    open spec fn view(&self) -> SpecChildList {
        SpecChildList {
            numchild: self.numchild,
            has_more: self.has_more,
            children: children_view(self.children@),
        }
    }
}

} // verus!
