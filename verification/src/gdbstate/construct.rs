//! Decisions that building a state graph from GDB's answers takes:
//! how values and type names read, and what kind of container a node is.

use crate::gdbmi::types::ChildVariableObject;
use crate::model::state::{NodeTypeClass, NodeValue};
use crate::text::{chars_of, parse_unsigned_range, spec_parse_i64, spec_parse_unsigned, is_digit};
use vstd::prelude::*;

verus! {

// ------------------------------------------------------------------
// Values
// ------------------------------------------------------------------

/// What the pattern `^([+\-]?(?:0[xX])?[\da-fA-F]+)\s*(?:'.*'|".*")$` of the
/// `regex` crate captures in its first group when it matches `s`: GDB prints
/// characters and character pointers as a number followed by the quoted text.
pub uninterp spec fn char_value_capture(s: Seq<char>) -> Option<Seq<char>>;

/// Matches `s` against the pattern of [`char_value_capture`] with
/// `regex::Regex::captures`, and returns the first group if it matched.
///
/// The contract claims only that the result is the name applied to the
/// input: the regular expression engine is not described here.
#[verifier::external_body]
fn char_value_prefix(s: &str) -> (r: Option<String>)
    ensures
        match char_value_capture(s@) {
            Some(c) => r matches Some(x) && x@ == c,
            None => r is None,
        },
{
    let re = regex::Regex::new(r#"^([+\-]?(?:0[xX])?[\da-fA-F]+)\s*(?:'.*'|".*")$"#).unwrap();
    match re.captures(s) {
        Some(caps) => match caps.get(1) {
            Some(m) => Some(m.as_str().to_string()),
            None => None,
        },
        None => None,
    }
}

/// The value that a number printed by GDB stands for: an unsigned decimal,
/// else a signed decimal, else a hexadecimal number after `0x`.
pub open spec fn spec_numeric_value(s: Seq<char>) -> Option<NodeValue> {
    match spec_parse_unsigned(s, 10, u64::MAX as int) {
        Some(u) => Some(NodeValue::Uint(u as u64)),
        None => match spec_parse_i64(s) {
            Some(i) => Some(NodeValue::Int(i as i64)),
            None => if s.len() >= 2 && s[0] == '0' && s[1] == 'x' {
                match spec_parse_unsigned(s.skip(2), 16, u64::MAX as int) {
                    Some(u) => Some(NodeValue::Uint(u as u64)),
                    None => None,
                }
            } else {
                None
            },
        },
    }
}

/// The value of a node as GDB prints it: when the text is a number followed
/// by quoted characters, only the number counts.
pub open spec fn spec_node_value(s: Seq<char>) -> Option<NodeValue> {
    match char_value_capture(s) {
        Some(c) => spec_numeric_value(c),
        None => spec_numeric_value(s),
    }
}

/// Reads a number as GDB prints it: an unsigned decimal, else a signed
/// decimal, else a hexadecimal number after `0x`; anything else (a structure
/// or an array) has no value.
pub fn parse_numeric_value(s: &str) -> (r: Option<NodeValue>)
    ensures
        r == spec_numeric_value(s@),
{
    let v = chars_of(s);
    let n = v.len();
    proof {
        assert(v@.subrange(0, n as int) =~= s@);
    }
    match parse_unsigned_range(&v, 0, n, 10, u64::MAX) {
        Some(u) => return Some(NodeValue::Uint(u)),
        None => {},
    }
    match crate::text::parse_i64(s) {
        Some(i) => return Some(NodeValue::Int(i)),
        None => {},
    }
    if n >= 2 && v[0] == '0' && v[1] == 'x' {
        proof {
            assert(v@.subrange(2, n as int) =~= s@.skip(2));
        }
        match parse_unsigned_range(&v, 2, n, 16, u64::MAX) {
            Some(u) => Some(NodeValue::Uint(u)),
            None => None,
        }
    } else {
        None
    }
}

/// Reads the value of a node from the text GDB prints for it.
pub fn parse_node_value(s: &str) -> (r: Option<NodeValue>)
    ensures
        r == spec_node_value(s@),
{
    match char_value_prefix(s) {
        Some(number) => parse_numeric_value(number.as_str()),
        None => parse_numeric_value(s),
    }
}

// ------------------------------------------------------------------
// Type names
// ------------------------------------------------------------------

/// `s` without the prefix `p`, if it starts with it.
pub open spec fn strip_prefix(s: Seq<char>, p: Seq<char>) -> Seq<char> {
    if s.len() >= p.len() && s.take(p.len() as int) == p {
        s.skip(p.len() as int)
    } else {
        s
    }
}

/// A C type name without a leading `const ` and then without a leading `struct `.
pub open spec fn spec_preprocess_type(name: Seq<char>) -> Seq<char> {
    strip_prefix(strip_prefix(name, "const "@), "struct "@)
}

fn strip_prefix_exec(s: String, p: &str) -> (r: String)
    ensures
        r@ == strip_prefix(s@, p@),
{
    let n = s.as_str().unicode_len();
    let m = p.unicode_len();
    if n >= m && crate::text::str_eq(s.as_str().substring_char(0, m), p) {
        proof {
            assert(s@.subrange(0, m as int) =~= s@.take(m as int));
            assert(s@.subrange(m as int, n as int) =~= s@.skip(m as int));
        }
        s.as_str().substring_char(m, n).to_string()
    } else {
        proof {
            if n >= m {
                assert(s@.subrange(0, m as int) =~= s@.take(m as int));
            }
        }
        s
    }
}

/// Removes the `const ` qualifier and then the `struct ` keyword from the
/// start of a C type name.
pub fn preprocess_type_name(name: String) -> (r: String)
    ensures
        r@ == spec_preprocess_type(name@),
{
    let name = strip_prefix_exec(name, "const ");
    strip_prefix_exec(name, "struct ")
}

// ------------------------------------------------------------------
// Containers
// ------------------------------------------------------------------

/// Categories of types that GDB reports as having child variables.
#[derive(Clone, Copy, PartialEq, Eq, Debug, Structural)]
pub enum ContainerKind {
    /// Structure type, corresponds to [`NodeTypeClass::Struct`].
    Struct,
    /// Plain array type, corresponds to [`NodeTypeClass::Array`].
    Array,
    /// Raw pointer type, corresponds to [`NodeTypeClass::Ref`].
    Pointer,
}

impl From<ContainerKind> for NodeTypeClass {
    fn from(value: ContainerKind) -> (r: Self) {
        match value {
            ContainerKind::Struct => NodeTypeClass::Struct,
            ContainerKind::Array => NodeTypeClass::Array,
            ContainerKind::Pointer => NodeTypeClass::Ref,
        }
    }
}

impl vstd::std_specs::convert::FromSpecImpl<ContainerKind> for NodeTypeClass {
    open spec fn obeys_from_spec() -> bool {
        true
    }

    open spec fn from_spec(v: ContainerKind) -> Self {
        match v {
            ContainerKind::Struct => NodeTypeClass::Struct,
            ContainerKind::Array => NodeTypeClass::Array,
            ContainerKind::Pointer => NodeTypeClass::Ref,
        }
    }
}

/// True if every character is an ASCII decimal digit (true of the empty name).
pub open spec fn is_decimal_name(s: Seq<char>) -> bool {
    forall|i: int| 0 <= i < s.len() ==> is_digit(#[trigger] s[i])
}

/// The kind of container that the names of its children reveal: none without
/// children; a pointer when the only child's name starts with `*`; an array
/// when every name is a decimal number; a structure otherwise.
pub open spec fn spec_container_kind(names: Seq<Seq<char>>) -> Option<ContainerKind> {
    if names.len() == 0 {
        None
    } else if names.len() == 1 && names[0].len() > 0 && names[0][0] == '*' {
        Some(ContainerKind::Pointer)
    } else if forall|i: int| 0 <= i < names.len() ==> is_decimal_name(#[trigger] names[i]) {
        Some(ContainerKind::Array)
    } else {
        Some(ContainerKind::Struct)
    }
}

/// The names (`exp`) of child variable objects.
pub open spec fn child_names(children: Seq<ChildVariableObject>) -> Seq<Seq<char>> {
    children.map_values(|c: ChildVariableObject| c.exp@)
}

fn is_decimal_name_exec(s: &str) -> (r: bool)
    ensures
        r == is_decimal_name(s@),
{
    let n = s.unicode_len();
    let mut i: usize = 0;
    while i < n
        invariant
            n == s@.len(),
            i <= n,
            forall|j: int| 0 <= j < i ==> is_digit(#[trigger] s@[j]),
        decreases n - i,
    {
        let c = s.get_char(i);
        if !('0' <= c && c <= '9') {
            return false;
        }
        i += 1;
    }
    true
}

impl ContainerKind {
    /// Deduces what kind of container a node is from the names that GDB
    /// gave its children.
    pub fn deduce_from_children(children: &Vec<ChildVariableObject>) -> (r: Option<ContainerKind>)
        ensures
            r == spec_container_kind(child_names(children@)),
    {
        let ghost names = child_names(children@);
        let n = children.len();
        if n == 0 {
            return None;
        }
        let first = children[0].exp.as_str();
        assert(names[0] == first@);
        if n == 1 && first.unicode_len() > 0 && first.get_char(0) == '*' {
            return Some(ContainerKind::Pointer);
        }
        let mut i: usize = 0;
        while i < n
            invariant
                n == children@.len(),
                names == child_names(children@),
                !(n == 1 && names[0].len() > 0 && names[0][0] == '*'),
                i <= n,
                forall|j: int| 0 <= j < i ==> is_decimal_name(#[trigger] names[j]),
            decreases n - i,
        {
            if !is_decimal_name_exec(children[i].exp.as_str()) {
                assert(!is_decimal_name(names[i as int]));
                return Some(ContainerKind::Struct);
            }
            i += 1;
        }
        Some(ContainerKind::Array)
    }
}

// ------------------------------------------------------------------
// Expressions sent to GDB
// ------------------------------------------------------------------

/// `*(<type>)<address>`: the object that a pointer of a type points to.
pub fn dereference_expression(pointer_type: &str, address: u64) -> (r: String)
    ensures
        r@ == "*("@ + pointer_type@ + ")"@ + crate::gdbmi::session::decimal_text(address as nat),
{
    let mut out: Vec<char> = Vec::new();
    crate::text::push_str(&mut out, "*(");
    crate::text::push_str(&mut out, pointer_type);
    crate::text::push_str(&mut out, ")");
    crate::gdbmi::session::push_decimal(&mut out, address);
    crate::text::string_from_chars(&out)
}

/// `*(char*)<address>`: a probe of whether an address can be read.
pub fn address_probe_expression(address: u64) -> (r: String)
    ensures
        r@ == "*(char*)"@ + crate::gdbmi::session::decimal_text(address as nat),
{
    let mut out: Vec<char> = Vec::new();
    crate::text::push_str(&mut out, "*(char*)");
    crate::gdbmi::session::push_decimal(&mut out, address);
    crate::text::string_from_chars(&out)
}

/// `(unsigned long long)&(<name>)`: the address of a variable, as a number.
pub fn address_of_expression(name: &str) -> (r: String)
    ensures
        r@ == "(unsigned long long)&("@ + name@ + ")"@,
{
    let mut out: Vec<char> = Vec::new();
    crate::text::push_str(&mut out, "(unsigned long long)&(");
    crate::text::push_str(&mut out, name);
    crate::text::push_str(&mut out, ")");
    crate::text::string_from_chars(&out)
}

/// `::<name>`: a global variable.
pub fn global_variable_expression(name: &str) -> (r: String)
    ensures
        r@ == "::"@ + name@,
{
    let mut out: Vec<char> = Vec::new();
    crate::text::push_str(&mut out, "::");
    crate::text::push_str(&mut out, name);
    crate::text::string_from_chars(&out)
}

// ------------------------------------------------------------------
// Local variables
// ------------------------------------------------------------------

/// Lexicographic order of character sequences by code point, which is the
/// order of `String`s (byte-wise order of UTF-8 agrees with it).
pub open spec fn lex_lt(a: Seq<char>, b: Seq<char>) -> bool
    decreases a.len(),
{
    if a.len() == 0 {
        b.len() > 0
    } else if b.len() == 0 {
        false
    } else if a[0] < b[0] {
        true
    } else if a[0] > b[0] {
        false
    } else {
        lex_lt(a.drop_first(), b.drop_first())
    }
}

/// The lexicographic order is a strict total order.
pub proof fn lemma_lex_order(a: Seq<char>, b: Seq<char>, c: Seq<char>)
    ensures
        !lex_lt(a, a),
        a != b ==> lex_lt(a, b) || lex_lt(b, a),
        !(lex_lt(a, b) && lex_lt(b, a)),
        lex_lt(a, b) && lex_lt(b, c) ==> lex_lt(a, c),
    decreases a.len(),
{
    if a.len() > 0 && b.len() > 0 && c.len() > 0 {
        lemma_lex_order(a.drop_first(), b.drop_first(), c.drop_first());
    }
    if a.len() > 0 && b.len() > 0 {
        lemma_lex_order(a.drop_first(), b.drop_first(), a.drop_first());
        if a != b && a[0] == b[0] {
            assert(a.drop_first() != b.drop_first()) by {
                if a.drop_first() == b.drop_first() {
                    assert(a =~= seq![a[0]] + a.drop_first());
                    assert(b =~= seq![b[0]] + b.drop_first());
                }
            }
        }
    }
    if a.len() > 0 {
        lemma_lex_order(a.drop_first(), a.drop_first(), a.drop_first());
    }
    if a.len() == 0 && b.len() == 0 {
        assert(a =~= b);
    }
}

fn lex_lt_exec(a: &str, b: &str) -> (r: bool)
    ensures
        r == lex_lt(a@, b@),
{
    let n = a.unicode_len();
    let m = b.unicode_len();
    let mut i: usize = 0;
    assert(a@.skip(0) =~= a@);
    assert(b@.skip(0) =~= b@);
    while i < n && i < m
        invariant
            n == a@.len(),
            m == b@.len(),
            i <= n,
            i <= m,
            lex_lt(a@, b@) == lex_lt(a@.skip(i as int), b@.skip(i as int)),
        decreases n - i,
    {
        let x = a.get_char(i);
        let y = b.get_char(i);
        assert(a@.skip(i as int)[0] == x);
        assert(b@.skip(i as int)[0] == y);
        if x < y {
            return true;
        }
        if x > y {
            return false;
        }
        assert(a@.skip(i as int).drop_first() =~= a@.skip(i + 1));
        assert(b@.skip(i as int).drop_first() =~= b@.skip(i + 1));
        i += 1;
    }
    proof {
        if i >= n {
            assert(a@.skip(i as int).len() == 0);
        } else {
            assert(b@.skip(i as int).len() == 0);
        }
    }
    i < m && i >= n
}

/// True if `s` comes after `p` in lexicographic order (everything comes after `None`).
pub open spec fn above(p: Option<Seq<char>>, s: Seq<char>) -> bool {
    match p {
        None => true,
        Some(q) => lex_lt(q, s),
    }
}

/// Number of names that come after `p`.
pub open spec fn count_above(names: Seq<Seq<char>>, p: Option<Seq<char>>) -> nat
    decreases names.len(),
{
    if names.len() == 0 {
        0
    } else {
        count_above(names.drop_last(), p) + if above(p, names.last()) {
            1nat
        } else {
            0nat
        }
    }
}

/// Number of occurrences of a name.
pub open spec fn occurrences(names: Seq<Seq<char>>, s: Seq<char>) -> nat
    decreases names.len(),
{
    if names.len() == 0 {
        0
    } else {
        occurrences(names.drop_last(), s) + if names.last() == s {
            1nat
        } else {
            0nat
        }
    }
}

/// The names of local variables.
pub open spec fn local_names(locals: Seq<crate::gdbmi::types::LocalVariable>) -> Seq<Seq<char>> {
    locals.map_values(|l: crate::gdbmi::types::LocalVariable| l.name@)
}

proof fn lemma_count_above_mono(names: Seq<Seq<char>>, p: Option<Seq<char>>, q: Option<Seq<char>>)
    requires
        forall|k: int| 0 <= k < names.len() && above(q, #[trigger] names[k]) ==> above(p, names[k]),
    ensures
        count_above(names, q) <= count_above(names, p),
    decreases names.len(),
{
    if names.len() > 0 {
        let rest = names.drop_last();
        assert forall|k: int| 0 <= k < rest.len() && above(q, #[trigger] rest[k]) implies above(p, rest[k]) by {
            assert(rest[k] == names[k]);
        }
        lemma_count_above_mono(rest, p, q);
        assert(names.last() == names[names.len() - 1]);
    }
}

proof fn lemma_count_above_drops(names: Seq<Seq<char>>, p: Option<Seq<char>>, q: Option<Seq<char>>, b: int)
    requires
        forall|k: int| 0 <= k < names.len() && above(q, #[trigger] names[k]) ==> above(p, names[k]),
        0 <= b < names.len(),
        above(p, names[b]),
        !above(q, names[b]),
    ensures
        count_above(names, q) < count_above(names, p),
    decreases names.len(),
{
    let rest = names.drop_last();
    assert forall|k: int| 0 <= k < rest.len() && above(q, #[trigger] rest[k]) implies above(p, rest[k]) by {
        assert(rest[k] == names[k]);
    }
    if b == names.len() - 1 {
        lemma_count_above_mono(rest, p, q);
    } else {
        assert(rest[b] == names[b]);
        lemma_count_above_drops(rest, p, q, b);
        assert(names.last() == names[names.len() - 1]);
    }
}

proof fn lemma_occurrences_positive(names: Seq<Seq<char>>, b: int)
    requires
        0 <= b < names.len(),
    ensures
        occurrences(names, names[b]) >= 1,
    decreases names.len(),
{
    if b < names.len() - 1 {
        let rest = names.drop_last();
        assert(rest[b] == names[b]);
        lemma_occurrences_positive(rest, b);
    }
}

fn count_occurrences(locals: &Vec<crate::gdbmi::types::LocalVariable>, name: &str) -> (r: usize)
    ensures
        r == occurrences(local_names(locals@), name@),
{
    let ghost names = local_names(locals@);
    let mut count: usize = 0;
    let mut k: usize = 0;
    while k < locals.len()
        invariant
            names == local_names(locals@),
            k <= locals@.len(),
            count == occurrences(names.take(k as int), name@),
            count <= k,
        decreases locals.len() - k,
    {
        proof {
            assert(names.take(k + 1).drop_last() =~= names.take(k as int));
            assert(names[k as int] == locals@[k as int].name@);
        }
        if crate::text::str_eq(locals[k].name.as_str(), name) {
            count = count + 1;
        }
        k += 1;
    }
    proof {
        assert(names.take(k as int) =~= names);
    }
    count
}

/// Groups local variables by name, in lexicographic order of the names:
/// each name comes with the number of other variables of the same name
/// (variables that shadow one another).
pub fn group_local_names(locals: &Vec<crate::gdbmi::types::LocalVariable>) -> (r: Vec<(String, usize)>)
    ensures
        forall|i: int, j: int| 0 <= i < j < r@.len() ==> lex_lt(r@[i].0@, r@[j].0@),
        forall|i: int|
            0 <= i < r@.len() ==> occurrences(local_names(locals@), (#[trigger] r@[i]).0@) == r@[i].1 + 1,
        forall|k: int|
            0 <= k < locals@.len() ==> exists|i: int| 0 <= i < r@.len() && (#[trigger] r@[i]).0@ == #[trigger] local_names(locals@)[k],
{
    let ghost names = local_names(locals@);
    let n = locals.len();
    let mut out: Vec<(String, usize)> = Vec::new();
    let mut prev: Option<String> = None;
    loop
        invariant
            names == local_names(locals@),
            n == locals@.len(),
            forall|i: int, j: int| 0 <= i < j < out@.len() ==> lex_lt(out@[i].0@, out@[j].0@),
            forall|i: int|
                0 <= i < out@.len() ==> occurrences(names, (#[trigger] out@[i]).0@) == out@[i].1 + 1,
            prev is None <==> out@.len() == 0,
            prev matches Some(p) ==> p@ == out@.last().0@,
            forall|k: int|
                0 <= k < n && !above(
                    crate::gdbmi::types::opt_view(prev),
                    #[trigger] names[k],
                ) ==> exists|i: int| 0 <= i < out@.len() && (#[trigger] out@[i]).0@ == names[k],
        decreases count_above(
            names,
            crate::gdbmi::types::opt_view(prev),
        ),
    {
        let ghost pv = crate::gdbmi::types::opt_view(prev);
        let mut best: Option<usize> = None;
        let mut k: usize = 0;
        while k < n
            invariant
                names == local_names(locals@),
                n == locals@.len(),
                k <= n,
                pv == crate::gdbmi::types::opt_view(prev),
                best matches Some(b) ==> b < k && above(pv, names[b as int]) && forall|j: int|
                    0 <= j < k && above(pv, #[trigger] names[j]) ==> !lex_lt(names[j], names[b as int]),
                best is None ==> forall|j: int| 0 <= j < k ==> !above(pv, #[trigger] names[j]),
            decreases n - k,
        {
            assert(names[k as int] == locals@[k as int].name@);
            let is_above = match &prev {
                None => true,
                Some(p) => lex_lt_exec(p.as_str(), locals[k].name.as_str()),
            };
            if is_above {
                match best {
                    None => {
                        best = Some(k);
                        proof {
                            assert forall|j: int| 0 <= j < k + 1 && above(pv, #[trigger] names[j]) implies !lex_lt(names[j], names[k as int]) by {
                                lemma_lex_order(names[j], names[j], names[j]);
                            }
                        }
                    },
                    Some(b) => {
                        assert(names[b as int] == locals@[b as int].name@);
                        if lex_lt_exec(locals[k].name.as_str(), locals[b].name.as_str()) {
                            best = Some(k);
                            proof {
                                assert forall|j: int| 0 <= j < k + 1 && above(pv, #[trigger] names[j]) implies !lex_lt(names[j], names[k as int]) by {
                                    lemma_lex_order(names[j], names[k as int], names[b as int]);
                                    lemma_lex_order(names[k as int], names[k as int], names[k as int]);
                                    if j < k {
                                        lemma_lex_order(names[j], names[b as int], names[k as int]);
                                    }
                                }
                            }
                        }
                    },
                }
            }
            k += 1;
        }
        match best {
            None => {
                proof {
                    assert forall|i: int, j: int| 0 <= i < j < out@.len() implies lex_lt(out@[i].0@, out@[j].0@) by {}
                    assert forall|k2: int| 0 <= k2 < locals@.len() implies exists|i: int| 0 <= i < out@.len() && (#[trigger] out@[i]).0@ == #[trigger] local_names(locals@)[k2] by {
                        assert(!above(pv, names[k2]));
                    }
                }
                return out;
            },
            Some(b) => {
                assert(names[b as int] == locals@[b as int].name@);
                let count = count_occurrences(locals, locals[b].name.as_str());
                proof {
                    lemma_occurrences_positive(names, b as int);
                }
                let name = locals[b].name.clone();
                let ghost chosen = name@;
                let ghost old_out = out@;
                out.push((name.clone(), count - 1));
                prev = Some(name);
                proof {
                    let npv = Some(chosen);
                    assert forall|i: int, j: int| 0 <= i < j < out@.len() implies lex_lt(out@[i].0@, out@[j].0@) by {
                        if j == out@.len() - 1 && i < j {
                            if old_out.len() > 0 {
                                let last = old_out.len() - 1;
                                if i < last {
                                    lemma_lex_order(old_out[i].0@, old_out[last].0@, chosen);
                                }
                            }
                        } else {
                            assert(out@[i] == old_out[i] && out@[j] == old_out[j]);
                        }
                    }
                    assert forall|i: int| 0 <= i < out@.len() implies occurrences(names, (#[trigger] out@[i]).0@) == out@[i].1 + 1 by {
                        if i < old_out.len() {
                            assert(out@[i] == old_out[i]);
                        }
                    }
                    assert forall|k2: int| 0 <= k2 < n && !above(npv, #[trigger] names[k2]) implies exists|i: int| 0 <= i < out@.len() && (#[trigger] out@[i]).0@ == names[k2] by {
                        if above(pv, names[k2]) {
                            lemma_lex_order(chosen, names[k2], chosen);
                            assert(names[k2] == chosen);
                            assert(out@[out@.len() - 1].0@ == names[k2]);
                        } else {
                            let i = choose|i: int| 0 <= i < old_out.len() && (#[trigger] old_out[i]).0@ == names[k2];
                            assert(out@[i] == old_out[i]);
                        }
                    }
                    assert forall|k2: int| 0 <= k2 < names.len() && above(npv, #[trigger] names[k2]) implies above(pv, names[k2]) by {
                        match pv {
                            Some(q) => {
                                lemma_lex_order(q, chosen, names[k2]);
                            },
                            None => {},
                        }
                    }
                    lemma_lex_order(chosen, chosen, chosen);
                    lemma_count_above_drops(names, pv, npv, b as int);
                }
            },
        }
    }
}

} // verus!
