//! Preprocessing of stylesheets to simplify matching.
//!
//! A selector is flattened into a state machine: a sequence of transitions
//! whose states are the indices between them. Jump and branch transitions
//! name their target states by absolute index.

use super::expression::Expression;
use super::selector::{EdgeMatcher, Selector, SelectorPath, SelectorSegment};
use super::stylesheet::{PropertyKey, RawPropertyKey, StyleClause, Stylesheet};
use vstd::prelude::*;

verus! {

/// Transitions of the selector state machine.
#[derive(PartialEq, Eq, Debug)]
pub enum FlatSelectorSegment {
    /// Transition that matches a program state edge.
    MatchEdge(EdgeMatcher),
    /// Transition that matches the current program state node.
    MatchNode,
    /// Transition that takes no input, but requires a condition to be truthy.
    Restrict(Expression),
    /// Epsilon transition to the state with this index.
    Jump(usize),
    /// Double epsilon transition to both the next state and the state with this index.
    Branch(usize),
}

/// Selector flattened to simplify matching against it.
#[derive(PartialEq, Eq, Debug)]
pub struct FlatSelector {
    /// Transitions of the state machine.
    pub path: Vec<FlatSelectorSegment>,
}

// ------------------------------------------------------------------
// Specification
// ------------------------------------------------------------------

/// True if every alternative segment in a segment has at least one alternative.
pub open spec fn segment_ok(seg: SelectorSegment) -> bool
    decreases seg, 0nat,
{
    match seg {
        SelectorSegment::AnyNumberOfTimes(p) => path_ok(p.0@),
        SelectorSegment::Branch(bs) => bs@.len() >= 1 && alternatives_ok(bs@),
        _ => true,
    }
}

/// True if every segment of a path is [`segment_ok`].
pub open spec fn path_ok(segs: Seq<SelectorSegment>) -> bool
    decreases segs, 1nat,
{
    if segs.len() == 0 {
        true
    } else {
        segment_ok(segs[0]) && path_ok(segs.subrange(1, segs.len() as int))
    }
}

/// True if every alternative path is [`path_ok`].
pub open spec fn alternatives_ok(bs: Seq<SelectorPath>) -> bool
    decreases bs, 1nat,
{
    if bs.len() == 0 {
        true
    } else {
        path_ok(bs[0].0@) && alternatives_ok(bs.subrange(1, bs.len() as int))
    }
}

/// Number of transitions that a segment flattens to.
pub open spec fn segment_size(seg: SelectorSegment) -> int
    decreases seg, 0nat,
{
    match seg {
        SelectorSegment::Match(_) => 2,
        SelectorSegment::AnyNumberOfTimes(p) => path_size(p.0@) + 2,
        SelectorSegment::Branch(bs) => bs@.len() - 1 + alternatives_size(bs@),
        SelectorSegment::Condition(_) => 1,
    }
}

/// Number of transitions that a path flattens to.
pub open spec fn path_size(segs: Seq<SelectorSegment>) -> int
    decreases segs, 1nat,
{
    if segs.len() == 0 {
        0
    } else {
        segment_size(segs[0]) + path_size(segs.subrange(1, segs.len() as int))
    }
}

/// Number of transitions that alternative paths flatten to,
/// with an exit jump after each but the last.
pub open spec fn alternatives_size(bs: Seq<SelectorPath>) -> int
    decreases bs, 1nat,
{
    if bs.len() == 0 {
        0
    } else if bs.len() == 1 {
        path_size(bs[0].0@)
    } else {
        path_size(bs[0].0@) + 1 + alternatives_size(bs.subrange(1, bs.len() as int))
    }
}

/// Index of the first state of alternative `k`, when the alternatives are laid
/// out from `pos` on, each but the last followed by an exit jump.
pub open spec fn alternative_start(bs: Seq<SelectorPath>, pos: int, k: int) -> int
    decreases k,
{
    if k <= 0 || bs.len() == 0 {
        pos
    } else {
        alternative_start(bs.subrange(1, bs.len() as int), pos + path_size(bs[0].0@) + 1, k - 1)
    }
}

/// Transitions of a segment whose first transition has index `base`.
///
/// - An edge match commits to the current node, then matches the edge.
/// - A repetition starts with a branch past its end, and its body ends with
///   a jump back to that branch.
/// - Alternatives start with a branch to the start of each alternative but the
///   first; each alternative but the last ends with a jump past all of them.
/// - A condition restricts.
pub open spec fn flat_segment(seg: SelectorSegment, base: int) -> Seq<FlatSelectorSegment>
    decreases seg, 0nat,
{
    match seg {
        SelectorSegment::Match(m) => seq![
            FlatSelectorSegment::MatchNode,
            FlatSelectorSegment::MatchEdge(m),
        ],
        SelectorSegment::AnyNumberOfTimes(p) => seq![
            FlatSelectorSegment::Branch((base + path_size(p.0@) + 2) as usize),
        ] + flat_path(p.0@, base + 1) + seq![FlatSelectorSegment::Jump(base as usize)],
        SelectorSegment::Branch(bs) => {
            let first = base + bs@.len() - 1;
            let end = first + alternatives_size(bs@);
            Seq::new(
                (bs@.len() - 1) as nat,
                |k: int| FlatSelectorSegment::Branch(alternative_start(bs@, first, k + 1) as usize),
            ) + flat_alternatives(bs@, first, end)
        },
        SelectorSegment::Condition(c) => seq![FlatSelectorSegment::Restrict(c)],
    }
}

/// Transitions of a path whose first transition has index `base`.
pub open spec fn flat_path(segs: Seq<SelectorSegment>, base: int) -> Seq<FlatSelectorSegment>
    decreases segs, 1nat,
{
    if segs.len() == 0 {
        seq![]
    } else {
        flat_segment(segs[0], base) + flat_path(
            segs.subrange(1, segs.len() as int),
            base + segment_size(segs[0]),
        )
    }
}

/// Transitions of alternatives laid out from `pos` on, each but the last
/// followed by a jump to `end`.
pub open spec fn flat_alternatives(bs: Seq<SelectorPath>, pos: int, end: int) -> Seq<
    FlatSelectorSegment,
>
    decreases bs, 1nat,
{
    if bs.len() == 0 {
        seq![]
    } else if bs.len() == 1 {
        flat_path(bs[0].0@, pos)
    } else {
        flat_path(bs[0].0@, pos) + seq![FlatSelectorSegment::Jump(end as usize)]
            + flat_alternatives(bs.subrange(1, bs.len() as int), pos + path_size(bs[0].0@) + 1, end)
    }
}

/// The state machine of a selector: its path, then a final node match
/// unless the selector selects an edge.
pub open spec fn flat_selector(s: Selector) -> Seq<FlatSelectorSegment> {
    if s.selects_edge {
        flat_path(s.path.0@, 0)
    } else {
        flat_path(s.path.0@, 0).push(FlatSelectorSegment::MatchNode)
    }
}

// ------------------------------------------------------------------
// Lemmas
// ------------------------------------------------------------------

proof fn lemma_segment_size(seg: SelectorSegment, base: int, end: int)
    requires
        segment_ok(seg),
    ensures
        flat_segment(seg, base).len() == segment_size(seg),
        segment_size(seg) >= 0,
    decreases seg, 0nat,
{
    match seg {
        SelectorSegment::AnyNumberOfTimes(p) => {
            lemma_path_size(p.0@, base + 1);
        },
        SelectorSegment::Branch(bs) => {
            let first = base + bs@.len() - 1;
            lemma_alternatives_size(bs@, first, first + alternatives_size(bs@));
        },
        _ => {},
    }
}

proof fn lemma_path_size(segs: Seq<SelectorSegment>, base: int)
    requires
        path_ok(segs),
    ensures
        flat_path(segs, base).len() == path_size(segs),
        path_size(segs) >= 0,
    decreases segs, 1nat,
{
    if segs.len() > 0 {
        lemma_segment_size(segs[0], base, 0);
        lemma_path_size(segs.subrange(1, segs.len() as int), base + segment_size(segs[0]));
    }
}

proof fn lemma_alternatives_size(bs: Seq<SelectorPath>, pos: int, end: int)
    requires
        alternatives_ok(bs),
    ensures
        flat_alternatives(bs, pos, end).len() == alternatives_size(bs),
        alternatives_size(bs) >= 0,
    decreases bs, 1nat,
{
    if bs.len() == 1 {
        lemma_path_size(bs[0].0@, pos);
    } else if bs.len() > 1 {
        lemma_path_size(bs[0].0@, pos);
        lemma_alternatives_size(
            bs.subrange(1, bs.len() as int),
            pos + path_size(bs[0].0@) + 1,
            end,
        );
    }
}

/// Each alternative starts one exit jump after the end of the previous one.
proof fn lemma_alternative_start_step(bs: Seq<SelectorPath>, pos: int, k: int)
    requires
        0 <= k,
        k + 1 < bs.len(),
    ensures
        alternative_start(bs, pos, k + 1) == alternative_start(bs, pos, k) + path_size(bs[k].0@)
            + 1,
    decreases k,
{
    let rest = bs.subrange(1, bs.len() as int);
    let next = pos + path_size(bs[0].0@) + 1;
    assert(alternative_start(bs, pos, k + 1) == alternative_start(rest, next, k));
    if k > 0 {
        lemma_alternative_start_step(rest, next, k - 1);
        assert(rest[k - 1] == bs[k]);
        assert(alternative_start(bs, pos, k) == alternative_start(rest, next, k - 1));
    } else {
        assert(alternative_start(rest, next, 0) == next);
    }
}

/// The last alternative ends where all of them end.
proof fn lemma_alternatives_end(bs: Seq<SelectorPath>, pos: int)
    requires
        bs.len() >= 1,
    ensures
        pos + alternatives_size(bs) == alternative_start(bs, pos, bs.len() - 1) + path_size(
            bs[bs.len() - 1].0@,
        ),
    decreases bs.len(),
{
    if bs.len() > 1 {
        let rest = bs.subrange(1, bs.len() as int);
        lemma_alternatives_end(rest, pos + path_size(bs[0].0@) + 1);
        assert(rest[rest.len() - 1] == bs[bs.len() - 1]);
    }
}

/// Alternatives that are well formed each flatten to a nonnegative number of transitions.
proof fn lemma_alternative_ok(bs: Seq<SelectorPath>, k: int)
    requires
        alternatives_ok(bs),
        0 <= k < bs.len(),
    ensures
        path_ok(bs[k].0@),
        path_size(bs[k].0@) >= 0,
    decreases k,
{
    lemma_path_size(bs[0].0@, 0);
    if k > 0 {
        let rest = bs.subrange(1, bs.len() as int);
        lemma_alternative_ok(rest, k - 1);
        assert(rest[k - 1] == bs[k]);
    }
}

/// Splitting the alternatives after the first one.
proof fn lemma_alternatives_unfold(bs: Seq<SelectorPath>, pos: int, end: int)
    requires
        bs.len() >= 1,
    ensures
        bs.len() == 1 ==> flat_alternatives(bs, pos, end) == flat_path(bs[0].0@, pos),
        bs.len() > 1 ==> flat_alternatives(bs, pos, end) == flat_path(bs[0].0@, pos) + seq![
            FlatSelectorSegment::Jump(end as usize),
        ] + flat_alternatives(bs.subrange(1, bs.len() as int), pos + path_size(bs[0].0@) + 1, end),
{
}

proof fn lemma_alternative_decreases(seg: SelectorSegment, k: int)
    requires
        seg is Branch,
        0 <= k < seg->Branch_0@.len(),
    ensures
        decreases_to!(seg => seg->Branch_0@[k]),
{
    match seg {
        SelectorSegment::Branch(bs) => {
            assert(decreases_to!(seg => bs));
            assert(decreases_to!(bs => bs@));
            assert(decreases_to!(bs@ => bs@[k]));
        },
        _ => {},
    }
}

// ------------------------------------------------------------------
// Executable flattening
// ------------------------------------------------------------------

fn segment_size_exec(seg: &SelectorSegment) -> (r: usize)
    requires
        segment_ok(*seg),
        segment_size(*seg) <= usize::MAX,
    ensures
        r as int == segment_size(*seg),
    decreases seg,
{
    proof {
        lemma_segment_size(*seg, 0, 0);
    }
    match seg {
        SelectorSegment::Match(_) => 2,
        SelectorSegment::AnyNumberOfTimes(p) => path_size_exec(p) + 2,
        SelectorSegment::Branch(bs) => {
            let n = bs.len();
            let mut total: usize = n - 1;
            let mut k: usize = 0;
            proof {
                lemma_alternatives_end(bs@, 0);
            }
            while k < n
                invariant
                    *seg == SelectorSegment::Branch(*bs),
                    n == bs@.len(),
                    0 <= k <= n,
                    n >= 1,
                    alternatives_ok(bs@),
                    n - 1 + alternatives_size(bs@) <= usize::MAX,
                    0 + alternatives_size(bs@) == alternative_start(bs@, 0, n - 1) + path_size(
                        bs@[n - 1].0@,
                    ),
                    total as int == n - 1 + if k < n {
                        alternative_start(bs@, 0, k as int)
                    } else {
                        alternatives_size(bs@)
                    },
                decreases n - k,
            {
                proof {
                    lemma_alternative_ok(bs@, k as int);
                    lemma_alternatives_start_bound(bs@, 0, k as int);
                    if k + 1 < n {
                        lemma_alternative_start_step(bs@, 0, k as int);
                        lemma_alternatives_start_bound(bs@, 0, (k + 1) as int);
                        lemma_alternative_ok(bs@, (k + 1) as int);
                    }
                }
                proof {
                    lemma_alternative_decreases(*seg, k as int);
                }
                let s = path_size_exec(&bs[k]);
                if k + 1 < n {
                    total = total + s + 1;
                } else {
                    total = total + s;
                }
                k = k + 1;
            }
            total
        },
        SelectorSegment::Condition(_) => 1,
    }
}

/// Every alternative ends no later than all of them end.
proof fn lemma_alternatives_start_bound(bs: Seq<SelectorPath>, pos: int, k: int)
    requires
        alternatives_ok(bs),
        0 <= k < bs.len(),
    ensures
        alternative_start(bs, pos, k) + path_size(bs[k].0@) <= pos + alternatives_size(bs),
        alternative_start(bs, pos, k) >= pos,
    decreases k,
{
    lemma_alternative_ok(bs, 0);
    if k > 0 {
        let rest = bs.subrange(1, bs.len() as int);
        lemma_alternatives_start_bound(rest, pos + path_size(bs[0].0@) + 1, k - 1);
        assert(rest[k - 1] == bs[k]);
    } else {
        if bs.len() > 1 {
            lemma_alternatives_size(bs.subrange(1, bs.len() as int), 0, 0);
        }
    }
}

fn path_size_exec(p: &SelectorPath) -> (r: usize)
    requires
        path_ok(p.0@),
        path_size(p.0@) <= usize::MAX,
    ensures
        r as int == path_size(p.0@),
    decreases p,
{
    let mut total: usize = 0;
    let mut k: usize = 0;
    assert(p.0@.subrange(0, p.0@.len() as int) =~= p.0@);
    while k < p.0.len()
        invariant
            0 <= k <= p.0@.len(),
            path_ok(p.0@.subrange(k as int, p.0@.len() as int)),
            total as int + path_size(p.0@.subrange(k as int, p.0@.len() as int)) == path_size(p.0@),
            path_size(p.0@) <= usize::MAX,
        decreases p.0@.len() - k,
    {
        let ghost rest = p.0@.subrange(k as int, p.0@.len() as int);
        proof {
            assert(rest[0] == p.0@[k as int]);
            assert(rest.subrange(1, rest.len() as int) =~= p.0@.subrange(k + 1, p.0@.len() as int));
            lemma_path_size(rest.subrange(1, rest.len() as int), 0);
            lemma_segment_size(rest[0], 0, 0);
        }
        assert(decreases_to!(*p => p.0@));
        assert(decreases_to!(p.0@ => p.0@[k as int]));
        let s = segment_size_exec(&p.0[k]);
        total = total + s;
        k = k + 1;
    }
    proof {
        assert(p.0@.subrange(k as int, p.0@.len() as int) =~= Seq::<SelectorSegment>::empty());
    }
    total
}

proof fn lemma_segment_decreases(path: SelectorPath, k: int)
    requires
        0 <= k < path.0@.len(),
    ensures
        decreases_to!(path => path.0@[k]),
{
    assert(decreases_to!(path => path.0));
    assert(decreases_to!(path.0 => path.0@));
    assert(decreases_to!(path.0@ => path.0@[k]));
}

proof fn lemma_repetition_decreases(seg: SelectorSegment)
    requires
        seg is AnyNumberOfTimes,
    ensures
        decreases_to!(seg => seg->AnyNumberOfTimes_0),
{
}

/// Appends the transitions of a path to `output`.
fn flatten_selector_path(path: SelectorPath, output: &mut Vec<FlatSelectorSegment>)
    requires
        path_ok(path.0@),
        old(output).len() + path_size(path.0@) <= usize::MAX,
    ensures
        final(output)@ == old(output)@ + flat_path(path.0@, old(output).len() as int),
    decreases path,
{
    let ghost segs = path.0@;
    let ghost base = output.len() as int;
    let ghost whole = path;
    let mut remaining = path.0;
    let mut k: usize = 0;
    assert(remaining@.len() == remaining.len());
    proof {
        assert(segs.subrange(0, segs.len() as int) =~= segs);
        lemma_path_size(segs, base);
    }
    while remaining.len() > 0
        invariant
            whole == path,
            segs == whole.0@,
            segs.len() <= usize::MAX,
            k <= segs.len(),
            remaining@ == segs.subrange(k as int, segs.len() as int),
            path_ok(remaining@),
            old(output)@ + flat_path(segs, base) == output@ + flat_path(
                remaining@,
                output.len() as int,
            ),
            output.len() + path_size(remaining@) <= usize::MAX,
        decreases remaining.len(),
    {
        let ghost rem = remaining@;
        let ghost len0 = output.len() as int;
        let seg = remaining.remove(0);
        proof {
            assert(rem[0] == segs[k as int]);
            lemma_segment_decreases(whole, k as int);
            assert(remaining@ =~= rem.subrange(1, rem.len() as int));
            lemma_segment_size(seg, len0, 0);
            lemma_path_size(remaining@, len0 + segment_size(seg));
        }
        flatten_selector_segment(seg, output);
        proof {
            assert(remaining@ =~= segs.subrange(k + 1, segs.len() as int));
            assert(flat_path(rem, len0) == flat_segment(seg, len0) + flat_path(
                remaining@,
                len0 + segment_size(seg),
            ));
            assert(old(output)@ + flat_path(segs, base) =~= output@ + flat_path(
                remaining@,
                output.len() as int,
            ));
        }
        k = k + 1;
    }
    proof {
        assert(old(output)@ + flat_path(segs, base) =~= output@ + flat_path(
            remaining@,
            output.len() as int,
        ));
        assert(output@ + flat_path(remaining@, output.len() as int) =~= output@);
    }
}

/// Appends the transitions of a segment to `output`.
fn flatten_selector_segment(seg: SelectorSegment, output: &mut Vec<FlatSelectorSegment>)
    requires
        segment_ok(seg),
        old(output).len() + segment_size(seg) <= usize::MAX,
    ensures
        final(output)@ == old(output)@ + flat_segment(seg, old(output).len() as int),
    decreases seg,
{
    let ghost whole = seg;
    let ghost base = output.len() as int;
    match seg {
        SelectorSegment::Match(m) => {
            output.push(FlatSelectorSegment::MatchNode);
            output.push(FlatSelectorSegment::MatchEdge(m));
            proof {
                assert(output@ =~= old(output)@ + flat_segment(whole, base));
            }
        },
        SelectorSegment::AnyNumberOfTimes(p) => {
            let start = output.len();
            output.push(FlatSelectorSegment::Branch(0));
            proof {
                lemma_repetition_decreases(whole);
                lemma_path_size(p.0@, base + 1);
            }
            let ghost before = output@;
            flatten_selector_path(p, output);
            output.push(FlatSelectorSegment::Jump(start));
            let n = output.len();
            output.set(start, FlatSelectorSegment::Branch(n));
            proof {
                assert(output@ =~= old(output)@ + flat_segment(whole, base));
            }
        },
        SelectorSegment::Branch(bs) => {
            flatten_alternatives(bs, output, Ghost(whole));
        },
        SelectorSegment::Condition(c) => {
            output.push(FlatSelectorSegment::Restrict(c));
            proof {
                assert(output@ =~= old(output)@ + flat_segment(whole, base));
            }
        },
    }
}

/// Appends the transitions of alternatives, the segment `whole`, to `output`.
fn flatten_alternatives(
    bs: Vec<SelectorPath>,
    output: &mut Vec<FlatSelectorSegment>,
    Ghost(whole): Ghost<SelectorSegment>,
)
    requires
        whole == SelectorSegment::Branch(bs),
        segment_ok(whole),
        old(output).len() + segment_size(whole) <= usize::MAX,
    ensures
        final(output)@ == old(output)@ + flat_segment(whole, old(output).len() as int),
    decreases whole, 0nat,
{
    let ghost bsv = bs@;
    let start = output.len();
    let n = bs.len();
    proof {
        lemma_alternatives_size(bsv, 0, 0);
    }
    let first = start + (n - 1);
    let ghost end_spec = first + alternatives_size(bsv);
    proof {
        lemma_alternatives_end(bsv, first as int);
        lemma_alternatives_size(bsv, 0, 0);
    }
    let mut pos = first;
    let mut k: usize = 0;
    while k + 1 < n
        invariant
            bsv == bs@,
            n == bsv.len(),
            n >= 1,
            alternatives_ok(bsv),
            first == start + n - 1,
            end_spec == first + alternatives_size(bsv),
            end_spec <= usize::MAX,
            first + alternatives_size(bsv) == alternative_start(bsv, first as int, n - 1)
                + path_size(bsv[n - 1].0@),
            k < n,
            pos as int == alternative_start(bsv, first as int, k as int),
            output@ == old(output)@ + Seq::new(
                k as nat,
                |j: int| FlatSelectorSegment::Branch(alternative_start(bsv, first as int, j + 1) as usize),
            ),
        decreases n - k,
    {
        proof {
            lemma_alternative_ok(bsv, k as int);
            lemma_alternative_start_step(bsv, first as int, k as int);
            lemma_alternatives_start_bound(bsv, first as int, (k + 1) as int);
            lemma_alternative_ok(bsv, (k + 1) as int);
        }
        let s = path_size_exec(&bs[k]);
        pos = pos + s + 1;
        output.push(FlatSelectorSegment::Branch(pos));
        k = k + 1;
        proof {
            assert(output@ =~= old(output)@ + Seq::new(
                k as nat,
                |j: int| FlatSelectorSegment::Branch(alternative_start(bsv, first as int, j + 1) as usize),
            ));
        }
    }
    proof {
        lemma_alternative_ok(bsv, n - 1);
        lemma_alternatives_start_bound(bsv, first as int, n - 1);
    }
    let last = path_size_exec(&bs[n - 1]);
    let end = pos + last;
    let ghost placeholders = output@.subrange(old(output)@.len() as int, output@.len() as int);
    proof {
        assert(output@ =~= old(output)@ + placeholders);
        assert(bsv.subrange(0, n as int) =~= bsv);
    }
    let mut remaining = bs;
    let mut i: usize = 0;
    while remaining.len() > 0
        invariant
            whole == SelectorSegment::Branch(*&whole->Branch_0),
            bsv == whole->Branch_0@,
            n == bsv.len(),
            i <= n,
            remaining@ == bsv.subrange(i as int, n as int),
            alternatives_ok(remaining@),
            end as int == end_spec,
            end_spec <= usize::MAX,
            output.len() + alternatives_size(remaining@) == end_spec,
            old(output)@ + placeholders + flat_alternatives(bsv, first as int, end as int) == output@
                + flat_alternatives(remaining@, output.len() as int, end as int),
        decreases remaining.len(),
    {
        let ghost rem = remaining@;
        let ghost len0 = output.len() as int;
        let b = remaining.remove(0);
        proof {
            assert(rem[0] == bsv[i as int]);
            lemma_alternative_decreases(whole, i as int);
            assert(remaining@ =~= rem.subrange(1, rem.len() as int));
            lemma_alternatives_unfold(rem, len0, end as int);
            lemma_alternative_ok(rem, 0);
            if rem.len() > 1 {
                lemma_alternatives_size(remaining@, 0, 0);
            }
            lemma_path_size(b.0@, len0);
        }
        flatten_selector_path(b, output);
        if remaining.len() > 0 {
            output.push(FlatSelectorSegment::Jump(end));
        }
        proof {
            assert(remaining@ =~= bsv.subrange(i + 1, n as int));
            assert(old(output)@ + placeholders + flat_alternatives(bsv, first as int, end as int)
                =~= output@ + flat_alternatives(remaining@, output.len() as int, end as int));
        }
        i = i + 1;
    }
    proof {
        assert(output@ + flat_alternatives(remaining@, output.len() as int, end as int) =~= output@);
        assert(placeholders =~= Seq::new(
            (n - 1) as nat,
            |j: int| FlatSelectorSegment::Branch(alternative_start(bsv, first as int, j + 1) as usize),
        ));
        assert(output@ =~= old(output)@ + flat_segment(whole, old(output).len() as int));
    }
}

impl FlatSelector {
    /// Flattens a selector into a state machine: its path, then a final
    /// node match unless the selector selects an edge.
    pub fn from(value: Selector) -> (r: FlatSelector)
        requires
            path_ok(value.path.0@),
            path_size(value.path.0@) < usize::MAX,
        ensures
            r.path@ == flat_selector(value),
    {
        let mut path: Vec<FlatSelectorSegment> = Vec::new();
        let selects_edge = value.selects_edge;
        flatten_selector_path(value.path, &mut path);
        if !selects_edge {
            path.push(FlatSelectorSegment::MatchNode);
        }
        proof {
            assert(Seq::<FlatSelectorSegment>::empty() + flat_path(value.path.0@, 0) =~= flat_path(value.path.0@, 0));
        }
        FlatSelector { path }
    }
}

// ------------------------------------------------------------------
// Shape of the state machine
// ------------------------------------------------------------------

/// True if every jump and branch of `s` targets a state between `lo` and `hi`.
pub open spec fn targets_within(s: Seq<FlatSelectorSegment>, lo: int, hi: int) -> bool {
    forall|k: int|
        0 <= k < s.len() ==> match #[trigger] s[k] {
            FlatSelectorSegment::Jump(t) => lo <= t <= hi,
            FlatSelectorSegment::Branch(t) => lo <= t <= hi,
            _ => true,
        }
}

/// True if every edge match comes right after a node match.
pub open spec fn edges_follow_nodes(s: Seq<FlatSelectorSegment>) -> bool {
    forall|k: int|
        0 <= k < s.len() && (#[trigger] s[k]) is MatchEdge ==> k > 0 && s[k - 1] is MatchNode
}

/// True if `s` does not start with an edge match.
pub open spec fn starts_without_edge(s: Seq<FlatSelectorSegment>) -> bool {
    s.len() > 0 ==> !(s[0] is MatchEdge)
}

/// The three shape properties of a piece of the state machine laid out at `lo`.
pub open spec fn well_shaped(s: Seq<FlatSelectorSegment>, lo: int, hi: int) -> bool {
    targets_within(s, lo, hi) && edges_follow_nodes(s) && starts_without_edge(s)
}

proof fn lemma_shape_concat(a: Seq<FlatSelectorSegment>, b: Seq<FlatSelectorSegment>, lo: int, hi: int)
    requires
        well_shaped(a, lo, hi),
        well_shaped(b, lo, hi),
    ensures
        well_shaped(a + b, lo, hi),
{
    let c = a + b;
    assert forall|k: int| 0 <= k < c.len() implies match #[trigger] c[k] {
        FlatSelectorSegment::Jump(t) => lo <= t <= hi,
        FlatSelectorSegment::Branch(t) => lo <= t <= hi,
        _ => true,
    } by {
        if k < a.len() {
            assert(c[k] == a[k]);
        } else {
            assert(c[k] == b[k - a.len()]);
        }
    }
    assert forall|k: int| 0 <= k < c.len() && (#[trigger] c[k]) is MatchEdge implies k > 0 && c[k
        - 1] is MatchNode by {
        if k < a.len() {
            assert(c[k] == a[k]);
            assert(c[k - 1] == a[k - 1]);
        } else {
            assert(c[k] == b[k - a.len()]);
            if k > a.len() {
                assert(c[k - 1] == b[k - 1 - a.len()]);
            }
        }
    }
    if a.len() == 0 {
        assert(c =~= b);
    } else {
        assert(c[0] == a[0]);
    }
}

proof fn lemma_shape_widen(s: Seq<FlatSelectorSegment>, lo: int, hi: int, lo2: int, hi2: int)
    requires
        well_shaped(s, lo, hi),
        lo2 <= lo,
        hi <= hi2,
    ensures
        well_shaped(s, lo2, hi2),
{
    assert forall|k: int| 0 <= k < s.len() implies match #[trigger] s[k] {
        FlatSelectorSegment::Jump(t) => lo2 <= t <= hi2,
        FlatSelectorSegment::Branch(t) => lo2 <= t <= hi2,
        _ => true,
    } by {
        assert(match s[k] {
            FlatSelectorSegment::Jump(t) => lo <= t <= hi,
            FlatSelectorSegment::Branch(t) => lo <= t <= hi,
            _ => true,
        });
    }
}

proof fn lemma_segment_shape(seg: SelectorSegment, base: int)
    requires
        segment_ok(seg),
        0 <= base,
        base + segment_size(seg) <= usize::MAX,
    ensures
        well_shaped(flat_segment(seg, base), base, base + segment_size(seg)),
    decreases seg, 0nat,
{
    lemma_segment_size(seg, base, 0);
    let hi = base + segment_size(seg);
    match seg {
        SelectorSegment::Match(m) => {
            let s = flat_segment(seg, base);
            assert(s[0] is MatchNode);
            assert(s[1] is MatchEdge);
        },
        SelectorSegment::AnyNumberOfTimes(p) => {
            lemma_path_size(p.0@, base + 1);
            lemma_path_shape(p.0@, base + 1);
            let head = seq![FlatSelectorSegment::Branch((base + path_size(p.0@) + 2) as usize)];
            let tail = seq![FlatSelectorSegment::Jump(base as usize)];
            assert(well_shaped(head, base, hi)) by {
                assert(head[0] == FlatSelectorSegment::Branch((base + path_size(p.0@) + 2) as usize));
            }
            assert(well_shaped(tail, base, hi)) by {
                assert(tail[0] == FlatSelectorSegment::Jump(base as usize));
            }
            lemma_shape_widen(flat_path(p.0@, base + 1), base + 1, base + 1 + path_size(p.0@), base, hi);
            lemma_shape_concat(head, flat_path(p.0@, base + 1), base, hi);
            lemma_shape_concat(head + flat_path(p.0@, base + 1), tail, base, hi);
        },
        SelectorSegment::Branch(bs) => {
            let n = bs@.len();
            let first = base + n - 1;
            let end = first + alternatives_size(bs@);
            lemma_alternatives_size(bs@, first, end);
            let phs = Seq::new(
                (n - 1) as nat,
                |k: int| FlatSelectorSegment::Branch(alternative_start(bs@, first, k + 1) as usize),
            );
            assert(well_shaped(phs, base, hi)) by {
                assert forall|k: int| 0 <= k < phs.len() implies match #[trigger] phs[k] {
                    FlatSelectorSegment::Jump(t) => base <= t <= hi,
                    FlatSelectorSegment::Branch(t) => base <= t <= hi,
                    _ => true,
                } by {
                    lemma_alternatives_start_bound(bs@, first, k + 1);
                    lemma_alternative_ok(bs@, k + 1);
                }
            }
            lemma_alternatives_shape(bs@, first, end);
            lemma_shape_widen(flat_alternatives(bs@, first, end), first, end, base, hi);
            lemma_shape_concat(phs, flat_alternatives(bs@, first, end), base, hi);
        },
        SelectorSegment::Condition(c) => {
            let s = flat_segment(seg, base);
            assert(s[0] is Restrict);
        },
    }
}

proof fn lemma_path_shape(segs: Seq<SelectorSegment>, base: int)
    requires
        path_ok(segs),
        0 <= base,
        base + path_size(segs) <= usize::MAX,
    ensures
        well_shaped(flat_path(segs, base), base, base + path_size(segs)),
    decreases segs, 1nat,
{
    lemma_path_size(segs, base);
    if segs.len() > 0 {
        let rest = segs.subrange(1, segs.len() as int);
        let mid = base + segment_size(segs[0]);
        lemma_segment_size(segs[0], base, 0);
        lemma_path_size(rest, mid);
        lemma_segment_shape(segs[0], base);
        lemma_path_shape(rest, mid);
        let hi = base + path_size(segs);
        lemma_shape_widen(flat_segment(segs[0], base), base, mid, base, hi);
        lemma_shape_widen(flat_path(rest, mid), mid, hi, base, hi);
        lemma_shape_concat(flat_segment(segs[0], base), flat_path(rest, mid), base, hi);
    } else {
        assert(well_shaped(flat_path(segs, base), base, base));
    }
}

proof fn lemma_alternatives_shape(bs: Seq<SelectorPath>, pos: int, end: int)
    requires
        alternatives_ok(bs),
        0 <= pos,
        pos + alternatives_size(bs) <= end,
        end <= usize::MAX,
    ensures
        well_shaped(flat_alternatives(bs, pos, end), pos, end),
    decreases bs, 1nat,
{
    lemma_alternatives_size(bs, pos, end);
    if bs.len() == 1 {
        lemma_path_shape(bs[0].0@, pos);
        lemma_shape_widen(flat_path(bs[0].0@, pos), pos, pos + path_size(bs[0].0@), pos, end);
    } else if bs.len() > 1 {
        let rest = bs.subrange(1, bs.len() as int);
        let next = pos + path_size(bs[0].0@) + 1;
        lemma_path_size(bs[0].0@, pos);
        lemma_alternatives_size(rest, next, end);
        lemma_path_shape(bs[0].0@, pos);
        lemma_shape_widen(flat_path(bs[0].0@, pos), pos, pos + path_size(bs[0].0@), pos, end);
        let jump = seq![FlatSelectorSegment::Jump(end as usize)];
        assert(well_shaped(jump, pos, end)) by {
            assert(jump[0] == FlatSelectorSegment::Jump(end as usize));
        }
        lemma_alternatives_shape(rest, next, end);
        lemma_shape_widen(flat_alternatives(rest, next, end), next, end, pos, end);
        lemma_shape_concat(flat_path(bs[0].0@, pos), jump, pos, end);
        lemma_shape_concat(flat_path(bs[0].0@, pos) + jump, flat_alternatives(rest, next, end), pos, end);
    } else {
        assert(well_shaped(flat_alternatives(bs, pos, end), pos, end));
    }
}

/// The state machine of a well-formed selector has one transition per flattened
/// step plus a final node match unless it selects an edge; every jump and branch
/// targets one of its own states (the states are the indices up to its length);
/// every edge match directly follows a node match, which bounds how many times
/// a resolution can traverse each edge; and unless the selector selects an edge,
/// the last transition matches the selected node.
pub proof fn lemma_flat_selector_shape(s: Selector)
    requires
        path_ok(s.path.0@),
        path_size(s.path.0@) < usize::MAX,
    ensures
        flat_selector(s).len() == path_size(s.path.0@) + if s.selects_edge { 0int } else { 1int },
        targets_within(flat_selector(s), 0, flat_selector(s).len() as int),
        edges_follow_nodes(flat_selector(s)),
        !s.selects_edge ==> flat_selector(s).last() is MatchNode,
{
    let p = flat_path(s.path.0@, 0);
    lemma_path_size(s.path.0@, 0);
    lemma_path_shape(s.path.0@, 0);
    if !s.selects_edge {
        let tail = seq![FlatSelectorSegment::MatchNode];
        assert(well_shaped(tail, 0, p.len() as int)) by {
            assert(tail[0] == FlatSelectorSegment::MatchNode);
        }
        lemma_shape_widen(p, 0, p.len() as int, 0, (p.len() + 1) as int);
        lemma_shape_widen(tail, 0, p.len() as int, 0, (p.len() + 1) as int);
        lemma_shape_concat(p, tail, 0, (p.len() + 1) as int);
        assert(p.push(FlatSelectorSegment::MatchNode) =~= p + tail);
    }
}

// ------------------------------------------------------------------
// Compiled stylesheets
// ------------------------------------------------------------------

/// Compiled bundle of selectors, one per rule.
#[derive(Debug)]
pub struct CascadeSelector(pub Vec<FlatSelector>);

/// Body of a single rule in a compiled [`CascadeStyle`].
#[derive(Debug)]
pub struct CascadeStyleRule<K: PropertyKey = RawPropertyKey> {
    /// Selects an extra element attached to the matched node or edge, if set.
    pub extra_label: Option<String>,
    /// Properties in the body of the original rule.
    pub properties: Vec<StyleClause<K>>,
}

/// Compiled stylesheet that can be used to evaluate the cascade.
#[derive(Debug)]
pub struct CascadeStyle<K: PropertyKey = RawPropertyKey> {
    selectors: CascadeSelector,
    rules: Vec<CascadeStyleRule<K>>,
}

/// True if every selector of a stylesheet can be flattened.
pub open spec fn stylesheet_ok<K: PropertyKey>(sheet: Stylesheet<K>) -> bool {
    forall|i: int|
        0 <= i < sheet.0@.len() ==> path_ok((#[trigger] sheet.0@[i]).selector.path.0@)
            && path_size(sheet.0@[i].selector.path.0@) < usize::MAX
}

impl<K: PropertyKey> CascadeStyle<K> {
    /// The compiled selectors, one per rule.
    pub closed spec fn selector_seq(&self) -> Seq<FlatSelector> {
        self.selectors.0@
    }

    /// The rule bodies, one per rule.
    pub closed spec fn rule_seq(&self) -> Seq<CascadeStyleRule<K>> {
        self.rules@
    }

    /// Compiles a stylesheet: each rule's selector is flattened and its
    /// extra label moves to the rule's body.
    pub fn from(value: Stylesheet<K>) -> (r: CascadeStyle<K>)
        requires
            stylesheet_ok(value),
        ensures
            r.selector_seq().len() == value.0@.len(),
            r.rule_seq().len() == value.0@.len(),
            forall|i: int|
                0 <= i < value.0@.len() ==> (#[trigger] r.selector_seq()[i]).path@ == flat_selector(
                    value.0@[i].selector,
                ),
            forall|i: int|
                0 <= i < value.0@.len() ==> (#[trigger] r.rule_seq()[i]).extra_label
                    == value.0@[i].selector.extra && r.rule_seq()[i].properties
                    == value.0@[i].properties,
    {
        let ghost original = value.0@;
        let mut remaining = value.0;
        let mut selectors: Vec<FlatSelector> = Vec::new();
        let mut rules: Vec<CascadeStyleRule<K>> = Vec::new();
        let mut i: usize = 0;
        assert(remaining@.len() == remaining.len());
        while remaining.len() > 0
            invariant
                remaining@ == original.skip(i as int),
                i + remaining.len() == original.len(),
                original.len() <= usize::MAX,
                forall|j: int|
                    0 <= j < original.len() ==> path_ok((#[trigger] original[j]).selector.path.0@)
                        && path_size(original[j].selector.path.0@) < usize::MAX,
                selectors@.len() == i,
                rules@.len() == i,
                forall|j: int|
                    0 <= j < i ==> (#[trigger] selectors@[j]).path@ == flat_selector(
                        original[j].selector,
                    ),
                forall|j: int|
                    0 <= j < i ==> (#[trigger] rules@[j]).extra_label == original[j].selector.extra
                        && rules@[j].properties == original[j].properties,
            decreases remaining.len(),
        {
            let rule = remaining.remove(0);
            proof {
                assert(original.skip(i as int)[0] == original[i as int]);
                assert(original.skip(i + 1) =~= original.skip(i as int).drop_first());
            }
            let selector = rule.selector;
            let extra_label = selector.extra;
            let flat = FlatSelector::from(Selector { path: selector.path, selects_edge: selector.selects_edge, extra: None });
            selectors.push(flat);
            rules.push(CascadeStyleRule { extra_label, properties: rule.properties });
            i = i + 1;
        }
        CascadeStyle { selectors: CascadeSelector(selectors), rules }
    }

    /// Gets the compiled selectors of the stylesheet.
    pub fn selector_machine(&self) -> (r: &CascadeSelector)
        ensures
            r.0@ == self.selector_seq(),
    {
        &self.selectors
    }

    /// Gets the rule at an index; every index of a selector in
    /// [`CascadeStyle::selector_machine`] is valid.
    pub fn rule_at(&self, index: usize) -> (r: &CascadeStyleRule<K>)
        requires
            index < self.rule_seq().len(),
        ensures
            *r == self.rule_seq()[index as int],
    {
        &self.rules[index]
    }
}

} // verus!
