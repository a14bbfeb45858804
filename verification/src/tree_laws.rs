//! Trees with the same nodes are the same to the library.
//!
//! A syntax tree is known by its nodes in preorder. Here stands what follows from
//! equal nodes: that two such trees have the same shape, and that what is read of
//! a node is the same in both.

use vstd::prelude::*;
use crate::constructs::{
    calls, child_calls, child_evaluates, child_exit_argument, evaluates, exit_argument, jumps,
    names_jump, raise_evaluates, written_constructor, written_exception, written_parts,
};
use crate::exception_types::{
    constructor_among, constructor_call, handler_fact_of, raised_constructor, raised_fact_of,
    IndexModel,
};
use crate::labels::{
    branch_at, content_among, else_among, last_branch, plan_of,
    planned, planned_branch, planned_branches, planned_field, planned_named, PlanModel,
};
use crate::scope_graph::{
    case_selector, child_holds_goto, default_before, finalizer_holds_goto, holds_goto, last_under,
    selected, Selection,
};
use crate::syntax::{
    any_field, count_hits, find_from, hit, module_from, preorder_list, Query, SyntaxNode,
};
use crate::unit_types::{
    directive_from, directive_in, first_name, first_name_from, generic_syntax, generic_syntax_from,
    name_parts_of, section_visibility, type_parts_of,
};

verus! {

// The relation ---------------------------------------------------------------------------------

/// Two nodes with the same facts whose children are alike, one by one.
pub closed spec fn alike(a: SyntaxNode, b: SyntaxNode) -> bool
    decreases a,
{
    &&& a.facts(0) == b.facts(0)
    &&& a.children@.len() == b.children@.len()
    &&& forall|k: int|
        0 <= k < a.children@.len() ==> alike(#[trigger] a.children@[k], b.children@[k])
}

pub broadcast proof fn lemma_alike_facts(a: SyntaxNode, b: SyntaxNode)
    requires
        #[trigger] alike(a, b),
    ensures
        a.kind@ == b.kind@,
        a.start == b.start,
        a.end == b.end,
        a.named == b.named,
        a.extra == b.extra,
        a.error == b.error,
        crate::syntax::opt_text(a.field) == crate::syntax::opt_text(b.field),
        a.children@.len() == b.children@.len(),
{
    assert(a.facts(0) == b.facts(0));
    assert(a.facts(0).kind == b.facts(0).kind);
    assert(a.facts(0).field == b.facts(0).field);
}

pub broadcast proof fn lemma_alike_child(a: SyntaxNode, b: SyntaxNode, k: int)
    requires
        #[trigger] alike(a, b),
        0 <= k < a.children@.len(),
    ensures
        alike(#[trigger] a.children@[k], b.children@[k]),
{
}

// Equal nodes ----------------------------------------------------------------------------------

proof fn lemma_depth_below(node: SyntaxNode, depth: int)
    ensures
        node.preorder(depth).len() >= 1,
        node.preorder(depth)[0] == node.facts(depth),
        forall|i: int|
            1 <= i < node.preorder(depth).len() ==> (#[trigger] node.preorder(depth)[i]).depth
                > depth,
    decreases node, 1int, 0int,
{
    let count = node.children@.len() as int;
    lemma_depth_in_list(node.children@, depth + 1, count);
    let below = preorder_list(node.children@, depth + 1, count);
    assert forall|i: int| 1 <= i < node.preorder(depth).len() implies (
    #[trigger] node.preorder(depth)[i]).depth > depth by {
        assert(node.preorder(depth)[i] == below[i - 1]);
    }
}

proof fn lemma_depth_in_list(nodes: Seq<SyntaxNode>, depth: int, n: int)
    ensures
        forall|i: int|
            0 <= i < preorder_list(nodes, depth, n).len() ==> (#[trigger] preorder_list(
                nodes,
                depth,
                n,
            )[i]).depth >= depth,
    decreases nodes, 0int, n,
{
    if 0 < n <= nodes.len() {
        lemma_depth_in_list(nodes, depth, n - 1);
        lemma_depth_below(nodes[n - 1], depth);
        let before = preorder_list(nodes, depth, n - 1);
        let last = nodes[n - 1].preorder(depth);
        let all = preorder_list(nodes, depth, n);
        assert(all == before + last);
        assert forall|i: int| 0 <= i < all.len() implies (#[trigger] all[i]).depth >= depth by {
            if i < before.len() {
                assert(all[i] == before[i]);
            } else {
                assert(all[i] == last[i - before.len()]);
            }
        }
    }
}

/// The last child begins at the last entry of its own depth.
proof fn lemma_last_child_starts(
    before: Seq<crate::syntax::NodeFacts>,
    x: SyntaxNode,
    other: Seq<crate::syntax::NodeFacts>,
    y: SyntaxNode,
    depth: int,
)
    requires
        before + x.preorder(depth) == other + y.preorder(depth),
    ensures
        before.len() >= other.len(),
{
    lemma_depth_below(x, depth);
    lemma_depth_below(y, depth);
    if before.len() < other.len() {
        let at = other.len() as int;
        let all = before + x.preorder(depth);
        assert(all.len() == before.len() + x.preorder(depth).len());
        assert(all.len() == other.len() + y.preorder(depth).len());
        assert((other + y.preorder(depth))[at] == y.preorder(depth)[0]);
        assert(all[at] == x.preorder(depth)[at - before.len()]);
        assert(y.preorder(depth)[0].depth == depth);
    }
}

proof fn lemma_alike_list(xs: Seq<SyntaxNode>, ys: Seq<SyntaxNode>, depth: int, n: int, m: int)
    requires
        0 <= n <= xs.len(),
        0 <= m <= ys.len(),
        preorder_list(xs, depth, n) == preorder_list(ys, depth, m),
    ensures
        n == m,
        forall|k: int| 0 <= k < n ==> alike(#[trigger] xs[k], ys[k]),
    decreases xs, 0int, n,
{
    if n == 0 {
        if m > 0 {
            lemma_depth_below(ys[m - 1], depth);
            assert(preorder_list(ys, depth, m).len() > 0);
        }
    } else if m == 0 {
        lemma_depth_below(xs[n - 1], depth);
        assert(preorder_list(xs, depth, n).len() > 0);
    } else {
        let p = preorder_list(xs, depth, n - 1);
        let q = preorder_list(ys, depth, m - 1);
        let x = xs[n - 1];
        let y = ys[m - 1];
        assert(p + x.preorder(depth) == q + y.preorder(depth));
        lemma_last_child_starts(p, x, q, y, depth);
        lemma_last_child_starts(q, y, p, x, depth);
        assert(p =~= (p + x.preorder(depth)).take(p.len() as int));
        assert(q =~= (q + y.preorder(depth)).take(q.len() as int));
        assert(x.preorder(depth) =~= (p + x.preorder(depth)).skip(p.len() as int));
        assert(y.preorder(depth) =~= (q + y.preorder(depth)).skip(q.len() as int));
        lemma_alike_list(xs, ys, depth, n - 1, m - 1);
        lemma_alike(x, y, depth);
    }
}

/// Nodes with the same preorder have the same shape and the same facts.
pub proof fn lemma_alike(a: SyntaxNode, b: SyntaxNode, depth: int)
    requires
        a.preorder(depth) == b.preorder(depth),
    ensures
        alike(a, b),
    decreases a, 1int, 0int,
{
    let n = a.children@.len() as int;
    let m = b.children@.len() as int;
    let below_a = preorder_list(a.children@, depth + 1, n);
    let below_b = preorder_list(b.children@, depth + 1, m);
    assert(a.preorder(depth)[0] == a.facts(depth));
    assert(b.preorder(depth)[0] == b.facts(depth));
    assert(a.facts(0) == crate::syntax::NodeFacts { depth: 0, ..a.facts(depth) });
    assert(b.facts(0) == crate::syntax::NodeFacts { depth: 0, ..b.facts(depth) });
    assert(below_a =~= a.preorder(depth).skip(1));
    assert(below_b =~= b.preorder(depth).skip(1));
    lemma_alike_list(a.children@, b.children@, depth + 1, n, m);
}

// What is read of one node ---------------------------------------------------------------------

pub broadcast proof fn lemma_alike_find(a: SyntaxNode, b: SyntaxNode, q: Query, i: int)
    requires
        #[trigger] alike(a, b),
    ensures
        #[trigger] find_from(a.children@, q, i) == find_from(b.children@, q, i),
    decreases a.children@.len() - i,
{
    broadcast use {lemma_alike_facts, lemma_alike_child};

    if 0 <= i < a.children@.len() {
        assert(alike(a.children@[i], b.children@[i]));
        lemma_alike_find(a, b, q, i + 1);
    }
}

pub broadcast proof fn lemma_alike_count(a: SyntaxNode, b: SyntaxNode, q: Query, n: int)
    requires
        #[trigger] alike(a, b),
    ensures
        #[trigger] count_hits(a.children@, q, n) == count_hits(b.children@, q, n),
    decreases n,
{
    broadcast use {lemma_alike_facts, lemma_alike_child};

    if 0 < n <= a.children@.len() {
        assert(alike(a.children@[n - 1], b.children@[n - 1]));
        lemma_alike_count(a, b, q, n - 1);
    }
}

pub broadcast proof fn lemma_alike_module(a: SyntaxNode, b: SyntaxNode, i: int)
    requires
        #[trigger] alike(a, b),
    ensures
        #[trigger] module_from(a.children@, i) == module_from(b.children@, i),
    decreases a.children@.len() - i,
{
    broadcast use {lemma_alike_facts, lemma_alike_child};

    if 0 <= i < a.children@.len() {
        assert(alike(a.children@[i], b.children@[i]));
        lemma_alike_module(a, b, i + 1);
    }
}

/// The facts of alike nodes, and where their children are found.
pub broadcast group group_alike {
    lemma_alike_facts,
    lemma_alike_child,
    lemma_alike_find,
    lemma_alike_count,
    lemma_alike_module,
    crate::syntax::lemma_find_bounds,
    crate::syntax::lemma_module_bounds,
}

// Names ----------------------------------------------------------------------------------------

/// A dotted name reads the same.
pub broadcast proof fn lemma_alike_name_parts_of(a: SyntaxNode, b: SyntaxNode, source: Seq<u8>)
    requires
        #[trigger] alike(a, b),
    ensures
        #[trigger] name_parts_of(a, source) == name_parts_of(b, source),
    decreases a,
{
    broadcast use group_alike;

    assert forall|k: int| 0 <= k < a.children@.len() implies name_parts_of(
        #[trigger] a.children@[k],
        source,
    ) == name_parts_of(b.children@[k], source) by {
        lemma_alike_name_parts_of(a.children@[k], b.children@[k], source);
    }
}

/// The name of a type reads the same.
pub broadcast proof fn lemma_alike_type_parts_of(a: SyntaxNode, b: SyntaxNode, source: Seq<u8>)
    requires
        #[trigger] alike(a, b),
    ensures
        #[trigger] type_parts_of(a, source) == type_parts_of(b, source),
    decreases a,
{
    broadcast use group_alike;

    assert forall|k: int| 0 <= k < a.children@.len() implies type_parts_of(
        #[trigger] a.children@[k],
        source,
    ) == type_parts_of(b.children@[k], source) by {
        lemma_alike_type_parts_of(a.children@[k], b.children@[k], source);
    }
}

/// A name reads the same as it is written.
pub broadcast proof fn lemma_alike_written_parts(a: SyntaxNode, b: SyntaxNode, source: Seq<u8>)
    requires
        #[trigger] alike(a, b),
    ensures
        #[trigger] written_parts(a, source) == written_parts(b, source),
    decreases a,
{
    broadcast use group_alike;

    assert forall|k: int| 0 <= k < a.children@.len() implies written_parts(
        #[trigger] a.children@[k],
        source,
    ) == written_parts(b.children@[k], source) by {
        lemma_alike_written_parts(a.children@[k], b.children@[k], source);
    }
}

/// Generic syntax is found in both or in neither.
pub broadcast proof fn lemma_alike_generic_syntax(a: SyntaxNode, b: SyntaxNode)
    requires
        #[trigger] alike(a, b),
    ensures
        #[trigger] generic_syntax(a) == generic_syntax(b),
    decreases a, 1int, 0int,
{
    broadcast use group_alike;

    lemma_alike_generic_syntax_from(a, b, 0);
}

proof fn lemma_alike_generic_syntax_from(a: SyntaxNode, b: SyntaxNode, i: int)
    requires
        alike(a, b),
    ensures
        generic_syntax_from(a, i) == generic_syntax_from(b, i),
    decreases a, 0int, a.children@.len() - i,
{
    broadcast use group_alike;

    if 0 <= i < a.children@.len() {
        lemma_alike_generic_syntax(a.children@[i], b.children@[i]);
        lemma_alike_generic_syntax_from(a, b, i + 1);
    }
}

/// A directive is found in both or in neither.
pub broadcast proof fn lemma_alike_directive_in(a: SyntaxNode, b: SyntaxNode, source: Seq<u8>)
    requires
        #[trigger] alike(a, b),
    ensures
        #[trigger] directive_in(a, source) == directive_in(b, source),
    decreases a, 1int, 0int,
{
    broadcast use group_alike;

    lemma_alike_directive_from(a, b, source, 0);
}

proof fn lemma_alike_directive_from(a: SyntaxNode, b: SyntaxNode, source: Seq<u8>, i: int)
    requires
        alike(a, b),
    ensures
        directive_from(a, source, i) == directive_from(b, source, i),
    decreases a, 0int, a.children@.len() - i,
{
    broadcast use group_alike;

    if 0 <= i < a.children@.len() {
        lemma_alike_directive_in(a.children@[i], b.children@[i], source);
        lemma_alike_directive_from(a, b, source, i + 1);
    }
}

/// The first name is the same.
pub broadcast proof fn lemma_alike_first_name(a: SyntaxNode, b: SyntaxNode, source: Seq<u8>)
    requires
        #[trigger] alike(a, b),
    ensures
        #[trigger] first_name(a, source) == first_name(b, source),
    decreases a, 1int, 0int,
{
    broadcast use group_alike;

    lemma_alike_first_name_from(a, b, source, 0);
}

proof fn lemma_alike_first_name_from(a: SyntaxNode, b: SyntaxNode, source: Seq<u8>, i: int)
    requires
        alike(a, b),
    ensures
        first_name_from(a, source, i) == first_name_from(b, source, i),
    decreases a, 0int, a.children@.len() - i,
{
    broadcast use group_alike;

    if 0 <= i < a.children@.len() {
        lemma_alike_first_name(a.children@[i], b.children@[i], source);
        lemma_alike_first_name_from(a, b, source, i + 1);
    }
}

// Statements -----------------------------------------------------------------------------------

/// The same routine is called.
pub broadcast proof fn lemma_alike_calls(
    a: SyntaxNode,
    b: SyntaxNode,
    source: Seq<u8>,
    word: Seq<char>,
)
    requires
        #[trigger] alike(a, b),
    ensures
        #[trigger] calls(a, source, word) == calls(b, source, word),
    decreases a, 1int, 0int,
{
    broadcast use group_alike;

    lemma_alike_child_calls(a, b, source, word, 0);
}

proof fn lemma_alike_child_calls(
    a: SyntaxNode,
    b: SyntaxNode,
    source: Seq<u8>,
    word: Seq<char>,
    i: int,
)
    requires
        alike(a, b),
    ensures
        child_calls(a, source, word, i) == child_calls(b, source, word, i),
    decreases a, 0int, a.children@.len() - i,
{
    broadcast use group_alike;

    if 0 <= i < a.children@.len() {
        lemma_alike_calls(a.children@[i], b.children@[i], source, word);
        lemma_alike_child_calls(a, b, source, word, i + 1);
    }
}

/// `Exit` has a value in both or in neither.
pub broadcast proof fn lemma_alike_exit_argument(a: SyntaxNode, b: SyntaxNode, source: Seq<u8>)
    requires
        #[trigger] alike(a, b),
    ensures
        #[trigger] exit_argument(a, source) == exit_argument(b, source),
    decreases a, 1int, 0int,
{
    broadcast use group_alike;

    lemma_alike_child_exit_argument(a, b, source, 0);
}

proof fn lemma_alike_child_exit_argument(a: SyntaxNode, b: SyntaxNode, source: Seq<u8>, i: int)
    requires
        alike(a, b),
    ensures
        child_exit_argument(a, source, i) == child_exit_argument(b, source, i),
    decreases a, 0int, a.children@.len() - i,
{
    broadcast use group_alike;

    if 0 <= i < a.children@.len() {
        lemma_alike_exit_argument(a.children@[i], b.children@[i], source);
        lemma_alike_child_exit_argument(a, b, source, i + 1);
    }
}

/// A loop is left in the same way.
pub broadcast proof fn lemma_alike_jumps(
    a: SyntaxNode,
    b: SyntaxNode,
    source: Seq<u8>,
    word: Seq<char>,
)
    requires
        #[trigger] alike(a, b),
    ensures
        #[trigger] jumps(a, source, word) == jumps(b, source, word),
{
    broadcast use {group_alike, lemma_alike_calls};

    assert forall|k: int| 0 <= k < a.children@.len() implies #[trigger] names_jump(
        a.children@[k],
        source,
        word,
    ) == names_jump(b.children@[k], source, word) by {
        assert(alike(a.children@[k], b.children@[k]));
    }
    if jumps(b, source, word) && b.kind@ == "statement"@ {
        let k = choose|k: int|
            0 <= k < b.children@.len() && names_jump(#[trigger] b.children@[k], source, word);
        assert(names_jump(a.children@[k], source, word));
    }
    if jumps(a, source, word) && a.kind@ == "statement"@ {
        let k = choose|k: int|
            0 <= k < a.children@.len() && names_jump(#[trigger] a.children@[k], source, word);
        assert(names_jump(b.children@[k], source, word));
    }
}

proof fn lemma_alike_constructor_call(a: SyntaxNode, b: SyntaxNode, source: Seq<u8>)
    requires
        alike(a, b),
    ensures
        constructor_call(a, source) == constructor_call(b, source),
{
    broadcast use {group_alike, lemma_alike_name_parts_of};

}

proof fn lemma_alike_constructor_among(a: SyntaxNode, b: SyntaxNode, source: Seq<u8>, i: int)
    requires
        alike(a, b),
    ensures
        constructor_among(a, source, i) == constructor_among(b, source, i),
    decreases a.children@.len() - i,
{
    broadcast use group_alike;

    if 0 <= i < a.children@.len() {
        lemma_alike_constructor_call(a.children@[i], b.children@[i], source);
        lemma_alike_constructor_among(a, b, source, i + 1);
    }
}

proof fn lemma_alike_evaluates(a: SyntaxNode, b: SyntaxNode, source: Seq<u8>)
    requires
        alike(a, b),
    ensures
        evaluates(a, source) == evaluates(b, source),
    decreases a, 1int, 0int,
{
    broadcast use group_alike;

    lemma_alike_constructor_call(a, b, source);
    lemma_alike_child_evaluates(a, b, source, 0);
}

proof fn lemma_alike_child_evaluates(a: SyntaxNode, b: SyntaxNode, source: Seq<u8>, i: int)
    requires
        alike(a, b),
    ensures
        child_evaluates(a, source, i) == child_evaluates(b, source, i),
    decreases a, 0int, a.children@.len() - i,
{
    broadcast use group_alike;

    if 0 <= i < a.children@.len() {
        lemma_alike_evaluates(a.children@[i], b.children@[i], source);
        lemma_alike_child_evaluates(a, b, source, i + 1);
    }
}

/// A raised expression is evaluated in both or in neither.
pub broadcast proof fn lemma_alike_raise_evaluates(a: SyntaxNode, b: SyntaxNode, source: Seq<u8>)
    requires
        #[trigger] alike(a, b),
    ensures
        #[trigger] raise_evaluates(a, source) == raise_evaluates(b, source),
{
    broadcast use group_alike;

    if let Some(k) = a.find(any_field("exception"@)) {
        lemma_alike_evaluates(a.children@[k], b.children@[k], source);
    }
}

/// The class is written the same.
pub broadcast proof fn lemma_alike_written_exception(a: SyntaxNode, b: SyntaxNode, source: Seq<u8>)
    requires
        #[trigger] alike(a, b),
    ensures
        #[trigger] written_exception(a, source) == written_exception(b, source),
{
    broadcast use {group_alike, lemma_alike_written_parts};

    if let Some(k) = a.find(any_field("exception"@)) {
        let x = a.children@[k];
        let y = b.children@[k];
        assert(alike(x, y));
        assert(written_constructor(x, source) == written_constructor(y, source));
        if let Some(c) = x.find(crate::syntax::named_kind("exprCall"@)) {
            assert(alike(x.children@[c], y.children@[c]));
            assert(written_constructor(x.children@[c], source) == written_constructor(
                y.children@[c],
                source,
            ));
        }
    }
}

/// The same is known of a raised exception.
pub broadcast proof fn lemma_alike_raised_fact(
    x: IndexModel,
    unit: usize,
    a: SyntaxNode,
    b: SyntaxNode,
    source: Seq<u8>,
)
    requires
        #[trigger] alike(a, b),
    ensures
        #[trigger] raised_fact_of(x, unit, a, source) == raised_fact_of(x, unit, b, source),
{
    broadcast use group_alike;

    assert(raised_constructor(a, source) == raised_constructor(b, source)) by {
        if let Some(k) = a.find(any_field("exception"@)) {
            lemma_alike_constructor_call(a.children@[k], b.children@[k], source);
            lemma_alike_constructor_among(a.children@[k], b.children@[k], source, 0);
        }
    }
}

/// The same is known of a handler.
pub broadcast proof fn lemma_alike_handler_fact(
    x: IndexModel,
    unit: usize,
    a: SyntaxNode,
    b: SyntaxNode,
    source: Seq<u8>,
)
    requires
        #[trigger] alike(a, b),
    ensures
        #[trigger] handler_fact_of(x, unit, a, source) == handler_fact_of(x, unit, b, source),
{
    broadcast use {group_alike, lemma_alike_type_parts_of};

    if let Some(k) = a.find(any_field("exception"@)) {
        assert(alike(a.children@[k], b.children@[k]));
        assert(type_parts_of(a.children@[k], source) == type_parts_of(b.children@[k], source));
    }
}

/// Children fall into the same branches.
pub broadcast proof fn lemma_alike_branch_at(a: SyntaxNode, b: SyntaxNode, n: int)
    requires
        #[trigger] alike(a, b),
    ensures
        #[trigger] branch_at(a, n) == branch_at(b, n),
    decreases n,
{
    broadcast use group_alike;

    if 0 < n <= a.children@.len() {
        assert(alike(a.children@[n - 1], b.children@[n - 1]));
        lemma_alike_branch_at(a, b, n - 1);
    }
}

/// A plain `else` stands among the first children of both or of neither.
pub broadcast proof fn lemma_alike_else_among(a: SyntaxNode, b: SyntaxNode, source: Seq<u8>, n: int)
    requires
        #[trigger] alike(a, b),
    ensures
        #[trigger] else_among(a, source, n) == else_among(b, source, n),
    decreases n,
{
    broadcast use group_alike;

    if 0 < n <= a.children@.len() {
        assert(alike(a.children@[n - 1], b.children@[n - 1]));
        lemma_alike_else_among(a, b, source, n - 1);
    }
}

/// Content stands among the first children of both or of neither.
pub broadcast proof fn lemma_alike_content_among(a: SyntaxNode, b: SyntaxNode, n: int)
    requires
        #[trigger] alike(a, b),
    ensures
        #[trigger] content_among(a, n) == content_among(b, n),
    decreases n,
{
    broadcast use group_alike;

    if 0 < n <= a.children@.len() {
        assert(alike(a.children@[n - 1], b.children@[n - 1]));
        lemma_alike_content_among(a, b, n - 1);
    }
}

/// The default of a `case` begins at the same child.
pub broadcast proof fn lemma_alike_default_before(a: SyntaxNode, b: SyntaxNode, n: int)
    requires
        #[trigger] alike(a, b),
    ensures
        #[trigger] default_before(a, n) == default_before(b, n),
    decreases n,
{
    broadcast use group_alike;

    if 0 < n <= a.children@.len() {
        assert(alike(a.children@[n - 1], b.children@[n - 1]));
        lemma_alike_default_before(a, b, n - 1);
    }
}

/// The last child under a field is the same.
pub broadcast proof fn lemma_alike_last_under(
    a: SyntaxNode,
    b: SyntaxNode,
    field: Seq<char>,
    n: int,
)
    requires
        #[trigger] alike(a, b),
    ensures
        #[trigger] last_under(a, field, n) == last_under(b, field, n),
    decreases n,
{
    broadcast use group_alike;

    if 0 < n <= a.children@.len() {
        assert(alike(a.children@[n - 1], b.children@[n - 1]));
        lemma_alike_last_under(a, b, field, n - 1);
    }
}

/// The selector of a `case` is the same child.
pub broadcast proof fn lemma_alike_case_selector(a: SyntaxNode, b: SyntaxNode, i: int)
    requires
        #[trigger] alike(a, b),
    ensures
        #[trigger] case_selector(a, i) == case_selector(b, i),
    decreases a.children@.len() - i,
{
    broadcast use group_alike;

    if 0 <= i < a.children@.len() {
        assert(alike(a.children@[i], b.children@[i]));
        lemma_alike_case_selector(a, b, i + 1);
    }
}

/// A `goto` is found in both or in neither.
pub broadcast proof fn lemma_alike_holds_goto(a: SyntaxNode, b: SyntaxNode)
    requires
        #[trigger] alike(a, b),
    ensures
        #[trigger] holds_goto(a) == holds_goto(b),
    decreases a, 1int, 0int,
{
    broadcast use group_alike;

    lemma_alike_child_holds_goto(a, b, 0);
}

proof fn lemma_alike_child_holds_goto(a: SyntaxNode, b: SyntaxNode, i: int)
    requires
        alike(a, b),
    ensures
        child_holds_goto(a, i) == child_holds_goto(b, i),
    decreases a, 0int, a.children@.len() - i,
{
    broadcast use group_alike;

    if 0 <= i < a.children@.len() {
        lemma_alike_holds_goto(a.children@[i], b.children@[i]);
        lemma_alike_child_holds_goto(a, b, i + 1);
    }
}

/// A finalizer holds a `goto` in both or in neither.
pub broadcast proof fn lemma_alike_finalizer_holds_goto(a: SyntaxNode, b: SyntaxNode, i: int)
    requires
        #[trigger] alike(a, b),
    ensures
        #[trigger] finalizer_holds_goto(a, i) == finalizer_holds_goto(b, i),
    decreases a.children@.len() - i,
{
    broadcast use group_alike;

    if 0 <= i < a.children@.len() {
        assert(alike(a.children@[i], b.children@[i]));
        lemma_alike_holds_goto(a.children@[i], b.children@[i]);
        lemma_alike_finalizer_holds_goto(a, b, i + 1);
    }
}

/// The visibility of a section is the same.
pub broadcast proof fn lemma_alike_section_visibility(
    a: SyntaxNode,
    b: SyntaxNode,
    strict: bool,
    i: int,
)
    requires
        #[trigger] alike(a, b),
    ensures
        #[trigger] section_visibility(a, strict, i) == section_visibility(b, strict, i),
    decreases a.children@.len() - i,
{
    broadcast use group_alike;

    if 0 <= i < a.children@.len() {
        assert(alike(a.children@[i], b.children@[i]));
        lemma_alike_section_visibility(a, b, strict, i + 1);
        lemma_alike_section_visibility(a, b, true, i + 1);
    }
}

/// The same children are selected.
pub broadcast proof fn lemma_alike_selected(sel: Selection, a: SyntaxNode, b: SyntaxNode, i: int)
    requires
        #[trigger] alike(a, b),
        0 <= i < a.children@.len(),
    ensures
        #[trigger] selected(sel, a, i) == selected(sel, b, i),
{
    broadcast use {group_alike, lemma_alike_default_before, lemma_alike_branch_at};

    assert(alike(a.children@[i], b.children@[i]));
}

/// What is read of alike nodes is the same.
pub broadcast group group_alike_readings {
    lemma_alike_name_parts_of,
    lemma_alike_type_parts_of,
    lemma_alike_generic_syntax,
    lemma_alike_directive_in,
    lemma_alike_first_name,
    lemma_alike_calls,
    lemma_alike_exit_argument,
    lemma_alike_jumps,
    lemma_alike_raise_evaluates,
    lemma_alike_written_exception,
    lemma_alike_raised_fact,
    lemma_alike_handler_fact,
    lemma_alike_branch_at,
    lemma_alike_else_among,
    lemma_alike_content_among,
    lemma_alike_default_before,
    lemma_alike_last_under,
    lemma_alike_case_selector,
    lemma_alike_finalizer_holds_goto,
    lemma_alike_section_visibility,
    lemma_alike_selected,
}

// The labels of a scope ------------------------------------------------------------------------

proof fn lemma_alike_planned(
    m: PlanModel,
    a: SyntaxNode,
    b: SyntaxNode,
    source: Seq<u8>,
    active: Seq<usize>,
    binding: usize,
)
    requires
        alike(a, b),
    ensures
        planned(m, a, source, active, binding) == planned(m, b, source, active, binding),
    decreases a, 3int, 0int,
{
    broadcast use {group_alike, group_alike_readings};

    if a.kind@ == "defProc"@ {
    } else if a.kind@ == "ppBlock"@ {
        lemma_alike_planned_branches(m, a, b, source, active, binding, 0);
    } else if a.kind@ == "label"@ {
    } else if a.kind@ == "try"@ && crate::labels::finalized(a) {
        let id = m.scope_ids.len() as usize;
        let m0 = m.with_scope(a.start, a.end);
        let m1 = planned_field(m0, a, source, active.push(id), binding, "try"@, 0);
        let m2 = planned_field(m1, a, source, active, binding, "except"@, 0);
        lemma_alike_planned_field(m0, a, b, source, active.push(id), binding, "try"@, 0);
        lemma_alike_planned_field(m1, a, b, source, active, binding, "except"@, 0);
        lemma_alike_planned_field(m2, a, b, source, active, binding, "finally"@, 0);
    } else {
        lemma_alike_planned_named(m, a, b, source, active, binding, 0);
    }
}

proof fn lemma_alike_planned_named(
    m: PlanModel,
    a: SyntaxNode,
    b: SyntaxNode,
    source: Seq<u8>,
    active: Seq<usize>,
    binding: usize,
    i: int,
)
    requires
        alike(a, b),
    ensures
        planned_named(m, a, source, active, binding, i) == planned_named(
            m,
            b,
            source,
            active,
            binding,
            i,
        ),
    decreases a, 1int, a.children@.len() - i,
{
    broadcast use group_alike;

    if 0 <= i < a.children@.len() {
        let x = a.children@[i];
        lemma_alike_planned(m, x, b.children@[i], source, active, binding);
        let m1 = if x.named {
            planned(m, x, source, active, binding)
        } else {
            m
        };
        lemma_alike_planned_named(m1, a, b, source, active, binding, i + 1);
    }
}

proof fn lemma_alike_planned_field(
    m: PlanModel,
    a: SyntaxNode,
    b: SyntaxNode,
    source: Seq<u8>,
    active: Seq<usize>,
    binding: usize,
    field: Seq<char>,
    i: int,
)
    requires
        alike(a, b),
    ensures
        planned_field(m, a, source, active, binding, field, i) == planned_field(
            m,
            b,
            source,
            active,
            binding,
            field,
            i,
        ),
    decreases a, 1int, a.children@.len() - i,
{
    broadcast use group_alike;

    if 0 <= i < a.children@.len() {
        let x = a.children@[i];
        lemma_alike_planned(m, x, b.children@[i], source, active, binding);
        let m1 = if hit(any_field(field), x) {
            planned(m, x, source, active, binding)
        } else {
            m
        };
        lemma_alike_planned_field(m1, a, b, source, active, binding, field, i + 1);
    }
}

proof fn lemma_alike_planned_branches(
    m: PlanModel,
    a: SyntaxNode,
    b: SyntaxNode,
    source: Seq<u8>,
    active: Seq<usize>,
    binding: usize,
    n: int,
)
    requires
        alike(a, b),
    ensures
        planned_branches(m, a, source, active, binding, n) == planned_branches(
            m,
            b,
            source,
            active,
            binding,
            n,
        ),
    decreases a, 2int, last_branch(a) + 1 - n,
{
    broadcast use {group_alike, group_alike_readings};

    assert(last_branch(a) == last_branch(b));
    if 0 <= n <= last_branch(a) {
        let own = m.parents.len() as usize;
        let m0 = m.with_branch(a.start, a.end, n as usize, binding);
        lemma_alike_planned_branch(m0, a, b, source, active, own, n, 0);
        let m1 = planned_branch(m0, a, source, active, own, n, 0);
        lemma_alike_planned_branches(m1, a, b, source, active, binding, n + 1);
    }
}

proof fn lemma_alike_planned_branch(
    m: PlanModel,
    a: SyntaxNode,
    b: SyntaxNode,
    source: Seq<u8>,
    active: Seq<usize>,
    binding: usize,
    n: int,
    i: int,
)
    requires
        alike(a, b),
    ensures
        planned_branch(m, a, source, active, binding, n, i) == planned_branch(
            m,
            b,
            source,
            active,
            binding,
            n,
            i,
        ),
    decreases a, 1int, a.children@.len() - i,
{
    broadcast use {group_alike, group_alike_readings};

    if 0 <= i < a.children@.len() {
        let x = a.children@[i];
        assert(branch_at(a, i) == branch_at(b, i));
        lemma_alike_planned(m, x, b.children@[i], source, active, binding);
        let m1 = if crate::labels::branch_content(x.kind@) && branch_at(a, i) == n {
            planned(m, x, source, active, binding)
        } else {
            m
        };
        lemma_alike_planned_branch(m1, a, b, source, active, binding, n, i + 1);
    }
}

/// The labels, the conditional branches and the cleanup scopes are the same.
pub proof fn lemma_alike_plan(a: SyntaxNode, b: SyntaxNode, source: Seq<u8>)
    requires
        alike(a, b),
    ensures
        plan_of(a, source) == plan_of(b, source),
{
    lemma_alike_planned(
        PlanModel {
            scope_ids: Seq::empty(),
            labels: Seq::empty(),
            branches: Seq::empty(),
            parents: seq![None],
        },
        a,
        b,
        source,
        Seq::empty(),
        0,
    );
}

} // verus!
