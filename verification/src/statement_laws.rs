//! What each statement adds to a graph.
//!
//! The laws speak of the edges and blocks that a statement adds. They take the walk
//! of the statements inside it as given: a witness names the state in which an
//! inner sequence of statements begins, and the block at which it begins.

use vstd::prelude::*;
use crate::flow::{unknown_exception, TransferKind, TransferModel};
use crate::graph::{BasicBlockKind, BlockId, Edge, EdgeKind, StmtModel};
use crate::graph_facts::{context_ok, extends, inside, size, sound};
use crate::graph_laws::{lemma_settled, lemma_settled_holds, lemma_settled_rest, of_loop};
use crate::scope_graph::{
    case_statement, condition, conditional_block, counted_loop, ending, goto_statement, if_else,
    if_only, implicit, labelled_statement, last_under, loop_header, met, prepared, raise_statement,
    repeat_header, repeat_loop, settled, single, try_except, try_finally, walk, with_statement,
    ContextModel, EnvModel, FrameModel, Selection, StateModel,
};
use crate::syntax::{any_field, any_kind, field_kind, opt_text, SyntaxNode};
use crate::walk_facts::{
    done, in_sequence, lemma_sizes, lemma_walk_done, lemma_walk_is_sequence, local, picked,
    structural,
};

verus! {

broadcast use {crate::graph_facts::group_graph_facts, crate::syntax::lemma_find_bounds};

// Kinds of statements --------------------------------------------------------------------------

pub proof fn lemma_kinds_differ()
    ensures
        "ppBlock"@ != "labeledStatement"@,
        "ppBlock"@ != "labeledStatementTr"@,
        "ppBlock"@ != "block"@,
        "ppBlock"@ != "statements"@,
        "ppBlock"@ != "ifElse"@,
        "ppBlock"@ != "if"@,
        "ppBlock"@ != "for"@,
        "ppBlock"@ != "foreach"@,
        "ppBlock"@ != "while"@,
        "ppBlock"@ != "case"@,
        "ppBlock"@ != "repeat"@,
        "ppBlock"@ != "try"@,
        "ppBlock"@ != "with"@,
        "ppBlock"@ != "raise"@,
        "ppBlock"@ != "statement"@,
        "ppBlock"@ != "goto"@,
        "ppBlock"@ != "label"@,
        "labeledStatement"@ != "labeledStatementTr"@,
        "labeledStatement"@ != "block"@,
        "labeledStatement"@ != "statements"@,
        "labeledStatement"@ != "ifElse"@,
        "labeledStatement"@ != "if"@,
        "labeledStatement"@ != "for"@,
        "labeledStatement"@ != "foreach"@,
        "labeledStatement"@ != "while"@,
        "labeledStatement"@ != "case"@,
        "labeledStatement"@ != "repeat"@,
        "labeledStatement"@ != "try"@,
        "labeledStatement"@ != "with"@,
        "labeledStatement"@ != "raise"@,
        "labeledStatement"@ != "statement"@,
        "labeledStatement"@ != "goto"@,
        "labeledStatement"@ != "label"@,
        "labeledStatementTr"@ != "block"@,
        "labeledStatementTr"@ != "statements"@,
        "labeledStatementTr"@ != "ifElse"@,
        "labeledStatementTr"@ != "if"@,
        "labeledStatementTr"@ != "for"@,
        "labeledStatementTr"@ != "foreach"@,
        "labeledStatementTr"@ != "while"@,
        "labeledStatementTr"@ != "case"@,
        "labeledStatementTr"@ != "repeat"@,
        "labeledStatementTr"@ != "try"@,
        "labeledStatementTr"@ != "with"@,
        "labeledStatementTr"@ != "raise"@,
        "labeledStatementTr"@ != "statement"@,
        "labeledStatementTr"@ != "goto"@,
        "labeledStatementTr"@ != "label"@,
        "block"@ != "statements"@,
        "block"@ != "ifElse"@,
        "block"@ != "if"@,
        "block"@ != "for"@,
        "block"@ != "foreach"@,
        "block"@ != "while"@,
        "block"@ != "case"@,
        "block"@ != "repeat"@,
        "block"@ != "try"@,
        "block"@ != "with"@,
        "block"@ != "raise"@,
        "block"@ != "statement"@,
        "block"@ != "goto"@,
        "block"@ != "label"@,
        "statements"@ != "ifElse"@,
        "statements"@ != "if"@,
        "statements"@ != "for"@,
        "statements"@ != "foreach"@,
        "statements"@ != "while"@,
        "statements"@ != "case"@,
        "statements"@ != "repeat"@,
        "statements"@ != "try"@,
        "statements"@ != "with"@,
        "statements"@ != "raise"@,
        "statements"@ != "statement"@,
        "statements"@ != "goto"@,
        "statements"@ != "label"@,
        "ifElse"@ != "if"@,
        "ifElse"@ != "for"@,
        "ifElse"@ != "foreach"@,
        "ifElse"@ != "while"@,
        "ifElse"@ != "case"@,
        "ifElse"@ != "repeat"@,
        "ifElse"@ != "try"@,
        "ifElse"@ != "with"@,
        "ifElse"@ != "raise"@,
        "ifElse"@ != "statement"@,
        "ifElse"@ != "goto"@,
        "ifElse"@ != "label"@,
        "if"@ != "for"@,
        "if"@ != "foreach"@,
        "if"@ != "while"@,
        "if"@ != "case"@,
        "if"@ != "repeat"@,
        "if"@ != "try"@,
        "if"@ != "with"@,
        "if"@ != "raise"@,
        "if"@ != "statement"@,
        "if"@ != "goto"@,
        "if"@ != "label"@,
        "for"@ != "foreach"@,
        "for"@ != "while"@,
        "for"@ != "case"@,
        "for"@ != "repeat"@,
        "for"@ != "try"@,
        "for"@ != "with"@,
        "for"@ != "raise"@,
        "for"@ != "statement"@,
        "for"@ != "goto"@,
        "for"@ != "label"@,
        "foreach"@ != "while"@,
        "foreach"@ != "case"@,
        "foreach"@ != "repeat"@,
        "foreach"@ != "try"@,
        "foreach"@ != "with"@,
        "foreach"@ != "raise"@,
        "foreach"@ != "statement"@,
        "foreach"@ != "goto"@,
        "foreach"@ != "label"@,
        "while"@ != "case"@,
        "while"@ != "repeat"@,
        "while"@ != "try"@,
        "while"@ != "with"@,
        "while"@ != "raise"@,
        "while"@ != "statement"@,
        "while"@ != "goto"@,
        "while"@ != "label"@,
        "case"@ != "repeat"@,
        "case"@ != "try"@,
        "case"@ != "with"@,
        "case"@ != "raise"@,
        "case"@ != "statement"@,
        "case"@ != "goto"@,
        "case"@ != "label"@,
        "repeat"@ != "try"@,
        "repeat"@ != "with"@,
        "repeat"@ != "raise"@,
        "repeat"@ != "statement"@,
        "repeat"@ != "goto"@,
        "repeat"@ != "label"@,
        "try"@ != "with"@,
        "try"@ != "raise"@,
        "try"@ != "statement"@,
        "try"@ != "goto"@,
        "try"@ != "label"@,
        "with"@ != "raise"@,
        "with"@ != "statement"@,
        "with"@ != "goto"@,
        "with"@ != "label"@,
        "raise"@ != "statement"@,
        "raise"@ != "goto"@,
        "raise"@ != "label"@,
        "statement"@ != "goto"@,
        "statement"@ != "label"@,
        "goto"@ != "label"@,
{
    reveal_strlit("ppBlock");
    reveal_strlit("labeledStatement");
    reveal_strlit("labeledStatementTr");
    reveal_strlit("block");
    reveal_strlit("statements");
    reveal_strlit("ifElse");
    reveal_strlit("if");
    reveal_strlit("for");
    reveal_strlit("foreach");
    reveal_strlit("while");
    reveal_strlit("case");
    reveal_strlit("repeat");
    reveal_strlit("try");
    reveal_strlit("with");
    reveal_strlit("raise");
    reveal_strlit("statement");
    reveal_strlit("goto");
    reveal_strlit("label");
    assert("ppBlock"@.len() == 7);
    assert("ppBlock"@[0] == 'p');
    assert("labeledStatement"@.len() == 16);
    assert("labeledStatement"@[0] == 'l');
    assert("labeledStatementTr"@.len() == 18);
    assert("labeledStatementTr"@[0] == 'l');
    assert("block"@.len() == 5);
    assert("block"@[0] == 'b');
    assert("statements"@.len() == 10);
    assert("statements"@[0] == 's');
    assert("ifElse"@.len() == 6);
    assert("ifElse"@[0] == 'i');
    assert("if"@.len() == 2);
    assert("if"@[0] == 'i');
    assert("for"@.len() == 3);
    assert("for"@[0] == 'f');
    assert("foreach"@.len() == 7);
    assert("foreach"@[0] == 'f');
    assert("while"@.len() == 5);
    assert("while"@[0] == 'w');
    assert("case"@.len() == 4);
    assert("case"@[0] == 'c');
    assert("repeat"@.len() == 6);
    assert("repeat"@[0] == 'r');
    assert("try"@.len() == 3);
    assert("try"@[0] == 't');
    assert("with"@.len() == 4);
    assert("with"@[0] == 'w');
    assert("raise"@.len() == 5);
    assert("raise"@[0] == 'r');
    assert("statement"@.len() == 9);
    assert("statement"@[0] == 's');
    assert("goto"@.len() == 4);
    assert("goto"@[0] == 'g');
    assert("label"@.len() == 5);
    assert("label"@[0] == 'l');
}

/// A statement is taken by what its kind names.
pub proof fn lemma_single_is(
    env: EnvModel,
    ctx: ContextModel,
    st: StateModel,
    node: SyntaxNode,
    current: BlockId,
)
    requires
        !node.extra,
    ensures
        ({
            let r = single(env, ctx, st, node, current);
            let kind = node.kind@;
            &&& kind == "ppBlock"@ ==> r == conditional_block(env, ctx, st, node, current)
            &&& kind == "block"@ ==> r == walk(
                env,
                ctx,
                st,
                node,
                Selection::Block,
                0,
                Some(current),
                Seq::empty(),
            )
            &&& kind == "statements"@ ==> r == walk(
                env,
                ctx,
                st,
                node,
                Selection::Statements,
                0,
                Some(current),
                Seq::empty(),
            )
            &&& kind == "ifElse"@ ==> r == if_else(env, ctx, st, node, current)
            &&& kind == "if"@ ==> r == if_only(env, ctx, st, node, current)
            &&& kind == "for"@ ==> r == counted_loop(env, ctx, st, node, current)
            &&& kind == "foreach"@ ==> r == counted_loop(env, ctx, st, node, current)
            &&& kind == "while"@ ==> r == counted_loop(env, ctx, st, node, current)
            &&& kind == "case"@ ==> r == case_statement(env, ctx, st, node, current)
            &&& kind == "repeat"@ ==> r == repeat_loop(env, ctx, st, node, current)
            &&& kind == "try"@ ==> r == (if crate::labels::finalized(node) {
                try_finally(env, ctx, st, node, current)
            } else if node.find(field_kind("except"@, "kExcept"@)) is Some {
                try_except(env, ctx, st, node, current)
            } else {
                (st, ending(current))
            })
            &&& kind == "with"@ ==> r == with_statement(env, ctx, st, node, current)
            &&& kind == "raise"@ ==> r == raise_statement(env, ctx, st, node, current)
            &&& kind == "goto"@ ==> r == goto_statement(env, ctx, st, node, current)
            &&& kind == "labeledStatement"@ || kind == "labeledStatementTr"@ ==> r
                == labelled_statement(env, ctx, st, node, 0, Some(current), Seq::empty())
        }),
{
    lemma_kinds_differ();
}

// Edges and statements -------------------------------------------------------------------------

/// Whether an edge of a kind leads from one block to another.
pub open spec fn joins(st: StateModel, source: BlockId, target: BlockId, kind: EdgeKind) -> bool {
    st.graph.edges.contains(Edge { source, target, kind })
}

/// Whether a step adds exactly one edge of a kind out of a block, to the target.
pub open spec fn one_edge(
    st: StateModel,
    after: StateModel,
    source: BlockId,
    kind: EdgeKind,
    target: BlockId,
) -> bool {
    exists|k: int|
        st.graph.edges.len() <= k < after.graph.edges.len() && #[trigger] after.graph.edges[k] == (
        Edge { source, target, kind }) && forall|j: int|
            st.graph.edges.len() <= j < after.graph.edges.len() && (
            #[trigger] after.graph.edges[j]).source == source && after.graph.edges[j].kind == kind
                ==> j == k
}

/// Whether a block holds a statement of a kind over a range.
pub open spec fn holds(
    st: StateModel,
    block: BlockId,
    start: usize,
    end: usize,
    kind: Seq<char>,
) -> bool {
    block.0 < size(st) && st.graph.blocks[block.0 as int].stmts.contains(
        StmtModel { start, end, kind },
    )
}

/// Whether a block is where a statement that begins at `current` puts its own first
/// part: `current` itself or, inside a protected region where `current` holds a
/// statement already, a new block behind it.
pub open spec fn arrives(
    ctx: ContextModel,
    st: StateModel,
    after: StateModel,
    current: BlockId,
    block: BlockId,
) -> bool {
    let held = exists|k: int|
        0 <= k < st.graph.blocks[current.0 as int].stmts.len()
            && (#[trigger] st.graph.blocks[current.0 as int].stmts[k]).kind != "label"@;
    if ctx.depth > 0 && held {
        block.0 >= size(st) && joins(after, current, block, EdgeKind::Normal)
    } else {
        block == current
    }
}

/// Whether the flow behind a statement goes on from the end of a part of it.
pub open spec fn goes_on(
    after: StateModel,
    end: Option<BlockId>,
    normal: Option<BlockId>,
    kind: EdgeKind,
) -> bool {
    end matches Some(e) ==> (normal matches Some(n) && joins(after, e, n, kind))
}

/// Whether a walk can begin at a block of a state.
pub open spec fn begins(ctx: ContextModel, st: StateModel, current: BlockId) -> bool {
    sound(st) && context_ok(ctx, size(st)) && inside(current, size(st))
}

/// The children of a node under a field, but for the given tokens.
pub open spec fn under(node: SyntaxNode, field: Seq<char>, tokens: Set<Seq<char>>) -> Seq<
    SyntaxNode,
> {
    picked(
        node.children@,
        |i: int|
            opt_text(node.children@[i].field) == Some(field) && !tokens.contains(
                node.children@[i].kind@,
            ),
        node.children@.len() as int,
    )
}

/// The statement of the `then` field.
pub open spec fn then_part(node: SyntaxNode) -> Seq<SyntaxNode> {
    under(node, "then"@, set![";"@, "kElse"@])
}

/// The statement of the `else` field.
pub open spec fn else_part(node: SyntaxNode) -> Seq<SyntaxNode> {
    under(node, "else"@, set![";"@, "kElse"@])
}

/// The statement of the `body` field.
pub open spec fn body_part(node: SyntaxNode) -> Seq<SyntaxNode> {
    under(node, "body"@, set![";"@])
}

pub proof fn lemma_parts(
    env: EnvModel,
    ctx: ContextModel,
    st: StateModel,
    node: SyntaxNode,
    current: Option<BlockId>,
)
    ensures
        walk(env, ctx, st, node, Selection::Then, 0, current, Seq::empty()) == in_sequence(
            env,
            ctx,
            st,
            then_part(node),
            current,
        ),
        walk(env, ctx, st, node, Selection::Else, 0, current, Seq::empty()) == in_sequence(
            env,
            ctx,
            st,
            else_part(node),
            current,
        ),
        walk(env, ctx, st, node, Selection::Body, 0, current, Seq::empty()) == in_sequence(
            env,
            ctx,
            st,
            body_part(node),
            current,
        ),
{
    let two = set![";"@, "kElse"@];
    let one = set![";"@];
    let a = |i: int|
        opt_text(node.children@[i].field) == Some("then"@) && !two.contains(
            node.children@[i].kind@,
        );
    let b = |i: int|
        opt_text(node.children@[i].field) == Some("else"@) && !two.contains(
            node.children@[i].kind@,
        );
    let c = |i: int|
        opt_text(node.children@[i].field) == Some("body"@) && !one.contains(
            node.children@[i].kind@,
        );
    lemma_walk_is_sequence(env, ctx, st, node, Selection::Then, a, 0, current);
    lemma_walk_is_sequence(env, ctx, st, node, Selection::Else, b, 0, current);
    lemma_walk_is_sequence(env, ctx, st, node, Selection::Body, c, 0, current);
}

pub proof fn lemma_joins_still(
    st: StateModel,
    after: StateModel,
    source: BlockId,
    target: BlockId,
    kind: EdgeKind,
)
    requires
        joins(st, source, target, kind),
        extends(st, after),
    ensures
        joins(after, source, target, kind),
{
    reveal(extends);
    let e = Edge { source, target, kind };
    let k = choose|k: int| 0 <= k < st.graph.edges.len() && st.graph.edges[k] == e;
    assert(after.graph.edges[k] == e);
}

pub proof fn lemma_joined(st: StateModel, source: BlockId, target: BlockId, kind: EdgeKind)
    ensures
        joins(st.edge(source, target, kind), source, target, kind),
{
    let s = st.edge(source, target, kind);
    assert(s.graph.edges[st.graph.edges.len() as int] == (Edge { source, target, kind }));
}

pub proof fn lemma_holds_still(
    st: StateModel,
    after: StateModel,
    block: BlockId,
    start: usize,
    end: usize,
    kind: Seq<char>,
)
    requires
        holds(st, block, start, end, kind),
        extends(st, after),
    ensures
        holds(after, block, start, end, kind),
{
    reveal(extends);
    let x = st.graph.blocks[block.0 as int].stmts;
    let y = after.graph.blocks[block.0 as int].stmts;
    let k = choose|k: int| 0 <= k < x.len() && x[k] == (StmtModel { start, end, kind });
    assert(x.is_prefix_of(y));
    assert(y[k] == x[k]);
}

pub proof fn lemma_held(
    st: StateModel,
    block: BlockId,
    start: usize,
    end: usize,
    kind: Seq<char>,
)
    requires
        block.0 < size(st),
    ensures
        holds(st.stmt(block, start, end, kind), block, start, end, kind),
{
    let s = st.stmt(block, start, end, kind);
    let n = st.graph.blocks[block.0 as int].stmts.len() as int;
    assert(s.graph.blocks[block.0 as int].stmts[n] == (StmtModel { start, end, kind }));
}

/// A structural edge stays the only one of its kind out of a block while steps begin
/// at other blocks.
pub proof fn lemma_one_edge_still(
    env: EnvModel,
    root: SyntaxNode,
    start: StateModel,
    st: StateModel,
    current: Option<BlockId>,
    after: StateModel,
    normal: Option<BlockId>,
    source: BlockId,
    kind: EdgeKind,
    target: BlockId,
)
    requires
        one_edge(start, st, source, kind, target),
        extends(start, st),
        done(env, root, st, current, after, normal),
        size(after) <= usize::MAX,
        structural(kind),
        source.0 < size(st),
        current != Some(source),
    ensures
        one_edge(start, after, source, kind, target),
{
    reveal(extends);
    reveal(local);
    let k = choose|k: int|
        start.graph.edges.len() <= k < st.graph.edges.len() && #[trigger] st.graph.edges[k] == (
        Edge { source, target, kind }) && forall|j: int|
            start.graph.edges.len() <= j < st.graph.edges.len() && (
            #[trigger] st.graph.edges[j]).source == source && st.graph.edges[j].kind == kind ==> j
                == k;
    assert(after.graph.edges[k] == st.graph.edges[k]);
    assert forall|j: int|
        start.graph.edges.len() <= j < after.graph.edges.len() && (
        #[trigger] after.graph.edges[j]).source == source && after.graph.edges[j].kind
            == kind implies j == k by {
        if j < st.graph.edges.len() {
            assert(after.graph.edges[j] == st.graph.edges[j]);
        }
    }
}

/// An edge that is added stays the only one of its kind out of a block while edges
/// out of other blocks, or of other kinds, are added.
pub proof fn lemma_one_edge_beside(
    start: StateModel,
    st: StateModel,
    after: StateModel,
    source: BlockId,
    kind: EdgeKind,
    target: BlockId,
)
    requires
        one_edge(start, st, source, kind, target),
        extends(start, st),
        extends(st, after),
        forall|k: int|
            st.graph.edges.len() <= k < after.graph.edges.len() ==> (
            #[trigger] after.graph.edges[k]).source != source || after.graph.edges[k].kind != kind,
    ensures
        one_edge(start, after, source, kind, target),
{
    reveal(extends);
    let k = choose|k: int|
        start.graph.edges.len() <= k < st.graph.edges.len() && #[trigger] st.graph.edges[k] == (
        Edge { source, target, kind }) && forall|j: int|
            start.graph.edges.len() <= j < st.graph.edges.len() && (
            #[trigger] st.graph.edges[j]).source == source && st.graph.edges[j].kind == kind ==> j
                == k;
    assert(after.graph.edges[k] == st.graph.edges[k]);
    assert forall|j: int|
        start.graph.edges.len() <= j < after.graph.edges.len() && (
        #[trigger] after.graph.edges[j]).source == source && after.graph.edges[j].kind
            == kind implies j == k by {
        if j < st.graph.edges.len() {
            assert(after.graph.edges[j] == st.graph.edges[j]);
        }
    }
}

/// The first edge of a kind out of a block that a step adds.
pub proof fn lemma_first_edge(
    start: StateModel,
    st: StateModel,
    source: BlockId,
    kind: EdgeKind,
    target: BlockId,
)
    requires
        extends(start, st),
        forall|k: int|
            start.graph.edges.len() <= k < st.graph.edges.len() ==> (
            #[trigger] st.graph.edges[k]).source != source || st.graph.edges[k].kind != kind,
    ensures
        one_edge(start, st.edge(source, target, kind), source, kind, target),
{
    reveal(extends);
    let s = st.edge(source, target, kind);
    let n = st.graph.edges.len() as int;
    assert(s.graph.edges[n] == (Edge { source, target, kind }));
    assert forall|j: int|
        start.graph.edges.len() <= j < s.graph.edges.len() && (#[trigger] s.graph.edges[j]).source
            == source && s.graph.edges[j].kind == kind implies j == n by {
        if j < n {
            assert(s.graph.edges[j] == st.graph.edges[j]);
        }
    }
}

/// Where the block for the next statement stands.
pub proof fn lemma_arrives(
    env: EnvModel,
    ctx: ContextModel,
    st: StateModel,
    current: BlockId,
    after: StateModel,
)
    requires
        inside(current, size(st)),
        extends(prepared(ctx, st, current).0, after),
        size(after) <= usize::MAX,
    ensures
        arrives(ctx, st, after, current, prepared(ctx, st, current).1),
        prepared(ctx, st, current).1.0 < size(prepared(ctx, st, current).0),
        prepared(ctx, st, current).1 == current || prepared(ctx, st, current).1.0 >= size(st),
        forall|k: int|
            st.graph.edges.len() <= k < prepared(ctx, st, current).0.graph.edges.len() ==> (
            #[trigger] prepared(ctx, st, current).0.graph.edges[k]).kind == EdgeKind::Normal,
{
    let (s, b) = prepared(ctx, st, current);
    lemma_sizes(s, after);
    if ctx.depth > 0 && st.graph.has_executable(current) {
        lemma_joined(st.block(BasicBlockKind::Normal), current, st.next(), EdgeKind::Normal);
        lemma_joins_still(s, after, current, b, EdgeKind::Normal);
    }
}

// Branches -------------------------------------------------------------------------------------

/// `if..then..else`: a condition block `c` with one edge for the true case, to where
/// the statement of the `then` field begins, and one for the false case, to where
/// that of the `else` field begins. Behind the statement the flow goes on from the
/// end of each of them that ends.
///
/// The witness gives `c`, the two blocks, and the states in which the two begin.
pub proof fn law_if_else(
    env: EnvModel,
    ctx: ContextModel,
    st: StateModel,
    node: SyntaxNode,
    current: BlockId,
) -> (r: (BlockId, BlockId, BlockId, StateModel, StateModel))
    requires
        node.kind@ == "ifElse"@,
        !node.extra,
        begins(ctx, st, current),
        size(single(env, ctx, st, node, current).0) <= usize::MAX,
    ensures
        ({
            let (c, yes, no, s1, s2) = r;
            let (last, flow) = single(env, ctx, st, node, current);
            let (e1, f1) = in_sequence(env, ctx, s1, then_part(node), Some(yes));
            let (e2, f2) = in_sequence(env, ctx, s2, else_part(node), Some(no));
            &&& arrives(ctx, st, last, current, c)
            &&& node.find(any_field("condition"@)) matches Some(k) ==> holds(
                last,
                c,
                node.start,
                node.children@[k].end,
                node.kind@,
            )
            &&& one_edge(st, last, c, EdgeKind::ConditionalTrue, yes)
            &&& one_edge(st, last, c, EdgeKind::ConditionalFalse, no)
            &&& size(st) <= yes.0 < size(s1) && size(st) <= no.0 < size(s1) && yes != no
            &&& extends(st, s1) && extends(e1, s2) && extends(e2, last)
            &&& goes_on(last, f1.normal, flow.normal, EdgeKind::Normal)
            &&& goes_on(last, f2.normal, flow.normal, EdgeKind::Normal)
            &&& flow.normal is Some ==> f1.normal is Some || f2.normal is Some
            &&& forall|t: TransferModel| #[trigger]
                flow.transfers.contains(t) <==> f1.transfers.contains(t) || f2.transfers.contains(t)
                    || (ctx.depth > 0 && t == unknown_exception(c))
        }),
{
    lemma_single_is(env, ctx, st, node, current);
    let none = Seq::<TransferModel>::empty();
    let (s1, c) = condition(ctx, st, node, current);
    let (s0, c0) = prepared(ctx, st, current);
    let t = s1.next();
    let s2 = s1.block(BasicBlockKind::Normal);
    let e = s2.next();
    let s20 = s2.block(BasicBlockKind::Normal);
    let s21 = s20.edge(c, t, EdgeKind::ConditionalTrue);
    let s3 = s21.edge(c, e, EdgeKind::ConditionalFalse);
    let (s4, f1) = walk(env, ctx, s3, node, Selection::Then, 0, Some(t), none);
    let (s5, f2) = walk(env, ctx, s4, node, Selection::Else, 0, Some(e), none);
    let (s6, normal) = met(s5, f1.normal, f2.normal);
    let (last, flow) = single(env, ctx, st, node, current);
    assert(last == s6);
    lemma_walk_done(env, node, ctx, s3, node, Selection::Then, 0, Some(t), none);
    lemma_walk_done(env, node, ctx, s4, node, Selection::Else, 0, Some(e), none);
    lemma_parts(env, ctx, s3, node, Some(t));
    lemma_parts(env, ctx, s4, node, Some(e));
    lemma_sizes(s3, s4);
    lemma_sizes(s4, s5);
    lemma_sizes(s5, s6);
    assert(extends(st, s0) && extends(s0, s1) && extends(s1, s3));
    lemma_sizes(st, s0);
    lemma_arrives(env, ctx, st, current, s6);
    if let Some(k) = node.find(any_field("condition"@)) {
        lemma_held(s0, c, node.start, node.children@[k].end, node.kind@);
        lemma_holds_still(s1, s6, c, node.start, node.children@[k].end, node.kind@);
    }
    lemma_first_edge(st, s20, c, EdgeKind::ConditionalTrue, t);
    lemma_one_edge_beside(st, s21, s3, c, EdgeKind::ConditionalTrue, t);
    lemma_first_edge(st, s21, c, EdgeKind::ConditionalFalse, e);
    let yes = EdgeKind::ConditionalTrue;
    let no = EdgeKind::ConditionalFalse;
    lemma_one_edge_still(env, node, st, s3, Some(t), s4, f1.normal, c, yes, t);
    lemma_one_edge_still(env, node, st, s4, Some(e), s5, f2.normal, c, yes, t);
    lemma_one_edge_beside(st, s5, s6, c, yes, t);
    lemma_one_edge_still(env, node, st, s3, Some(t), s4, f1.normal, c, no, e);
    lemma_one_edge_still(env, node, st, s4, Some(e), s5, f2.normal, c, no, e);
    lemma_one_edge_beside(st, s5, s6, c, no, e);
    lemma_met_joins(s5, f1.normal, f2.normal);
    lemma_three_parts(ctx, c, f1.transfers, f2.transfers);
    (c, t, e, s3, s4)
}

proof fn lemma_met_joins(st: StateModel, a: Option<BlockId>, b: Option<BlockId>)
    ensures
        goes_on(met(st, a, b).0, a, met(st, a, b).1, EdgeKind::Normal),
        goes_on(met(st, a, b).0, b, met(st, a, b).1, EdgeKind::Normal),
        met(st, a, b).1 is Some <==> a is Some || b is Some,
{
    let s = st.block(BasicBlockKind::Normal);
    let j = st.next();
    if let Some(x) = a {
        lemma_joined(s, x, j, EdgeKind::Normal);
        if let Some(y) = b {
            let s1 = s.edge(x, j, EdgeKind::Normal);
            lemma_joins_still(s1, s1.edge(y, j, EdgeKind::Normal), x, j, EdgeKind::Normal);
            lemma_joined(s1, y, j, EdgeKind::Normal);
        }
    } else if let Some(y) = b {
        lemma_joined(s, y, j, EdgeKind::Normal);
    }
}

pub proof fn lemma_contains_add(a: Seq<TransferModel>, b: Seq<TransferModel>)
    ensures
        forall|t: TransferModel| #[trigger]
            (a + b).contains(t) <==> a.contains(t) || b.contains(t),
{
    assert forall|t: TransferModel| #[trigger] (a + b).contains(t) <==> a.contains(t) || b.contains(
        t,
    ) by {
        if a.contains(t) {
            let k = choose|k: int| 0 <= k < a.len() && a[k] == t;
            assert((a + b)[k] == t);
        }
        if b.contains(t) {
            let k = choose|k: int| 0 <= k < b.len() && b[k] == t;
            assert((a + b)[a.len() + k] == t);
        }
        if (a + b).contains(t) {
            let k = choose|k: int| 0 <= k < (a + b).len() && (a + b)[k] == t;
            if k < a.len() {
                assert(a[k] == t);
            } else {
                assert(b[k - a.len()] == t);
            }
        }
    }
}

proof fn lemma_three_parts(
    ctx: ContextModel,
    c: BlockId,
    a: Seq<TransferModel>,
    b: Seq<TransferModel>,
)
    ensures
        forall|t: TransferModel| #[trigger]
            (implicit(ctx, c) + a + b).contains(t) <==> a.contains(t) || b.contains(t) || (ctx.depth
                > 0 && t == unknown_exception(c)),
        forall|t: TransferModel| #[trigger]
            (implicit(ctx, c) + a).contains(t) <==> a.contains(t) || (ctx.depth > 0 && t
                == unknown_exception(c)),
        forall|t: TransferModel| #[trigger]
            implicit(ctx, c).contains(t) <==> ctx.depth > 0 && t == unknown_exception(c),
{
    let i = implicit(ctx, c);
    assert forall|t: TransferModel| #[trigger] i.contains(t) <==> ctx.depth > 0 && t
        == unknown_exception(c) by {
        if ctx.depth > 0 {
            assert(i[0] == unknown_exception(c));
        }
    }
    lemma_contains_add(i, a);
    lemma_contains_add(i + a, b);
}

/// `if..then` without `else`: where the condition is false the flow goes on behind
/// the statement.
///
/// The witness gives the condition block, the block at which the statement of the
/// `then` field begins, and the state in which it begins.
pub proof fn law_if(
    env: EnvModel,
    ctx: ContextModel,
    st: StateModel,
    node: SyntaxNode,
    current: BlockId,
) -> (r: (BlockId, BlockId, StateModel))
    requires
        node.kind@ == "if"@,
        !node.extra,
        begins(ctx, st, current),
        size(single(env, ctx, st, node, current).0) <= usize::MAX,
    ensures
        ({
            let (c, yes, s1) = r;
            let (last, flow) = single(env, ctx, st, node, current);
            let (e1, f1) = in_sequence(env, ctx, s1, then_part(node), Some(yes));
            &&& arrives(ctx, st, last, current, c)
            &&& node.find(any_field("condition"@)) matches Some(k) ==> holds(
                last,
                c,
                node.start,
                node.children@[k].end,
                node.kind@,
            )
            &&& flow.normal matches Some(behind) && one_edge(
                st,
                last,
                c,
                EdgeKind::ConditionalFalse,
                behind,
            ) && behind != yes && size(st) <= behind.0 < size(s1)
            &&& one_edge(st, last, c, EdgeKind::ConditionalTrue, yes)
            &&& size(st) <= yes.0 < size(s1)
            &&& extends(st, s1) && extends(e1, last)
            &&& goes_on(last, f1.normal, flow.normal, EdgeKind::Normal)
            &&& forall|t: TransferModel| #[trigger]
                flow.transfers.contains(t) <==> f1.transfers.contains(t) || (ctx.depth > 0 && t
                    == unknown_exception(c))
        }),
{
    lemma_single_is(env, ctx, st, node, current);
    let none = Seq::<TransferModel>::empty();
    let (s1, c) = condition(ctx, st, node, current);
    let (s0, c0) = prepared(ctx, st, current);
    let t = s1.next();
    let s2 = s1.block(BasicBlockKind::Normal);
    let j = s2.next();
    let s20 = s2.block(BasicBlockKind::Normal);
    let s21 = s20.edge(c, t, EdgeKind::ConditionalTrue);
    let s3 = s21.edge(c, j, EdgeKind::ConditionalFalse);
    let (s4, f1) = walk(env, ctx, s3, node, Selection::Then, 0, Some(t), none);
    let (last, flow) = single(env, ctx, st, node, current);
    lemma_walk_done(env, node, ctx, s3, node, Selection::Then, 0, Some(t), none);
    lemma_parts(env, ctx, s3, node, Some(t));
    lemma_sizes(s3, s4);
    lemma_sizes(s4, last);
    assert(extends(st, s0) && extends(s0, s1) && extends(s1, s3));
    lemma_sizes(st, s0);
    lemma_arrives(env, ctx, st, current, last);
    if let Some(k) = node.find(any_field("condition"@)) {
        lemma_held(s0, c, node.start, node.children@[k].end, node.kind@);
        lemma_holds_still(s1, last, c, node.start, node.children@[k].end, node.kind@);
    }
    let yes = EdgeKind::ConditionalTrue;
    let no = EdgeKind::ConditionalFalse;
    lemma_first_edge(st, s20, c, yes, t);
    lemma_one_edge_beside(st, s21, s3, c, yes, t);
    lemma_first_edge(st, s21, c, no, j);
    lemma_one_edge_still(env, node, st, s3, Some(t), s4, f1.normal, c, yes, t);
    lemma_one_edge_still(env, node, st, s3, Some(t), s4, f1.normal, c, no, j);
    lemma_one_edge_beside(st, s4, last, c, yes, t);
    lemma_one_edge_beside(st, s4, last, c, no, j);
    if let Some(end) = f1.normal {
        lemma_joined(s4, end, j, EdgeKind::Normal);
    }
    lemma_three_parts(ctx, c, f1.transfers, none);
    (c, t, s3)
}

// Loops ----------------------------------------------------------------------------------------

/// What becomes of the transfers of a loop body: a `break` of the loop has an edge
/// to the block behind it, a `continue` one to where the next round is decided; the
/// rest leaves the loop, and nothing else does but an exception of the loop's own
/// header.
pub open spec fn settles(
    ctx: ContextModel,
    last: StateModel,
    body: Seq<TransferModel>,
    out: Seq<TransferModel>,
    again: BlockId,
    after: BlockId,
) -> bool {
    &&& forall|t: TransferModel| #[trigger]
        body.contains(t) && t.kind == TransferKind::Break && t.target == Some(after) ==> joins(
            last,
            t.source,
            after,
            t.completion(),
        )
    &&& forall|t: TransferModel| #[trigger]
        body.contains(t) && t.kind == TransferKind::Continue && t.target == Some(again) ==> joins(
            last,
            t.source,
            again,
            t.completion(),
        )
    &&& forall|t: TransferModel| #[trigger]
        out.contains(t) <==> (body.contains(t) && !of_loop(t, after, again)) || (ctx.depth > 0 && t
            == unknown_exception(again))
}

proof fn lemma_settled_from(
    st: StateModel,
    transfers: Seq<TransferModel>,
    i: int,
    after: BlockId,
    again: BlockId,
    acc: Seq<TransferModel>,
    t: TransferModel,
)
    requires
        0 <= i,
        settled(st, transfers, i, after, again, acc).1.contains(t),
    ensures
        acc.contains(t) || transfers.contains(t),
    decreases transfers.len() - i,
{
    if i < transfers.len() {
        let x = transfers[i];
        if x.kind == TransferKind::Break && x.target == Some(after) {
            let s = st.edge(x.source, after, x.completion());
            lemma_settled_from(s, transfers, i + 1, after, again, acc, t);
        } else if x.kind == TransferKind::Continue && x.target == Some(again) {
            let s = st.edge(x.source, again, x.completion());
            lemma_settled_from(s, transfers, i + 1, after, again, acc, t);
        } else {
            lemma_settled_from(st, transfers, i + 1, after, again, acc.push(x), t);
            if acc.push(x).contains(t) && !acc.contains(t) {
                let k = choose|k: int| 0 <= k < acc.push(x).len() && acc.push(x)[k] == t;
                if k < acc.len() {
                    assert(acc[k] == t);
                }
                assert(transfers[i] == t);
            }
        }
    }
}

proof fn lemma_settles(
    ctx: ContextModel,
    st: StateModel,
    transfers: Seq<TransferModel>,
    again: BlockId,
    after: BlockId,
)
    ensures
        ({
            let acc = implicit(ctx, again);
            let (s, out) = settled(st, transfers, 0, after, again, acc);
            settles(ctx, s, transfers, out, again, after)
        }),
{
    let acc = implicit(ctx, again);
    let (s, out) = settled(st, transfers, 0, after, again, acc);
    lemma_settled_rest(st, transfers, 0, after, again, acc);
    crate::graph_laws::lemma_settled_keeps(st, transfers, 0, after, again, acc);
    lemma_three_parts(ctx, again, transfers, transfers);
    assert forall|t: TransferModel| #[trigger] transfers.contains(t) implies {
        &&& t.kind == TransferKind::Break && t.target == Some(after) ==> joins(
            s,
            t.source,
            after,
            t.completion(),
        )
        &&& t.kind == TransferKind::Continue && t.target == Some(again) ==> joins(
            s,
            t.source,
            again,
            t.completion(),
        )
        &&& !of_loop(t, after, again) ==> out.contains(t)
    } by {
        let k = choose|k: int| 0 <= k < transfers.len() && transfers[k] == t;
        lemma_settled_holds(st, transfers, 0, after, again, acc, k);
    }
    assert forall|t: TransferModel| #[trigger] out.contains(t) <==> (transfers.contains(t)
        && !of_loop(t, after, again)) || (ctx.depth > 0 && t == unknown_exception(again)) by {
        if out.contains(t) {
            lemma_settled_from(st, transfers, 0, after, again, acc, t);
            let k = choose|k: int| 0 <= k < out.len() && out[k] == t;
            assert(!of_loop(out[k], after, again));
        }
        if acc.contains(t) {
            let k = choose|k: int| 0 <= k < acc.len() && acc[k] == t;
            assert(out[k] == t);
        }
    }
}

/// The context of the body of a loop: what `continue` and `break` mean in it.
pub open spec fn loop_context(ctx: ContextModel, again: BlockId, after: BlockId) -> ContextModel {
    ContextModel {
        loops: ctx.loops.push(
            FrameModel { continue_target: again, break_target: after, scopes: ctx.scopes },
        ),
        ..ctx
    }
}

/// The field whose end closes the header of a loop.
pub open spec fn closes_header(kind: Seq<char>, field: Seq<char>) -> bool {
    ||| kind == "while"@ && field == "condition"@
    ||| kind == "for"@ && field == "end"@
    ||| kind == "foreach"@ && field == "iterable"@
}

/// `for`, `foreach` and `while`: the flow enters a header block; from there one edge
/// leads into the body and one behind the loop; the end of the body leads back to
/// the header.
///
/// The witness gives the header, the block at which the body begins, and the state
/// in which it begins.
pub proof fn law_loop(
    env: EnvModel,
    ctx: ContextModel,
    st: StateModel,
    node: SyntaxNode,
    current: BlockId,
    field: Seq<char>,
) -> (r: (BlockId, BlockId, StateModel))
    requires
        closes_header(node.kind@, field),
        !node.extra,
        begins(ctx, st, current),
        size(single(env, ctx, st, node, current).0) <= usize::MAX,
    ensures
        ({
            let (head, body, s1) = r;
            let (last, flow) = single(env, ctx, st, node, current);
            flow.normal matches Some(after) && {
                let inner = loop_context(ctx, head, after);
                let (e1, f1) = in_sequence(env, inner, s1, body_part(node), Some(body));
                &&& size(st) <= head.0 < size(s1)
                &&& size(st) <= body.0 < size(s1)
                &&& size(st) <= after.0 < size(s1)
                &&& head != body && head != after && body != after
                &&& joins(last, current, head, EdgeKind::Normal)
                &&& node.find(any_field(field)) matches Some(k) ==> holds(
                    last,
                    head,
                    node.start,
                    node.children@[k].end,
                    node.kind@,
                )
                &&& one_edge(st, last, head, EdgeKind::ConditionalTrue, body)
                &&& one_edge(st, last, head, EdgeKind::LoopExit, after)
                &&& f1.normal matches Some(end) ==> joins(last, end, head, EdgeKind::LoopBack)
                &&& extends(st, s1) && extends(e1, last)
                &&& settles(ctx, last, f1.transfers, flow.transfers, head, after)
            }
        }),
{
    lemma_single_is(env, ctx, st, node, current);
    let none = Seq::<TransferModel>::empty();
    let c = st.next();
    let s1 = st.block(BasicBlockKind::Normal);
    let b = s1.next();
    let s2 = s1.block(BasicBlockKind::Normal);
    let a = s2.next();
    let s0 = s2.block(BasicBlockKind::Normal);
    let s01 = s0.edge(current, c, EdgeKind::Normal);
    let h = loop_header(s01, c, node);
    let h1 = h.edge(c, b, EdgeKind::ConditionalTrue);
    let s3 = h1.edge(c, a, EdgeKind::LoopExit);
    let inner = ctx.in_loop(c, a);
    let (s4, f) = walk(env, inner, s3, node, Selection::Body, 0, Some(b), none);
    let s5 = match f.normal {
        Some(end) => s4.edge(end, c, EdgeKind::LoopBack),
        None => s4,
    };
    let (s6, transfers) = settled(s5, f.transfers, 0, a, c, implicit(ctx, c));
    let (last, flow) = single(env, ctx, st, node, current);
    lemma_kinds_differ();
    assert(last == s6);
    assert(loop_context(ctx, c, a) =~= inner);
    lemma_walk_done(env, node, inner, s3, node, Selection::Body, 0, Some(b), none);
    lemma_parts(env, inner, s3, node, Some(b));
    lemma_settled(ctx, s5, f.transfers, 0, a, c, implicit(ctx, c));
    assert(extends(s5, s6));
    lemma_sizes(s3, s4);
    lemma_sizes(s5, s6);
    assert(extends(st, s3));
    assert(extends(s4, last));
    lemma_joined(s0, current, c, EdgeKind::Normal);
    lemma_joins_still(s01, last, current, c, EdgeKind::Normal);
    if let Some(k) = node.find(any_field(field)) {
        lemma_held(s01, c, node.start, node.children@[k].end, node.kind@);
        lemma_holds_still(h, last, c, node.start, node.children@[k].end, node.kind@);
    }
    let yes = EdgeKind::ConditionalTrue;
    let exit = EdgeKind::LoopExit;
    assert(h.graph.edges == s01.graph.edges);
    lemma_first_edge(st, h, c, yes, b);
    lemma_one_edge_beside(st, h1, s3, c, yes, b);
    lemma_first_edge(st, h1, c, exit, a);
    lemma_one_edge_still(env, node, st, s3, Some(b), s4, f.normal, c, yes, b);
    lemma_one_edge_still(env, node, st, s3, Some(b), s4, f.normal, c, exit, a);
    lemma_one_edge_beside(st, s4, s5, c, yes, b);
    lemma_one_edge_beside(st, s4, s5, c, exit, a);
    lemma_settled_kinds(s5, f.transfers, 0, a, c, implicit(ctx, c));
    lemma_one_edge_beside(st, s5, s6, c, yes, b);
    lemma_one_edge_beside(st, s5, s6, c, exit, a);
    if let Some(end) = f.normal {
        lemma_joined(s4, end, c, EdgeKind::LoopBack);
        lemma_joins_still(s5, last, end, c, EdgeKind::LoopBack);
    }
    lemma_settles(ctx, s5, f.transfers, c, a);
    (c, b, s3)
}

proof fn lemma_settled_kinds(
    st: StateModel,
    transfers: Seq<TransferModel>,
    i: int,
    after: BlockId,
    again: BlockId,
    acc: Seq<TransferModel>,
)
    ensures
        ({
            let s = settled(st, transfers, i, after, again, acc).0;
            forall|k: int|
                st.graph.edges.len() <= k < s.graph.edges.len() ==> !structural(
                    (#[trigger] s.graph.edges[k]).kind,
                )
        }),
    decreases transfers.len() - i,
{
    if 0 <= i < transfers.len() {
        let t = transfers[i];
        let last = settled(st, transfers, i, after, again, acc).0;
        let next = if t.kind == TransferKind::Break && t.target == Some(after) {
            st.edge(t.source, after, t.completion())
        } else if t.kind == TransferKind::Continue && t.target == Some(again) {
            st.edge(t.source, again, t.completion())
        } else {
            st
        };
        let acc1 = if of_loop(t, after, again) {
            acc
        } else {
            acc.push(t)
        };
        lemma_settled_kinds(next, transfers, i + 1, after, again, acc1);
        lemma_settled(crate::scope_graph::outermost(), next, transfers, i + 1, after, again, acc1);
        assert(extends(next, last));
        reveal(extends);
        assert forall|k: int| st.graph.edges.len() <= k < last.graph.edges.len() implies !structural(
            (#[trigger] last.graph.edges[k]).kind,
        ) by {
            if k < next.graph.edges.len() {
                assert(last.graph.edges[k] == next.graph.edges[k]);
            }
        }
    }
}

/// `repeat..until`: the flow enters the body at once; the end of the body leads to
/// the block of the condition, and from there one edge leads back into the body and
/// one behind the loop.
///
/// The witness gives the block at which the body begins, the block of the
/// condition, and the state in which the body begins.
pub proof fn law_repeat(
    env: EnvModel,
    ctx: ContextModel,
    st: StateModel,
    node: SyntaxNode,
    current: BlockId,
) -> (r: (BlockId, BlockId, StateModel))
    requires
        node.kind@ == "repeat"@,
        !node.extra,
        begins(ctx, st, current),
        size(single(env, ctx, st, node, current).0) <= usize::MAX,
    ensures
        ({
            let (body, c, s1) = r;
            let (last, flow) = single(env, ctx, st, node, current);
            flow.normal matches Some(after) && {
                let inner = loop_context(ctx, c, after);
                let (e1, f1) = in_sequence(env, inner, s1, body_part(node), Some(body));
                &&& size(st) <= c.0 < size(s1)
                &&& size(st) <= body.0 < size(s1)
                &&& size(st) <= after.0 < size(s1)
                &&& c != body && c != after && body != after
                &&& joins(last, current, body, EdgeKind::Normal)
                &&& node.find(any_field("condition"@)) matches Some(k) ==> holds(
                    last,
                    c,
                    node.children@[k].start,
                    node.children@[k].end,
                    node.children@[k].kind@,
                )
                &&& node.find(any_kind("kRepeat"@)) matches Some(k) ==> holds(
                    last,
                    c,
                    node.children@[k].start,
                    node.children@[k].end,
                    node.kind@,
                )
                &&& joins(last, c, body, EdgeKind::LoopBack)
                &&& one_edge(st, last, c, EdgeKind::LoopExit, after)
                &&& goes_on(last, f1.normal, Some(c), EdgeKind::Normal)
                &&& extends(st, s1) && extends(e1, last)
                &&& settles(ctx, last, f1.transfers, flow.transfers, c, after)
            }
        }),
{
    lemma_single_is(env, ctx, st, node, current);
    let none = Seq::<TransferModel>::empty();
    let b = st.next();
    let s1 = st.block(BasicBlockKind::Normal);
    let c = s1.next();
    let s2 = s1.block(BasicBlockKind::Normal);
    let a = s2.next();
    let s0 = s2.block(BasicBlockKind::Normal);
    let s3 = s0.edge(current, b, EdgeKind::Normal);
    let inner = ctx.in_loop(c, a);
    let (s4, f) = walk(env, inner, s3, node, Selection::Body, 0, Some(b), none);
    let s5 = match f.normal {
        Some(end) => s4.edge(end, c, EdgeKind::Normal),
        None => s4,
    };
    let (s6, transfers) = settled(s5, f.transfers, 0, a, c, implicit(ctx, c));
    let h = repeat_header(s6, c, node);
    let h1 = h.edge(c, b, EdgeKind::LoopBack);
    let last = h1.edge(c, a, EdgeKind::LoopExit);
    assert(single(env, ctx, st, node, current) == repeat_loop(env, ctx, st, node, current));
    assert(single(env, ctx, st, node, current).0 == last);
    assert(loop_context(ctx, c, a) =~= inner);
    lemma_walk_done(env, node, inner, s3, node, Selection::Body, 0, Some(b), none);
    lemma_parts(env, inner, s3, node, Some(b));
    lemma_settled(ctx, s5, f.transfers, 0, a, c, implicit(ctx, c));
    lemma_settled_kinds(s5, f.transfers, 0, a, c, implicit(ctx, c));
    assert(extends(s5, s6));
    lemma_sizes(s3, s4);
    lemma_sizes(s5, s6);
    assert(extends(st, s3));
    assert(extends(s4, last));
    assert(extends(s6, last));
    lemma_joined(s0, current, b, EdgeKind::Normal);
    lemma_joins_still(s3, last, current, b, EdgeKind::Normal);
    let m = match node.find(any_kind("kRepeat"@)) {
        Some(k) => s6.stmt(c, node.children@[k].start, node.children@[k].end, node.kind@),
        None => s6,
    };
    if let Some(k) = node.find(any_kind("kRepeat"@)) {
        let (x, y) = (node.children@[k].start, node.children@[k].end);
        lemma_held(s6, c, x, y, node.kind@);
        assert(extends(m, last));
        lemma_holds_still(m, last, c, x, y, node.kind@);
    }
    if let Some(k) = node.find(any_field("condition"@)) {
        let (x, y) = (node.children@[k].start, node.children@[k].end);
        lemma_held(m, c, x, y, node.children@[k].kind@);
        lemma_holds_still(h, last, c, x, y, node.children@[k].kind@);
    }
    lemma_joined(h, c, b, EdgeKind::LoopBack);
    lemma_joins_still(h1, last, c, b, EdgeKind::LoopBack);
    let exit = EdgeKind::LoopExit;
    assert forall|k: int| st.graph.edges.len() <= k < h1.graph.edges.len() implies (
    #[trigger] h1.graph.edges[k]).source != c || h1.graph.edges[k].kind != exit by {
        reveal(extends);
        reveal(local);
        if k < s3.graph.edges.len() {
            assert(h1.graph.edges[k] == s3.graph.edges[k]);
        } else if k < s4.graph.edges.len() {
            assert(h1.graph.edges[k] == s4.graph.edges[k]);
        } else if k < s5.graph.edges.len() {
            assert(h1.graph.edges[k] == s5.graph.edges[k]);
        } else if k < s6.graph.edges.len() {
            assert(h1.graph.edges[k] == s6.graph.edges[k]);
        }
    }
    assert(extends(st, h1));
    lemma_first_edge(st, h1, c, exit, a);
    if let Some(end) = f.normal {
        lemma_joined(s4, end, c, EdgeKind::Normal);
        lemma_joins_still(s5, last, end, c, EdgeKind::Normal);
    }
    lemma_settles(ctx, s5, f.transfers, c, a);
    assert forall|x: BlockId, y: BlockId, kind: EdgeKind| #[trigger]
        joins(s6, x, y, kind) implies joins(last, x, y, kind) by {
        lemma_joins_still(s6, last, x, y, kind);
    }
    (b, c, s3)
}

/// `with`: the entities are evaluated in one block, the body follows behind an edge
/// of its own, and the flow goes on from the end of the body.
///
/// The witness gives the block of the entities, the block at which the body begins,
/// and the state in which it begins.
pub proof fn law_with(
    env: EnvModel,
    ctx: ContextModel,
    st: StateModel,
    node: SyntaxNode,
    current: BlockId,
) -> (r: (BlockId, BlockId, StateModel))
    requires
        node.kind@ == "with"@,
        !node.extra,
        begins(ctx, st, current),
        size(single(env, ctx, st, node, current).0) <= usize::MAX,
    ensures
        ({
            let (c, body, s1) = r;
            let (last, flow) = single(env, ctx, st, node, current);
            let (e1, f1) = in_sequence(env, ctx, s1, body_part(node), Some(body));
            &&& arrives(ctx, st, last, current, c)
            &&& forall|k: int|
                0 <= k < node.children@.len() && opt_text((#[trigger] node.children@[k]).field)
                    == Some("entity"@) && (forall|j: int|
                    k < j < node.children@.len() ==> opt_text(
                        (#[trigger] node.children@[j]).field,
                    ) != Some("entity"@)) ==> holds(
                    last,
                    c,
                    node.start,
                    node.children@[k].end,
                    node.kind@,
                )
            &&& size(st) <= body.0 < size(s1)
            &&& joins(last, c, body, EdgeKind::Normal)
            &&& extends(st, s1) && extends(e1, last)
            &&& goes_on(last, f1.normal, flow.normal, EdgeKind::Normal)
            &&& flow.normal is Some ==> f1.normal is Some
            &&& forall|t: TransferModel| #[trigger]
                flow.transfers.contains(t) <==> f1.transfers.contains(t) || (ctx.depth > 0 && t
                    == unknown_exception(c))
        }),
{
    lemma_single_is(env, ctx, st, node, current);
    let none = Seq::<TransferModel>::empty();
    let (s0, c) = prepared(ctx, st, current);
    let count = node.children@.len() as int;
    let s1 = match last_under(node, "entity"@, count) {
        Some(k) => s0.stmt(c, node.start, node.children@[k].end, node.kind@),
        None => s0,
    };
    let b = s1.next();
    let s10 = s1.block(BasicBlockKind::Normal);
    let s2 = s10.edge(c, b, EdgeKind::Normal);
    let (s3, f) = walk(env, ctx, s2, node, Selection::Body, 0, Some(b), none);
    let (last, normal) = met(s3, f.normal, None);
    assert(single(env, ctx, st, node, current) == with_statement(env, ctx, st, node, current));
    lemma_walk_done(env, node, ctx, s2, node, Selection::Body, 0, Some(b), none);
    lemma_parts(env, ctx, s2, node, Some(b));
    lemma_sizes(s2, s3);
    lemma_sizes(s3, last);
    assert(extends(st, s0) && extends(s0, s1) && extends(s1, s2));
    lemma_sizes(st, s0);
    lemma_arrives(env, ctx, st, current, last);
    assert forall|k: int|
        0 <= k < node.children@.len() && opt_text((#[trigger] node.children@[k]).field) == Some(
            "entity"@,
        ) && (forall|j: int|
            k < j < node.children@.len() ==> opt_text((#[trigger] node.children@[j]).field) != Some(
                "entity"@,
            )) implies holds(last, c, node.start, node.children@[k].end, node.kind@) by {
        lemma_last_is(node, "entity"@, k, count);
        lemma_held(s0, c, node.start, node.children@[k].end, node.kind@);
        lemma_holds_still(s1, last, c, node.start, node.children@[k].end, node.kind@);
    }
    lemma_joined(s10, c, b, EdgeKind::Normal);
    lemma_joins_still(s2, last, c, b, EdgeKind::Normal);
    lemma_met_joins(s3, f.normal, None);
    lemma_three_parts(ctx, c, f.transfers, none);
    (c, b, s2)
}

proof fn lemma_last_is(node: SyntaxNode, field: Seq<char>, k: int, n: int)
    requires
        0 <= k < n <= node.children@.len(),
        opt_text(node.children@[k].field) == Some(field),
        forall|j: int|
            k < j < node.children@.len() ==> opt_text((#[trigger] node.children@[j]).field) != Some(
                field,
            ),
    ensures
        last_under(node, field, n) == Some(k),
    decreases n,
{
    if k < n - 1 {
        assert(opt_text(node.children@[n - 1].field) != Some(field));
        lemma_last_is(node, field, k, n - 1);
    }
}

} // verus!
