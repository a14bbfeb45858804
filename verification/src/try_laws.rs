//! What `try..except` and `try..finally` add to a graph.

use vstd::prelude::*;
use crate::exception_types::{context_of, handler_fact_of, ExceptionTypeFact};
use crate::flow::{distinct, FlowModel, TransferKind, TransferModel};
use crate::graph::{BasicBlockKind, BlockId, EdgeKind};
use crate::graph_facts::{extends, size};
use crate::graph_laws::{
    group_done, lemma_distinct_from, lemma_distinct_holds, lemma_edges_to, lemma_exceptions_hold,
};
use crate::labels::finalized;
use crate::scope_graph::{
    all_handlers, body_key, dispatch_all, edges_to, entered, entry_edge, exceptions_of, facts_of,
    finalize, finally_body, group_with, grouped, groups_of, handler_ends, handler_transfers,
    handlers_from, scope_number, single, staying, superseding, try_body, try_except, try_finally,
    walk, CachedModel, ContextModel, EnvModel, GroupModel, HandlerModel, Selection, StateModel,
};
use crate::statement_laws::{
    begins, body_part, goes_on, joins, lemma_contains_add, lemma_joined, lemma_joins_still,
    lemma_parts, lemma_single_is,
};
use crate::syntax::{any_field, field_kind, hit, opt_text, SyntaxNode};
use crate::text::lower_text;
use crate::walk_facts::{
    cache_made, calm, finalizer_run, in_sequence, known, lemma_all_handlers_done, lemma_cache_still,
    lemma_dispatch_all_quiet, lemma_entered_quiet, lemma_finally_body_done, lemma_groups_calm,
    lemma_handlers_from_done, lemma_made_still, lemma_sizes, lemma_statements, lemma_try_body_done,
    lemma_walk_done, lemma_walk_is_sequence, made_by, made_in, occurs, picked, quiet, runs_as,
    statements_of,
};

verus! {

broadcast use {crate::graph_facts::group_graph_facts, crate::syntax::lemma_find_bounds};

// The protected statements -----------------------------------------------------------------------

/// The statements behind `try`.
pub open spec fn try_part(node: SyntaxNode) -> Seq<SyntaxNode> {
    match node.find(field_kind("try"@, "statements"@)) {
        Some(k) => statements_of(node.children@[k]),
        None => Seq::empty(),
    }
}

/// Whether the statements behind `try` begin at a block: a new one that the flow
/// enters, or the current one where there are none.
pub open spec fn enters_try(
    st: StateModel,
    last: StateModel,
    node: SyntaxNode,
    current: BlockId,
    s1: StateModel,
    entry: BlockId,
) -> bool {
    if node.find(field_kind("try"@, "statements"@)) is Some {
        &&& size(st) <= entry.0 < size(s1)
        &&& joins(last, current, entry, EdgeKind::Normal)
        &&& extends(st, s1)
    } else {
        entry == current && s1 == st
    }
}

pub proof fn lemma_try_body(
    env: EnvModel,
    ctx: ContextModel,
    st: StateModel,
    node: SyntaxNode,
    current: BlockId,
    last: StateModel,
) -> (r: (BlockId, StateModel))
    requires
        extends(try_body(env, ctx, st, node, current).0, last),
        size(last) <= usize::MAX,
    ensures
        enters_try(st, last, node, current, r.1, r.0),
        try_body(env, ctx, st, node, current) == in_sequence(
            env,
            ctx,
            r.1,
            try_part(node),
            Some(r.0),
        ),
{
    match node.find(field_kind("try"@, "statements"@)) {
        Some(k) => {
            let entry = st.next();
            let list = node.children@[k];
            let s = st.block(BasicBlockKind::Normal);
            let s0 = s.edge(current, entry, EdgeKind::Normal);
            let all = Selection::Statements;
            lemma_statements(env, ctx, s0, list, Some(entry));
            lemma_walk_done(env, list, ctx, s0, list, all, 0, Some(entry), Seq::empty());
            let end = try_body(env, ctx, st, node, current).0;
            lemma_sizes(s0, end);
            lemma_sizes(end, last);
            lemma_joined(s, current, entry, EdgeKind::Normal);
            lemma_joins_still(s0, last, current, entry, EdgeKind::Normal);
            (entry, s0)
        },
        None => (current, st),
    }
}

// Handlers ---------------------------------------------------------------------------------------

/// Whether a child is a handler of a `try..except`: one for a class, the `else` part
/// or the statements of a bare `except`.
pub open spec fn is_handler(child: SyntaxNode) -> bool {
    opt_text(child.field) == Some("except"@) && (child.kind@ == "exceptionHandler"@ || child.kind@
        == "exceptionElse"@ || child.kind@ == "statements"@)
}

/// The statements of a handler.
pub open spec fn handler_part(child: SyntaxNode) -> Seq<SyntaxNode> {
    if child.kind@ == "exceptionHandler"@ {
        body_part(child)
    } else if child.kind@ == "exceptionElse"@ {
        picked(
            child.children@,
            |i: int| child.children@[i].kind@ != "kElse"@ && child.children@[i].kind@ != ";"@,
            child.children@.len() as int,
        )
    } else {
        statements_of(child)
    }
}

/// The context inside a handler that handles an exception.
pub open spec fn handler_context(ctx: ContextModel, handled: ExceptionTypeFact) -> ContextModel {
    ContextModel { handled: ctx.handled.push(handled), depth: ctx.depth + 1, ..ctx }
}

/// What a handler handles, given what its `try` may raise: an exception of its class
/// as far as that is known.
pub open spec fn handled_by(
    env: EnvModel,
    child: SyntaxNode,
    incoming: Seq<ExceptionTypeFact>,
) -> ExceptionTypeFact {
    if child.kind@ == "exceptionHandler"@ {
        context_of(
            env.types,
            handler_fact_of(env.types, env.unit, child, env.source),
            incoming,
        )
    } else {
        ExceptionTypeFact::Unknown
    }
}

pub proof fn lemma_handler_kinds()
    ensures
        "exceptionHandler"@ != "exceptionElse"@,
        "exceptionHandler"@ != "statements"@,
        "exceptionElse"@ != "statements"@,
{
    reveal_strlit("exceptionHandler");
    reveal_strlit("exceptionElse");
    reveal_strlit("statements");
    assert("exceptionHandler"@.len() == 16);
    assert("exceptionElse"@.len() == 13);
    assert("statements"@.len() == 10);
}

/// The walk of one handler: where it begins, and what it gives.
pub open spec fn handler_step(
    env: EnvModel,
    ctx: ContextModel,
    st: StateModel,
    child: SyntaxNode,
    incoming: Seq<ExceptionTypeFact>,
) -> (StateModel, HandlerModel) {
    let entry = st.next();
    if child.kind@ == "exceptionHandler"@ {
        let fact = handler_fact_of(env.types, env.unit, child, env.source);
        let (s, flow) = walk(
            env,
            ctx.in_handler(context_of(env.types, fact, incoming)),
            st.block(BasicBlockKind::ExceptHandler),
            child,
            Selection::Body,
            0,
            Some(entry),
            Seq::empty(),
        );
        (s, HandlerModel { entry, catch_all: false, fact, flow })
    } else {
        let (s, flow) = walk(
            env,
            ctx.in_handler(ExceptionTypeFact::Unknown),
            st.block(BasicBlockKind::BareExceptHandler),
            child,
            if child.kind@ == "exceptionElse"@ {
                Selection::ExceptElse
            } else {
                Selection::Statements
            },
            0,
            Some(entry),
            Seq::empty(),
        );
        (s, HandlerModel { entry, catch_all: true, fact: ExceptionTypeFact::Unknown, flow })
    }
}

/// The state of a handler's own block before its statements.
pub open spec fn handler_start(st: StateModel, child: SyntaxNode) -> StateModel {
    st.block(
        if child.kind@ == "exceptionHandler"@ {
            BasicBlockKind::ExceptHandler
        } else {
            BasicBlockKind::BareExceptHandler
        },
    )
}

pub proof fn lemma_handler_step(
    env: EnvModel,
    ctx: ContextModel,
    st: StateModel,
    child: SyntaxNode,
    incoming: Seq<ExceptionTypeFact>,
)
    requires
        is_handler(child),
    ensures
        ({
            let (s, h) = handler_step(env, ctx, st, child, incoming);
            let s0 = handler_start(st, child);
            let inner = handler_context(ctx, handled_by(env, child, incoming));
            &&& extends(s0, s)
            &&& (s, h.flow) == in_sequence(env, inner, s0, handler_part(child), Some(st.next()))
        }),
{
    lemma_handler_kinds();
    let s0 = handler_start(st, child);
    let entry = Some(st.next());
    let inner = handler_context(ctx, handled_by(env, child, incoming));
    let none = Seq::<TransferModel>::empty();
    assert(inner =~= ctx.in_handler(handled_by(env, child, incoming)));
    lemma_parts(env, inner, s0, child, entry);
    lemma_statements(env, inner, s0, child, entry);
    let pick = |i: int|
        child.children@[i].kind@ != "kElse"@ && child.children@[i].kind@ != ";"@;
    lemma_walk_is_sequence(env, inner, s0, child, Selection::ExceptElse, pick, 0, entry);
    lemma_walk_done(env, child, inner, s0, child, Selection::ExceptElse, 0, entry, none);
    lemma_walk_done(env, child, inner, s0, child, Selection::Body, 0, entry, none);
    lemma_walk_done(env, child, inner, s0, child, Selection::Statements, 0, entry, none);
}

/// The handlers are found in their order: each child that is one gives one.
proof fn lemma_handler_found(
    env: EnvModel,
    ctx: ContextModel,
    st: StateModel,
    node: SyntaxNode,
    incoming: Seq<ExceptionTypeFact>,
    j: int,
    acc: Seq<HandlerModel>,
    i: int,
) -> (r: (int, StateModel))
    requires
        0 <= j <= i < node.children@.len(),
        is_handler(node.children@[i]),
    ensures
        ({
            let (s, handlers) = handlers_from(env, ctx, st, node, incoming, j, acc);
            let (h, at) = r;
            let (end, handler) = handler_step(env, ctx, at, node.children@[i], incoming);
            &&& acc.len() <= h < handlers.len()
            &&& handlers[h] == handler
            &&& extends(st, at)
            &&& extends(end, s)
        }),
    decreases i - j,
{
    lemma_handler_kinds();
    let child = node.children@[j];
    if hit(any_field("except"@), child) && (child.kind@ == "exceptionHandler"@ || child.kind@
        == "exceptionElse"@ || child.kind@ == "statements"@) {
        let (s, handler) = handler_step(env, ctx, st, child, incoming);
        lemma_handler_step(env, ctx, st, child, incoming);
        assert(extends(st, s));
        let acc1 = acc.push(handler);
        assert(handlers_from(env, ctx, st, node, incoming, j, acc) == handlers_from(
            env,
            ctx,
            s,
            node,
            incoming,
            j + 1,
            acc1,
        ));
        lemma_handlers_from_done(env, node, ctx, s, node, incoming, j + 1, acc1);
        lemma_handlers_keep(env, ctx, s, node, incoming, j + 1, acc1);
        if j == i {
            let all = handlers_from(env, ctx, s, node, incoming, j + 1, acc1).1;
            assert(all[acc.len() as int] == acc1[acc.len() as int]);
            (acc.len() as int, st)
        } else {
            let r = lemma_handler_found(env, ctx, s, node, incoming, j + 1, acc1, i);
            r
        }
    } else {
        lemma_handler_found(env, ctx, st, node, incoming, j + 1, acc, i)
    }
}

pub proof fn lemma_handlers_keep(
    env: EnvModel,
    ctx: ContextModel,
    st: StateModel,
    node: SyntaxNode,
    incoming: Seq<ExceptionTypeFact>,
    j: int,
    acc: Seq<HandlerModel>,
)
    ensures
        ({
            let all = handlers_from(env, ctx, st, node, incoming, j, acc).1;
            &&& acc.len() <= all.len()
            &&& forall|k: int| 0 <= k < acc.len() ==> #[trigger] all[k] == acc[k]
        }),
    decreases node.children@.len() - j,
{
    if 0 <= j < node.children@.len() {
        lemma_handler_kinds();
        let child = node.children@[j];
        if hit(any_field("except"@), child) && (child.kind@ == "exceptionHandler"@ || child.kind@
            == "exceptionElse"@ || child.kind@ == "statements"@) {
            let (s, handler) = handler_step(env, ctx, st, child, incoming);
            let acc1 = acc.push(handler);
            let all = handlers_from(env, ctx, st, node, incoming, j, acc).1;
            lemma_handlers_keep(env, ctx, s, node, incoming, j + 1, acc1);
            assert(all == handlers_from(env, ctx, s, node, incoming, j + 1, acc1).1);
            assert forall|k: int| 0 <= k < acc.len() implies #[trigger] all[k] == acc[k] by {
                assert(all[k] == acc1[k]);
            }
        } else {
            lemma_handlers_keep(env, ctx, st, node, incoming, j + 1, acc);
        }
    }
}

pub proof fn lemma_handler_ends_hold(
    handlers: Seq<HandlerModel>,
    before: Seq<BlockId>,
    n: int,
    e: BlockId,
)
    requires
        0 <= n <= handlers.len(),
        before.contains(e) || exists|h: int|
            0 <= h < n && (#[trigger] handlers[h]).flow.normal == Some(e),
    ensures
        handler_ends(handlers, before, n).contains(e),
    decreases n,
{
    if n > 0 {
        let ends = handler_ends(handlers, before, n - 1);
        let all = handler_ends(handlers, before, n);
        if handlers[n - 1].flow.normal == Some(e) {
            assert(all[ends.len() as int] == e);
        } else {
            lemma_handler_ends_hold(handlers, before, n - 1, e);
            let k = choose|k: int| 0 <= k < ends.len() && ends[k] == e;
            assert(all[k] == e);
        }
    }
}

proof fn lemma_handler_ends_from(
    handlers: Seq<HandlerModel>,
    before: Seq<BlockId>,
    n: int,
    k: int,
)
    requires
        0 <= n <= handlers.len(),
        0 <= k < handler_ends(handlers, before, n).len(),
    ensures
        before.contains(handler_ends(handlers, before, n)[k]) || exists|h: int|
            0 <= h < n && (#[trigger] handlers[h]).flow.normal == Some(
                handler_ends(handlers, before, n)[k],
            ),
    decreases n,
{
    if n > 0 {
        let ends = handler_ends(handlers, before, n - 1);
        if k < ends.len() {
            lemma_handler_ends_from(handlers, before, n - 1, k);
        } else {
            assert(handlers[n - 1].flow.normal is Some);
        }
    }
}

pub proof fn lemma_edges_to_join(
    st: StateModel,
    ends: Seq<BlockId>,
    i: int,
    target: BlockId,
    kind: EdgeKind,
    k: int,
)
    requires
        0 <= i <= k < ends.len(),
    ensures
        joins(edges_to(st, ends, i, target, kind), ends[k], target, kind),
    decreases ends.len() - i,
{
    let s = st.edge(ends[i], target, kind);
    if i < k {
        lemma_edges_to_join(s, ends, i + 1, target, kind, k);
    } else {
        lemma_joined(st, ends[i], target, kind);
        lemma_edges_to(crate::scope_graph::outermost(), s, ends, i + 1, target, kind);
        lemma_joins_still(s, edges_to(s, ends, i + 1, target, kind), ends[i], target, kind);
    }
}

proof fn lemma_handler_transfers_hold(
    handlers: Seq<HandlerModel>,
    before: Seq<TransferModel>,
    n: int,
    t: TransferModel,
)
    requires
        0 <= n <= handlers.len(),
    ensures
        handler_transfers(handlers, before, n).contains(t) <==> before.contains(t) || exists|h: int|
            0 <= h < n && (#[trigger] handlers[h]).flow.transfers.contains(t),
    decreases n,
{
    if n > 0 {
        let shorter = handler_transfers(handlers, before, n - 1);
        lemma_handler_transfers_hold(handlers, before, n - 1, t);
        lemma_contains_add(shorter, handlers[n - 1].flow.transfers);
        if exists|h: int| 0 <= h < n && (#[trigger] handlers[h]).flow.transfers.contains(t) {
            let h = choose|h: int|
                0 <= h < n && (#[trigger] handlers[h]).flow.transfers.contains(t);
            if h < n - 1 {
                assert(handlers[h].flow.transfers.contains(t));
            }
        }
    }
}

/// The exceptions that may come out of transfers, as far as they are known.
pub open spec fn raised_facts(transfers: Seq<TransferModel>) -> Seq<ExceptionTypeFact> {
    facts_of(exceptions_of(transfers, true, transfers.len() as int))
}

/// Whether a node is a `try..except`.
pub open spec fn is_try_except(node: SyntaxNode) -> bool {
    &&& node.kind@ == "try"@
    &&& !node.extra
    &&& !finalized(node)
    &&& node.find(field_kind("except"@, "kExcept"@)) is Some
}

/// The context of the statements behind `try` of a `try..except`.
pub open spec fn dispatch_context(ctx: ContextModel, st: StateModel) -> ContextModel {
    ContextModel {
        dispatches: ctx.dispatches.push(size(st) as usize),
        depth: ctx.depth + 1,
        ..ctx
    }
}

/// `try..except`: where the protected statements end normally, or the statements of
/// a handler or of the `else` part do, the flow goes on behind the whole statement
/// from there; what leaves the handler leaves the statement.
///
/// The witness gives the block and the state in which the protected statements
/// begin, and those in which the handler of child `i` begins.
pub proof fn law_handlers_go_on_behind_the_try(
    env: EnvModel,
    ctx: ContextModel,
    st: StateModel,
    node: SyntaxNode,
    current: BlockId,
    i: int,
) -> (r: (BlockId, StateModel, BlockId, StateModel))
    requires
        is_try_except(node),
        begins(ctx, st, current),
        size(single(env, ctx, st, node, current).0) <= usize::MAX,
        0 <= i < node.children@.len(),
        is_handler(node.children@[i]),
    ensures
        ({
            let (first, s1, entry, s2) = r;
            let child = node.children@[i];
            let (last, flow) = single(env, ctx, st, node, current);
            let tried = dispatch_context(ctx, st);
            let (e1, f1) = in_sequence(env, tried, s1, try_part(node), Some(first));
            let inner = handler_context(ctx, handled_by(env, child, raised_facts(f1.transfers)));
            let (e2, f2) = in_sequence(env, inner, s2, handler_part(child), Some(entry));
            &&& enters_try(st, last, node, current, s1, first)
            &&& extends(e1, s2) && extends(e2, last)
            &&& size(e1) <= entry.0 < size(s2)
            &&& last.graph.blocks[entry.0 as int].kind == (if child.kind@ == "exceptionHandler"@ {
                BasicBlockKind::ExceptHandler
            } else {
                BasicBlockKind::BareExceptHandler
            })
            &&& goes_on(last, f1.normal, flow.normal, EdgeKind::Normal)
            &&& goes_on(last, f2.normal, flow.normal, EdgeKind::Normal)
            &&& forall|t: TransferModel| #[trigger]
                f2.transfers.contains(t) ==> flow.transfers.contains(t)
            &&& forall|t: TransferModel| #[trigger]
                f1.transfers.contains(t) && t.kind != TransferKind::Exception
                    ==> flow.transfers.contains(t)
        }),
{
    lemma_single_is(env, ctx, st, node, current);
    let (last, flow) = try_except(env, ctx, st, node, current);
    let tried = ctx.in_dispatch(st.graph.blocks.len() as usize);
    assert(tried =~= dispatch_context(ctx, st));
    let (s1, f) = try_body(env, tried, st, node, current);
    let count = f.transfers.len() as int;
    let exceptions = exceptions_of(f.transfers, true, count);
    let others = exceptions_of(f.transfers, false, count);
    let incoming = facts_of(exceptions);
    let (s2, handlers) = all_handlers(env, ctx, s1, node, incoming);
    let (s3, escaped) = dispatch_all(env.types, s2, exceptions, handlers, 0, others);
    let start = match f.normal {
        Some(end) => seq![end],
        None => Seq::empty(),
    };
    let n = handlers.len() as int;
    let ends = handler_ends(handlers, start, n);
    lemma_try_body_done(env, node, tried, st, node, current);
    lemma_all_handlers_done(env, node, ctx, s1, node, incoming);
    lemma_dispatch_all_quiet(env.types, s2, exceptions, handlers, 0, others);
    assert(extends(s2, s3)) by {
        reveal(quiet);
    }
    let j = s3.next();
    let s4 = s3.block(BasicBlockKind::Normal);
    let s5 = edges_to(s4, ends, 0, j, EdgeKind::Normal);
    lemma_edges_to(ctx, s4, ends, 0, j, EdgeKind::Normal);
    assert(extends(s4, s5));
    assert(extends(s3, last));
    assert(extends(s2, last));
    assert(extends(s1, last));
    let (first, t1) = lemma_try_body(env, tried, st, node, current, last);
    let (h, at) = lemma_handler_found(env, ctx, s1, node, incoming, 0, Seq::empty(), i);
    let child = node.children@[i];
    lemma_handler_step(env, ctx, at, child, incoming);
    let (end, handler) = handler_step(env, ctx, at, child, incoming);
    let began = handler_start(at, child);
    assert(handlers[h] == handler);
    assert(extends(end, last));
    lemma_sizes(s1, at);
    lemma_sizes(began, end);
    lemma_sizes(end, last);
    assert(last.graph.blocks[at.next().0 as int].kind == began.graph.blocks[at.next().0 as int].kind)
        by {
        assert(extends(began, last));
        reveal(extends);
    }
    assert forall|e: BlockId| #[trigger] ends.contains(e) implies flow.normal == Some(j) && joins(
        last,
        e,
        j,
        EdgeKind::Normal,
    ) by {
        let k = choose|k: int| 0 <= k < ends.len() && ends[k] == e;
        lemma_edges_to_join(s4, ends, 0, j, EdgeKind::Normal, k);
    }
    if let Some(e) = f.normal {
        assert(start[0] == e);
        lemma_handler_ends_hold(handlers, start, n, e);
    }
    if let Some(e) = handler.flow.normal {
        assert(handlers[h].flow.normal == Some(e));
        lemma_handler_ends_hold(handlers, start, n, e);
    }
    assert forall|t: TransferModel| #[trigger]
        handler.flow.transfers.contains(t) implies flow.transfers.contains(t) by {
        assert(handlers[h].flow.transfers.contains(t));
        lemma_handler_transfers_hold(handlers, escaped, n, t);
    }
    assert forall|t: TransferModel| #[trigger]
        f.transfers.contains(t) && t.kind != TransferKind::Exception implies flow.transfers.contains(
        t,
    ) by {
        let k = choose|k: int| 0 <= k < f.transfers.len() && f.transfers[k] == t;
        lemma_exceptions_hold(f.transfers, false, count, k);
        crate::graph_laws::lemma_dispatch_all_keeps(
            env.types,
            s2,
            exceptions,
            handlers,
            0,
            others,
        );
        let m = choose|m: int| 0 <= m < others.len() && others[m] == t;
        assert(escaped[m] == t);
        lemma_handler_transfers_hold(handlers, escaped, n, t);
    }
    (first, t1, at.next(), began)
}

// Finalizers -------------------------------------------------------------------------------------

/// Whether a node is a `try..finally`.
pub open spec fn is_try_finally(node: SyntaxNode) -> bool {
    &&& node.kind@ == "try"@
    &&& !node.extra
    &&& finalized(node)
}

/// Whether a node is the only `try..finally` of its range in a tree.
pub open spec fn only_here(root: SyntaxNode, node: SyntaxNode) -> bool {
    forall|n: SyntaxNode|
        #![trigger occurs(root, n)]
        occurs(root, n) && finalized(n) && n.start == node.start && n.end == node.end ==> n == node
}

/// Whether a body is a run of the finalizer of a statement in a context: its
/// statements, taken from a fresh handler block on, in the loops, cleanup scopes,
/// dispatches and handlers around the statement and one level deeper.
pub open spec fn finalizer_of(
    env: EnvModel,
    ctx: ContextModel,
    node: SyntaxNode,
    c: CachedModel,
) -> bool {
    &&& made_by(env, node, c)
    &&& c.key.loops == ctx.loops
    &&& c.key.scopes == ctx.scopes
    &&& c.key.dispatches == ctx.dispatches
    &&& c.key.handled == ctx.handled
    &&& c.key.depth == ctx.depth
}

/// Whether the finalizer of a statement ends at a block: a run of its statements
/// does.
pub open spec fn finishes_at(
    env: EnvModel,
    ctx: ContextModel,
    node: SyntaxNode,
    end: BlockId,
) -> bool {
    exists|c: CachedModel| #[trigger]
        finalizer_of(env, ctx, node, c) && c.flow.normal == Some(end)
}

/// Whether a transfer is another one that comes out of a finalizer.
pub open spec fn resumes(t: TransferModel, before: TransferModel) -> bool {
    &&& t.from_finally
    &&& t.kind == before.kind
    &&& t.target == before.target
    &&& t.label == before.label
    &&& t.binding == before.binding
    &&& t.scopes == before.scopes
    &&& t.fact == before.fact
    &&& t.written == before.written
}

/// Whether a transfer out of the protected statements leaves the cleanup scope:
/// exceptions and `Exit` do, and what goes to a target outside.
pub open spec fn leaves_scope(t: TransferModel, scope: usize) -> bool {
    t.kind == TransferKind::Exception || t.kind == TransferKind::Exit || !t.scopes.contains(scope)
}

/// Where a transfer out of a `try..finally` comes from: out of the protected
/// statements to a target inside the scope; out of them to a target outside, and
/// then it starts where the finalizer ends; or out of the finalizer's own
/// statements.
pub open spec fn explained(
    env: EnvModel,
    ctx: ContextModel,
    node: SyntaxNode,
    scope: usize,
    body: Seq<TransferModel>,
    t: TransferModel,
) -> bool {
    ||| body.contains(t) && !leaves_scope(t, scope)
    ||| finishes_at(env, ctx, node, t.source) && exists|b: TransferModel| #[trigger]
        body.contains(b) && leaves_scope(b, scope) && resumes(t, b)
    ||| exists|c: CachedModel, b: TransferModel|
        #![trigger finalizer_of(env, ctx, node, c), c.flow.transfers.contains(b)]
        finalizer_of(env, ctx, node, c) && c.flow.transfers.contains(b) && t.source == b.source
            && resumes(t, b)
}

/// Whether two transfers lead to the same place and carry the same exception. Names
/// are compared without case.
pub open spec fn same_way(a: TransferModel, b: TransferModel) -> bool {
    &&& a.kind == b.kind
    &&& a.target == b.target
    &&& a.binding == b.binding
    &&& a.scopes == b.scopes
    &&& a.fact == b.fact
    &&& match (a.label, b.label) {
        (Some(x), Some(y)) => lower_text(x) == lower_text(y),
        (None, None) => true,
        _ => false,
    }
    &&& match (a.written, b.written) {
        (Some(x), Some(y)) => lower_text(x) == lower_text(y),
        (None, None) => true,
        _ => false,
    }
}

/// Whether all that leaves a run of the finalizer's own statements leaves the whole
/// statement.
pub open spec fn own_leave(out: Seq<TransferModel>, c: CachedModel) -> bool {
    forall|b: TransferModel| #[trigger]
        c.flow.transfers.contains(b) ==> exists|t: TransferModel| #[trigger]
            out.contains(t) && t.source == b.source && resumes(t, b)
}

/// Whether a transfer of the protected statements that leaves the scope is run
/// through the finalizer: an edge leads into it and, where it ends, a transfer to
/// the same place starts there; what leaves the finalizer itself leaves too. All that
/// its statements add is in the graph.
pub open spec fn run_through(
    env: EnvModel,
    ctx: ContextModel,
    node: SyntaxNode,
    last: StateModel,
    out: Seq<TransferModel>,
    b: TransferModel,
) -> bool {
    exists|c: CachedModel| #[trigger]
        finalizer_of(env, ctx, node, c) && joins(
            last,
            b.source,
            c.entry,
            if b.kind == TransferKind::Exception {
                EdgeKind::ExceptionThrow
            } else {
                EdgeKind::FinallyEntry
            },
        ) && own_leave(out, c)
            && made_in(env, node, c, last) && (c.flow.normal matches Some(end) ==> exists|
            t: TransferModel,
        | #[trigger]
            out.contains(t) && t.source == end && t.from_finally && same_way(t, b))
}

/// Whether a normal end is run through the finalizer: an edge leads into it and,
/// where it ends, the flow goes on from that end by a `FinallyExit` edge.
pub open spec fn runs_on(
    env: EnvModel,
    ctx: ContextModel,
    node: SyntaxNode,
    last: StateModel,
    flow: FlowModel,
    end: BlockId,
) -> bool {
    exists|c: CachedModel| #[trigger]
        finalizer_of(env, ctx, node, c) && c.key.continuation is None && joins(
            last,
            end,
            c.entry,
            EdgeKind::FinallyEntry,
        ) && own_leave(flow.transfers, c) && made_in(env, node, c, last) && goes_on(
            last,
            c.flow.normal,
            flow.normal,
            EdgeKind::FinallyExit,
        )
}

/// Whether the flow goes on from where the finalizer ends, if it goes on.
pub open spec fn goes_on_from_the_end(
    env: EnvModel,
    ctx: ContextModel,
    node: SyntaxNode,
    last: StateModel,
    normal: Option<BlockId>,
) -> bool {
    normal matches Some(after) ==> exists|e: BlockId| #[trigger]
        joins(last, e, after, EdgeKind::FinallyExit) && finishes_at(env, ctx, node, e)
}

/// What a group of flows into a finalizer stands for.
spec fn group_fine(g: GroupModel, body: Seq<TransferModel>, scope: usize) -> bool {
    match g.key {
        Some(key) => g.first matches Some(t) && body.contains(t) && leaves_scope(t, scope)
            && t.key() == key,
        None => g.first is None,
    }
}

spec fn groups_fine(groups: Seq<GroupModel>, body: Seq<TransferModel>, scope: usize) -> bool {
    forall|g: int| 0 <= g < groups.len() ==> group_fine(#[trigger] groups[g], body, scope)
}

spec fn all_explained(
    env: EnvModel,
    ctx: ContextModel,
    node: SyntaxNode,
    scope: usize,
    body: Seq<TransferModel>,
    ts: Seq<TransferModel>,
) -> bool {
    forall|t: TransferModel| #[trigger]
        ts.contains(t) ==> explained(env, ctx, node, scope, body, t)
}

proof fn lemma_finally_body_is(
    env: EnvModel,
    root: SyntaxNode,
    ctx: ContextModel,
    st: StateModel,
    node: SyntaxNode,
    scope: usize,
    key: Option<crate::flow::KeyModel>,
) -> (c: CachedModel)
    requires
        occurs(root, node),
        finalized(node),
        only_here(root, node),
        cache_made(env, root, st),
    ensures
        ({
            let (s, entry, f) = finally_body(env, ctx, st, node, scope, key);
            &&& finalizer_of(env, ctx, node, c)
            &&& c.entry == entry
            &&& c.flow == f
            &&& c.key.continuation == key
            &&& cache_made(env, root, s)
            &&& extends(st, s)
            &&& made_in(env, node, c, s)
        }),
{
    let (s, entry, f) = finally_body(env, ctx, st, node, scope, key);
    lemma_finally_body_done(env, root, ctx, st, node, scope, key);
    let c = CachedModel { key: body_key(ctx, node, scope, key), entry, flow: f };
    let k = choose|k: int| 0 <= k < s.cache.len() && #[trigger] s.cache[k] == c;
    assert(known(env, root, s.cache[k], s)) by {
        reveal(cache_made);
    }
    let n = choose|n: SyntaxNode|
        #![trigger occurs(root, n)]
        occurs(root, n) && finalized(n) && n.start == c.key.start && n.end == c.key.end && made_in(
            env,
            n,
            c,
            s,
        );
    assert(n == node);
    assert(made_by(env, node, c)) by {
        let (inner, from) = choose|inner: ContextModel, from: StateModel| #[trigger]
            runs_as(env, inner, from, node, c) && extends(
                finalizer_run(env, inner, from, node, c.entry).0,
                s,
            );
        assert(runs_as(env, inner, from, node, c));
    }
    c
}

proof fn lemma_superseding(
    env: EnvModel,
    ctx: ContextModel,
    node: SyntaxNode,
    scope: usize,
    body: Seq<TransferModel>,
    c: CachedModel,
)
    requires
        finalizer_of(env, ctx, node, c),
    ensures
        all_explained(env, ctx, node, scope, body, superseding(c.flow.transfers)),
{
    let ts = superseding(c.flow.transfers);
    assert forall|t: TransferModel| #[trigger] ts.contains(t) implies explained(
        env,
        ctx,
        node,
        scope,
        body,
        t,
    ) by {
        let k = choose|k: int| 0 <= k < ts.len() && ts[k] == t;
        let b = c.flow.transfers[k];
        assert(c.flow.transfers.contains(b));
        assert(t == b.from_finalizer(b.source));
        assert(resumes(t, b));
    }
}

proof fn lemma_group_explained(
    env: EnvModel,
    root: SyntaxNode,
    ctx: ContextModel,
    st: StateModel,
    node: SyntaxNode,
    scope: usize,
    g: GroupModel,
    normal: Option<BlockId>,
    acc: Seq<TransferModel>,
    body: Seq<TransferModel>,
)
    requires
        occurs(root, node),
        finalized(node),
        only_here(root, node),
        cache_made(env, root, st),
        group_fine(g, body, scope),
        calm(g.entries),
        all_explained(env, ctx, node, scope, body, acc),
        goes_on_from_the_end(env, ctx, node, st, normal),
    ensures
        ({
            let (s, n, a) = group_done(env, ctx, st, node, scope, g, normal, acc);
            &&& extends(st, s)
            &&& cache_made(env, root, s)
            &&& all_explained(env, ctx, node, scope, body, a)
            &&& goes_on_from_the_end(env, ctx, node, s, n)
            &&& forall|t: TransferModel| #[trigger] acc.contains(t) ==> a.contains(t)
            &&& normal is Some ==> n is Some
            &&& exists|c: CachedModel| #[trigger]
                finalizer_of(env, ctx, node, c) && (forall|k: int|
                    0 <= k < g.entries.len() ==> joins(
                        s,
                        (#[trigger] g.entries[k]).0,
                        c.entry,
                        g.entries[k].1,
                    )) && c.key.continuation == g.key && own_leave(a, c) && made_in(env, node, c, s)
                        && (c.flow.normal matches Some(end)
                    ==> match g.key {
                    Some(key) => exists|t: TransferModel| #[trigger]
                        a.contains(t) && t.source == end && t.from_finally && t.key() == key,
                    None => goes_on(s, Some(end), n, EdgeKind::FinallyExit),
                })
        }),
{
    let (s, n, a) = group_done(env, ctx, st, node, scope, g, normal, acc);
    let (s1, entry, f) = finally_body(env, ctx, st, node, scope, g.key);
    let c = lemma_finally_body_is(env, root, ctx, st, node, scope, g.key);
    let s2 = entered(s1, g.entries, 0, entry);
    lemma_entered_quiet(s1, g.entries, 0, entry);
    assert(extends(s1, s2) && s2.cache == s1.cache) by {
        reveal(quiet);
    }
    assert(extends(s2, s));
    assert(extends(s1, s));
    lemma_cache_still(env, root, s1, s);
    lemma_made_still(env, node, c, s1, s);
    lemma_superseding(env, ctx, node, scope, body, c);
    let own = superseding(f.transfers);
    assert forall|k: int| 0 <= k < g.entries.len() implies joins(
        s,
        (#[trigger] g.entries[k]).0,
        entry,
        g.entries[k].1,
    ) by {
        lemma_entered_joins(s1, g.entries, 0, entry, k);
        lemma_joins_still(s2, s, g.entries[k].0, entry, g.entries[k].1);
    }
    if let Some(after) = normal {
        let e = choose|e: BlockId| #[trigger]
            joins(st, e, after, EdgeKind::FinallyExit) && finishes_at(env, ctx, node, e);
        lemma_joins_still(st, s, e, after, EdgeKind::FinallyExit);
        assert(joins(s, e, after, EdgeKind::FinallyExit) && finishes_at(env, ctx, node, e));
        assert(goes_on_from_the_end(env, ctx, node, s, normal));
    }
    match f.normal {
        Some(end) => {
            assert(finishes_at(env, ctx, node, end));
            if g.key is None {
                lemma_contains_add(acc, own);
                lemma_joined(
                    s2.block(BasicBlockKind::Normal),
                    end,
                    s2.next(),
                    EdgeKind::FinallyExit,
                );
                assert(n == Some(s2.next()));
                let after = n->0;
                assert(finishes_at(env, ctx, node, end));
                assert(joins(s, end, after, EdgeKind::FinallyExit));
                assert(exists|e: BlockId| #[trigger]
                    joins(s, e, after, EdgeKind::FinallyExit) && finishes_at(env, ctx, node, e));
                assert(goes_on_from_the_end(env, ctx, node, s, n));
            } else {
                assert(n == normal);
                let t0 = g.first->0;
                let t = t0.from_finalizer(end);
                let pending = acc.push(t);
                assert(resumes(t, t0));
                assert(explained(env, ctx, node, scope, body, t));
                assert(pending =~= acc + seq![t]);
                lemma_contains_add(acc, seq![t]);
                lemma_contains_add(pending, own);
                assert(seq![t][0] == t);
                assert(pending.contains(t));
                assert(a.contains(t));
                assert(t.key() == t0.key());
            }
        },
        None => {
            assert(n == normal);
            lemma_contains_add(acc, own);
        },
    }
    assert(all_explained(env, ctx, node, scope, body, a));
    assert(goes_on_from_the_end(env, ctx, node, s, n));
    assert(forall|t: TransferModel| #[trigger] acc.contains(t) ==> a.contains(t));
    assert(c.flow.normal matches Some(end) ==> match g.key {
        Some(key) => exists|t: TransferModel| #[trigger]
            a.contains(t) && t.source == end && t.from_finally && t.key() == key,
        None => goes_on(s, Some(end), n, EdgeKind::FinallyExit),
    });
    assert(own_leave(a, c)) by {
        assert forall|b: TransferModel| #[trigger] c.flow.transfers.contains(b) implies exists|
            t: TransferModel,
        | #[trigger] a.contains(t) && t.source == b.source && resumes(t, b) by {
            let k = choose|k: int| 0 <= k < f.transfers.len() && f.transfers[k] == b;
            let t = b.from_finalizer(b.source);
            assert(own[k] == t);
            assert(own.contains(t));
            assert(a.contains(t) && t.source == b.source && resumes(t, b));
        }
    }
    assert(finalizer_of(env, ctx, node, c));
}

proof fn lemma_entered_joins(
    st: StateModel,
    entries: Seq<(BlockId, EdgeKind)>,
    i: int,
    target: BlockId,
    k: int,
)
    requires
        0 <= i <= k < entries.len(),
        calm(entries),
    ensures
        joins(entered(st, entries, i, target), entries[k].0, target, entries[k].1),
    decreases entries.len() - i,
{
    let s = st.edge(entries[i].0, target, entries[i].1);
    if i < k {
        lemma_entered_joins(s, entries, i + 1, target, k);
    } else {
        lemma_joined(st, entries[i].0, target, entries[i].1);
        lemma_entered_quiet(s, entries, i + 1, target);
        assert(extends(s, entered(s, entries, i + 1, target))) by {
            reveal(quiet);
        }
        let last = entered(s, entries, i + 1, target);
        lemma_joins_still(s, last, entries[i].0, target, entries[i].1);
    }
}

proof fn lemma_finalize_explained(
    env: EnvModel,
    root: SyntaxNode,
    ctx: ContextModel,
    st: StateModel,
    node: SyntaxNode,
    scope: usize,
    groups: Seq<GroupModel>,
    i: int,
    normal: Option<BlockId>,
    acc: Seq<TransferModel>,
    body: Seq<TransferModel>,
)
    requires
        0 <= i <= groups.len(),
        occurs(root, node),
        finalized(node),
        only_here(root, node),
        cache_made(env, root, st),
        groups_fine(groups, body, scope),
        forall|g: int| 0 <= g < groups.len() ==> calm((#[trigger] groups[g]).entries),
        all_explained(env, ctx, node, scope, body, acc),
        goes_on_from_the_end(env, ctx, node, st, normal),
    ensures
        ({
            let (s, f) = finalize(env, ctx, st, node, scope, groups, i, normal, acc);
            &&& extends(st, s)
            &&& all_explained(env, ctx, node, scope, body, f.transfers)
            &&& goes_on_from_the_end(env, ctx, node, s, f.normal)
            &&& forall|t: TransferModel| #[trigger] acc.contains(t) ==> f.transfers.contains(t)
        }),
    decreases groups.len() - i,
{
    let (s, f) = finalize(env, ctx, st, node, scope, groups, i, normal, acc);
    if i < groups.len() {
        let g = groups[i];
        assert(group_fine(g, body, scope));
        let (s1, n1, a1) = group_done(env, ctx, st, node, scope, g, normal, acc);
        lemma_group_explained(env, root, ctx, st, node, scope, g, normal, acc, body);
        assert(finalize(env, ctx, s1, node, scope, groups, i + 1, n1, a1) == (s, f));
        lemma_finalize_explained(env, root, ctx, s1, node, scope, groups, i + 1, n1, a1, body);
    } else {
        assert forall|t: TransferModel| #[trigger] acc.contains(t) implies distinct(acc).contains(
            t,
        ) by {
            let k = choose|k: int| 0 <= k < acc.len() && acc[k] == t;
            lemma_distinct_holds(acc, k);
        }
        assert forall|t: TransferModel| #[trigger] distinct(acc).contains(t) implies acc.contains(
            t,
        ) by {
            let k = choose|k: int| 0 <= k < distinct(acc).len() && distinct(acc)[k] == t;
            lemma_distinct_from(acc, k);
        }
    }
}

proof fn lemma_finalize_normal(
    env: EnvModel,
    ctx: ContextModel,
    st: StateModel,
    node: SyntaxNode,
    scope: usize,
    groups: Seq<GroupModel>,
    i: int,
    normal: Option<BlockId>,
    acc: Seq<TransferModel>,
)
    requires
        forall|g: int| i <= g < groups.len() ==> (#[trigger] groups[g]).key is Some || normal is None,
        0 <= i,
    ensures
        normal is Some ==> finalize(env, ctx, st, node, scope, groups, i, normal, acc).1.normal
            == normal,
    decreases groups.len() - i,
{
    if i < groups.len() {
        let g = groups[i];
        let (s1, n1, a1) = group_done(env, ctx, st, node, scope, g, normal, acc);
        assert(finalize(env, ctx, st, node, scope, groups, i, normal, acc) == finalize(
            env,
            ctx,
            s1,
            node,
            scope,
            groups,
            i + 1,
            n1,
            a1,
        ));
        assert(groups[i].key is Some || normal is None);
        if normal is Some {
            lemma_finalize_normal(env, ctx, s1, node, scope, groups, i + 1, n1, a1);
        }
    }
}

/// Whether a group of flows is run through the finalizer.
spec fn group_run(
    env: EnvModel,
    ctx: ContextModel,
    node: SyntaxNode,
    last: StateModel,
    f: FlowModel,
    g: GroupModel,
) -> bool {
    exists|c: CachedModel| #[trigger]
        finalizer_of(env, ctx, node, c) && (forall|k: int|
            0 <= k < g.entries.len() ==> joins(
                last,
                (#[trigger] g.entries[k]).0,
                c.entry,
                g.entries[k].1,
            )) && c.key.continuation == g.key && own_leave(f.transfers, c)
                && made_in(env, node, c, last)
                && (c.flow.normal matches Some(end) ==> match g.key {
            Some(key) => exists|t: TransferModel| #[trigger]
                f.transfers.contains(t) && t.source == end && t.from_finally && t.key() == key,
            None => goes_on(last, Some(end), f.normal, EdgeKind::FinallyExit),
        })
}

proof fn lemma_finalize_group(
    env: EnvModel,
    root: SyntaxNode,
    ctx: ContextModel,
    st: StateModel,
    node: SyntaxNode,
    scope: usize,
    groups: Seq<GroupModel>,
    i: int,
    normal: Option<BlockId>,
    acc: Seq<TransferModel>,
    body: Seq<TransferModel>,
    m: int,
)
    requires
        0 <= i <= m < groups.len(),
        occurs(root, node),
        finalized(node),
        only_here(root, node),
        cache_made(env, root, st),
        groups_fine(groups, body, scope),
        forall|g: int| 0 <= g < groups.len() ==> calm((#[trigger] groups[g]).entries),
        forall|g: int| 0 < g < groups.len() ==> (#[trigger] groups[g]).key is Some,
        all_explained(env, ctx, node, scope, body, acc),
        goes_on_from_the_end(env, ctx, node, st, normal),
    ensures
        ({
            let (s, f) = finalize(env, ctx, st, node, scope, groups, i, normal, acc);
            group_run(env, ctx, node, s, f, groups[m])
        }),
    decreases groups.len() - i,
{
    let (s, f) = finalize(env, ctx, st, node, scope, groups, i, normal, acc);
    let g = groups[i];
    assert(group_fine(g, body, scope));
    let (s1, n1, a1) = group_done(env, ctx, st, node, scope, g, normal, acc);
    lemma_group_explained(env, root, ctx, st, node, scope, g, normal, acc, body);
    assert(finalize(env, ctx, s1, node, scope, groups, i + 1, n1, a1) == (s, f));
    if i < m {
        lemma_finalize_group(env, root, ctx, s1, node, scope, groups, i + 1, n1, a1, body, m);
    } else {
        lemma_finalize_explained(env, root, ctx, s1, node, scope, groups, i + 1, n1, a1, body);
        lemma_finalize_normal(env, ctx, s1, node, scope, groups, i + 1, n1, a1);
        let c = choose|c: CachedModel| #[trigger]
            finalizer_of(env, ctx, node, c) && (forall|k: int|
                0 <= k < g.entries.len() ==> joins(
                    s1,
                    (#[trigger] g.entries[k]).0,
                    c.entry,
                    g.entries[k].1,
                )) && c.key.continuation == g.key && own_leave(a1, c) && made_in(env, node, c, s1)
                    && (c.flow.normal matches Some(end)
                ==> match g.key {
                Some(key) => exists|t: TransferModel| #[trigger]
                    a1.contains(t) && t.source == end && t.from_finally && t.key() == key,
                None => goes_on(s1, Some(end), n1, EdgeKind::FinallyExit),
            });
        assert forall|k: int| 0 <= k < g.entries.len() implies joins(
            s,
            (#[trigger] g.entries[k]).0,
            c.entry,
            g.entries[k].1,
        ) by {
            lemma_joins_still(s1, s, g.entries[k].0, c.entry, g.entries[k].1);
        }
        if let Some(end) = c.flow.normal {
            match g.key {
                Some(key) => {
                    let t = choose|t: TransferModel| #[trigger]
                        a1.contains(t) && t.source == end && t.from_finally && t.key() == key;
                    assert(f.transfers.contains(t));
                },
                None => {
                    lemma_joins_still(s1, s, end, n1->0, EdgeKind::FinallyExit);
                },
            }
        }
        lemma_made_still(env, node, c, s1, s);
        assert(own_leave(f.transfers, c)) by {
            assert forall|b: TransferModel| #[trigger] c.flow.transfers.contains(b) implies exists|
                t: TransferModel,
            | #[trigger] f.transfers.contains(t) && t.source == b.source && resumes(t, b) by {
                let t = choose|t: TransferModel| #[trigger]
                    a1.contains(t) && t.source == b.source && resumes(t, b);
                assert(f.transfers.contains(t));
            }
        }
        assert(finalizer_of(env, ctx, node, c));
    }
}

/// Whether one of the groups from the first on holds a transfer.
spec fn group_holds(groups: Seq<GroupModel>, t: TransferModel) -> bool {
    exists|g: int, k: int|
        #![trigger groups[g].entries[k]]
        0 <= g < groups.len() && groups[g].key == Some(t.key()) && 0 <= k < groups[g].entries.len()
            && groups[g].entries[k] == (t.source, entry_edge(t))
}

proof fn lemma_group_key(
    groups: Seq<GroupModel>,
    key: Option<crate::flow::KeyModel>,
    i: int,
)
    requires
        0 <= i,
    ensures
        group_with(groups, key, i) matches Some(k) ==> i <= k < groups.len() && groups[k].key == key,
    decreases groups.len() - i,
{
    if i < groups.len() {
        lemma_group_key(groups, key, i + 1);
    }
}

proof fn lemma_groups_shape(
    normal: Option<BlockId>,
    transfers: Seq<TransferModel>,
    scope: usize,
    n: int,
    body: Seq<TransferModel>,
)
    requires
        0 <= n <= transfers.len(),
        forall|t: TransferModel| #[trigger] transfers.contains(t) ==> body.contains(t),
    ensures
        ({
            let groups = groups_of(normal, transfers, scope, n);
            &&& groups_fine(groups, body, scope)
            &&& forall|g: int| 0 < g < groups.len() ==> (#[trigger] groups[g]).key is Some
            &&& normal matches Some(b) ==> groups.len() > 0 && groups[0].key is None
                && groups[0].entries == seq![(b, EdgeKind::FinallyEntry)]
            &&& normal is None && groups.len() > 0 ==> groups[0].key is Some
            &&& forall|k: int|
                0 <= k < n && leaves_scope(#[trigger] transfers[k], scope) ==> group_holds(
                    groups,
                    transfers[k],
                )
        }),
    decreases n,
{
    let groups = groups_of(normal, transfers, scope, n);
    if n > 0 {
        lemma_groups_shape(normal, transfers, scope, n - 1, body);
        let before = groups_of(normal, transfers, scope, n - 1);
        let t = transfers[n - 1];
        lemma_group_key(before, Some(t.key()), 0);
        assert(transfers.contains(t));
        if t.leaves(scope) {
            assert(groups == grouped(before, t));
            assert forall|g: int| 0 <= g < groups.len() implies group_fine(
                #[trigger] groups[g],
                body,
                scope,
            ) by {
                if g < before.len() {
                    assert(group_fine(before[g], body, scope));
                }
            }
            assert forall|g: int| 0 < g < groups.len() implies (#[trigger] groups[g]).key is Some by {
                if g < before.len() {
                    assert(before[g].key is Some);
                }
            }
            assert forall|k: int|
                0 <= k < n && leaves_scope(#[trigger] transfers[k], scope) implies group_holds(
                groups,
                transfers[k],
            ) by {
                if k < n - 1 {
                    let (g, e) = choose|g: int, e: int|
                        #![trigger before[g].entries[e]]
                        0 <= g < before.len() && before[g].key == Some(transfers[k].key()) && 0 <= e
                            < before[g].entries.len() && before[g].entries[e] == (
                        transfers[k].source, entry_edge(transfers[k]));
                    assert(groups[g].entries[e] == before[g].entries[e]);
                } else {
                    match group_with(before, Some(t.key()), 0) {
                        Some(g) => {
                            let e = before[g].entries.len() as int;
                            assert(groups[g].entries[e] == (t.source, entry_edge(t)));
                        },
                        None => {
                            let g = before.len() as int;
                            assert(groups[g].entries[0] == (t.source, entry_edge(t)));
                        },
                    }
                }
            }
        }
    }
}

proof fn lemma_staying_is(
    transfers: Seq<TransferModel>,
    scope: usize,
    n: int,
    t: TransferModel,
)
    requires
        0 <= n <= transfers.len(),
    ensures
        staying(transfers, scope, n).contains(t) <==> !leaves_scope(t, scope) && exists|k: int|
            0 <= k < n && #[trigger] transfers[k] == t,
    decreases n,
{
    if n > 0 {
        let before = staying(transfers, scope, n - 1);
        let all = staying(transfers, scope, n);
        lemma_staying_is(transfers, scope, n - 1, t);
        if transfers[n - 1].leaves(scope) {
            if !leaves_scope(t, scope) && exists|k: int|
                0 <= k < n && #[trigger] transfers[k] == t {
                let k = choose|k: int| 0 <= k < n && #[trigger] transfers[k] == t;
                assert(k < n - 1);
            }
        } else {
            if all.contains(t) {
                let k = choose|k: int| 0 <= k < all.len() && all[k] == t;
                if k < before.len() {
                    assert(before[k] == t);
                } else {
                    assert(transfers[n - 1] == t);
                }
            }
            if before.contains(t) {
                let k = choose|k: int| 0 <= k < before.len() && before[k] == t;
                assert(all[k] == t);
            }
            if transfers[n - 1] == t {
                assert(all[before.len() as int] == t);
            } else if exists|k: int| 0 <= k < n && #[trigger] transfers[k] == t {
                let k = choose|k: int| 0 <= k < n && #[trigger] transfers[k] == t;
                assert(0 <= k < n - 1);
            }
        }
    }
}

proof fn lemma_scope_number(ids: Seq<(usize, usize)>, start: usize, end: usize, n: int, k: int)
    requires
        0 <= k < n <= ids.len() <= usize::MAX,
        ids[k] == (start, end),
    ensures
        scope_number(ids, start, end, n) < ids.len(),
        ids[scope_number(ids, start, end, n) as int] == (start, end),
    decreases n,
{
    if ids[n - 1] != (start, end) {
        lemma_scope_number(ids, start, end, n - 1, k);
    }
}

/// The context of the statements behind `try` of a `try..finally`.
pub open spec fn cleanup_context(ctx: ContextModel, scope: usize) -> ContextModel {
    ContextModel { scopes: ctx.scopes.push(scope), depth: ctx.depth + 1, ..ctx }
}

/// `try..finally`: the finalizer is run on every way out, to its end. The normal end
/// of the protected statements, and each transfer that leaves them, has an edge into
/// a run of the finalizer's statements; where that run ends at a block, the flow or
/// the suspended transfer goes on from that block and from no other. What does not
/// leave the scope passes the finalizer by, and what leaves the finalizer's own
/// statements leaves the whole.
///
/// The finalizers that the walk remembers have to be those of the tree, and no other
/// `try..finally` of the tree may have the same range. The witness gives the cleanup
/// scope, and the block and the state in which the protected statements begin.
pub proof fn law_finalizer_runs_to_its_end(
    env: EnvModel,
    root: SyntaxNode,
    ctx: ContextModel,
    st: StateModel,
    node: SyntaxNode,
    current: BlockId,
) -> (r: (usize, BlockId, StateModel))
    requires
        is_try_finally(node),
        occurs(root, node),
        only_here(root, node),
        cache_made(env, root, st),
        begins(ctx, st, current),
        size(single(env, ctx, st, node, current).0) <= usize::MAX,
    ensures
        ({
            let (scope, first, s1) = r;
            let (last, flow) = single(env, ctx, st, node, current);
            let inner = cleanup_context(ctx, scope);
            let (e1, f1) = in_sequence(env, inner, s1, try_part(node), Some(first));
            &&& env.scope_ids.contains((node.start, node.end)) && env.scope_ids.len() <= usize::MAX
                ==> scope < env.scope_ids.len() && env.scope_ids[scope as int] == (
            node.start, node.end)
            &&& enters_try(st, last, node, current, s1, first)
            &&& extends(e1, last)
            &&& goes_on_from_the_end(env, ctx, node, last, flow.normal)
            &&& f1.normal matches Some(end) ==> runs_on(
                env,
                ctx,
                node,
                last,
                flow,
                end,
            )
            &&& flow.normal is Some ==> f1.normal is Some
            &&& forall|t: TransferModel| #[trigger]
                flow.transfers.contains(t) ==> explained(
                    env,
                    ctx,
                    node,
                    scope,
                    f1.transfers,
                    t,
                )
            &&& forall|b: TransferModel| #[trigger]
                f1.transfers.contains(b) && leaves_scope(b, scope) ==> run_through(
                    env,
                    ctx,
                    node,
                    last,
                    flow.transfers,
                    b,
                )
            &&& forall|b: TransferModel| #[trigger]
                f1.transfers.contains(b) && !leaves_scope(b, scope) ==> flow.transfers.contains(b)
        }),
{
    lemma_single_is(env, ctx, st, node, current);
    let (last, flow) = try_finally(env, ctx, st, node, current);
    let count0 = env.scope_ids.len() as int;
    let scope = scope_number(env.scope_ids, node.start, node.end, count0);
    let inner = ctx.in_cleanup(scope);
    assert(inner =~= cleanup_context(ctx, scope));
    let (s, f) = try_body(env, inner, st, node, current);
    lemma_try_body_done(env, root, inner, st, node, current);
    let transfers = distinct(f.transfers);
    let count = transfers.len() as int;
    let groups = groups_of(f.normal, transfers, scope, count);
    let rest = staying(transfers, scope, count);
    assert forall|t: TransferModel| #[trigger] transfers.contains(t) implies f.transfers.contains(
        t,
    ) by {
        let k = choose|k: int| 0 <= k < transfers.len() && transfers[k] == t;
        lemma_distinct_from(f.transfers, k);
    }
    lemma_groups_shape(f.normal, transfers, scope, count, f.transfers);
    lemma_groups_calm(f.normal, transfers, scope, count);
    assert(all_explained(env, ctx, node, scope, f.transfers, rest)) by {
        assert forall|t: TransferModel| #[trigger] rest.contains(t) implies explained(
            env,
            ctx,
            node,
            scope,
            f.transfers,
            t,
        ) by {
            lemma_staying_is(transfers, scope, count, t);
            let k = choose|k: int| 0 <= k < count && #[trigger] transfers[k] == t;
            assert(transfers.contains(t));
        }
    }
    lemma_finalize_explained(
        env,
        root,
        ctx,
        s,
        node,
        scope,
        groups,
        0,
        None,
        rest,
        f.transfers,
    );
    assert(finalize(env, ctx, s, node, scope, groups, 0, None, rest) == (last, flow));
    let (first, s1) = lemma_try_body(env, inner, st, node, current, last);
    if env.scope_ids.contains((node.start, node.end)) && env.scope_ids.len() <= usize::MAX {
        let k = choose|k: int|
            0 <= k < env.scope_ids.len() && env.scope_ids[k] == (node.start, node.end);
        lemma_scope_number(env.scope_ids, node.start, node.end, count0, k);
    }
    if let Some(end) = f.normal {
        lemma_finalize_group(
            env,
            root,
            ctx,
            s,
            node,
            scope,
            groups,
            0,
            None,
            rest,
            f.transfers,
            0,
        );
        let c = choose|c: CachedModel| #[trigger]
            finalizer_of(env, ctx, node, c) && (forall|k: int|
                0 <= k < groups[0].entries.len() ==> joins(
                    last,
                    (#[trigger] groups[0].entries[k]).0,
                    c.entry,
                    groups[0].entries[k].1,
                )) && c.key.continuation == groups[0].key && own_leave(flow.transfers, c)
                    && made_in(env, node, c, last)
                    && (c.flow.normal matches Some(e)
                ==> match groups[0].key {
                Some(key) => exists|t: TransferModel| #[trigger]
                    flow.transfers.contains(t) && t.source == e && t.from_finally && t.key() == key,
                None => goes_on(last, Some(e), flow.normal, EdgeKind::FinallyExit),
            });
        assert(groups[0].entries[0] == (end, EdgeKind::FinallyEntry));
        assert(finalizer_of(env, ctx, node, c));
    } else {
        lemma_finalize_none(env, ctx, s, node, scope, groups, 0, rest);
    }
    assert forall|b: TransferModel| #[trigger]
        f.transfers.contains(b) && leaves_scope(b, scope) implies run_through(
        env,
        ctx,
        node,
        last,
        flow.transfers,
        b,
    ) by {
        let i = choose|i: int| 0 <= i < f.transfers.len() && f.transfers[i] == b;
        lemma_distinct_holds(f.transfers, i);
        let k = choose|k: int| 0 <= k < transfers.len() && transfers[k] == b;
        assert(group_holds(groups, transfers[k]));
        let (g, e) = choose|g: int, e: int|
            #![trigger groups[g].entries[e]]
            0 <= g < groups.len() && groups[g].key == Some(b.key()) && 0 <= e
                < groups[g].entries.len() && groups[g].entries[e] == (b.source, entry_edge(b));
        lemma_finalize_group(
            env,
            root,
            ctx,
            s,
            node,
            scope,
            groups,
            0,
            None,
            rest,
            f.transfers,
            g,
        );
        let c = choose|c: CachedModel| #[trigger]
            finalizer_of(env, ctx, node, c) && (forall|k: int|
                0 <= k < groups[g].entries.len() ==> joins(
                    last,
                    (#[trigger] groups[g].entries[k]).0,
                    c.entry,
                    groups[g].entries[k].1,
                )) && c.key.continuation == groups[g].key && own_leave(flow.transfers, c)
                    && made_in(env, node, c, last)
                    && (c.flow.normal matches Some(e)
                ==> match groups[g].key {
                Some(key) => exists|t: TransferModel| #[trigger]
                    flow.transfers.contains(t) && t.source == e && t.from_finally && t.key() == key,
                None => goes_on(last, Some(e), flow.normal, EdgeKind::FinallyExit),
            });
        assert(joins(last, groups[g].entries[e].0, c.entry, groups[g].entries[e].1));
        assert(finalizer_of(env, ctx, node, c));
    }
    assert forall|b: TransferModel| #[trigger]
        f.transfers.contains(b) && !leaves_scope(b, scope) implies flow.transfers.contains(b) by {
        let i = choose|i: int| 0 <= i < f.transfers.len() && f.transfers[i] == b;
        lemma_distinct_holds(f.transfers, i);
        let k = choose|k: int| 0 <= k < transfers.len() && transfers[k] == b;
        lemma_staying_is(transfers, scope, count, b);
        assert(transfers[k] == b);
        assert(rest.contains(b));
    }
    (scope, first, s1)
}

proof fn lemma_finalize_none(
    env: EnvModel,
    ctx: ContextModel,
    st: StateModel,
    node: SyntaxNode,
    scope: usize,
    groups: Seq<GroupModel>,
    i: int,
    acc: Seq<TransferModel>,
)
    requires
        forall|g: int| 0 <= g < groups.len() ==> (#[trigger] groups[g]).key is Some,
        0 <= i,
    ensures
        finalize(env, ctx, st, node, scope, groups, i, None, acc).1.normal is None,
    decreases groups.len() - i,
{
    if i < groups.len() {
        let g = groups[i];
        let (s1, n1, a1) = group_done(env, ctx, st, node, scope, g, None, acc);
        assert(g.key is Some);
        lemma_finalize_none(env, ctx, s1, node, scope, groups, i + 1, a1);
    }
}

/// The finalizers that a walk remembers are those of the tree that it walks: at the
/// start of a scope none is remembered, and the walk of any part of the tree adds
/// only such.
pub proof fn law_remembered_finalizers_are_those_of_the_tree(
    env: EnvModel,
    root: SyntaxNode,
    ctx: ContextModel,
    st: StateModel,
    node: SyntaxNode,
    current: BlockId,
)
    requires
        occurs(root, node),
        st.cache.len() == 0 || cache_made(env, root, st),
    ensures
        cache_made(env, root, st),
        cache_made(env, root, single(env, ctx, st, node, current).0),
{
    assert(cache_made(env, root, st)) by {
        reveal(cache_made);
    }
    crate::walk_facts::lemma_single_done(env, root, ctx, st, node, current);
}

} // verus!
