//! Which handlers the exceptions of a `try..except` reach.

use vstd::prelude::*;
use crate::exception_types::{
    handler_fact_of, matches_handler, ExceptionTypeFact, IndexModel, TypeMatch,
};
use crate::flow::{TransferKind, TransferModel};
use crate::graph::{BasicBlockKind, BlockId, Edge, EdgeKind};
use crate::graph_facts::{extends, size};
use crate::graph_laws::{
    certain, handlers_of, law_exceptions_reach_every_possible_handler, lemma_edges_to, possible,
    reaches,
};
use crate::scope_graph::{
    all_handlers, dispatch, dispatch_all, edges_to, exceptions_of, facts_of, handler_ends,
    handlers_from, single, try_body, try_except, ContextModel, EnvModel, HandlerModel, StateModel,
};
use crate::statement_laws::{begins, goes_on, joins, lemma_single_is};
use crate::syntax::{any_field, hit, SyntaxNode};
use crate::try_laws::{
    dispatch_context, enters_try, handled_by, handler_context, handler_part, handler_start,
    handler_step, is_handler, is_try_except, lemma_handler_ends_hold, lemma_handler_kinds,
    lemma_handler_step,
    lemma_handlers_keep, lemma_try_body, raised_facts, try_part,
};
use crate::walk_facts::{in_sequence, lemma_dispatch_all_quiet, lemma_sizes, quiet};

verus! {

broadcast use {crate::graph_facts::group_graph_facts, crate::syntax::lemma_find_bounds};

/// What a handler says to an exception: the `else` part and a bare `except` receive
/// every one, a typed handler those that its class matches.
pub open spec fn answer(env: EnvModel, child: SyntaxNode, t: TransferModel) -> TypeMatch {
    if child.kind@ == "exceptionHandler"@ {
        matches_handler(
            env.types,
            match t.fact {
                Some(fact) => fact,
                None => ExceptionTypeFact::Unknown,
            },
            handler_fact_of(env.types, env.unit, child, env.source),
        )
    } else {
        TypeMatch::Yes
    }
}

/// Whether an exception gets as far as the handler at child `i`: none before it is
/// certain to receive it.
pub open spec fn gets_to(env: EnvModel, node: SyntaxNode, t: TransferModel, i: int) -> bool {
    forall|j: int|
        0 <= j < i && j < node.children@.len() && is_handler(#[trigger] node.children@[j])
            ==> answer(env, node.children@[j], t) != TypeMatch::Yes
}

/// How many handlers stand before child `i`.
spec fn place(node: SyntaxNode, i: int) -> int
    decreases i,
{
    if i <= 0 || i > node.children@.len() {
        0
    } else {
        place(node, i - 1) + if is_handler(node.children@[i - 1]) {
            1int
        } else {
            0
        }
    }
}

proof fn lemma_place(node: SyntaxNode, i: int, j: int)
    requires
        0 <= i <= j <= node.children@.len(),
    ensures
        0 <= place(node, i) <= place(node, j),
        i < j && is_handler(node.children@[i]) ==> place(node, i) < place(node, j),
    decreases j,
{
    if i < j {
        lemma_place(node, i, j - 1);
    } else if i > 0 {
        lemma_place(node, i - 1, i - 1);
    }
}

/// Whether the statements of a handler begin at a block behind one state and end
/// before another.
pub open spec fn handler_at(
    env: EnvModel,
    inner: ContextModel,
    tried: StateModel,
    child: SyntaxNode,
    entry: BlockId,
    last: StateModel,
) -> bool {
    exists|s0: StateModel|
        extends(tried, s0) && size(tried) <= entry.0 < size(s0) && extends(
            (#[trigger] in_sequence(env, inner, s0, handler_part(child), Some(entry))).0,
            last,
        )
}

/// The handler that a child gives.
spec fn listed(
    env: EnvModel,
    ctx: ContextModel,
    st: StateModel,
    node: SyntaxNode,
    incoming: Seq<ExceptionTypeFact>,
    handlers: Seq<HandlerModel>,
    last: StateModel,
    i: int,
    h: int,
) -> bool {
    let child = node.children@[i];
    let inner = handler_context(ctx, handled_by(env, child, incoming));
    &&& 0 <= h < handlers.len()
    &&& handlers[h].catch_all == (child.kind@ != "exceptionHandler"@)
    &&& child.kind@ == "exceptionHandler"@ ==> handlers[h].fact == handler_fact_of(
        env.types,
        env.unit,
        child,
        env.source,
    )
    &&& size(last) <= usize::MAX ==> handler_at(env, inner, st, child, handlers[h].entry, last)
}

proof fn lemma_listed(
    env: EnvModel,
    ctx: ContextModel,
    first: StateModel,
    st: StateModel,
    node: SyntaxNode,
    incoming: Seq<ExceptionTypeFact>,
    j: int,
    acc: Seq<HandlerModel>,
)
    requires
        0 <= j <= node.children@.len(),
        acc.len() == place(node, j),
        extends(first, st),
    ensures
        ({
            let (s, handlers) = handlers_from(env, ctx, st, node, incoming, j, acc);
            &&& extends(st, s)
            &&& handlers.len() == place(node, node.children@.len() as int)
            &&& forall|i: int|
                j <= i < node.children@.len() && is_handler(#[trigger] node.children@[i])
                    ==> listed(
                    env,
                    ctx,
                    first,
                    node,
                    incoming,
                    handlers,
                    s,
                    i,
                    place(node, i),
                )
        }),
    decreases node.children@.len() - j,
{
    lemma_handler_kinds();
    if j < node.children@.len() {
        let child = node.children@[j];
        let (last, handlers) = handlers_from(env, ctx, st, node, incoming, j, acc);
        if is_handler(child) {
            let (s, handler) = handler_step(env, ctx, st, child, incoming);
            lemma_handler_step(env, ctx, st, child, incoming);
            let began = handler_start(st, child);
            let acc1 = acc.push(handler);
            assert(handlers_from(env, ctx, st, node, incoming, j, acc) == handlers_from(
                env,
                ctx,
                s,
                node,
                incoming,
                j + 1,
                acc1,
            ));
            assert(extends(st, s));
            assert(extends(first, s));
            lemma_listed(env, ctx, first, s, node, incoming, j + 1, acc1);
            lemma_handlers_keep(env, ctx, s, node, incoming, j + 1, acc1);
            assert(handlers[acc.len() as int] == acc1[acc.len() as int]);
            assert(listed(env, ctx, first, node, incoming, handlers, last, j, place(node, j))) by {
                let inner = handler_context(ctx, handled_by(env, child, incoming));
                if size(last) <= usize::MAX {
                    assert(extends(first, began) && extends(s, last) && extends(began, last));
                    lemma_sizes(began, last);
                    lemma_sizes(first, st);
                    let walked = in_sequence(
                        env,
                        inner,
                        began,
                        handler_part(child),
                        Some(st.next()),
                    );
                    assert(walked.0 == s);
                    assert(handler_at(env, inner, first, child, handler.entry, last));
                }
            }
        } else {
            assert(!(hit(any_field("except"@), child) && (child.kind@ == "exceptionHandler"@
                || child.kind@ == "exceptionElse"@ || child.kind@ == "statements"@)));
            lemma_listed(env, ctx, first, st, node, incoming, j + 1, acc);
        }
    }
}

proof fn lemma_placed(node: SyntaxNode, h: int, n: int) -> (i: int)
    requires
        0 <= n <= node.children@.len(),
        0 <= h < place(node, n),
    ensures
        0 <= i < n,
        is_handler(node.children@[i]),
        place(node, i) == h,
    decreases n,
{
    lemma_place(node, 0, n);
    if h < place(node, n - 1) {
        lemma_placed(node, h, n - 1)
    } else {
        n - 1
    }
}

/// The edges that the dispatch of one exception adds.
proof fn lemma_dispatch_adds(
    x: IndexModel,
    st: StateModel,
    t: TransferModel,
    handlers: Seq<HandlerModel>,
    h: int,
)
    requires
        0 <= h,
        reaches(x, t, handlers, h),
    ensures
        ({
            let before = st.graph.edges;
            let after = dispatch(x, st, t, handlers, h).0.graph.edges;
            &&& before.len() <= after.len()
            &&& forall|k: int| 0 <= k < before.len() ==> #[trigger] after[k] == before[k]
            &&& forall|k: int|
                before.len() <= k < after.len() ==> sent(x, handlers, t, #[trigger] after[k])
        }),
    decreases handlers.len() - h,
{
    if h < handlers.len() {
        let e = Edge {
            source: t.source,
            target: handlers[h].entry,
            kind: EdgeKind::ExceptionThrow,
        };
        let caught = st.edge(t.source, handlers[h].entry, EdgeKind::ExceptionThrow);
        let after = dispatch(x, st, t, handlers, h).0.graph.edges;
        let n = st.graph.edges.len() as int;
        assert(caught.graph.edges[n] == e);
        if possible(x, t, handlers[h]) {
            assert(sent_to(x, handlers, t, e, h));
            assert(sent(x, handlers, t, e));
        }
        if !certain(x, t, handlers[h]) {
            assert(reaches(x, t, handlers, h + 1)) by {
                assert forall|k: int| 0 <= k < h + 1 implies !certain(
                    x,
                    t,
                    #[trigger] handlers[k],
                ) by {}
            }
            if possible(x, t, handlers[h]) {
                lemma_dispatch_adds(x, caught, t, handlers, h + 1);
                assert forall|k: int| n <= k < after.len() implies sent(
                    x,
                    handlers,
                    t,
                    #[trigger] after[k],
                ) by {
                    if k == n {
                        assert(after[k] == caught.graph.edges[k]);
                    }
                }
                assert forall|k: int| 0 <= k < n implies #[trigger] after[k]
                    == st.graph.edges[k] by {
                    assert(caught.graph.edges[k] == st.graph.edges[k]);
                }
            } else {
                lemma_dispatch_adds(x, st, t, handlers, h + 1);
            }
        }
    }
}

/// Whether an edge is that of an exception to a handler that it reaches and that may
/// receive it.
spec fn sent_to(
    x: IndexModel,
    handlers: Seq<HandlerModel>,
    t: TransferModel,
    e: Edge,
    h: int,
) -> bool {
    &&& 0 <= h < handlers.len()
    &&& reaches(x, t, handlers, h)
    &&& possible(x, t, handlers[h])
    &&& e.source == t.source
    &&& e.target == handlers[h].entry
    &&& e.kind == EdgeKind::ExceptionThrow
}

spec fn sent(x: IndexModel, handlers: Seq<HandlerModel>, t: TransferModel, e: Edge) -> bool {
    exists|h: int| sent_to(x, handlers, t, e, h)
}

spec fn sent_by_some(
    x: IndexModel,
    handlers: Seq<HandlerModel>,
    exceptions: Seq<TransferModel>,
    e: Edge,
) -> bool {
    exists|j: int|
        0 <= j < exceptions.len() && sent(x, handlers, #[trigger] exceptions[j], e)
}

proof fn lemma_dispatch_all_adds(
    x: IndexModel,
    st: StateModel,
    exceptions: Seq<TransferModel>,
    handlers: Seq<HandlerModel>,
    i: int,
    acc: Seq<TransferModel>,
)
    requires
        0 <= i <= exceptions.len(),
    ensures
        ({
            let before = st.graph.edges;
            let after = dispatch_all(x, st, exceptions, handlers, i, acc).0.graph.edges;
            &&& before.len() <= after.len()
            &&& forall|k: int| 0 <= k < before.len() ==> #[trigger] after[k] == before[k]
            &&& forall|k: int|
                before.len() <= k < after.len() ==> sent_by_some(
                    x,
                    handlers,
                    exceptions,
                    #[trigger] after[k],
                )
        }),
    decreases exceptions.len() - i,
{
    if i < exceptions.len() {
        let (s, escapes) = dispatch(x, st, exceptions[i], handlers, 0);
        lemma_dispatch_adds(x, st, exceptions[i], handlers, 0);
        let acc1 = if escapes {
            acc.push(exceptions[i])
        } else {
            acc
        };
        lemma_dispatch_all_adds(x, s, exceptions, handlers, i + 1, acc1);
        let b = st.graph.edges;
        let m = s.graph.edges;
        let a = dispatch_all(x, st, exceptions, handlers, i, acc).0.graph.edges;
        assert forall|k: int| 0 <= k < b.len() implies #[trigger] a[k] == b[k] by {
            assert(m[k] == b[k]);
        }
        assert forall|k: int| b.len() <= k < a.len() implies sent_by_some(
            x,
            handlers,
            exceptions,
            #[trigger] a[k],
        ) by {
            if k < m.len() {
                assert(a[k] == m[k]);
                assert(sent(x, handlers, exceptions[i], m[k]));
            }
        }
    }
}

proof fn lemma_exceptions_from(transfers: Seq<TransferModel>, n: int, j: int)
    requires
        0 <= n <= transfers.len(),
        0 <= j < exceptions_of(transfers, true, n).len(),
    ensures
        exceptions_of(transfers, true, n)[j].kind == TransferKind::Exception,
        transfers.contains(exceptions_of(transfers, true, n)[j]),
    decreases n,
{
    if n > 0 {
        let before = exceptions_of(transfers, true, n - 1);
        if j < before.len() {
            lemma_exceptions_from(transfers, n - 1, j);
        } else {
            assert(transfers[n - 1] == exceptions_of(transfers, true, n)[j]);
        }
    }
}

proof fn lemma_edges_to_adds(st: StateModel, ends: Seq<BlockId>, i: int, target: BlockId)
    requires
        0 <= i,
    ensures
        ({
            let before = st.graph.edges;
            let after = edges_to(st, ends, i, target, EdgeKind::Normal).graph.edges;
            &&& before.len() <= after.len()
            &&& forall|k: int| 0 <= k < before.len() ==> #[trigger] after[k] == before[k]
            &&& forall|k: int|
                before.len() <= k < after.len() ==> (#[trigger] after[k]).target == target
                    && after[k].kind == EdgeKind::Normal
        }),
    decreases ends.len() - i,
{
    if i < ends.len() {
        let s = st.edge(ends[i], target, EdgeKind::Normal);
        lemma_edges_to_adds(s, ends, i + 1, target);
        let b = st.graph.edges;
        let m = s.graph.edges;
        let a = edges_to(st, ends, i, target, EdgeKind::Normal).graph.edges;
        assert forall|k: int| 0 <= k < b.len() implies #[trigger] a[k] == b[k] by {
            assert(m[k] == b[k]);
        }
        assert forall|k: int| b.len() <= k < a.len() implies (#[trigger] a[k]).target == target
            && a[k].kind == EdgeKind::Normal by {
            if k == b.len() {
                assert(a[k] == m[k]);
            }
        }
    }
}

/// Whether an edge leads from where an exception is raised to the handler at child `i`,
/// which the exception gets to and which may receive it.
pub open spec fn dispatched(
    env: EnvModel,
    node: SyntaxNode,
    entries: Seq<BlockId>,
    t: TransferModel,
    e: Edge,
    i: int,
) -> bool {
    &&& 0 <= i < node.children@.len()
    &&& is_handler(node.children@[i])
    &&& gets_to(env, node, t, i)
    &&& answer(env, node.children@[i], t) != TypeMatch::No
    &&& e == (Edge { source: t.source, target: entries[i], kind: EdgeKind::ExceptionThrow })
}

/// Whether the handler of each child begins at its block: its statements are walked
/// from there, behind the protected statements.
#[verifier::opaque]
pub open spec fn all_begin(
    env: EnvModel,
    ctx: ContextModel,
    node: SyntaxNode,
    incoming: Seq<ExceptionTypeFact>,
    tried: StateModel,
    entries: Seq<BlockId>,
    last: StateModel,
) -> bool {
    entries.len() == node.children@.len() && forall|i: int|
        0 <= i < node.children@.len() && is_handler(#[trigger] node.children@[i]) ==> handler_at(
            env,
            handler_context(ctx, handled_by(env, node.children@[i], incoming)),
            tried,
            node.children@[i],
            entries[i],
            last,
        )
}

/// Whether each exception has an edge to every handler that it gets to and that may
/// receive it.
#[verifier::opaque]
pub open spec fn all_sent(
    env: EnvModel,
    node: SyntaxNode,
    transfers: Seq<TransferModel>,
    entries: Seq<BlockId>,
    last: StateModel,
) -> bool {
    forall|t: TransferModel, i: int|
        #![trigger transfers.contains(t), node.children@[i]]
        transfers.contains(t) && t.kind == TransferKind::Exception && 0 <= i
            < node.children@.len() && is_handler(node.children@[i]) && gets_to(env, node, t, i)
            && answer(env, node.children@[i], t) != TypeMatch::No ==> joins(
            last,
            t.source,
            entries[i],
            EdgeKind::ExceptionThrow,
        )
}

/// Whether each exception that no handler is certain to receive is among those that go
/// on.
#[verifier::opaque]
pub open spec fn all_escape(
    env: EnvModel,
    node: SyntaxNode,
    transfers: Seq<TransferModel>,
    outward: Seq<TransferModel>,
) -> bool {
    forall|t: TransferModel| #[trigger]
        transfers.contains(t) && t.kind == TransferKind::Exception && gets_to(
            env,
            node,
            t,
            node.children@.len() as int,
        ) ==> outward.contains(t)
}

/// Whether every edge that is added behind a state leads to the block behind the
/// statement, or from an exception to a handler that it gets to and that may receive
/// it.
#[verifier::opaque]
pub open spec fn only_sent(
    env: EnvModel,
    node: SyntaxNode,
    transfers: Seq<TransferModel>,
    entries: Seq<BlockId>,
    behind: Option<BlockId>,
    from: StateModel,
    last: StateModel,
) -> bool {
    forall|k: int|
        from.graph.edges.len() <= k < last.graph.edges.len() ==> (Some(
            (#[trigger] last.graph.edges[k]).target,
        ) == behind && last.graph.edges[k].kind == EdgeKind::Normal) || exists|
            t: TransferModel,
            i: int,
        |
            transfers.contains(t) && t.kind == TransferKind::Exception && #[trigger] dispatched(
                env,
                node,
                entries,
                t,
                last.graph.edges[k],
                i,
            )
}

/// The block at which the handler of each child begins.
spec fn entries_of(node: SyntaxNode, handlers: Seq<HandlerModel>) -> Seq<BlockId> {
    Seq::new(
        node.children@.len(),
        |i: int|
            if is_handler(node.children@[i]) {
                handlers[place(node, i)].entry
            } else {
                BlockId(0)
            },
    )
}

/// Whether the handlers are those of the children.
#[verifier::opaque]
spec fn all_listed(
    env: EnvModel,
    ctx: ContextModel,
    st: StateModel,
    node: SyntaxNode,
    incoming: Seq<ExceptionTypeFact>,
    handlers: Seq<HandlerModel>,
    last: StateModel,
) -> bool {
    handlers.len() == place(node, node.children@.len() as int) && forall|i: int|
        0 <= i < node.children@.len() && is_handler(#[trigger] node.children@[i]) ==> listed(
            env,
            ctx,
            st,
            node,
            incoming,
            handlers,
            last,
            i,
            place(node, i),
        )
}

/// The walk of a `try..except` up to the end of its handlers, and up to the end of the
/// dispatch.
spec fn walked(
    env: EnvModel,
    ctx: ContextModel,
    st: StateModel,
    node: SyntaxNode,
    current: BlockId,
) -> (StateModel, Seq<TransferModel>, StateModel, Seq<HandlerModel>, StateModel) {
    let (s1, f) = try_body(env, dispatch_context(ctx, st), st, node, current);
    let incoming = raised_facts(f.transfers);
    let (s2, handlers) = handlers_from(env, ctx, s1, node, incoming, 0, Seq::empty());
    let count = f.transfers.len() as int;
    let s3 = dispatch_all(
        env.types,
        s2,
        exceptions_of(f.transfers, true, count),
        handlers,
        0,
        exceptions_of(f.transfers, false, count),
    ).0;
    (s1, f.transfers, s2, handlers, s3)
}

proof fn lemma_walked(
    env: EnvModel,
    ctx: ContextModel,
    st: StateModel,
    node: SyntaxNode,
    current: BlockId,
)
    requires
        exists|i: int| 0 <= i < node.children@.len() && is_handler(#[trigger] node.children@[i]),
    ensures
        ({
            let (s1, transfers, s2, handlers, s3) = walked(env, ctx, st, node, current);
            let (last, flow) = try_except(env, ctx, st, node, current);
            &&& extends(s1, s2) && extends(s2, s3) && extends(s3, last)
            &&& extends(s2, last)
            &&& all_listed(env, ctx, s1, node, raised_facts(transfers), handlers, s2)
            &&& handlers_of(env, ctx, st, node, current) == handlers
            &&& forall|k: int|
                0 <= k < s3.graph.edges.len() ==> #[trigger] last.graph.edges[k]
                    == s3.graph.edges[k]
            &&& forall|k: int|
                s3.graph.edges.len() <= k < last.graph.edges.len() ==> Some(
                    (#[trigger] last.graph.edges[k]).target,
                ) == flow.normal && last.graph.edges[k].kind == EdgeKind::Normal
        }),
{
    let tried = ctx.in_dispatch(st.graph.blocks.len() as usize);
    assert(tried =~= dispatch_context(ctx, st));
    let (s1, f) = try_body(env, tried, st, node, current);
    let count = f.transfers.len() as int;
    let exceptions = exceptions_of(f.transfers, true, count);
    let others = exceptions_of(f.transfers, false, count);
    let incoming = facts_of(exceptions);
    let total = node.children@.len() as int;
    let (s2, handlers) = handlers_from(env, ctx, s1, node, incoming, 0, Seq::empty());
    lemma_listed(env, ctx, s1, s1, node, incoming, 0, Seq::empty());
    let some = choose|i: int| 0 <= i < total && is_handler(#[trigger] node.children@[i]);
    lemma_place(node, some, total);
    assert(all_handlers(env, ctx, s1, node, incoming) == (s2, handlers));
    assert(all_listed(env, ctx, s1, node, incoming, handlers, s2)) by {
        reveal(all_listed);
    }
    let (s3, escaped) = dispatch_all(env.types, s2, exceptions, handlers, 0, others);
    let start = match f.normal {
        Some(end) => seq![end],
        None => Seq::empty(),
    };
    let ends = handler_ends(handlers, start, handlers.len() as int);
    lemma_dispatch_all_quiet(env.types, s2, exceptions, handlers, 0, others);
    assert(extends(s2, s3)) by {
        reveal(quiet);
    }
    let j = s3.next();
    let s4 = s3.block(BasicBlockKind::Normal);
    let s5 = edges_to(s4, ends, 0, j, EdgeKind::Normal);
    lemma_edges_to(ctx, s4, ends, 0, j, EdgeKind::Normal);
    lemma_edges_to_adds(s4, ends, 0, j);
    assert(extends(s4, s5));
}

proof fn lemma_all_sent(
    env: EnvModel,
    ctx: ContextModel,
    st: StateModel,
    node: SyntaxNode,
    current: BlockId,
)
    requires
        exists|i: int| 0 <= i < node.children@.len() && is_handler(#[trigger] node.children@[i]),
    ensures
        ({
            let (s1, transfers, s2, handlers, s3) = walked(env, ctx, st, node, current);
            let (last, flow) = try_except(env, ctx, st, node, current);
            &&& all_sent(env, node, transfers, entries_of(node, handlers), last)
            &&& all_escape(env, node, transfers, flow.transfers)
        }),
{
    lemma_walked(env, ctx, st, node, current);
    let (s1, transfers, s2, handlers, s3) = walked(env, ctx, st, node, current);
    let (last, flow) = try_except(env, ctx, st, node, current);
    let incoming = raised_facts(transfers);
    let entries = entries_of(node, handlers);
    let total = node.children@.len() as int;
    let tried = ctx.in_dispatch(st.graph.blocks.len() as usize);
    assert(tried =~= dispatch_context(ctx, st));
    assert(transfers == try_body(env, tried, st, node, current).1.transfers);
    assert(all_sent(env, node, transfers, entries, last)) by {
        reveal(all_sent);
        assert forall|t: TransferModel, i: int|
            #![trigger transfers.contains(t), node.children@[i]]
            transfers.contains(t) && t.kind == TransferKind::Exception && 0 <= i < total
                && is_handler(node.children@[i]) && gets_to(env, node, t, i) && answer(
                env,
                node.children@[i],
                t,
            ) != TypeMatch::No implies joins(
            last,
            t.source,
            entries[i],
            EdgeKind::ExceptionThrow,
        ) by {
            let k = choose|k: int| 0 <= k < transfers.len() && transfers[k] == t;
            let h = place(node, i);
            lemma_gets_to(env, ctx, s1, node, incoming, handlers, s2, t, i);
            lemma_place(node, i, total);
            assert(listed(env, ctx, s1, node, incoming, handlers, s2, i, h)) by {
                reveal(all_listed);
            }
            law_exceptions_reach_every_possible_handler(env, ctx, st, node, current, k, h);
            assert(possible(env.types, t, handlers[h]));
        }
    }
    assert(all_escape(env, node, transfers, flow.transfers)) by {
        reveal(all_escape);
        assert forall|t: TransferModel| #[trigger]
            transfers.contains(t) && t.kind == TransferKind::Exception && gets_to(
                env,
                node,
                t,
                total,
            ) implies flow.transfers.contains(t) by {
            let k = choose|k: int| 0 <= k < transfers.len() && transfers[k] == t;
            lemma_gets_to(env, ctx, s1, node, incoming, handlers, s2, t, total);
            let n = handlers.len() as int;
            assert(n == place(node, total)) by {
                reveal(all_listed);
            }
            law_exceptions_reach_every_possible_handler(env, ctx, st, node, current, k, n);
        }
    }
}

proof fn lemma_only_sent(
    env: EnvModel,
    ctx: ContextModel,
    st: StateModel,
    node: SyntaxNode,
    current: BlockId,
)
    requires
        exists|i: int| 0 <= i < node.children@.len() && is_handler(#[trigger] node.children@[i]),
    ensures
        ({
            let (s1, transfers, s2, handlers, s3) = walked(env, ctx, st, node, current);
            let (last, flow) = try_except(env, ctx, st, node, current);
            only_sent(
                env,
                node,
                transfers,
                entries_of(node, handlers),
                flow.normal,
                s2,
                last,
            )
        }),
{
    reveal(only_sent);
    reveal(all_listed);
    lemma_walked(env, ctx, st, node, current);
    let (s1, transfers, s2, handlers, s3) = walked(env, ctx, st, node, current);
    let (last, flow) = try_except(env, ctx, st, node, current);
    let incoming = raised_facts(transfers);
    let entries = entries_of(node, handlers);
    let total = node.children@.len() as int;
    let count = transfers.len() as int;
    let exceptions = exceptions_of(transfers, true, count);
    let others = exceptions_of(transfers, false, count);
    lemma_dispatch_all_adds(env.types, s2, exceptions, handlers, 0, others);
    assert forall|k: int|
        s2.graph.edges.len() <= k < last.graph.edges.len() && k
            < s3.graph.edges.len() implies exists|t: TransferModel, i: int|
        transfers.contains(t) && t.kind == TransferKind::Exception && #[trigger] dispatched(
            env,
            node,
            entries,
            t,
            #[trigger] last.graph.edges[k],
            i,
        ) by {
        let e = last.graph.edges[k];
        assert(e == s3.graph.edges[k]);
        assert(sent_by_some(env.types, handlers, exceptions, s3.graph.edges[k]));
        let m = choose|m: int|
            0 <= m < exceptions.len() && sent(env.types, handlers, #[trigger] exceptions[m], e);
        lemma_exceptions_from(transfers, count, m);
        let t = exceptions[m];
        let h = choose|h: int| sent_to(env.types, handlers, t, e, h);
        let i = lemma_placed(node, h, total);
        assert(listed(env, ctx, s1, node, incoming, handlers, s2, i, place(node, i)));
        assert(gets_to(env, node, t, i)) by {
            assert forall|p: int|
                0 <= p < i && p < total && is_handler(#[trigger] node.children@[p]) implies answer(
                env,
                node.children@[p],
                t,
            ) != TypeMatch::Yes by {
                lemma_place(node, p, i);
                assert(listed(env, ctx, s1, node, incoming, handlers, s2, p, place(node, p)));
                assert(!certain(env.types, t, handlers[place(node, p)]));
            }
        }
        assert(dispatched(env, node, entries, t, e, i));
    }
}

/// Exceptions of the protected statements of a `try..except` go to its handlers in
/// their order. Each has an edge to every handler that it gets to and that may receive
/// it, and to no other; where no handler is certain to receive it, it leaves the
/// statement. Behind the statements of the handlers no other edge is added but those to
/// the block behind the whole statement.
///
/// The witness gives the block and the state in which the protected statements begin,
/// the block at which the handler of each child begins, and the state behind the
/// handlers.
pub proof fn law_exceptions_go_to_handlers_in_order(
    env: EnvModel,
    ctx: ContextModel,
    st: StateModel,
    node: SyntaxNode,
    current: BlockId,
) -> (r: (BlockId, StateModel, Seq<BlockId>, StateModel))
    requires
        is_try_except(node),
        begins(ctx, st, current),
        size(single(env, ctx, st, node, current).0) <= usize::MAX,
        exists|i: int| 0 <= i < node.children@.len() && is_handler(#[trigger] node.children@[i]),
    ensures
        ({
            let (first, s1, entries, s2) = r;
            let (last, flow) = single(env, ctx, st, node, current);
            let tried = dispatch_context(ctx, st);
            let (e1, f1) = in_sequence(env, tried, s1, try_part(node), Some(first));
            &&& enters_try(st, last, node, current, s1, first)
            &&& extends(e1, s2) && extends(s2, last)
            &&& all_begin(env, ctx, node, raised_facts(f1.transfers), e1, entries, s2)
            &&& all_sent(env, node, f1.transfers, entries, last)
            &&& all_escape(env, node, f1.transfers, flow.transfers)
            &&& only_sent(env, node, f1.transfers, entries, flow.normal, s2, last)
        }),
{
    lemma_single_is(env, ctx, st, node, current);
    lemma_walked(env, ctx, st, node, current);
    lemma_all_sent(env, ctx, st, node, current);
    lemma_only_sent(env, ctx, st, node, current);
    let (s1, transfers, s2, handlers, s3) = walked(env, ctx, st, node, current);
    let last = try_except(env, ctx, st, node, current).0;
    let tried = dispatch_context(ctx, st);
    assert(extends(s1, last));
    lemma_sizes(s2, last);
    let (first, t1) = lemma_try_body(env, tried, st, node, current, last);
    let entries = entries_of(node, handlers);
    assert(all_begin(env, ctx, node, raised_facts(transfers), s1, entries, s2)) by {
        reveal(all_begin);
        reveal(all_listed);
    }
    (first, t1, entries, s2)
}

proof fn lemma_no_handlers(
    env: EnvModel,
    ctx: ContextModel,
    st: StateModel,
    node: SyntaxNode,
    incoming: Seq<ExceptionTypeFact>,
    j: int,
)
    requires
        0 <= j <= node.children@.len(),
        forall|i: int| 0 <= i < node.children@.len() ==> !is_handler(#[trigger] node.children@[i]),
    ensures
        handlers_from(env, ctx, st, node, incoming, j, Seq::empty()) == (
            st,
            Seq::<HandlerModel>::empty(),
        ),
    decreases node.children@.len() - j,
{
    if j < node.children@.len() {
        assert(!is_handler(node.children@[j]));
        lemma_no_handlers(env, ctx, st, node, incoming, j + 1);
    }
}

/// A `try..except` with nothing behind `except` catches everything: each exception of
/// the protected statements has an edge to one handler block, and from there the flow
/// goes on behind the statement, as it does from the end of the protected statements.
///
/// The witness gives the block and the state in which the protected statements begin,
/// and the handler block.
pub proof fn law_empty_except_catches_everything(
    env: EnvModel,
    ctx: ContextModel,
    st: StateModel,
    node: SyntaxNode,
    current: BlockId,
) -> (r: (BlockId, StateModel, BlockId))
    requires
        is_try_except(node),
        begins(ctx, st, current),
        size(single(env, ctx, st, node, current).0) <= usize::MAX,
        forall|i: int| 0 <= i < node.children@.len() ==> !is_handler(#[trigger] node.children@[i]),
    ensures
        ({
            let (first, s1, entry) = r;
            let (last, flow) = single(env, ctx, st, node, current);
            let tried = dispatch_context(ctx, st);
            let (e1, f1) = in_sequence(env, tried, s1, try_part(node), Some(first));
            &&& enters_try(st, last, node, current, s1, first)
            &&& extends(e1, last)
            &&& size(e1) <= entry.0 < size(last)
            &&& last.graph.blocks[entry.0 as int].kind == BasicBlockKind::BareExceptHandler
            &&& forall|t: TransferModel| #[trigger]
                f1.transfers.contains(t) && t.kind == TransferKind::Exception ==> joins(
                    last,
                    t.source,
                    entry,
                    EdgeKind::ExceptionThrow,
                )
            &&& goes_on(last, f1.normal, flow.normal, EdgeKind::Normal)
            &&& goes_on(last, Some(entry), flow.normal, EdgeKind::Normal)
        }),
{
    lemma_single_is(env, ctx, st, node, current);
    let tried = ctx.in_dispatch(st.graph.blocks.len() as usize);
    assert(tried =~= dispatch_context(ctx, st));
    let (s1, f) = try_body(env, tried, st, node, current);
    let count = f.transfers.len() as int;
    let exceptions = exceptions_of(f.transfers, true, count);
    let others = exceptions_of(f.transfers, false, count);
    let incoming = facts_of(exceptions);
    lemma_no_handlers(env, ctx, s1, node, incoming, 0);
    let entry = s1.next();
    let s2 = s1.block(BasicBlockKind::BareExceptHandler);
    let handlers = all_handlers(env, ctx, s1, node, incoming).1;
    assert(all_handlers(env, ctx, s1, node, incoming).0 == s2);
    assert(handlers.len() == 1);
    let (s3, escaped) = dispatch_all(env.types, s2, exceptions, handlers, 0, others);
    lemma_dispatch_all_quiet(env.types, s2, exceptions, handlers, 0, others);
    assert(extends(s2, s3)) by {
        reveal(quiet);
    }
    let start = match f.normal {
        Some(end) => seq![end],
        None => Seq::empty(),
    };
    let ends = handler_ends(handlers, start, 1);
    let j = s3.next();
    let s4 = s3.block(BasicBlockKind::Normal);
    let s5 = edges_to(s4, ends, 0, j, EdgeKind::Normal);
    lemma_edges_to(ctx, s4, ends, 0, j, EdgeKind::Normal);
    assert(extends(s4, s5));
    let (last, flow) = try_except(env, ctx, st, node, current);
    assert(extends(s3, last));
    assert(extends(s2, last));
    assert(extends(s1, last));
    lemma_sizes(s2, last);
    let (first, t1) = lemma_try_body(env, tried, st, node, current, last);
    assert(handlers[0].flow.normal == Some(entry));
    lemma_handler_ends_hold(handlers, start, 1, entry);
    assert(ends.contains(entry));
    assert forall|e: BlockId| #[trigger] ends.contains(e) implies flow.normal == Some(j) && joins(
        last,
        e,
        j,
        EdgeKind::Normal,
    ) by {
        let k = choose|k: int| 0 <= k < ends.len() && ends[k] == e;
        crate::try_laws::lemma_edges_to_join(s4, ends, 0, j, EdgeKind::Normal, k);
    }
    if let Some(e) = f.normal {
        assert(start[0] == e);
        lemma_handler_ends_hold(handlers, start, 1, e);
    }
    assert(last.graph.blocks[entry.0 as int].kind == s2.graph.blocks[entry.0 as int].kind) by {
        reveal(extends);
    }
    assert(handlers_of(env, ctx, st, node, current) == handlers);
    assert forall|t: TransferModel| #[trigger]
        f.transfers.contains(t) && t.kind == TransferKind::Exception implies joins(
        last,
        t.source,
        entry,
        EdgeKind::ExceptionThrow,
    ) by {
        let k = choose|k: int| 0 <= k < f.transfers.len() && f.transfers[k] == t;
        law_exceptions_reach_every_possible_handler(env, ctx, st, node, current, k, 0);
    }
    (first, t1, entry)
}

proof fn lemma_gets_to(
    env: EnvModel,
    ctx: ContextModel,
    st: StateModel,
    node: SyntaxNode,
    incoming: Seq<ExceptionTypeFact>,
    handlers: Seq<HandlerModel>,
    last: StateModel,
    t: TransferModel,
    i: int,
)
    requires
        0 <= i <= node.children@.len(),
        gets_to(env, node, t, i),
        all_listed(env, ctx, st, node, incoming, handlers, last),
    ensures
        reaches(env.types, t, handlers, place(node, i)),
        0 <= place(node, i),
{
    reveal(all_listed);
    lemma_place(node, 0, i);
    assert forall|h: int| 0 <= h < place(node, i) implies !certain(
        env.types,
        t,
        #[trigger] handlers[h],
    ) by {
        let p = lemma_placed(node, h, i);
        assert(listed(env, ctx, st, node, incoming, handlers, last, p, place(node, p)));
        assert(answer(env, node.children@[p], t) != TypeMatch::Yes);
    }
}

} // verus!
