//! What every step of the walk of a scope keeps.
//!
//! A step adds blocks and edges. The edges that tell branches, arms and loops apart
//! leave only the block at which the step began or a block that the step made. A
//! finalizer body that the walk remembers was walked from an entry of its own.

use vstd::prelude::*;
use crate::exception_types::{context_of, handler_fact_of, ExceptionTypeFact, IndexModel};
use crate::flow::{distinct, FlowModel, KeyModel, TransferKind, TransferModel};
use crate::graph::{BasicBlockKind, BlockId, EdgeKind};
use crate::graph_facts::{extends, size};
use crate::graph_laws::group_done;
use crate::labels::{finalized, hollow, last_branch};
use crate::scope_graph::{
    all_handlers, body_key, body_return, branch_binding, cached, case_arms, case_selector,
    case_statement, condition, conditional_block, conditional_branches, counted_loop,
    default_before, dispatch, dispatch_all, edges_to, ending, entered, exceptions_of, facts_of,
    finalize, finally_body, goto_statement, group_with, groups_of, handler_ends, handlers_from,
    if_else, if_only, implicit, labelled, labelled_statement, last_under, loop_header, met,
    placed_statement, prepared, raise_statement, repeat_header, repeat_loop, return_number,
    scope_number, selected, sequence_child, settled, single, staying, try_body, try_except,
    try_finally, waiting, walk, with_statement, CacheKeyModel, CachedModel, ContextModel, EnvModel,
    GroupModel, HandlerModel, Selection, StateModel,
};
use crate::syntax::{any_field, field_kind, hit, named_kind, SyntaxNode};

verus! {

broadcast use {crate::graph_facts::group_graph_facts, crate::syntax::lemma_find_bounds};

// Sequences ------------------------------------------------------------------------------------

/// The nodes among the first `n` whose positions are picked, in their order.
pub open spec fn picked(nodes: Seq<SyntaxNode>, pick: spec_fn(int) -> bool, n: int) -> Seq<
    SyntaxNode,
>
    decreases n,
{
    if n <= 0 || n > nodes.len() {
        Seq::empty()
    } else if pick(n - 1) {
        picked(nodes, pick, n - 1).push(nodes[n - 1])
    } else {
        picked(nodes, pick, n - 1)
    }
}

/// Statements one behind the other: each begins where the one before it ends, and
/// what leaves any of them leaves the whole.
pub open spec fn in_sequence(
    env: EnvModel,
    ctx: ContextModel,
    st: StateModel,
    nodes: Seq<SyntaxNode>,
    current: Option<BlockId>,
) -> (StateModel, FlowModel)
    decreases nodes.len(),
{
    if nodes.len() == 0 {
        (st, FlowModel { normal: current, transfers: Seq::empty() })
    } else {
        let (s, f) = in_sequence(env, ctx, st, nodes.drop_last(), current);
        let (s1, f1) = sequence_child(env, ctx, s, nodes.last(), f.normal);
        (s1, FlowModel { normal: f1.normal, transfers: f.transfers + f1.transfers })
    }
}

/// A walk takes the selected children one behind the other.
pub proof fn lemma_walk_is_sequence(
    env: EnvModel,
    ctx: ContextModel,
    st: StateModel,
    node: SyntaxNode,
    sel: Selection,
    pick: spec_fn(int) -> bool,
    i: int,
    current: Option<BlockId>,
)
    requires
        0 <= i <= node.children@.len(),
        forall|k: int|
            0 <= k < node.children@.len() ==> #[trigger] selected(sel, node, k) == pick(k),
    ensures
        ({
            let (s, f) = in_sequence(env, ctx, st, picked(node.children@, pick, i), current);
            walk(env, ctx, s, node, sel, i, f.normal, f.transfers) == in_sequence(
                env,
                ctx,
                st,
                picked(node.children@, pick, node.children@.len() as int),
                current,
            )
        }),
    decreases node.children@.len() - i,
{
    if i < node.children@.len() {
        lemma_walk_is_sequence(env, ctx, st, node, sel, pick, i + 1, current);
        let before = picked(node.children@, pick, i);
        if selected(sel, node, i) {
            let after = picked(node.children@, pick, i + 1);
            assert(after == before.push(node.children@[i]));
            assert(after.drop_last() =~= before);
        }
    }
}

/// The statements behind `finally`.
pub open spec fn finally_statements(node: SyntaxNode) -> Seq<SyntaxNode> {
    match node.find(field_kind("finally"@, "statements"@)) {
        Some(k) => statements_of(node.children@[k]),
        None => Seq::empty(),
    }
}

/// The statements of a statement list: its children but for the separators.
pub open spec fn statements_of(list: SyntaxNode) -> Seq<SyntaxNode> {
    picked(list.children@, |i: int| list.children@[i].kind@ != ";"@, list.children@.len() as int)
}

pub proof fn lemma_statements(
    env: EnvModel,
    ctx: ContextModel,
    st: StateModel,
    list: SyntaxNode,
    current: Option<BlockId>,
)
    ensures
        walk(env, ctx, st, list, Selection::Statements, 0, current, Seq::empty()) == in_sequence(
            env,
            ctx,
            st,
            statements_of(list),
            current,
        ),
{
    let pick = |i: int| list.children@[i].kind@ != ";"@;
    lemma_walk_is_sequence(env, ctx, st, list, Selection::Statements, pick, 0, current);
}

// Finalizer bodies -----------------------------------------------------------------------------

/// The statements behind `finally`, taken from a block on.
pub open spec fn finalizer_run(
    env: EnvModel,
    inner: ContextModel,
    st: StateModel,
    node: SyntaxNode,
    entry: BlockId,
) -> (StateModel, FlowModel) {
    in_sequence(env, inner, st, finally_statements(node), Some(entry))
}

proof fn lemma_finalizer_run(
    env: EnvModel,
    inner: ContextModel,
    st: StateModel,
    node: SyntaxNode,
    entry: BlockId,
)
    ensures
        finalizer_run(env, inner, st, node, entry) == (match node.find(
            field_kind("finally"@, "statements"@),
        ) {
            Some(k) => walk(
                env,
                inner,
                st,
                node.children@[k],
                Selection::Statements,
                0,
                Some(entry),
                Seq::empty(),
            ),
            None => (st, ending(entry)),
        }),
{
    if let Some(k) = node.find(field_kind("finally"@, "statements"@)) {
        lemma_statements(env, inner, st, node.children@[k], Some(entry));
    }
}

/// Whether a context is the one inside a finalizer that is entered with a key: in
/// the loops, cleanup scopes, dispatches and handlers of the key, and one level
/// deeper.
pub open spec fn inside_finalizer(inner: ContextModel, key: CacheKeyModel) -> bool {
    &&& inner.loops == key.loops
    &&& inner.scopes == key.scopes
    &&& inner.dispatches == key.dispatches
    &&& inner.handled == key.handled
    &&& inner.depth == key.depth + 1
}

/// Whether a remembered body is what the statements behind `finally` give from a
/// fresh handler block on.
pub open spec fn runs_as(
    env: EnvModel,
    inner: ContextModel,
    st: StateModel,
    node: SyntaxNode,
    c: CachedModel,
) -> bool {
    &&& inside_finalizer(inner, c.key)
    &&& size(st) <= usize::MAX ==> c.entry.0 + 1 == size(st)
        && st.graph.blocks[c.entry.0 as int].kind == BasicBlockKind::FinallyHandler
        && st.graph.blocks[c.entry.0 as int].stmts.len() == 0
    &&& finalizer_run(env, inner, st, node, c.entry).1 == c.flow
}

/// Whether a remembered body is the finalizer of a statement.
pub open spec fn made_by(env: EnvModel, node: SyntaxNode, c: CachedModel) -> bool {
    exists|inner: ContextModel, st: StateModel| #[trigger] runs_as(env, inner, st, node, c)
}

/// Whether a remembered body is the finalizer of a statement, and all that its
/// statements added is in a state.
pub open spec fn made_in(
    env: EnvModel,
    node: SyntaxNode,
    c: CachedModel,
    last: StateModel,
) -> bool {
    exists|inner: ContextModel, st: StateModel| #[trigger]
        runs_as(env, inner, st, node, c) && extends(
            finalizer_run(env, inner, st, node, c.entry).0,
            last,
        )
}

/// What a state holds, one that goes on from it holds too.
pub proof fn lemma_made_still(
    env: EnvModel,
    node: SyntaxNode,
    c: CachedModel,
    before: StateModel,
    after: StateModel,
)
    requires
        made_in(env, node, c, before),
        extends(before, after),
    ensures
        made_in(env, node, c, after),
{
    let (inner, st) = choose|inner: ContextModel, st: StateModel| #[trigger]
        runs_as(env, inner, st, node, c) && extends(
            finalizer_run(env, inner, st, node, c.entry).0,
            before,
        );
    let run = finalizer_run(env, inner, st, node, c.entry).0;
    assert(extends(run, before) && extends(before, after));
    assert(extends(run, after));
    assert(runs_as(env, inner, st, node, c));
}

/// Whether a node stands in a tree.
pub open spec fn occurs(root: SyntaxNode, node: SyntaxNode) -> bool
    decreases root,
{
    root == node || exists|k: int|
        0 <= k < root.children@.len() && occurs(#[trigger] root.children@[k], node)
}

pub proof fn lemma_occurs_child(root: SyntaxNode, node: SyntaxNode, i: int)
    requires
        occurs(root, node),
        0 <= i < node.children@.len(),
    ensures
        occurs(root, node.children@[i]),
    decreases root,
{
    if root == node {
        assert(occurs(root.children@[i], node.children@[i]));
    } else {
        let k = choose|k: int|
            0 <= k < root.children@.len() && occurs(#[trigger] root.children@[k], node);
        lemma_occurs_child(root.children@[k], node, i);
    }
}

/// Whether a remembered body is the finalizer of a statement of the tree with the
/// range of its key, and is in a state.
pub open spec fn known(
    env: EnvModel,
    root: SyntaxNode,
    c: CachedModel,
    last: StateModel,
) -> bool {
    exists|node: SyntaxNode|
        #![trigger occurs(root, node)]
        occurs(root, node) && finalized(node) && node.start == c.key.start && node.end
            == c.key.end && made_in(env, node, c, last)
}

proof fn lemma_known_still(
    env: EnvModel,
    root: SyntaxNode,
    c: CachedModel,
    before: StateModel,
    after: StateModel,
)
    requires
        known(env, root, c, before),
        extends(before, after),
    ensures
        known(env, root, c, after),
{
    let node = choose|node: SyntaxNode|
        #![trigger occurs(root, node)]
        occurs(root, node) && finalized(node) && node.start == c.key.start && node.end
            == c.key.end && made_in(env, node, c, before);
    lemma_made_still(env, node, c, before, after);
    assert(occurs(root, node));
}

/// Whether everything that is remembered is a finalizer of the tree.
#[verifier::opaque]
pub open spec fn cache_made(env: EnvModel, root: SyntaxNode, st: StateModel) -> bool {
    forall|k: int| 0 <= k < st.cache.len() ==> known(env, root, #[trigger] st.cache[k], st)
}

/// What is remembered stays so while the graph grows.
pub proof fn lemma_cache_still(
    env: EnvModel,
    root: SyntaxNode,
    before: StateModel,
    after: StateModel,
)
    requires
        cache_made(env, root, before),
        extends(before, after),
        after.cache == before.cache,
    ensures
        cache_made(env, root, after),
{
    reveal(cache_made);
    assert forall|k: int| 0 <= k < after.cache.len() implies known(
        env,
        root,
        #[trigger] after.cache[k],
        after,
    ) by {
        assert(known(env, root, before.cache[k], before));
        lemma_known_still(env, root, before.cache[k], before, after);
    }
}

proof fn lemma_cache_push(
    env: EnvModel,
    root: SyntaxNode,
    st: StateModel,
    after: StateModel,
    new: CachedModel,
    node: SyntaxNode,
)
    requires
        after.cache == st.cache.push(new),
        occurs(root, node),
        finalized(node),
        node.start == new.key.start,
        node.end == new.key.end,
        made_in(env, node, new, after),
        extends(st, after),
    ensures
        cache_made(env, root, st) ==> cache_made(env, root, after),
{
    reveal(cache_made);
    if cache_made(env, root, st) {
        assert(known(env, root, new, after));
        assert forall|k: int| 0 <= k < after.cache.len() implies known(
            env,
            root,
            #[trigger] after.cache[k],
            after,
        ) by {
            if k < st.cache.len() {
                assert(after.cache[k] == st.cache[k]);
                assert(known(env, root, st.cache[k], st));
                lemma_known_still(env, root, st.cache[k], st, after);
            }
        }
    }
}

proof fn lemma_cached_key(cache: Seq<CachedModel>, key: CacheKeyModel, i: int)
    ensures
        cached(cache, key, i) matches Some(k) ==> 0 <= k < cache.len() && cache[k].key == key,
    decreases cache.len() - i,
{
    if 0 <= i < cache.len() {
        lemma_cached_key(cache, key, i + 1);
    }
}

// Steps ----------------------------------------------------------------------------------------

/// Whether an edge tells branches, arms or loops apart.
pub open spec fn structural(kind: EdgeKind) -> bool {
    kind == EdgeKind::ConditionalTrue || kind == EdgeKind::ConditionalFalse || kind
        == EdgeKind::LoopBack || kind == EdgeKind::LoopExit || kind == EdgeKind::CaseArm
}

/// Whether a block is the one at which a step begins, or new.
pub open spec fn from_here(st: StateModel, current: Option<BlockId>, block: BlockId) -> bool {
    current == Some(block) || block.0 >= size(st)
}

/// Whether the structural edges that a step adds leave the block at which it begins
/// or a new one.
#[verifier::opaque]
pub open spec fn local(st: StateModel, current: Option<BlockId>, after: StateModel) -> bool {
    forall|k: int|
        st.graph.edges.len() <= k < after.graph.edges.len() && structural(
            (#[trigger] after.graph.edges[k]).kind,
        ) ==> from_here(st, current, after.graph.edges[k].source)
}

/// What a step from a block keeps, and where it can end normally.
pub open spec fn done(
    env: EnvModel,
    root: SyntaxNode,
    st: StateModel,
    current: Option<BlockId>,
    after: StateModel,
    normal: Option<BlockId>,
) -> bool {
    &&& extends(st, after)
    &&& size(after) <= usize::MAX ==> local(st, current, after)
    &&& size(after) <= usize::MAX ==> (normal matches Some(b) ==> from_here(st, current, b))
    &&& cache_made(env, root, st) ==> cache_made(env, root, after)
}

pub proof fn lemma_sizes(st: StateModel, after: StateModel)
    requires
        extends(st, after),
    ensures
        size(st) <= size(after),
        st.graph.edges.len() <= after.graph.edges.len(),
{
    reveal(extends);
}

proof fn lemma_same(env: EnvModel, root: SyntaxNode, st: StateModel, current: Option<BlockId>)
    ensures
        done(env, root, st, current, st, current),
{
    reveal(local);
}

/// A step goes on by edges that leave where it began or what it made.
proof fn lemma_step(
    env: EnvModel,
    root: SyntaxNode,
    st: StateModel,
    current: Option<BlockId>,
    mid: StateModel,
    before: Option<BlockId>,
    after: StateModel,
    normal: Option<BlockId>,
)
    requires
        done(env, root, st, current, mid, before),
        extends(mid, after),
        mid.cache == after.cache,
        size(after) <= usize::MAX && size(st) <= size(mid) <= size(after) ==> (forall|k: int|
            mid.graph.edges.len() <= k < after.graph.edges.len() && structural(
                (#[trigger] after.graph.edges[k]).kind,
            ) ==> from_here(st, current, after.graph.edges[k].source)) && (normal matches Some(b)
            ==> from_here(st, current, b)),
    ensures
        done(env, root, st, current, after, normal),
{
    assert(extends(st, after));
    if cache_made(env, root, mid) {
        lemma_cache_still(env, root, mid, after);
    }
    reveal(local);
    reveal(extends);
    assert forall|k: int|
        size(after) <= usize::MAX && st.graph.edges.len() <= k < after.graph.edges.len()
            && structural((#[trigger] after.graph.edges[k]).kind) implies from_here(
        st,
        current,
        after.graph.edges[k].source,
    ) by {
        if k < mid.graph.edges.len() {
            assert(after.graph.edges[k] == mid.graph.edges[k]);
        }
    }
}

/// Two steps make one where the second begins where the first began or at what
/// the first made.
proof fn lemma_join(
    env: EnvModel,
    root: SyntaxNode,
    st: StateModel,
    current: Option<BlockId>,
    mid: StateModel,
    before: Option<BlockId>,
    next: Option<BlockId>,
    after: StateModel,
    normal: Option<BlockId>,
)
    requires
        done(env, root, st, current, mid, before),
        done(env, root, mid, next, after, normal),
        size(after) <= usize::MAX && size(st) <= size(mid) <= size(after) ==> (next matches Some(b)
            ==> from_here(st, current, b)),
    ensures
        done(env, root, st, current, after, normal),
{
    reveal(local);
    reveal(extends);
    assert forall|k: int|
        size(after) <= usize::MAX && st.graph.edges.len() <= k < after.graph.edges.len()
            && structural((#[trigger] after.graph.edges[k]).kind) implies from_here(
        st,
        current,
        after.graph.edges[k].source,
    ) by {
        if k < mid.graph.edges.len() {
            assert(after.graph.edges[k] == mid.graph.edges[k]);
        }
    }
}

/// Whether a step adds edges only, none of them structural.
#[verifier::opaque]
pub open spec fn quiet(st: StateModel, after: StateModel) -> bool {
    &&& extends(st, after)
    &&& size(after) == size(st)
    &&& after.cache == st.cache
    &&& forall|k: int|
        st.graph.edges.len() <= k < after.graph.edges.len() ==> !structural(
            (#[trigger] after.graph.edges[k]).kind,
        )
}

proof fn lemma_quiet_on(a: StateModel, b: StateModel, c: StateModel)
    requires
        quiet(a, b),
        quiet(b, c),
    ensures
        quiet(a, c),
{
    reveal(quiet);
    reveal(extends);
    assert(extends(a, c));
    assert forall|k: int| a.graph.edges.len() <= k < c.graph.edges.len() implies !structural(
        (#[trigger] c.graph.edges[k]).kind,
    ) by {
        if k < b.graph.edges.len() {
            assert(c.graph.edges[k] == b.graph.edges[k]);
        }
    }
}

proof fn lemma_quiet_step(
    env: EnvModel,
    root: SyntaxNode,
    st: StateModel,
    current: Option<BlockId>,
    mid: StateModel,
    normal: Option<BlockId>,
    after: StateModel,
)
    requires
        done(env, root, st, current, mid, normal),
        quiet(mid, after),
    ensures
        done(env, root, st, current, after, normal),
        extends(mid, after),
        size(after) == size(mid),
{
    reveal(quiet);
    lemma_step(env, root, st, current, mid, normal, after, normal);
}

proof fn lemma_group_with(groups: Seq<GroupModel>, key: Option<KeyModel>, i: int)
    ensures
        group_with(groups, key, i) matches Some(k) ==> 0 <= k < groups.len(),
    decreases groups.len() - i,
{
    if 0 <= i < groups.len() {
        lemma_group_with(groups, key, i + 1);
    }
}

/// Whether none of the edges into a finalizer is structural.
pub open spec fn calm(entries: Seq<(BlockId, EdgeKind)>) -> bool {
    forall|k: int| 0 <= k < entries.len() ==> !structural((#[trigger] entries[k]).1)
}

pub proof fn lemma_prepared_done(
    env: EnvModel,
    root: SyntaxNode,
    ctx: ContextModel,
    st: StateModel,
    current: BlockId,
)
    ensures
        ({
            let (s, b) = prepared(ctx, st, current);
            done(env, root, st, Some(current), s, Some(b))
        }),
{
    lemma_same(env, root, st, Some(current));
    let (s, b) = prepared(ctx, st, current);
    lemma_step(env, root, st, Some(current), st, Some(current), s, Some(b));
}

pub proof fn lemma_placed_statement_done(
    env: EnvModel,
    root: SyntaxNode,
    ctx: ContextModel,
    st: StateModel,
    node: SyntaxNode,
    current: BlockId,
)
    ensures
        ({
            let (s, b) = placed_statement(ctx, st, node, current);
            done(env, root, st, Some(current), s, Some(b))
        }),
{
    lemma_prepared_done(env, root, ctx, st, current);
    let (s, b) = prepared(ctx, st, current);
    let (s1, b1) = placed_statement(ctx, st, node, current);
    lemma_step(env, root, st, Some(current), s, Some(b), s1, Some(b));
}

pub proof fn lemma_condition_done(
    env: EnvModel,
    root: SyntaxNode,
    ctx: ContextModel,
    st: StateModel,
    node: SyntaxNode,
    current: BlockId,
)
    ensures
        ({
            let (s, b) = condition(ctx, st, node, current);
            done(env, root, st, Some(current), s, Some(b))
        }),
{
    lemma_prepared_done(env, root, ctx, st, current);
    let (s, b) = prepared(ctx, st, current);
    let (s1, b1) = condition(ctx, st, node, current);
    lemma_step(env, root, st, Some(current), s, Some(b), s1, Some(b));
}

pub proof fn lemma_labelled_done(
    env: EnvModel,
    root: SyntaxNode,
    ctx: ContextModel,
    st: StateModel,
    node: SyntaxNode,
    current: BlockId,
)
    ensures
        ({
            let (s, b) = labelled(env, ctx, st, node, current);
            done(env, root, st, Some(current), s, Some(b))
        }),
{
    lemma_same(env, root, st, Some(current));
    let (s, b) = labelled(env, ctx, st, node, current);
    let s0 = if st.graph.has_executable(current) {
        st.block(BasicBlockKind::Normal).edge(current, st.next(), EdgeKind::Normal)
    } else {
        st
    };
    let s1 = StateModel { targets: s.targets, ..s0 };
    assert(extends(s0, s1));
    lemma_step(env, root, st, Some(current), st, Some(current), s, Some(b));
}

pub proof fn lemma_raise_statement_done(
    env: EnvModel,
    root: SyntaxNode,
    ctx: ContextModel,
    st: StateModel,
    node: SyntaxNode,
    current: BlockId,
)
    ensures
        ({
            let (s, f) = raise_statement(env, ctx, st, node, current);
            done(env, root, st, Some(current), s, f.normal)
        }),
{
    lemma_placed_statement_done(env, root, ctx, st, node, current);
    let (s, b) = placed_statement(ctx, st, node, current);
    let (s1, f) = raise_statement(env, ctx, st, node, current);
    lemma_step(env, root, st, Some(current), s, Some(b), s1, None);
}

pub proof fn lemma_goto_statement_done(
    env: EnvModel,
    root: SyntaxNode,
    ctx: ContextModel,
    st: StateModel,
    node: SyntaxNode,
    current: BlockId,
)
    ensures
        ({
            let (s, f) = goto_statement(env, ctx, st, node, current);
            done(env, root, st, Some(current), s, f.normal)
        }),
{
    lemma_placed_statement_done(env, root, ctx, st, node, current);
    let (s, b) = placed_statement(ctx, st, node, current);
    let (s1, f) = goto_statement(env, ctx, st, node, current);
    lemma_step(env, root, st, Some(current), s, Some(b), s1, None);
}

pub proof fn lemma_edges_to_quiet(
    st: StateModel,
    ends: Seq<BlockId>,
    i: int,
    target: BlockId,
)
    ensures
        quiet(st, edges_to(st, ends, i, target, EdgeKind::Normal)),
    decreases ends.len() - i,
{
    reveal(quiet);
    if 0 <= i < ends.len() {
        let s = st.edge(ends[i], target, EdgeKind::Normal);
        lemma_edges_to_quiet(s, ends, i + 1, target);
        lemma_quiet_on(st, s, edges_to(st, ends, i, target, EdgeKind::Normal));
    }
}

pub proof fn lemma_settled_quiet(
    st: StateModel,
    transfers: Seq<TransferModel>,
    i: int,
    after: BlockId,
    again: BlockId,
    acc: Seq<TransferModel>,
)
    ensures
        quiet(st, settled(st, transfers, i, after, again, acc).0),
    decreases transfers.len() - i,
{
    reveal(quiet);
    if 0 <= i < transfers.len() {
        let t = transfers[i];
        let last = settled(st, transfers, i, after, again, acc).0;
        if t.kind == TransferKind::Break && t.target == Some(after) {
            let s = st.edge(t.source, after, t.completion());
            lemma_settled_quiet(s, transfers, i + 1, after, again, acc);
            lemma_quiet_on(st, s, last);
        } else if t.kind == TransferKind::Continue && t.target == Some(again) {
            let s = st.edge(t.source, again, t.completion());
            lemma_settled_quiet(s, transfers, i + 1, after, again, acc);
            lemma_quiet_on(st, s, last);
        } else {
            lemma_settled_quiet(st, transfers, i + 1, after, again, acc.push(t));
        }
    }
}

pub proof fn lemma_entered_quiet(
    st: StateModel,
    entries: Seq<(BlockId, EdgeKind)>,
    i: int,
    target: BlockId,
)
    requires
        calm(entries),
    ensures
        quiet(st, entered(st, entries, i, target)),
    decreases entries.len() - i,
{
    reveal(quiet);
    if 0 <= i < entries.len() {
        assert(!structural(entries[i].1));
        let s = st.edge(entries[i].0, target, entries[i].1);
        lemma_entered_quiet(s, entries, i + 1, target);
        lemma_quiet_on(st, s, entered(st, entries, i, target));
    }
}

pub proof fn lemma_dispatch_quiet(
    x: IndexModel,
    st: StateModel,
    t: TransferModel,
    handlers: Seq<HandlerModel>,
    h: int,
)
    ensures
        quiet(st, dispatch(x, st, t, handlers, h).0),
    decreases handlers.len() - h,
{
    reveal(quiet);
    if 0 <= h < handlers.len() {
        let caught = st.edge(t.source, handlers[h].entry, EdgeKind::ExceptionThrow);
        let last = dispatch(x, st, t, handlers, h).0;
        lemma_dispatch_quiet(x, st, t, handlers, h + 1);
        lemma_dispatch_quiet(x, caught, t, handlers, h + 1);
        let behind = dispatch(x, caught, t, handlers, h + 1).0;
        lemma_quiet_on(st, caught, behind);
    }
}

pub proof fn lemma_dispatch_all_quiet(
    x: IndexModel,
    st: StateModel,
    exceptions: Seq<TransferModel>,
    handlers: Seq<HandlerModel>,
    i: int,
    acc: Seq<TransferModel>,
)
    ensures
        quiet(st, dispatch_all(x, st, exceptions, handlers, i, acc).0),
    decreases exceptions.len() - i,
{
    reveal(quiet);
    if 0 <= i < exceptions.len() {
        let (s, escapes) = dispatch(x, st, exceptions[i], handlers, 0);
        lemma_dispatch_quiet(x, st, exceptions[i], handlers, 0);
        let acc1 = if escapes {
            acc.push(exceptions[i])
        } else {
            acc
        };
        lemma_dispatch_all_quiet(x, s, exceptions, handlers, i + 1, acc1);
        lemma_quiet_on(st, s, dispatch_all(x, st, exceptions, handlers, i, acc).0);
    }
}

pub proof fn lemma_groups_calm(
    normal: Option<BlockId>,
    transfers: Seq<TransferModel>,
    scope: usize,
    n: int,
)
    ensures
        forall|g: int|
            0 <= g < groups_of(normal, transfers, scope, n).len() ==> calm(
                (#[trigger] groups_of(normal, transfers, scope, n)[g]).entries,
            ),
    decreases n,
{
    let groups = groups_of(normal, transfers, scope, n);
    if 0 < n <= transfers.len() {
        lemma_groups_calm(normal, transfers, scope, n - 1);
        let before = groups_of(normal, transfers, scope, n - 1);
        let t = transfers[n - 1];
        lemma_group_with(before, Some(t.key()), 0);
        assert forall|g: int| 0 <= g < groups.len() implies calm((#[trigger] groups[g]).entries) by {
            if g < before.len() {
                assert(calm(before[g].entries));
            }
            let entries = groups[g].entries;
            assert forall|k: int| 0 <= k < entries.len() implies !structural(
                (#[trigger] entries[k]).1,
            ) by {
                if g < before.len() && k < before[g].entries.len() {
                    assert(entries[k] == before[g].entries[k]);
                }
            }
        }
    }
}

pub proof fn lemma_walk_done(
    env: EnvModel,
    root: SyntaxNode,
    ctx: ContextModel,
    st: StateModel,
    node: SyntaxNode,
    sel: Selection,
    i: int,
    current: Option<BlockId>,
    acc: Seq<TransferModel>,
)
    requires
        occurs(root, node),
    ensures
        ({
            let (s, f) = walk(env, ctx, st, node, sel, i, current, acc);
            done(env, root, st, current, s, f.normal)
        }),
    decreases node, 1int, node.children@.len() - i,
{
    lemma_same(env, root, st, current);
    if 0 <= i < node.children@.len() {
        if !selected(sel, node, i) {
            lemma_walk_done(env, root, ctx, st, node, sel, i + 1, current, acc);
        } else {
            let child = node.children@[i];
            lemma_occurs_child(root, node, i);
            let (s, f) = sequence_child(env, ctx, st, child, current);
            lemma_sequence_child_done(env, root, ctx, st, child, current);
            let acc1 = acc + f.transfers;
            lemma_walk_done(env, root, ctx, s, node, sel, i + 1, f.normal, acc1);
            let (s1, f1) = walk(env, ctx, s, node, sel, i + 1, f.normal, acc1);
            lemma_join(env, root, st, current, s, f.normal, f.normal, s1, f1.normal);
        }
    }
}

pub proof fn lemma_sequence_child_done(
    env: EnvModel,
    root: SyntaxNode,
    ctx: ContextModel,
    st: StateModel,
    node: SyntaxNode,
    current: Option<BlockId>,
)
    requires
        occurs(root, node),
    ensures
        ({
            let (s, f) = sequence_child(env, ctx, st, node, current);
            done(env, root, st, current, s, f.normal)
        }),
    decreases node, 9int, 0int,
{
    lemma_same(env, root, st, current);
    if !node.extra {
        let (s, b) = match current {
            Some(block) => (st, block),
            None => (st.block(BasicBlockKind::Normal), st.next()),
        };
        lemma_step(env, root, st, current, st, current, s, Some(b));
        let (s1, f1) = sequence_child(env, ctx, st, node, current);
        if node.kind@ == "label"@ {
            lemma_labelled_done(env, root, ctx, s, node, b);
        } else {
            lemma_single_done(env, root, ctx, s, node, b);
        }
        lemma_join(env, root, st, current, s, Some(b), Some(b), s1, f1.normal);
    }
}

pub proof fn lemma_single_done(
    env: EnvModel,
    root: SyntaxNode,
    ctx: ContextModel,
    st: StateModel,
    node: SyntaxNode,
    current: BlockId,
)
    requires
        occurs(root, node),
    ensures
        ({
            let (s, f) = single(env, ctx, st, node, current);
            done(env, root, st, Some(current), s, f.normal)
        }),
    decreases node, 8int, 0int,
{
    let kind = node.kind@;
    let begin = Some(current);
    let none = Seq::<TransferModel>::empty();
    lemma_same(env, root, st, begin);
    if node.extra {
    } else if kind == "ppBlock"@ {
        lemma_conditional_block_done(env, root, ctx, st, node, current);
    } else if kind == "labeledStatement"@ || kind == "labeledStatementTr"@ {
        lemma_labelled_statement_done(env, root, ctx, st, node, 0, begin, none);
    } else if kind == "block"@ {
        lemma_walk_done(env, root, ctx, st, node, Selection::Block, 0, begin, none);
    } else if kind == "statements"@ {
        lemma_walk_done(env, root, ctx, st, node, Selection::Statements, 0, begin, none);
    } else if kind == "ifElse"@ {
        lemma_if_else_done(env, root, ctx, st, node, current);
    } else if kind == "if"@ {
        lemma_if_only_done(env, root, ctx, st, node, current);
    } else if kind == "for"@ || kind == "foreach"@ || kind == "while"@ {
        lemma_counted_loop_done(env, root, ctx, st, node, current);
    } else if kind == "case"@ {
        lemma_case_statement_done(env, root, ctx, st, node, current);
    } else if kind == "repeat"@ {
        lemma_repeat_loop_done(env, root, ctx, st, node, current);
    } else if kind == "try"@ {
        if finalized(node) {
            lemma_try_finally_done(env, root, ctx, st, node, current);
        } else if node.find(field_kind("except"@, "kExcept"@)) is Some {
            lemma_try_except_done(env, root, ctx, st, node, current);
        }
    } else if kind == "with"@ {
        lemma_with_statement_done(env, root, ctx, st, node, current);
    } else if kind == "raise"@ {
        lemma_raise_statement_done(env, root, ctx, st, node, current);
    } else if kind == "goto"@ {
        lemma_goto_statement_done(env, root, ctx, st, node, current);
    } else {
        lemma_placed_statement_done(env, root, ctx, st, node, current);
        let (s, b) = placed_statement(ctx, st, node, current);
        lemma_step(env, root, st, begin, s, Some(b), s, None);
    }
}

pub proof fn lemma_if_else_done(
    env: EnvModel,
    root: SyntaxNode,
    ctx: ContextModel,
    st: StateModel,
    node: SyntaxNode,
    current: BlockId,
)
    requires
        occurs(root, node),
    ensures
        ({
            let (s, f) = if_else(env, ctx, st, node, current);
            done(env, root, st, Some(current), s, f.normal)
        }),
    decreases node, 7int, 0int,
{
    let begin = Some(current);
    let none = Seq::<TransferModel>::empty();
    lemma_condition_done(env, root, ctx, st, node, current);
    let (s1, c) = condition(ctx, st, node, current);
    let t = s1.next();
    let s2 = s1.block(BasicBlockKind::Normal);
    let e = s2.next();
    let s3 = s2.block(BasicBlockKind::Normal).edge(c, t, EdgeKind::ConditionalTrue).edge(
        c,
        e,
        EdgeKind::ConditionalFalse,
    );
    lemma_step(env, root, st, begin, s1, Some(c), s3, None);
    lemma_walk_done(env, root, ctx, s3, node, Selection::Then, 0, Some(t), none);
    let (s4, f1) = walk(env, ctx, s3, node, Selection::Then, 0, Some(t), none);
    lemma_sizes(st, s1);
    lemma_sizes(s3, s4);
    lemma_join(env, root, st, begin, s3, None, Some(t), s4, f1.normal);
    lemma_walk_done(env, root, ctx, s4, node, Selection::Else, 0, Some(e), none);
    let (s5, f2) = walk(env, ctx, s4, node, Selection::Else, 0, Some(e), none);
    lemma_sizes(s4, s5);
    lemma_join(env, root, st, begin, s4, f1.normal, Some(e), s5, f2.normal);
    let (s6, normal) = met(s5, f1.normal, f2.normal);
    lemma_sizes(st, s5);
    lemma_step(env, root, st, begin, s5, f2.normal, s6, normal);
}

pub proof fn lemma_if_only_done(
    env: EnvModel,
    root: SyntaxNode,
    ctx: ContextModel,
    st: StateModel,
    node: SyntaxNode,
    current: BlockId,
)
    requires
        occurs(root, node),
    ensures
        ({
            let (s, f) = if_only(env, ctx, st, node, current);
            done(env, root, st, Some(current), s, f.normal)
        }),
    decreases node, 7int, 0int,
{
    let begin = Some(current);
    let none = Seq::<TransferModel>::empty();
    lemma_condition_done(env, root, ctx, st, node, current);
    let (s1, c) = condition(ctx, st, node, current);
    let t = s1.next();
    let s2 = s1.block(BasicBlockKind::Normal);
    let j = s2.next();
    let s3 = s2.block(BasicBlockKind::Normal).edge(c, t, EdgeKind::ConditionalTrue).edge(
        c,
        j,
        EdgeKind::ConditionalFalse,
    );
    lemma_sizes(st, s1);
    lemma_step(env, root, st, begin, s1, Some(c), s3, None);
    lemma_walk_done(env, root, ctx, s3, node, Selection::Then, 0, Some(t), none);
    let (s4, f) = walk(env, ctx, s3, node, Selection::Then, 0, Some(t), none);
    lemma_sizes(s3, s4);
    lemma_join(env, root, st, begin, s3, None, Some(t), s4, f.normal);
    let s5 = match f.normal {
        Some(end) => s4.edge(end, j, EdgeKind::Normal),
        None => s4,
    };
    lemma_step(env, root, st, begin, s4, f.normal, s5, Some(j));
}

pub proof fn lemma_counted_loop_done(
    env: EnvModel,
    root: SyntaxNode,
    ctx: ContextModel,
    st: StateModel,
    node: SyntaxNode,
    current: BlockId,
)
    requires
        occurs(root, node),
    ensures
        ({
            let (s, f) = counted_loop(env, ctx, st, node, current);
            done(env, root, st, Some(current), s, f.normal)
        }),
    decreases node, 7int, 0int,
{
    let begin = Some(current);
    let none = Seq::<TransferModel>::empty();
    let c = st.next();
    let s1 = st.block(BasicBlockKind::Normal);
    let b = s1.next();
    let s2 = s1.block(BasicBlockKind::Normal);
    let a = s2.next();
    let s0 = s2.block(BasicBlockKind::Normal).edge(current, c, EdgeKind::Normal);
    let h = loop_header(s0, c, node);
    let s3 = h.edge(c, b, EdgeKind::ConditionalTrue).edge(c, a, EdgeKind::LoopExit);
    lemma_same(env, root, st, begin);
    lemma_step(env, root, st, begin, st, begin, s0, None);
    lemma_step(env, root, st, begin, s0, None, s3, None);
    let inner = ctx.in_loop(c, a);
    lemma_walk_done(env, root, inner, s3, node, Selection::Body, 0, Some(b), none);
    let (s4, f) = walk(env, inner, s3, node, Selection::Body, 0, Some(b), none);
    lemma_sizes(st, s3);
    lemma_sizes(s3, s4);
    lemma_join(env, root, st, begin, s3, None, Some(b), s4, f.normal);
    let s5 = match f.normal {
        Some(end) => s4.edge(end, c, EdgeKind::LoopBack),
        None => s4,
    };
    lemma_step(env, root, st, begin, s4, f.normal, s5, Some(a));
    let s6 = settled(s5, f.transfers, 0, a, c, implicit(ctx, c)).0;
    lemma_settled_quiet(s5, f.transfers, 0, a, c, implicit(ctx, c));
    lemma_quiet_step(env, root, st, begin, s5, Some(a), s6);
}

pub proof fn lemma_repeat_loop_done(
    env: EnvModel,
    root: SyntaxNode,
    ctx: ContextModel,
    st: StateModel,
    node: SyntaxNode,
    current: BlockId,
)
    requires
        occurs(root, node),
    ensures
        ({
            let (s, f) = repeat_loop(env, ctx, st, node, current);
            done(env, root, st, Some(current), s, f.normal)
        }),
    decreases node, 7int, 0int,
{
    let begin = Some(current);
    let none = Seq::<TransferModel>::empty();
    let b = st.next();
    let s1 = st.block(BasicBlockKind::Normal);
    let c = s1.next();
    let s2 = s1.block(BasicBlockKind::Normal);
    let a = s2.next();
    let s3 = s2.block(BasicBlockKind::Normal).edge(current, b, EdgeKind::Normal);
    lemma_same(env, root, st, begin);
    lemma_step(env, root, st, begin, st, begin, s3, None);
    let inner = ctx.in_loop(c, a);
    lemma_walk_done(env, root, inner, s3, node, Selection::Body, 0, Some(b), none);
    let (s4, f) = walk(env, inner, s3, node, Selection::Body, 0, Some(b), none);
    lemma_sizes(st, s3);
    lemma_sizes(s3, s4);
    lemma_join(env, root, st, begin, s3, None, Some(b), s4, f.normal);
    let s5 = match f.normal {
        Some(end) => s4.edge(end, c, EdgeKind::Normal),
        None => s4,
    };
    lemma_step(env, root, st, begin, s4, f.normal, s5, Some(a));
    let s6 = settled(s5, f.transfers, 0, a, c, implicit(ctx, c)).0;
    lemma_settled_quiet(s5, f.transfers, 0, a, c, implicit(ctx, c));
    lemma_quiet_step(env, root, st, begin, s5, Some(a), s6);
    let h = repeat_header(s6, c, node);
    let s7 = h.edge(c, b, EdgeKind::LoopBack).edge(c, a, EdgeKind::LoopExit);
    lemma_sizes(s5, s6);
    lemma_step(env, root, st, begin, s6, Some(a), s7, Some(a));
}

pub proof fn lemma_case_arms_done(
    env: EnvModel,
    root: SyntaxNode,
    ctx: ContextModel,
    st: StateModel,
    node: SyntaxNode,
    selector: BlockId,
    i: int,
    ends: Seq<BlockId>,
    acc: Seq<TransferModel>,
)
    requires
        occurs(root, node),
    ensures
        ({
            let s = case_arms(env, ctx, st, node, selector, i, ends, acc).0;
            done(env, root, st, Some(selector), s, None)
        }),
    decreases node, 3int, node.children@.len() - i,
{
    let begin = Some(selector);
    lemma_same(env, root, st, begin);
    lemma_step(env, root, st, begin, st, begin, st, None);
    if 0 <= i < node.children@.len() {
        let child = node.children@[i];
        if !hit(named_kind("caseCase"@), child) {
            lemma_case_arms_done(env, root, ctx, st, node, selector, i + 1, ends, acc);
        } else {
            let arm = st.next();
            let none = Seq::<TransferModel>::empty();
            let s0 = st.block(BasicBlockKind::Normal).edge(selector, arm, EdgeKind::CaseArm);
            lemma_occurs_child(root, node, i);
            lemma_step(env, root, st, begin, st, None, s0, None);
            lemma_walk_done(env, root, ctx, s0, child, Selection::Body, 0, Some(arm), none);
            let (s, f) = walk(env, ctx, s0, child, Selection::Body, 0, Some(arm), none);
            lemma_sizes(s0, s);
            lemma_join(env, root, st, begin, s0, None, Some(arm), s, f.normal);
            let ends1 = match f.normal {
                Some(end) => ends.push(end),
                None => ends,
            };
            let acc1 = acc + f.transfers;
            lemma_case_arms_done(env, root, ctx, s, node, selector, i + 1, ends1, acc1);
            let last = case_arms(env, ctx, s, node, selector, i + 1, ends1, acc1).0;
            lemma_join(env, root, st, begin, s, f.normal, begin, last, None);
        }
    }
}

pub proof fn lemma_case_statement_done(
    env: EnvModel,
    root: SyntaxNode,
    ctx: ContextModel,
    st: StateModel,
    node: SyntaxNode,
    current: BlockId,
)
    requires
        occurs(root, node),
    ensures
        ({
            let (s, f) = case_statement(env, ctx, st, node, current);
            done(env, root, st, Some(current), s, f.normal)
        }),
    decreases node, 7int, 0int,
{
    let begin = Some(current);
    let none = Seq::<TransferModel>::empty();
    lemma_prepared_done(env, root, ctx, st, current);
    let (s0, b) = prepared(ctx, st, current);
    let s1 = match case_selector(node, 0) {
        Some(k) => s0.stmt(b, node.start, node.children@[k].end, node.kind@),
        None => s0,
    };
    lemma_step(env, root, st, begin, s0, Some(b), s1, Some(b));
    let blank = Seq::<BlockId>::empty();
    let first = implicit(ctx, b);
    lemma_case_arms_done(env, root, ctx, s1, node, b, 0, blank, first);
    let (s2, ends, transfers) = case_arms(env, ctx, s1, node, b, 0, blank, first);
    lemma_sizes(s1, s2);
    lemma_sizes(st, s1);
    lemma_join(env, root, st, begin, s1, Some(b), Some(b), s2, None);
    if default_before(node, node.children@.len() as int) {
        let d = s2.next();
        let s20 = s2.block(BasicBlockKind::Normal).edge(b, d, EdgeKind::CaseArm);
        lemma_step(env, root, st, begin, s2, None, s20, None);
        lemma_walk_done(env, root, ctx, s20, node, Selection::CaseDefault, 0, Some(d), none);
        let (s3, f) = walk(env, ctx, s20, node, Selection::CaseDefault, 0, Some(d), none);
        lemma_sizes(s20, s3);
        lemma_join(env, root, st, begin, s20, None, Some(d), s3, f.normal);
        let all = match f.normal {
            Some(end) => ends.push(end),
            None => ends,
        };
        lemma_step(env, root, st, begin, s3, f.normal, s3, None);
        let j = s3.next();
        let s4 = s3.block(BasicBlockKind::Normal);
        lemma_step(env, root, st, begin, s3, None, s4, Some(j));
        let s5 = edges_to(s4, all, 0, j, EdgeKind::Normal);
        lemma_edges_to_quiet(s4, all, 0, j);
        lemma_quiet_step(env, root, st, begin, s4, Some(j), s5);
    } else {
        let j = s2.next();
        let s4 = s2.block(BasicBlockKind::Normal);
        lemma_step(env, root, st, begin, s2, None, s4, Some(j));
        let s5 = edges_to(s4, ends, 0, j, EdgeKind::Normal);
        lemma_edges_to_quiet(s4, ends, 0, j);
        lemma_quiet_step(env, root, st, begin, s4, Some(j), s5);
        lemma_sizes(s4, s5);
        let s6 = s5.edge(b, j, EdgeKind::CaseArm);
        lemma_step(env, root, st, begin, s5, Some(j), s6, Some(j));
    }
}

pub proof fn lemma_with_statement_done(
    env: EnvModel,
    root: SyntaxNode,
    ctx: ContextModel,
    st: StateModel,
    node: SyntaxNode,
    current: BlockId,
)
    requires
        occurs(root, node),
    ensures
        ({
            let (s, f) = with_statement(env, ctx, st, node, current);
            done(env, root, st, Some(current), s, f.normal)
        }),
    decreases node, 7int, 0int,
{
    let begin = Some(current);
    let none = Seq::<TransferModel>::empty();
    lemma_prepared_done(env, root, ctx, st, current);
    let (s0, c) = prepared(ctx, st, current);
    let s1 = match last_under(node, "entity"@, node.children@.len() as int) {
        Some(k) => s0.stmt(c, node.start, node.children@[k].end, node.kind@),
        None => s0,
    };
    lemma_step(env, root, st, begin, s0, Some(c), s1, Some(c));
    let b = s1.next();
    let s2 = s1.block(BasicBlockKind::Normal).edge(c, b, EdgeKind::Normal);
    lemma_step(env, root, st, begin, s1, Some(c), s2, None);
    lemma_walk_done(env, root, ctx, s2, node, Selection::Body, 0, Some(b), none);
    let (s3, f) = walk(env, ctx, s2, node, Selection::Body, 0, Some(b), none);
    lemma_sizes(st, s1);
    lemma_sizes(s2, s3);
    lemma_join(env, root, st, begin, s2, None, Some(b), s3, f.normal);
    let (s4, normal) = met(s3, f.normal, None);
    lemma_step(env, root, st, begin, s3, f.normal, s4, normal);
}

pub proof fn lemma_labelled_statement_done(
    env: EnvModel,
    root: SyntaxNode,
    ctx: ContextModel,
    st: StateModel,
    node: SyntaxNode,
    i: int,
    current: Option<BlockId>,
    acc: Seq<TransferModel>,
)
    requires
        occurs(root, node),
    ensures
        ({
            let (s, f) = labelled_statement(env, ctx, st, node, i, current, acc);
            done(env, root, st, current, s, f.normal)
        }),
    decreases node, 3int, node.children@.len() - i,
{
    lemma_same(env, root, st, current);
    if 0 <= i < node.children@.len() {
        let child = node.children@[i];
        lemma_occurs_child(root, node, i);
        let (s1, f1) = labelled_statement(env, ctx, st, node, i, current, acc);
        match current {
            Some(b) => if !child.named {
                lemma_labelled_statement_done(env, root, ctx, st, node, i + 1, current, acc);
            } else if child.kind@ == "label"@ {
                let (s, target) = labelled(env, ctx, st, child, b);
                let next = Some(target);
                lemma_labelled_done(env, root, ctx, st, child, b);
                lemma_labelled_statement_done(env, root, ctx, s, node, i + 1, next, acc);
                lemma_join(env, root, st, current, s, next, next, s1, f1.normal);
            } else {
                let (s, f) = single(env, ctx, st, child, b);
                let acc1 = acc + f.transfers;
                lemma_single_done(env, root, ctx, st, child, b);
                lemma_labelled_statement_done(env, root, ctx, s, node, i + 1, f.normal, acc1);
                lemma_join(env, root, st, current, s, f.normal, f.normal, s1, f1.normal);
            },
            None => {
                lemma_labelled_statement_done(env, root, ctx, st, node, i + 1, current, acc);
            },
        }
    }
}

pub proof fn lemma_conditional_branches_done(
    env: EnvModel,
    root: SyntaxNode,
    ctx: ContextModel,
    st: StateModel,
    node: SyntaxNode,
    current: BlockId,
    b: int,
    ends: Seq<BlockId>,
    acc: Seq<TransferModel>,
)
    requires
        occurs(root, node),
    ensures
        ({
            let s = conditional_branches(env, ctx, st, node, current, b, ends, acc).0;
            done(env, root, st, Some(current), s, None)
        }),
    decreases node, 3int, last_branch(node) + 1 - b,
{
    let begin = Some(current);
    lemma_same(env, root, st, begin);
    lemma_step(env, root, st, begin, st, begin, st, None);
    if 0 <= b <= last_branch(node) {
        let entry = st.next();
        let count = env.branches.len() as int;
        let binding = match branch_binding(env.branches, node.start, node.end, b as usize, count) {
            Some(own) => own,
            None => ctx.binding,
        };
        let kind = if b == 0 {
            EdgeKind::ConditionalTrue
        } else {
            EdgeKind::ConditionalFalse
        };
        let s0 = st.block(BasicBlockKind::Normal).edge(current, entry, kind);
        let inner = ctx.in_branch(binding);
        let sel = Selection::Branch(b as usize);
        let none = Seq::<TransferModel>::empty();
        lemma_step(env, root, st, begin, st, None, s0, None);
        lemma_walk_done(env, root, inner, s0, node, sel, 0, Some(entry), none);
        let (s, f) = walk(env, inner, s0, node, sel, 0, Some(entry), none);
        lemma_sizes(s0, s);
        lemma_join(env, root, st, begin, s0, None, Some(entry), s, f.normal);
        let ends1 = match f.normal {
            Some(end) => ends.push(end),
            None => ends,
        };
        let acc1 = acc + f.transfers;
        lemma_conditional_branches_done(env, root, ctx, s, node, current, b + 1, ends1, acc1);
        let last = conditional_branches(env, ctx, s, node, current, b + 1, ends1, acc1).0;
        lemma_join(env, root, st, begin, s, f.normal, begin, last, None);
    }
}

pub proof fn lemma_conditional_block_done(
    env: EnvModel,
    root: SyntaxNode,
    ctx: ContextModel,
    st: StateModel,
    node: SyntaxNode,
    current: BlockId,
)
    requires
        occurs(root, node),
    ensures
        ({
            let (s, f) = conditional_block(env, ctx, st, node, current);
            done(env, root, st, Some(current), s, f.normal)
        }),
    decreases node, 7int, 0int,
{
    let begin = Some(current);
    lemma_same(env, root, st, begin);
    if !hollow(node, env.source) {
        let none = Seq::<TransferModel>::empty();
        let blank = Seq::<BlockId>::empty();
        lemma_conditional_branches_done(env, root, ctx, st, node, current, 0, blank, none);
        let (s, ends, transfers) = conditional_branches(
            env,
            ctx,
            st,
            node,
            current,
            0,
            blank,
            none,
        );
        let j = s.next();
        let s1 = s.block(BasicBlockKind::Normal);
        lemma_sizes(st, s);
        lemma_step(env, root, st, begin, s, None, s1, Some(j));
        let s2 = edges_to(s1, ends, 0, j, EdgeKind::Normal);
        lemma_edges_to_quiet(s1, ends, 0, j);
        lemma_quiet_step(env, root, st, begin, s1, Some(j), s2);
        lemma_sizes(s1, s2);
        let s3 = s2.edge(current, j, EdgeKind::ConditionalFalse);
        lemma_step(env, root, st, begin, s2, Some(j), s3, Some(j));
    }
}

pub proof fn lemma_try_body_done(
    env: EnvModel,
    root: SyntaxNode,
    ctx: ContextModel,
    st: StateModel,
    node: SyntaxNode,
    current: BlockId,
)
    requires
        occurs(root, node),
    ensures
        ({
            let (s, f) = try_body(env, ctx, st, node, current);
            done(env, root, st, Some(current), s, f.normal)
        }),
    decreases node, 2int, 0int,
{
    let begin = Some(current);
    lemma_same(env, root, st, begin);
    if let Some(k) = node.find(field_kind("try"@, "statements"@)) {
        let entry = st.next();
        let none = Seq::<TransferModel>::empty();
        let child = node.children@[k];
        let all = Selection::Statements;
        let s0 = st.block(BasicBlockKind::Normal).edge(current, entry, EdgeKind::Normal);
        lemma_occurs_child(root, node, k);
        lemma_step(env, root, st, begin, st, begin, s0, None);
        lemma_walk_done(env, root, ctx, s0, child, all, 0, Some(entry), none);
        let (s, f) = walk(env, ctx, s0, child, all, 0, Some(entry), none);
        lemma_sizes(s0, s);
        lemma_join(env, root, st, begin, s0, None, Some(entry), s, f.normal);
    }
}

pub proof fn lemma_finally_body_done(
    env: EnvModel,
    root: SyntaxNode,
    ctx: ContextModel,
    st: StateModel,
    node: SyntaxNode,
    scope: usize,
    key: Option<KeyModel>,
)
    requires
        occurs(root, node),
        finalized(node),
    ensures
        ({
            let (s, entry, f) = finally_body(env, ctx, st, node, scope, key);
            &&& done(env, root, st, None, s, None)
            &&& cache_made(env, root, st) ==> s.cache.len() > 0 && exists|k: int|
                0 <= k < s.cache.len() && (#[trigger] s.cache[k]) == (CachedModel {
                    key: body_key(ctx, node, scope, key),
                    entry,
                    flow: f,
                })
        }),
    decreases node, 3int, 0int,
{
    let what = body_key(ctx, node, scope, key);
    let r = body_return(ctx, node, scope, key);
    let (s1, number) = match return_number(st.resumptions, r, 0) {
        Some(k) => (st, k as usize),
        None => (
            StateModel { resumptions: st.resumptions.push(r), ..st },
            st.resumptions.len() as usize,
        ),
    };
    lemma_same(env, root, st, None);
    assert(extends(st, s1));
    lemma_step(env, root, st, None, st, None, s1, None);
    lemma_cached_key(s1.cache, what, 0);
    match cached(s1.cache, what, 0) {
        Some(k) => {
            assert(s1.cache[k] == (CachedModel {
                key: what,
                entry: s1.cache[k].entry,
                flow: s1.cache[k].flow,
            }));
        },
        None => {
            let entry = s1.next();
            let s2 = s1.block(BasicBlockKind::FinallyHandler);
            let binding = s2.parents.len() as usize;
            let s3 = StateModel { parents: s2.parents.push(Some(ctx.binding)), ..s2 };
            let inner = ctx.in_finalizer(binding, number, waiting(ctx, key));
            assert(extends(s2, s3));
            lemma_step(env, root, st, None, s1, None, s3, None);
            let (s4, f) = match node.find(field_kind("finally"@, "statements"@)) {
                Some(k) => walk(
                    env,
                    inner,
                    s3,
                    node.children@[k],
                    Selection::Statements,
                    0,
                    Some(entry),
                    Seq::empty(),
                ),
                None => (s3, ending(entry)),
            };
            lemma_finalizer_run(env, inner, s3, node, entry);
            if let Some(k) = node.find(field_kind("finally"@, "statements"@)) {
                let none = Seq::<TransferModel>::empty();
                let child = node.children@[k];
                let all = Selection::Statements;
                lemma_occurs_child(root, node, k);
                lemma_walk_done(env, root, inner, s3, child, all, 0, Some(entry), none);
                lemma_sizes(st, s1);
                lemma_sizes(s3, s4);
                lemma_join(env, root, st, None, s3, None, Some(entry), s4, f.normal);
            }
            lemma_step(env, root, st, None, s4, f.normal, s4, None);
            let new = CachedModel { key: what, entry, flow: f };
            let s5 = StateModel { cache: s4.cache.push(new), ..s4 };
            assert(finalizer_run(env, inner, s3, node, entry) == (s4, f));
            assert(extends(s4, s5));
            assert(made_in(env, node, new, s5)) by {
                assert(runs_as(env, inner, s3, node, new));
            }
            lemma_cache_push(env, root, s4, s5, new, node);
            assert(size(s5) <= usize::MAX ==> local(st, None, s5)) by {
                reveal(local);
            }
            assert(s5.cache[s4.cache.len() as int] == new);
        },
    }
}

pub proof fn lemma_finalize_done(
    env: EnvModel,
    root: SyntaxNode,
    ctx: ContextModel,
    st: StateModel,
    node: SyntaxNode,
    scope: usize,
    groups: Seq<GroupModel>,
    i: int,
    normal: Option<BlockId>,
    acc: Seq<TransferModel>,
)
    requires
        occurs(root, node),
        finalized(node),
        forall|g: int|
            0 <= g < groups.len() ==> calm((#[trigger] groups[g]).entries),
    ensures
        ({
            let (s, f) = finalize(env, ctx, st, node, scope, groups, i, normal, acc);
            done(env, root, st, normal, s, f.normal)
        }),
    decreases node, 4int, groups.len() - i,
{
    lemma_same(env, root, st, normal);
    if 0 <= i < groups.len() {
        let g = groups[i];
        let (s1, entry, f) = finally_body(env, ctx, st, node, scope, g.key);
        lemma_finally_body_done(env, root, ctx, st, node, scope, g.key);
        lemma_join(env, root, st, normal, st, normal, None, s1, None);
        let s2 = entered(s1, g.entries, 0, entry);
        lemma_entered_quiet(s1, g.entries, 0, entry);
        lemma_quiet_step(env, root, st, normal, s1, None, s2);
        let (s3, n3, a3) = group_done(env, ctx, st, node, scope, g, normal, acc);
        lemma_sizes(st, s2);
        lemma_step(env, root, st, normal, s2, None, s3, n3);
        lemma_finalize_done(env, root, ctx, s3, node, scope, groups, i + 1, n3, a3);
        let (s4, f4) = finalize(env, ctx, s3, node, scope, groups, i + 1, n3, a3);
        lemma_sizes(s3, s4);
        lemma_join(env, root, st, normal, s3, n3, n3, s4, f4.normal);
    }
}

pub proof fn lemma_try_finally_done(
    env: EnvModel,
    root: SyntaxNode,
    ctx: ContextModel,
    st: StateModel,
    node: SyntaxNode,
    current: BlockId,
)
    requires
        occurs(root, node),
        finalized(node),
    ensures
        ({
            let (s, f) = try_finally(env, ctx, st, node, current);
            done(env, root, st, Some(current), s, f.normal)
        }),
    decreases node, 5int, 0int,
{
    let begin = Some(current);
    let scope = scope_number(env.scope_ids, node.start, node.end, env.scope_ids.len() as int);
    let inner = ctx.in_cleanup(scope);
    lemma_try_body_done(env, root, inner, st, node, current);
    let (s, f) = try_body(env, inner, st, node, current);
    let transfers = distinct(f.transfers);
    let count = transfers.len() as int;
    let groups = groups_of(f.normal, transfers, scope, count);
    let rest = staying(transfers, scope, count);
    lemma_groups_calm(f.normal, transfers, scope, count);
    lemma_finalize_done(env, root, ctx, s, node, scope, groups, 0, None, rest);
    let (s1, f1) = finalize(env, ctx, s, node, scope, groups, 0, None, rest);
    lemma_join(env, root, st, begin, s, f.normal, None, s1, f1.normal);
}

pub proof fn lemma_handlers_from_done(
    env: EnvModel,
    root: SyntaxNode,
    ctx: ContextModel,
    st: StateModel,
    node: SyntaxNode,
    incoming: Seq<ExceptionTypeFact>,
    i: int,
    acc: Seq<HandlerModel>,
)
    requires
        occurs(root, node),
    ensures
        done(
            env,
            root,
            st,
            None,
            handlers_from(env, ctx, st, node, incoming, i, acc).0,
            None,
        ),
    decreases node, 3int, node.children@.len() - i,
{
    lemma_same(env, root, st, None);
    if 0 <= i < node.children@.len() {
        let child = node.children@[i];
        let kind = child.kind@;
        let entry = st.next();
        let none = Seq::<TransferModel>::empty();
        let last = handlers_from(env, ctx, st, node, incoming, i, acc).0;
        lemma_occurs_child(root, node, i);
        if !hit(any_field("except"@), child) {
            lemma_handlers_from_done(env, root, ctx, st, node, incoming, i + 1, acc);
        } else if kind == "exceptionHandler"@ {
            let fact = handler_fact_of(env.types, env.unit, child, env.source);
            let inner = ctx.in_handler(context_of(env.types, fact, incoming));
            let s0 = st.block(BasicBlockKind::ExceptHandler);
            let body = Selection::Body;
            lemma_step(env, root, st, None, st, None, s0, None);
            lemma_walk_done(env, root, inner, s0, child, body, 0, Some(entry), none);
            let (s, flow) = walk(env, inner, s0, child, body, 0, Some(entry), none);
            lemma_sizes(s0, s);
            lemma_join(env, root, st, None, s0, None, Some(entry), s, flow.normal);
            let acc1 = acc.push(HandlerModel { entry, catch_all: false, fact, flow });
            lemma_handlers_from_done(env, root, ctx, s, node, incoming, i + 1, acc1);
            lemma_join(env, root, st, None, s, flow.normal, None, last, None);
        } else if kind == "exceptionElse"@ || kind == "statements"@ {
            let inner = ctx.in_handler(ExceptionTypeFact::Unknown);
            let s0 = st.block(BasicBlockKind::BareExceptHandler);
            let sel = if kind == "exceptionElse"@ {
                Selection::ExceptElse
            } else {
                Selection::Statements
            };
            lemma_step(env, root, st, None, st, None, s0, None);
            lemma_walk_done(env, root, inner, s0, child, sel, 0, Some(entry), none);
            let (s, flow) = walk(env, inner, s0, child, sel, 0, Some(entry), none);
            lemma_sizes(s0, s);
            lemma_join(env, root, st, None, s0, None, Some(entry), s, flow.normal);
            let fact = ExceptionTypeFact::Unknown;
            let acc1 = acc.push(HandlerModel { entry, catch_all: true, fact, flow });
            lemma_handlers_from_done(env, root, ctx, s, node, incoming, i + 1, acc1);
            lemma_join(env, root, st, None, s, flow.normal, None, last, None);
        } else {
            lemma_handlers_from_done(env, root, ctx, st, node, incoming, i + 1, acc);
        }
    }
}

pub proof fn lemma_all_handlers_done(
    env: EnvModel,
    root: SyntaxNode,
    ctx: ContextModel,
    st: StateModel,
    node: SyntaxNode,
    incoming: Seq<ExceptionTypeFact>,
)
    requires
        occurs(root, node),
    ensures
        done(
            env,
            root,
            st,
            None,
            all_handlers(env, ctx, st, node, incoming).0,
            None,
        ),
    decreases node, 4int, 0int,
{
    let s = handlers_from(env, ctx, st, node, incoming, 0, Seq::empty()).0;
    lemma_handlers_from_done(env, root, ctx, st, node, incoming, 0, Seq::empty());
    let s1 = s.block(BasicBlockKind::BareExceptHandler);
    lemma_step(env, root, st, None, s, None, s1, None);
}

pub proof fn lemma_try_except_done(
    env: EnvModel,
    root: SyntaxNode,
    ctx: ContextModel,
    st: StateModel,
    node: SyntaxNode,
    current: BlockId,
)
    requires
        occurs(root, node),
    ensures
        ({
            let (s, f) = try_except(env, ctx, st, node, current);
            done(env, root, st, Some(current), s, f.normal)
        }),
    decreases node, 5int, 0int,
{
    let begin = Some(current);
    let inner = ctx.in_dispatch(st.graph.blocks.len() as usize);
    lemma_try_body_done(env, root, inner, st, node, current);
    let (s1, f) = try_body(env, inner, st, node, current);
    let count = f.transfers.len() as int;
    let exceptions = exceptions_of(f.transfers, true, count);
    let others = exceptions_of(f.transfers, false, count);
    let incoming = facts_of(exceptions);
    let (s2, handlers) = all_handlers(env, ctx, s1, node, incoming);
    lemma_all_handlers_done(env, root, ctx, s1, node, incoming);
    lemma_join(env, root, st, begin, s1, f.normal, None, s2, None);
    let s3 = dispatch_all(env.types, s2, exceptions, handlers, 0, others).0;
    lemma_dispatch_all_quiet(env.types, s2, exceptions, handlers, 0, others);
    lemma_quiet_step(env, root, st, begin, s2, None, s3);
    let first = match f.normal {
        Some(end) => seq![end],
        None => Seq::empty(),
    };
    let ends = handler_ends(handlers, first, handlers.len() as int);
    let j = s3.next();
    let s4 = s3.block(BasicBlockKind::Normal);
    lemma_sizes(st, s3);
    lemma_step(env, root, st, begin, s3, None, s4, Some(j));
    let s5 = edges_to(s4, ends, 0, j, EdgeKind::Normal);
    lemma_edges_to_quiet(s4, ends, 0, j);
    lemma_quiet_step(env, root, st, begin, s4, Some(j), s5);
}

} // verus!
