//! Laws of the graphs: the form that every graph has, and what happens at
//! finalizers, handlers and conditional branches.

use vstd::prelude::*;

use crate::exception_types::{ExceptionTypeFact, IndexModel, TypeMatch};
use crate::flow::{distinct, KeyModel, TransferKind, TransferModel};
use crate::graph::{BasicBlockKind, BlockId, CfgModel, Edge, EdgeKind, GraphModel};
use crate::graph_facts::{
    cache_ok, context_ok, edge_ok, ends_ok, extends, flow_ok, inside, opt_inside, size, sound,
    targets_ok, transfer_ok, transfers_ok, well_formed,
};
use crate::labels::{goto_target, has_else, hollow, label_of, last_branch, placed};
use crate::project::{lemma_unit_found, sites_in, unit_index, ProjectModel, UnitInputModel};
use crate::project_index::{
    law_single_unit_knows_its_file, law_unit_order_does_not_matter, law_units_are_ranked, ranked,
};
use crate::scope_graph::{
    all_handlers, body_key, body_return, branch_binding, by_start, cached, case_arms,
    case_selector, case_statement, condition, conditional_block, conditional_branches,
    counted_loop, default_before, dispatch, dispatch_all, edges_to, ending, entered, environment,
    exceptions_of, facts_of, file_graphs, finalize, finally_body, finished, goto_statement,
    group_with, grouped, groups_of, handler_ends, handler_transfers, handlers_from, if_else,
    if_only, implicit, initial, labelled, labelled_statement, last_under, loop_header, met,
    module_graphs, outermost, placed_statement, prepared, project_graphs, raise_statement,
    repeat_header, repeat_loop, return_number, routed, routed_all, routines, routines_among,
    scope_cfg, scope_graph, scope_number, section_graphs, selected, sequence_child, settled, single,
    slot, staying, superseding, tree_graphs, try_body, try_except, try_finally, waiting, walk,
    with_statement, CacheKeyModel, CachedModel, ContextModel, EnvModel, GroupModel, HandlerModel,
    Selection, StateModel,
};
use crate::syntax::{any_field, any_kind, field_kind, hit, named_kind, SyntaxNode};

verus! {

broadcast use {
    crate::graph_facts::group_graph_facts,
    crate::syntax::lemma_find_bounds,
    crate::syntax::lemma_module_bounds,
};

// The form of a graph ----------------------------------------------------------------------------

/// Whether a step of the walk adds blocks only, and keeps a sound state sound:
/// given that what it starts from lies inside the graph, what it gives does too.
pub open spec fn keeps(
    ctx: ContextModel,
    st: StateModel,
    given: bool,
    after: StateModel,
    given_after: bool,
) -> bool {
    &&& size(st) <= size(after)
    &&& extends(st, after)
    &&& size(after) <= usize::MAX && sound(st) && context_ok(ctx, size(st)) && given ==> sound(after)
        && given_after
}

proof fn lemma_prepared(ctx: ContextModel, st: StateModel, current: BlockId)
    ensures
        ({
            let (s, b) = prepared(ctx, st, current);
            keeps(ctx, st, inside(current, size(st)), s, inside(b, size(s)))
        }),
{
}

proof fn lemma_placed(ctx: ContextModel, st: StateModel, node: SyntaxNode, current: BlockId)
    ensures
        ({
            let (s, b) = placed_statement(ctx, st, node, current);
            keeps(ctx, st, inside(current, size(st)), s, inside(b, size(s)))
        }),
{
    lemma_prepared(ctx, st, current);
}

proof fn lemma_condition(ctx: ContextModel, st: StateModel, node: SyntaxNode, current: BlockId)
    ensures
        ({
            let (s, b) = condition(ctx, st, node, current);
            keeps(ctx, st, inside(current, size(st)), s, inside(b, size(s)))
        }),
{
    lemma_prepared(ctx, st, current);
}

pub proof fn lemma_edges_to(
    ctx: ContextModel,
    st: StateModel,
    ends: Seq<BlockId>,
    i: int,
    target: BlockId,
    kind: EdgeKind,
)
    ensures
        size(edges_to(st, ends, i, target, kind)) == size(st),
        keeps(
            ctx,
            st,
            ends_ok(ends, size(st)) && 1 <= target.0 < size(st),
            edges_to(st, ends, i, target, kind),
            true,
        ),
    decreases ends.len() - i,
{
    if 0 <= i < ends.len() {
        lemma_edges_to(ctx, st.edge(ends[i], target, kind), ends, i + 1, target, kind);
    }
}

proof fn lemma_met(ctx: ContextModel, st: StateModel, a: Option<BlockId>, b: Option<BlockId>)
    ensures
        ({
            let (s, r) = met(st, a, b);
            keeps(
                ctx,
                st,
                opt_inside(a, size(st)) && opt_inside(b, size(st)),
                s,
                opt_inside(r, size(s)),
            )
        }),
{
}

proof fn lemma_labelled(
    env: EnvModel,
    ctx: ContextModel,
    st: StateModel,
    node: SyntaxNode,
    current: BlockId,
)
    ensures
        ({
            let (s, b) = labelled(env, ctx, st, node, current);
            keeps(ctx, st, inside(current, size(st)), s, inside(b, size(s)))
        }),
{
    let (s, target) = if st.graph.has_executable(current) {
        (
            st.block(BasicBlockKind::Normal).edge(current, st.next(), EdgeKind::Normal),
            st.next(),
        )
    } else {
        (st, current)
    };
    match label_of(node, env.source) {
        Some(name) => {
            let s1 = StateModel {
                targets: s.targets.push(
                    crate::labels::TargetModel { binding: ctx.binding, name, block: target },
                ),
                ..s
            };
            assert(size(s1) == size(s));
            assert(extends(s, s1));
            if sound(s) && inside(target, size(s)) {
                reveal(sound);
                assert(targets_ok(s1.targets, size(s1)));
            }
        },
        None => {},
    }
}

proof fn lemma_raise(
    env: EnvModel,
    ctx: ContextModel,
    st: StateModel,
    node: SyntaxNode,
    current: BlockId,
)
    ensures
        ({
            let (s, f) = raise_statement(env, ctx, st, node, current);
            keeps(ctx, st, inside(current, size(st)), s, flow_ok(f, size(s)))
        }),
{
    lemma_placed(ctx, st, node, current);
}

proof fn lemma_goto(
    env: EnvModel,
    ctx: ContextModel,
    st: StateModel,
    node: SyntaxNode,
    current: BlockId,
)
    ensures
        ({
            let (s, f) = goto_statement(env, ctx, st, node, current);
            keeps(ctx, st, inside(current, size(st)), s, flow_ok(f, size(s)))
        }),
{
    lemma_placed(ctx, st, node, current);
}

pub proof fn lemma_settled(
    ctx: ContextModel,
    st: StateModel,
    transfers: Seq<TransferModel>,
    i: int,
    after: BlockId,
    again: BlockId,
    acc: Seq<TransferModel>,
)
    ensures
        ({
            let (s, r) = settled(st, transfers, i, after, again, acc);
            &&& size(s) == size(st)
            &&& keeps(
                ctx,
                st,
                transfers_ok(transfers, size(st)) && transfers_ok(acc, size(st)) && inside(
                    after,
                    size(st),
                ) && inside(again, size(st)),
                s,
                transfers_ok(r, size(s)),
            )
        }),
    decreases transfers.len() - i,
{
    if 0 <= i < transfers.len() {
        let t = transfers[i];
        if t.kind == TransferKind::Break && t.target == Some(after) {
            lemma_settled(
                ctx,
                st.edge(t.source, after, t.completion()),
                transfers,
                i + 1,
                after,
                again,
                acc,
            );
        } else if t.kind == TransferKind::Continue && t.target == Some(again) {
            lemma_settled(
                ctx,
                st.edge(t.source, again, t.completion()),
                transfers,
                i + 1,
                after,
                again,
                acc,
            );
        } else {
            lemma_settled(ctx, st, transfers, i + 1, after, again, acc.push(t));
        }
    }
}

proof fn lemma_walk(
    env: EnvModel,
    ctx: ContextModel,
    st: StateModel,
    node: SyntaxNode,
    sel: Selection,
    i: int,
    current: Option<BlockId>,
    acc: Seq<TransferModel>,
)
    ensures
        ({
            let (s, f) = walk(env, ctx, st, node, sel, i, current, acc);
            keeps(
                ctx,
                st,
                opt_inside(current, size(st)) && transfers_ok(acc, size(st)),
                s,
                flow_ok(f, size(s)),
            )
        }),
    decreases node, 1int, node.children@.len() - i,
{
    if 0 <= i < node.children@.len() {
        if !selected(sel, node, i) {
            lemma_walk(env, ctx, st, node, sel, i + 1, current, acc);
        } else {
            let (s, f) = sequence_child(env, ctx, st, node.children@[i], current);
            lemma_sequence_child(env, ctx, st, node.children@[i], current);
            lemma_walk(env, ctx, s, node, sel, i + 1, f.normal, acc + f.transfers);
        }
    }
}

proof fn lemma_sequence_child(
    env: EnvModel,
    ctx: ContextModel,
    st: StateModel,
    node: SyntaxNode,
    current: Option<BlockId>,
)
    ensures
        ({
            let (s, f) = sequence_child(env, ctx, st, node, current);
            keeps(ctx, st, opt_inside(current, size(st)), s, flow_ok(f, size(s)))
        }),
    decreases node, 9int, 0int,
{
    if !node.extra {
        let (s, b) = match current {
            Some(block) => (st, block),
            None => (st.block(BasicBlockKind::Normal), st.next()),
        };
        if node.kind@ == "label"@ {
            lemma_labelled(env, ctx, s, node, b);
        } else {
            lemma_single(env, ctx, s, node, b);
        }
    }
}

proof fn lemma_single(
    env: EnvModel,
    ctx: ContextModel,
    st: StateModel,
    node: SyntaxNode,
    current: BlockId,
)
    ensures
        ({
            let (s, f) = single(env, ctx, st, node, current);
            keeps(ctx, st, inside(current, size(st)), s, flow_ok(f, size(s)))
        }),
    decreases node, 8int, 0int,
{
    let kind = node.kind@;
    if node.extra {
    } else if kind == "ppBlock"@ {
        lemma_conditional_block(env, ctx, st, node, current);
    } else if kind == "labeledStatement"@ || kind == "labeledStatementTr"@ {
        lemma_labelled_statement(env, ctx, st, node, 0, Some(current), Seq::empty());
    } else if kind == "block"@ {
        lemma_walk(env, ctx, st, node, Selection::Block, 0, Some(current), Seq::empty());
    } else if kind == "statements"@ {
        lemma_walk(env, ctx, st, node, Selection::Statements, 0, Some(current), Seq::empty());
    } else if kind == "ifElse"@ {
        lemma_if_else(env, ctx, st, node, current);
    } else if kind == "if"@ {
        lemma_if_only(env, ctx, st, node, current);
    } else if kind == "for"@ || kind == "foreach"@ || kind == "while"@ {
        lemma_counted_loop(env, ctx, st, node, current);
    } else if kind == "case"@ {
        lemma_case_statement(env, ctx, st, node, current);
    } else if kind == "repeat"@ {
        lemma_repeat_loop(env, ctx, st, node, current);
    } else if kind == "try"@ {
        if crate::labels::finalized(node) {
            lemma_try_finally(env, ctx, st, node, current);
        } else if node.find(field_kind("except"@, "kExcept"@)) is Some {
            lemma_try_except(env, ctx, st, node, current);
        }
    } else if kind == "with"@ {
        lemma_with_statement(env, ctx, st, node, current);
    } else if kind == "raise"@ {
        lemma_raise(env, ctx, st, node, current);
    } else if kind == "goto"@ {
        lemma_goto(env, ctx, st, node, current);
    } else {
        lemma_placed(ctx, st, node, current);
    }
}

proof fn lemma_if_else(
    env: EnvModel,
    ctx: ContextModel,
    st: StateModel,
    node: SyntaxNode,
    current: BlockId,
)
    ensures
        ({
            let (s, f) = if_else(env, ctx, st, node, current);
            keeps(ctx, st, inside(current, size(st)), s, flow_ok(f, size(s)))
        }),
    decreases node, 7int, 0int,
{
    lemma_condition(ctx, st, node, current);
    let (s1, c) = condition(ctx, st, node, current);
    let t = s1.next();
    let s2 = s1.block(BasicBlockKind::Normal);
    let e = s2.next();
    let s3 = s2.block(BasicBlockKind::Normal).edge(c, t, EdgeKind::ConditionalTrue).edge(
        c,
        e,
        EdgeKind::ConditionalFalse,
    );
    let (s4, f1) = walk(env, ctx, s3, node, Selection::Then, 0, Some(t), Seq::empty());
    lemma_walk(env, ctx, s3, node, Selection::Then, 0, Some(t), Seq::empty());
    let (s5, f2) = walk(env, ctx, s4, node, Selection::Else, 0, Some(e), Seq::empty());
    lemma_walk(env, ctx, s4, node, Selection::Else, 0, Some(e), Seq::empty());
    lemma_met(ctx, s5, f1.normal, f2.normal);
}

proof fn lemma_if_only(
    env: EnvModel,
    ctx: ContextModel,
    st: StateModel,
    node: SyntaxNode,
    current: BlockId,
)
    ensures
        ({
            let (s, f) = if_only(env, ctx, st, node, current);
            keeps(ctx, st, inside(current, size(st)), s, flow_ok(f, size(s)))
        }),
    decreases node, 7int, 0int,
{
    lemma_condition(ctx, st, node, current);
    let (s1, c) = condition(ctx, st, node, current);
    let t = s1.next();
    let s2 = s1.block(BasicBlockKind::Normal);
    let j = s2.next();
    let s3 = s2.block(BasicBlockKind::Normal).edge(c, t, EdgeKind::ConditionalTrue).edge(
        c,
        j,
        EdgeKind::ConditionalFalse,
    );
    lemma_walk(env, ctx, s3, node, Selection::Then, 0, Some(t), Seq::empty());
}

proof fn lemma_counted_loop(
    env: EnvModel,
    ctx: ContextModel,
    st: StateModel,
    node: SyntaxNode,
    current: BlockId,
)
    ensures
        ({
            let (s, f) = counted_loop(env, ctx, st, node, current);
            keeps(ctx, st, inside(current, size(st)), s, flow_ok(f, size(s)))
        }),
    decreases node, 7int, 0int,
{
    let c = st.next();
    let s1 = st.block(BasicBlockKind::Normal);
    let b = s1.next();
    let s2 = s1.block(BasicBlockKind::Normal);
    let a = s2.next();
    let s3 = loop_header(
        s2.block(BasicBlockKind::Normal).edge(current, c, EdgeKind::Normal),
        c,
        node,
    ).edge(c, b, EdgeKind::ConditionalTrue).edge(c, a, EdgeKind::LoopExit);
    let inner = ctx.in_loop(c, a);
    let (s4, f) = walk(env, inner, s3, node, Selection::Body, 0, Some(b), Seq::empty());
    lemma_walk(env, inner, s3, node, Selection::Body, 0, Some(b), Seq::empty());
    let s5 = match f.normal {
        Some(end) => s4.edge(end, c, EdgeKind::LoopBack),
        None => s4,
    };
    lemma_settled(ctx, s5, f.transfers, 0, a, c, implicit(ctx, c));
}

proof fn lemma_repeat_loop(
    env: EnvModel,
    ctx: ContextModel,
    st: StateModel,
    node: SyntaxNode,
    current: BlockId,
)
    ensures
        ({
            let (s, f) = repeat_loop(env, ctx, st, node, current);
            keeps(ctx, st, inside(current, size(st)), s, flow_ok(f, size(s)))
        }),
    decreases node, 7int, 0int,
{
    let b = st.next();
    let s1 = st.block(BasicBlockKind::Normal);
    let c = s1.next();
    let s2 = s1.block(BasicBlockKind::Normal);
    let a = s2.next();
    let s3 = s2.block(BasicBlockKind::Normal).edge(current, b, EdgeKind::Normal);
    let inner = ctx.in_loop(c, a);
    let (s4, f) = walk(env, inner, s3, node, Selection::Body, 0, Some(b), Seq::empty());
    lemma_walk(env, inner, s3, node, Selection::Body, 0, Some(b), Seq::empty());
    let s5 = match f.normal {
        Some(end) => s4.edge(end, c, EdgeKind::Normal),
        None => s4,
    };
    lemma_settled(ctx, s5, f.transfers, 0, a, c, implicit(ctx, c));
}

proof fn lemma_case_arms(
    env: EnvModel,
    ctx: ContextModel,
    st: StateModel,
    node: SyntaxNode,
    selector: BlockId,
    i: int,
    ends: Seq<BlockId>,
    acc: Seq<TransferModel>,
)
    ensures
        ({
            let (s, e, t) = case_arms(env, ctx, st, node, selector, i, ends, acc);
            keeps(
                ctx,
                st,
                inside(selector, size(st)) && ends_ok(ends, size(st)) && transfers_ok(
                    acc,
                    size(st),
                ),
                s,
                ends_ok(e, size(s)) && transfers_ok(t, size(s)),
            )
        }),
    decreases node, 3int, node.children@.len() - i,
{
    if 0 <= i < node.children@.len() {
        if !hit(named_kind("caseCase"@), node.children@[i]) {
            lemma_case_arms(env, ctx, st, node, selector, i + 1, ends, acc);
        } else {
            let arm = st.next();
            let s0 = st.block(BasicBlockKind::Normal).edge(selector, arm, EdgeKind::CaseArm);
            let (s, f) = walk(
                env,
                ctx,
                s0,
                node.children@[i],
                Selection::Body,
                0,
                Some(arm),
                Seq::empty(),
            );
            lemma_walk(
                env,
                ctx,
                s0,
                node.children@[i],
                Selection::Body,
                0,
                Some(arm),
                Seq::empty(),
            );
            lemma_case_arms(
                env,
                ctx,
                s,
                node,
                selector,
                i + 1,
                match f.normal {
                    Some(end) => ends.push(end),
                    None => ends,
                },
                acc + f.transfers,
            );
        }
    }
}

proof fn lemma_case_statement(
    env: EnvModel,
    ctx: ContextModel,
    st: StateModel,
    node: SyntaxNode,
    current: BlockId,
)
    ensures
        ({
            let (s, f) = case_statement(env, ctx, st, node, current);
            keeps(ctx, st, inside(current, size(st)), s, flow_ok(f, size(s)))
        }),
    decreases node, 7int, 0int,
{
    lemma_prepared(ctx, st, current);
    let (s0, b) = prepared(ctx, st, current);
    let s1 = match case_selector(node, 0) {
        Some(k) => s0.stmt(b, node.start, node.children@[k].end, node.kind@),
        None => s0,
    };
    let (s2, ends, transfers) = case_arms(
        env,
        ctx,
        s1,
        node,
        b,
        0,
        Seq::empty(),
        implicit(ctx, b),
    );
    lemma_case_arms(env, ctx, s1, node, b, 0, Seq::empty(), implicit(ctx, b));
    if default_before(node, node.children@.len() as int) {
        let d = s2.next();
        let s20 = s2.block(BasicBlockKind::Normal).edge(b, d, EdgeKind::CaseArm);
        let (s3, f) = walk(env, ctx, s20, node, Selection::CaseDefault, 0, Some(d), Seq::empty());
        lemma_walk(env, ctx, s20, node, Selection::CaseDefault, 0, Some(d), Seq::empty());
        let all = match f.normal {
            Some(end) => ends.push(end),
            None => ends,
        };
        lemma_edges_to(
            ctx,
            s3.block(BasicBlockKind::Normal),
            all,
            0,
            s3.next(),
            EdgeKind::Normal,
        );
    } else {
        lemma_edges_to(
            ctx,
            s2.block(BasicBlockKind::Normal),
            ends,
            0,
            s2.next(),
            EdgeKind::Normal,
        );
    }
}

proof fn lemma_with_statement(
    env: EnvModel,
    ctx: ContextModel,
    st: StateModel,
    node: SyntaxNode,
    current: BlockId,
)
    ensures
        ({
            let (s, f) = with_statement(env, ctx, st, node, current);
            keeps(ctx, st, inside(current, size(st)), s, flow_ok(f, size(s)))
        }),
    decreases node, 7int, 0int,
{
    lemma_prepared(ctx, st, current);
    let (s0, c) = prepared(ctx, st, current);
    let s1 = match last_under(node, "entity"@, node.children@.len() as int) {
        Some(k) => s0.stmt(c, node.start, node.children@[k].end, node.kind@),
        None => s0,
    };
    let b = s1.next();
    let s10 = s1.block(BasicBlockKind::Normal).edge(c, b, EdgeKind::Normal);
    let (s2, f) = walk(env, ctx, s10, node, Selection::Body, 0, Some(b), Seq::empty());
    lemma_walk(env, ctx, s10, node, Selection::Body, 0, Some(b), Seq::empty());
    lemma_met(ctx, s2, f.normal, None);
}

proof fn lemma_labelled_statement(
    env: EnvModel,
    ctx: ContextModel,
    st: StateModel,
    node: SyntaxNode,
    i: int,
    current: Option<BlockId>,
    acc: Seq<TransferModel>,
)
    ensures
        ({
            let (s, f) = labelled_statement(env, ctx, st, node, i, current, acc);
            keeps(
                ctx,
                st,
                opt_inside(current, size(st)) && transfers_ok(acc, size(st)),
                s,
                flow_ok(f, size(s)),
            )
        }),
    decreases node, 3int, node.children@.len() - i,
{
    if 0 <= i < node.children@.len() {
        let child = node.children@[i];
        match current {
            Some(b) => if !child.named {
                lemma_labelled_statement(env, ctx, st, node, i + 1, current, acc);
            } else if child.kind@ == "label"@ {
                let (s, target) = labelled(env, ctx, st, child, b);
                lemma_labelled(env, ctx, st, child, b);
                lemma_labelled_statement(env, ctx, s, node, i + 1, Some(target), acc);
            } else {
                let (s, f) = single(env, ctx, st, child, b);
                lemma_single(env, ctx, st, child, b);
                lemma_labelled_statement(
                    env,
                    ctx,
                    s,
                    node,
                    i + 1,
                    f.normal,
                    acc + f.transfers,
                );
            },
            None => {
                lemma_labelled_statement(env, ctx, st, node, i + 1, current, acc);
            },
        }
    }
}

proof fn lemma_conditional_branches(
    env: EnvModel,
    ctx: ContextModel,
    st: StateModel,
    node: SyntaxNode,
    current: BlockId,
    b: int,
    ends: Seq<BlockId>,
    acc: Seq<TransferModel>,
)
    ensures
        ({
            let (s, e, t) = conditional_branches(env, ctx, st, node, current, b, ends, acc);
            keeps(
                ctx,
                st,
                inside(current, size(st)) && ends_ok(ends, size(st)) && transfers_ok(
                    acc,
                    size(st),
                ),
                s,
                ends_ok(e, size(s)) && transfers_ok(t, size(s)),
            )
        }),
    decreases node, 3int, last_branch(node) + 1 - b,
{
    if 0 <= b <= last_branch(node) {
        let entry = st.next();
        let binding = match branch_binding(
            env.branches,
            node.start,
            node.end,
            b as usize,
            env.branches.len() as int,
        ) {
            Some(own) => own,
            None => ctx.binding,
        };
        let s0 = st.block(BasicBlockKind::Normal).edge(
            current,
            entry,
            if b == 0 {
                EdgeKind::ConditionalTrue
            } else {
                EdgeKind::ConditionalFalse
            },
        );
        let inner = ctx.in_branch(binding);
        let sel = Selection::Branch(b as usize);
        let (s, f) = walk(env, inner, s0, node, sel, 0, Some(entry), Seq::empty());
        lemma_walk(env, inner, s0, node, sel, 0, Some(entry), Seq::empty());
        assert(context_ok(ctx, size(s0)) ==> context_ok(inner, size(s0)));
        lemma_conditional_branches(
            env,
            ctx,
            s,
            node,
            current,
            b + 1,
            match f.normal {
                Some(end) => ends.push(end),
                None => ends,
            },
            acc + f.transfers,
        );
    }
}

proof fn lemma_conditional_block(
    env: EnvModel,
    ctx: ContextModel,
    st: StateModel,
    node: SyntaxNode,
    current: BlockId,
)
    ensures
        ({
            let (s, f) = conditional_block(env, ctx, st, node, current);
            keeps(ctx, st, inside(current, size(st)), s, flow_ok(f, size(s)))
        }),
    decreases node, 7int, 0int,
{
    if !hollow(node, env.source) {
        let (s, ends, transfers) = conditional_branches(
            env,
            ctx,
            st,
            node,
            current,
            0,
            Seq::empty(),
            Seq::empty(),
        );
        lemma_conditional_branches(
            env,
            ctx,
            st,
            node,
            current,
            0,
            Seq::empty(),
            Seq::empty(),
        );
        lemma_edges_to(
            ctx,
            s.block(BasicBlockKind::Normal),
            ends,
            0,
            s.next(),
            EdgeKind::Normal,
        );
    }
}

proof fn lemma_try_body(
    env: EnvModel,
    ctx: ContextModel,
    st: StateModel,
    node: SyntaxNode,
    current: BlockId,
)
    ensures
        ({
            let (s, f) = try_body(env, ctx, st, node, current);
            keeps(ctx, st, inside(current, size(st)), s, flow_ok(f, size(s)))
        }),
    decreases node, 2int, 0int,
{
    match node.find(field_kind("try"@, "statements"@)) {
        Some(k) => {
            let entry = st.next();
            lemma_walk(
                env,
                ctx,
                st.block(BasicBlockKind::Normal).edge(current, entry, EdgeKind::Normal),
                node.children@[k],
                Selection::Statements,
                0,
                Some(entry),
                Seq::empty(),
            );
        },
        None => {},
    }
}

/// Whether the entries of all groups, and the transfers behind them, lie inside
/// the graph.
pub open spec fn groups_ok(groups: Seq<GroupModel>, n: nat) -> bool {
    forall|k: int| 0 <= k < groups.len() ==> group_ok(#[trigger] groups[k], n)
}

/// Whether the entries of a group lie inside the graph.
pub open spec fn group_ok(g: GroupModel, n: nat) -> bool {
    &&& forall|j: int| 0 <= j < g.entries.len() ==> inside((#[trigger] g.entries[j]).0, n)
    &&& match g.first {
        Some(t) => transfer_ok(t, n),
        None => true,
    }
}

proof fn lemma_group_bounds(groups: Seq<GroupModel>, key: Option<KeyModel>, i: int)
    ensures
        match group_with(groups, key, i) {
            Some(k) => i <= k < groups.len() && groups[k].key == key,
            None => true,
        },
    decreases groups.len() - i,
{
    if 0 <= i < groups.len() && groups[i].key != key {
        lemma_group_bounds(groups, key, i + 1);
    }
}

proof fn lemma_groups_of(
    normal: Option<BlockId>,
    transfers: Seq<TransferModel>,
    scope: usize,
    n: int,
    m: nat,
)
    requires
        opt_inside(normal, m),
        transfers_ok(transfers, m),
    ensures
        groups_ok(groups_of(normal, transfers, scope, n), m),
    decreases n,
{
    if 0 < n <= transfers.len() {
        lemma_groups_of(normal, transfers, scope, n - 1, m);
        let before = groups_of(normal, transfers, scope, n - 1);
        let t = transfers[n - 1];
        if t.leaves(scope) {
            lemma_group_bounds(before, Some(t.key()), 0);
            let after = grouped(before, t);
            assert forall|k: int| 0 <= k < after.len() implies group_ok(#[trigger] after[k], m) by {
                if k < before.len() {
                    assert(group_ok(before[k], m));
                }
            }
        }
    }
}

proof fn lemma_staying(transfers: Seq<TransferModel>, scope: usize, n: int, m: nat)
    requires
        transfers_ok(transfers, m),
    ensures
        transfers_ok(staying(transfers, scope, n), m),
    decreases n,
{
    if 0 < n <= transfers.len() {
        lemma_staying(transfers, scope, n - 1, m);
    }
}

pub proof fn lemma_distinct_from(s: Seq<TransferModel>, k: int)
    requires
        0 <= k < distinct(s).len(),
    ensures
        s.contains(distinct(s)[k]),
    decreases s.len(),
{
    let before = distinct(s.drop_last());
    if k < before.len() {
        lemma_distinct_from(s.drop_last(), k);
        let j = choose|j: int| 0 <= j < s.drop_last().len() && s.drop_last()[j] == before[k];
        assert(s[j] == before[k]);
    } else {
        assert(s[s.len() - 1] == distinct(s)[k]);
    }
}

pub proof fn lemma_distinct_holds(s: Seq<TransferModel>, k: int)
    requires
        0 <= k < s.len(),
    ensures
        distinct(s).contains(s[k]),
    decreases s.len(),
{
    let before = distinct(s.drop_last());
    if k < s.len() - 1 {
        lemma_distinct_holds(s.drop_last(), k);
        assert(before.contains(s.drop_last()[k]));
        let j = choose|j: int| 0 <= j < before.len() && before[j] == s[k];
        assert(distinct(s)[j] == s[k]);
    } else if !before.contains(s.last()) {
        assert(distinct(s)[before.len() as int] == s[k]);
    }
}

proof fn lemma_distinct_ok(s: Seq<TransferModel>, m: nat)
    requires
        transfers_ok(s, m),
    ensures
        transfers_ok(distinct(s), m),
{
    assert forall|k: int| 0 <= k < distinct(s).len() implies transfer_ok(
        #[trigger] distinct(s)[k],
        m,
    ) by {
        lemma_distinct_from(s, k);
        let j = choose|j: int| 0 <= j < s.len() && s[j] == distinct(s)[k];
        assert(transfer_ok(s[j], m));
    }
}

proof fn lemma_superseding_ok(s: Seq<TransferModel>, m: nat)
    requires
        transfers_ok(s, m),
    ensures
        transfers_ok(superseding(s), m),
{
    assert forall|k: int| 0 <= k < superseding(s).len() implies transfer_ok(
        #[trigger] superseding(s)[k],
        m,
    ) by {
        assert(transfer_ok(s[k], m));
    }
}

proof fn lemma_entered(
    ctx: ContextModel,
    st: StateModel,
    entries: Seq<(BlockId, EdgeKind)>,
    i: int,
    target: BlockId,
)
    ensures
        size(entered(st, entries, i, target)) == size(st),
        keeps(
            ctx,
            st,
            (forall|j: int| 0 <= j < entries.len() ==> inside((#[trigger] entries[j]).0, size(st)))
                && inside(target, size(st)),
            entered(st, entries, i, target),
            true,
        ),
    decreases entries.len() - i,
{
    if 0 <= i < entries.len() {
        lemma_entered(ctx, st.edge(entries[i].0, target, entries[i].1), entries, i + 1, target);
    }
}

proof fn lemma_cached_bounds(cache: Seq<CachedModel>, key: CacheKeyModel, i: int)
    ensures
        match cached(cache, key, i) {
            Some(k) => i <= k < cache.len(),
            None => true,
        },
    decreases cache.len() - i,
{
    if 0 <= i < cache.len() && cache[i].key != key {
        lemma_cached_bounds(cache, key, i + 1);
    }
}

proof fn lemma_finally_body(
    env: EnvModel,
    ctx: ContextModel,
    st: StateModel,
    node: SyntaxNode,
    scope: usize,
    key: Option<KeyModel>,
)
    ensures
        ({
            let (s, entry, f) = finally_body(env, ctx, st, node, scope, key);
            keeps(
                ctx,
                st,
                true,
                s,
                inside(entry, size(s)) && flow_ok(f, size(s)) && s.graph.blocks[entry.0 as int].kind
                    == BasicBlockKind::FinallyHandler,
            )
        }),
    decreases node, 3int, 0int,
{
    let what = body_key(ctx, node, scope, key);
    let r = body_return(ctx, node, scope, key);
    let (s1, number) = match return_number(st.resumptions, r, 0) {
        Some(k) => (st, k as usize),
        None => (
            StateModel { resumptions: st.resumptions.push(r), ..st },
            st.resumptions.len() as usize,
        ),
    };
    assert(size(s1) == size(st));
    assert(extends(st, s1));
    assert(sound(st) ==> sound(s1)) by {
        reveal(sound);
    }
    lemma_cached_bounds(s1.cache, what, 0);
    match cached(s1.cache, what, 0) {
        Some(k) => {
            assert(sound(s1) ==> inside(s1.cache[k].entry, size(s1)) && flow_ok(
                s1.cache[k].flow,
                size(s1),
            ) && s1.graph.blocks[s1.cache[k].entry.0 as int].kind
                == BasicBlockKind::FinallyHandler) by {
                reveal(sound);
            }
        },
        None => {
            let entry = s1.next();
            let s2 = s1.block(BasicBlockKind::FinallyHandler);
            let binding = s2.parents.len() as usize;
            let s3 = StateModel { parents: s2.parents.push(Some(ctx.binding)), ..s2 };
            assert(size(s3) == size(s2));
            assert(sound(s2) ==> sound(s3)) by {
                reveal(sound);
            }
            let inner = ctx.in_finalizer(binding, number, waiting(ctx, key));
            let (s4, f) = match node.find(field_kind("finally"@, "statements"@)) {
                Some(k) => walk(
                    env,
                    inner,
                    s3,
                    node.children@[k],
                    Selection::Statements,
                    0,
                    Some(entry),
                    Seq::empty(),
                ),
                None => (s3, ending(entry)),
            };
            match node.find(field_kind("finally"@, "statements"@)) {
                Some(k) => {
                    lemma_walk(
                        env,
                        inner,
                        s3,
                        node.children@[k],
                        Selection::Statements,
                        0,
                        Some(entry),
                        Seq::empty(),
                    );
                },
                None => {},
            }
            assert(context_ok(ctx, size(s3)) ==> context_ok(inner, size(s3)));
            let s5 = StateModel {
                cache: s4.cache.push(CachedModel { key: what, entry, flow: f }),
                ..s4
            };
            assert(size(s5) == size(s4));
            assert(extends(s2, s3));
            assert(extends(s3, s4));
            assert(extends(s4, s5));
            if size(s5) <= usize::MAX && sound(s4) && inside(entry, size(s4)) && flow_ok(
                f,
                size(s4),
            ) {
                assert(s4.graph.blocks[entry.0 as int].kind == BasicBlockKind::FinallyHandler) by {
                    reveal(extends);
                    assert(s2.graph.blocks[entry.0 as int].kind == BasicBlockKind::FinallyHandler);
                    assert(s3.graph.blocks[entry.0 as int].kind == BasicBlockKind::FinallyHandler);
                }
                assert(sound(s5)) by {
                    reveal(sound);
                    assert(cache_ok(s5.cache, size(s5)));
                }
            }
        },
    }
}

/// What one group adds: the state, the normal end and the transfers with which
/// the next group goes on.
pub open spec fn group_done(
    env: EnvModel,
    ctx: ContextModel,
    st: StateModel,
    node: SyntaxNode,
    scope: usize,
    g: GroupModel,
    normal: Option<BlockId>,
    acc: Seq<TransferModel>,
) -> (StateModel, Option<BlockId>, Seq<TransferModel>) {
    let (s1, entry, f) = finally_body(env, ctx, st, node, scope, g.key);
    let s2 = entered(s1, g.entries, 0, entry);
    match f.normal {
        Some(end) => if g.key is None {
            (
                s2.block(BasicBlockKind::Normal).edge(end, s2.next(), EdgeKind::FinallyExit),
                Some(s2.next()),
                acc + superseding(f.transfers),
            )
        } else {
            (
                s2,
                normal,
                (match g.first {
                    Some(t) => acc.push(t.from_finalizer(end)),
                    None => acc,
                }) + superseding(f.transfers),
            )
        },
        None => (s2, normal, acc + superseding(f.transfers)),
    }
}

proof fn lemma_group_done(
    env: EnvModel,
    ctx: ContextModel,
    st: StateModel,
    node: SyntaxNode,
    scope: usize,
    g: GroupModel,
    normal: Option<BlockId>,
    acc: Seq<TransferModel>,
)
    ensures
        ({
            let (s1, entry, f) = finally_body(env, ctx, st, node, scope, g.key);
            let s2 = entered(s1, g.entries, 0, entry);
            let (s3, n3, a3) = group_done(env, ctx, st, node, scope, g, normal, acc);
            &&& keeps(
                ctx,
                st,
                group_ok(g, size(st)) && opt_inside(normal, size(st)) && transfers_ok(
                    acc,
                    size(st),
                ),
                s3,
                opt_inside(n3, size(s3)) && transfers_ok(a3, size(s3)),
            )
            &&& extends(s2, s3)
            &&& size(s3) <= usize::MAX && sound(st) && context_ok(ctx, size(st)) ==> inside(
                entry,
                size(s2),
            ) && s2.graph.blocks[entry.0 as int].kind == BasicBlockKind::FinallyHandler
        }),
    decreases node, 3int, 1int,
{
    let (s1, entry, f) = finally_body(env, ctx, st, node, scope, g.key);
    lemma_finally_body(env, ctx, st, node, scope, g.key);
    let s2 = entered(s1, g.entries, 0, entry);
    lemma_entered(ctx, s1, g.entries, 0, entry);
    assert(group_ok(g, size(st)) ==> group_ok(g, size(s1)));
    assert(extends(s1, s2));
    let (s3, n3, a3) = group_done(env, ctx, st, node, scope, g, normal, acc);
    assert(extends(s2, s3));
    if flow_ok(f, size(s1)) {
        lemma_superseding_ok(f.transfers, size(s1));
    }
    if size(s3) <= usize::MAX && sound(st) && context_ok(ctx, size(st)) {
        assert(s2.graph.blocks[entry.0 as int].kind == BasicBlockKind::FinallyHandler) by {
            reveal(extends);
        }
        if group_ok(g, size(st)) && opt_inside(normal, size(st)) && transfers_ok(acc, size(st)) {
            assert(transfers_ok(acc, size(s3)));
            assert(transfers_ok(superseding(f.transfers), size(s3)));
            if let Some(t) = g.first {
                assert(transfer_ok(t, size(s3)));
            }
        }
    }
}

proof fn lemma_groups_grow(groups: Seq<GroupModel>, n: nat, m: nat)
    requires
        groups_ok(groups, n),
        n <= m,
    ensures
        groups_ok(groups, m),
{
    assert forall|k: int| 0 <= k < groups.len() implies group_ok(#[trigger] groups[k], m) by {
        assert(group_ok(groups[k], n));
    }
}

proof fn lemma_finalize(
    env: EnvModel,
    ctx: ContextModel,
    st: StateModel,
    node: SyntaxNode,
    scope: usize,
    groups: Seq<GroupModel>,
    i: int,
    normal: Option<BlockId>,
    acc: Seq<TransferModel>,
)
    ensures
        ({
            let (s, f) = finalize(env, ctx, st, node, scope, groups, i, normal, acc);
            keeps(
                ctx,
                st,
                groups_ok(groups, size(st)) && opt_inside(normal, size(st)) && transfers_ok(
                    acc,
                    size(st),
                ),
                s,
                flow_ok(f, size(s)),
            )
        }),
    decreases node, 4int, groups.len() - i,
{
    if i < 0 || i >= groups.len() {
        if transfers_ok(acc, size(st)) {
            lemma_distinct_ok(acc, size(st));
        }
    } else {
        let g = groups[i];
        let (s3, n3, a3) = group_done(env, ctx, st, node, scope, g, normal, acc);
        lemma_group_done(env, ctx, st, node, scope, g, normal, acc);
        lemma_finalize(env, ctx, s3, node, scope, groups, i + 1, n3, a3);
        if groups_ok(groups, size(st)) {
            assert(group_ok(g, size(st)));
            lemma_groups_grow(groups, size(st), size(s3));
        }
    }
}

proof fn lemma_try_finally(
    env: EnvModel,
    ctx: ContextModel,
    st: StateModel,
    node: SyntaxNode,
    current: BlockId,
)
    ensures
        ({
            let (s, f) = try_finally(env, ctx, st, node, current);
            keeps(ctx, st, inside(current, size(st)), s, flow_ok(f, size(s)))
        }),
    decreases node, 5int, 0int,
{
    let scope = scope_number(env.scope_ids, node.start, node.end, env.scope_ids.len() as int);
    let inner = ctx.in_cleanup(scope);
    let (s, f) = try_body(env, inner, st, node, current);
    lemma_try_body(env, inner, st, node, current);
    assert(context_ok(ctx, size(st)) ==> context_ok(inner, size(st)));
    let transfers = distinct(f.transfers);
    let count = transfers.len() as int;
    if flow_ok(f, size(s)) {
        lemma_distinct_ok(f.transfers, size(s));
        lemma_groups_of(f.normal, transfers, scope, count, size(s));
        lemma_staying(transfers, scope, count, size(s));
    }
    lemma_finalize(
        env,
        ctx,
        s,
        node,
        scope,
        groups_of(f.normal, transfers, scope, count),
        0,
        None,
        staying(transfers, scope, count),
    );
}

/// Whether handlers start, and what leaves them starts and ends, inside the
/// graph.
pub open spec fn handlers_ok(handlers: Seq<HandlerModel>, n: nat) -> bool {
    forall|k: int| 0 <= k < handlers.len() ==> handler_ok(#[trigger] handlers[k], n)
}

/// Whether a handler starts, and what leaves it starts and ends, inside the graph.
pub open spec fn handler_ok(h: HandlerModel, n: nat) -> bool {
    inside(h.entry, n) && flow_ok(h.flow, n)
}

proof fn lemma_handlers_grow(handlers: Seq<HandlerModel>, n: nat, m: nat)
    requires
        handlers_ok(handlers, n),
        n <= m,
    ensures
        handlers_ok(handlers, m),
{
    assert forall|k: int| 0 <= k < handlers.len() implies handler_ok(#[trigger] handlers[k], m) by {
        assert(handler_ok(handlers[k], n));
    }
}

proof fn lemma_handlers_from(
    env: EnvModel,
    ctx: ContextModel,
    st: StateModel,
    node: SyntaxNode,
    incoming: Seq<ExceptionTypeFact>,
    i: int,
    acc: Seq<HandlerModel>,
)
    ensures
        ({
            let (s, h) = handlers_from(env, ctx, st, node, incoming, i, acc);
            keeps(ctx, st, handlers_ok(acc, size(st)), s, handlers_ok(h, size(s)))
        }),
    decreases node, 3int, node.children@.len() - i,
{
    if 0 <= i < node.children@.len() {
        let child = node.children@[i];
        let kind = child.kind@;
        if !hit(any_field("except"@), child) {
            lemma_handlers_from(env, ctx, st, node, incoming, i + 1, acc);
        } else if kind == "exceptionHandler"@ || kind == "exceptionElse"@ || kind == "statements"@ {
            let entry = st.next();
            let named = kind == "exceptionHandler"@;
            let fact = if named {
                crate::exception_types::handler_fact_of(env.types, env.unit, child, env.source)
            } else {
                ExceptionTypeFact::Unknown
            };
            let inner = ctx.in_handler(
                if named {
                    crate::exception_types::context_of(env.types, fact, incoming)
                } else {
                    ExceptionTypeFact::Unknown
                },
            );
            let s0 = st.block(
                if named {
                    BasicBlockKind::ExceptHandler
                } else {
                    BasicBlockKind::BareExceptHandler
                },
            );
            let sel = if named {
                Selection::Body
            } else if kind == "exceptionElse"@ {
                Selection::ExceptElse
            } else {
                Selection::Statements
            };
            let (s, flow) = walk(env, inner, s0, child, sel, 0, Some(entry), Seq::empty());
            lemma_walk(env, inner, s0, child, sel, 0, Some(entry), Seq::empty());
            assert(context_ok(ctx, size(s0)) ==> context_ok(inner, size(s0)));
            let handler = HandlerModel { entry, catch_all: !named, fact, flow };
            lemma_handlers_from(env, ctx, s, node, incoming, i + 1, acc.push(handler));
            if handlers_ok(acc, size(st)) {
                lemma_handlers_grow(acc, size(st), size(s));
            }
        } else {
            lemma_handlers_from(env, ctx, st, node, incoming, i + 1, acc);
        }
    }
}

proof fn lemma_all_handlers(
    env: EnvModel,
    ctx: ContextModel,
    st: StateModel,
    node: SyntaxNode,
    incoming: Seq<ExceptionTypeFact>,
)
    ensures
        ({
            let (s, h) = all_handlers(env, ctx, st, node, incoming);
            keeps(ctx, st, true, s, handlers_ok(h, size(s)))
        }),
    decreases node, 4int, 0int,
{
    lemma_handlers_from(env, ctx, st, node, incoming, 0, Seq::empty());
}

proof fn lemma_dispatch(
    ctx: ContextModel,
    x: IndexModel,
    st: StateModel,
    t: TransferModel,
    handlers: Seq<HandlerModel>,
    h: int,
)
    ensures
        size(dispatch(x, st, t, handlers, h).0) == size(st),
        keeps(
            ctx,
            st,
            transfer_ok(t, size(st)) && handlers_ok(handlers, size(st)),
            dispatch(x, st, t, handlers, h).0,
            true,
        ),
    decreases handlers.len() - h,
{
    if 0 <= h < handlers.len() {
        let caught = st.edge(t.source, handlers[h].entry, EdgeKind::ExceptionThrow);
        assert(handlers_ok(handlers, size(st)) ==> handler_ok(handlers[h], size(st)));
        lemma_dispatch(ctx, x, st, t, handlers, h + 1);
        lemma_dispatch(ctx, x, caught, t, handlers, h + 1);
    }
}

proof fn lemma_dispatch_all(
    ctx: ContextModel,
    x: IndexModel,
    st: StateModel,
    exceptions: Seq<TransferModel>,
    handlers: Seq<HandlerModel>,
    i: int,
    acc: Seq<TransferModel>,
)
    ensures
        ({
            let (s, r) = dispatch_all(x, st, exceptions, handlers, i, acc);
            &&& size(s) == size(st)
            &&& keeps(
                ctx,
                st,
                transfers_ok(exceptions, size(st)) && handlers_ok(handlers, size(st))
                    && transfers_ok(acc, size(st)),
                s,
                transfers_ok(r, size(s)),
            )
        }),
    decreases exceptions.len() - i,
{
    if 0 <= i < exceptions.len() {
        let (s, escapes) = dispatch(x, st, exceptions[i], handlers, 0);
        lemma_dispatch(ctx, x, st, exceptions[i], handlers, 0);
        lemma_dispatch_all(
            ctx,
            x,
            s,
            exceptions,
            handlers,
            i + 1,
            if escapes {
                acc.push(exceptions[i])
            } else {
                acc
            },
        );
    }
}

proof fn lemma_exceptions_of(transfers: Seq<TransferModel>, wanted: bool, n: int, m: nat)
    requires
        transfers_ok(transfers, m),
    ensures
        transfers_ok(exceptions_of(transfers, wanted, n), m),
    decreases n,
{
    if 0 < n <= transfers.len() {
        lemma_exceptions_of(transfers, wanted, n - 1, m);
    }
}

proof fn lemma_handler_ends(handlers: Seq<HandlerModel>, before: Seq<BlockId>, n: int, m: nat)
    requires
        handlers_ok(handlers, m),
        ends_ok(before, m),
    ensures
        ends_ok(handler_ends(handlers, before, n), m),
    decreases n,
{
    if 0 < n <= handlers.len() {
        lemma_handler_ends(handlers, before, n - 1, m);
        assert(handler_ok(handlers[n - 1], m));
    }
}

proof fn lemma_handler_transfers(
    handlers: Seq<HandlerModel>,
    before: Seq<TransferModel>,
    n: int,
    m: nat,
)
    requires
        handlers_ok(handlers, m),
        transfers_ok(before, m),
    ensures
        transfers_ok(handler_transfers(handlers, before, n), m),
    decreases n,
{
    if 0 < n <= handlers.len() {
        lemma_handler_transfers(handlers, before, n - 1, m);
        assert(handler_ok(handlers[n - 1], m));
    }
}

proof fn lemma_try_except(
    env: EnvModel,
    ctx: ContextModel,
    st: StateModel,
    node: SyntaxNode,
    current: BlockId,
)
    ensures
        ({
            let (s, f) = try_except(env, ctx, st, node, current);
            keeps(ctx, st, inside(current, size(st)), s, flow_ok(f, size(s)))
        }),
    decreases node, 5int, 0int,
{
    let inner = ctx.in_dispatch(st.graph.blocks.len() as usize);
    let (s1, f) = try_body(env, inner, st, node, current);
    lemma_try_body(env, inner, st, node, current);
    assert(context_ok(ctx, size(st)) ==> context_ok(inner, size(st)));
    let count = f.transfers.len() as int;
    let exceptions = exceptions_of(f.transfers, true, count);
    let others = exceptions_of(f.transfers, false, count);
    let (s2, handlers) = all_handlers(env, ctx, s1, node, facts_of(exceptions));
    lemma_all_handlers(env, ctx, s1, node, facts_of(exceptions));
    if flow_ok(f, size(s1)) {
        lemma_exceptions_of(f.transfers, true, count, size(s1));
        lemma_exceptions_of(f.transfers, false, count, size(s1));
        assert(transfers_ok(exceptions, size(s2)));
        assert(transfers_ok(others, size(s2)));
    }
    let (s3, escaped) = dispatch_all(env.types, s2, exceptions, handlers, 0, others);
    lemma_dispatch_all(ctx, env.types, s2, exceptions, handlers, 0, others);
    let first = match f.normal {
        Some(end) => seq![end],
        None => Seq::empty(),
    };
    let ends = handler_ends(handlers, first, handlers.len() as int);
    if flow_ok(f, size(s1)) && handlers_ok(handlers, size(s3)) && transfers_ok(
        escaped,
        size(s3),
    ) {
        lemma_handler_ends(handlers, first, handlers.len() as int, size(s3));
        lemma_handler_transfers(handlers, escaped, handlers.len() as int, size(s3));
    }
    lemma_edges_to(
        ctx,
        s3.block(BasicBlockKind::Normal),
        ends,
        0,
        s3.next(),
        EdgeKind::Normal,
    );
}

proof fn lemma_placed_target(
    targets: Seq<crate::labels::TargetModel>,
    binding: usize,
    name: Seq<char>,
    n: int,
    m: nat,
)
    requires
        targets_ok(targets, m),
        n <= targets.len(),
    ensures
        opt_inside(placed(targets, binding, name, n), m),
    decreases n,
{
    if n > 0 {
        lemma_placed_target(targets, binding, name, n - 1, m);
    }
}

proof fn lemma_goto_target(
    targets: Seq<crate::labels::TargetModel>,
    parents: Seq<Option<usize>>,
    binding: usize,
    name: Seq<char>,
    m: nat,
)
    requires
        targets_ok(targets, m),
    ensures
        opt_inside(goto_target(targets, parents, binding, name), m),
    decreases binding,
{
    lemma_placed_target(targets, binding, name, targets.len() as int, m);
    if placed(targets, binding, name, targets.len() as int) is None {
        match crate::labels::parent_binding(parents, binding) {
            Some(p) => {
                lemma_goto_target(targets, parents, p, name, m);
            },
            None => {},
        }
    }
}

proof fn lemma_routed(env: EnvModel, st: StateModel, t: TransferModel)
    requires
        env.exit == BlockId(1),
        sound(st),
        transfer_ok(t, size(st)),
    ensures
        size(routed(env, st, t)) == size(st),
        sound(routed(env, st, t)),
{
    assert(size(st) >= 3 && targets_ok(st.targets, size(st))) by {
        reveal(sound);
    }
    if let (Some(binding), Some(label)) = (t.binding, t.label) {
        lemma_goto_target(st.targets, st.parents, binding, label, size(st));
    }
}

proof fn lemma_routed_all(env: EnvModel, st: StateModel, transfers: Seq<TransferModel>, i: int)
    requires
        env.exit == BlockId(1),
        sound(st),
        transfers_ok(transfers, size(st)),
    ensures
        size(routed_all(env, st, transfers, i)) == size(st),
        sound(routed_all(env, st, transfers, i)),
    decreases transfers.len() - i,
{
    if 0 <= i < transfers.len() {
        lemma_routed(env, st, transfers[i]);
        lemma_routed_all(env, routed(env, st, transfers[i]), transfers, i + 1);
    }
}

proof fn lemma_routed_size(env: EnvModel, st: StateModel, transfers: Seq<TransferModel>, i: int)
    ensures
        size(routed_all(env, st, transfers, i)) == size(st),
    decreases transfers.len() - i,
{
    if 0 <= i < transfers.len() {
        lemma_routed_size(env, routed(env, st, transfers[i]), transfers, i + 1);
    }
}

/// Every graph has the form of a control-flow graph: one entry and one exit, both
/// without statements; a single edge out of the entry, none into it and none out
/// of the exit; and every edge joins two blocks of the graph.
pub proof fn law_graph_is_well_formed(
    node: SyntaxNode,
    sel: Selection,
    source: Seq<u8>,
    types: IndexModel,
    unit: usize,
)
    requires
        scope_graph(node, sel, source, types, unit).blocks.len() <= usize::MAX,
    ensures
        well_formed(scope_graph(node, sel, source, types, unit)),
        scope_graph(node, sel, source, types, unit).edges_in_range(),
{
    let env = environment(node, source, types, unit);
    let start = initial(node, source);
    let ctx = outermost();
    assert(sound(start) && size(start) == 3) by {
        reveal(sound);
        let e = GraphModel::empty();
        let g1 = e.with_block(BasicBlockKind::Entry);
        let g2 = g1.with_block(BasicBlockKind::Exit);
        let g3 = g2.with_block(BasicBlockKind::Normal);
        assert(g1.blocks.len() == 1);
        assert(g2.blocks.len() == 2);
        assert(g3.blocks.len() == 3);
        assert(well_formed(start.graph));
    }
    let (st, f) = walk(env, ctx, start, node, sel, 0, Some(BlockId(2)), Seq::empty());
    lemma_walk(env, ctx, start, node, sel, 0, Some(BlockId(2)), Seq::empty());
    let joined = match f.normal {
        Some(end) => st.edge(end, env.exit, EdgeKind::Normal),
        None => st,
    };
    lemma_routed_size(env, joined, f.transfers, 0);
    lemma_routed_all(env, joined, f.transfers, 0);
    let last = finished(env, st, f);
    assert(well_formed(last.graph)) by {
        reveal(sound);
    }
    assert forall|k: int| 0 <= k < last.graph.edges.len() implies (
    #[trigger] last.graph.edges[k]).source.0 < last.graph.blocks.len()
        && last.graph.edges[k].target.0 < last.graph.blocks.len() by {
        if k > 0 {
            assert(edge_ok(last.graph.edges[k], last.graph.blocks.len()));
        }
    }
}

/// Whether an edge of a kind leads from a block into a finalizer.
pub open spec fn enters_finalizer(st: StateModel, source: BlockId, kind: EdgeKind) -> bool {
    exists|k: int|
        0 <= k < st.graph.edges.len() && (#[trigger] st.graph.edges[k]).source == source
            && st.graph.edges[k].kind == kind && st.graph.edges[k].target.0 < size(st)
            && st.graph.blocks[st.graph.edges[k].target.0 as int].kind
            == BasicBlockKind::FinallyHandler
}

proof fn lemma_enters_still(st: StateModel, later: StateModel, source: BlockId, kind: EdgeKind)
    requires
        enters_finalizer(st, source, kind),
        extends(st, later),
    ensures
        enters_finalizer(later, source, kind),
{
    reveal(extends);
    let k = choose|k: int|
        0 <= k < st.graph.edges.len() && (#[trigger] st.graph.edges[k]).source == source
            && st.graph.edges[k].kind == kind && st.graph.edges[k].target.0 < size(st)
            && st.graph.blocks[st.graph.edges[k].target.0 as int].kind
            == BasicBlockKind::FinallyHandler;
    assert(later.graph.edges[k] == st.graph.edges[k]);
    assert(later.graph.blocks[later.graph.edges[k].target.0 as int].kind
        == BasicBlockKind::FinallyHandler);
}

proof fn lemma_entered_edges(
    st: StateModel,
    entries: Seq<(BlockId, EdgeKind)>,
    i: int,
    target: BlockId,
    e: int,
)
    requires
        0 <= i <= e < entries.len(),
        target.0 < size(st),
        st.graph.blocks[target.0 as int].kind == BasicBlockKind::FinallyHandler,
    ensures
        enters_finalizer(entered(st, entries, i, target), entries[e].0, entries[e].1),
    decreases entries.len() - i,
{
    let next = st.edge(entries[i].0, target, entries[i].1);
    if i == e {
        assert(next.graph.edges[st.graph.edges.len() as int].source == entries[e].0);
        assert(enters_finalizer(next, entries[e].0, entries[e].1));
        lemma_entered(outermost(), next, entries, i + 1, target);
        lemma_enters_still(
            next,
            entered(next, entries, i + 1, target),
            entries[e].0,
            entries[e].1,
        );
    } else {
        lemma_entered_edges(next, entries, i + 1, target, e);
    }
}

proof fn lemma_finalize_enters(
    env: EnvModel,
    ctx: ContextModel,
    st: StateModel,
    node: SyntaxNode,
    scope: usize,
    groups: Seq<GroupModel>,
    i: int,
    normal: Option<BlockId>,
    acc: Seq<TransferModel>,
    g: int,
    e: int,
)
    requires
        size(finalize(env, ctx, st, node, scope, groups, i, normal, acc).0) <= usize::MAX,
        sound(st),
        context_ok(ctx, size(st)),
        groups_ok(groups, size(st)),
        opt_inside(normal, size(st)),
        transfers_ok(acc, size(st)),
        0 <= i <= g < groups.len(),
        0 <= e < groups[g].entries.len(),
    ensures
        enters_finalizer(
            finalize(env, ctx, st, node, scope, groups, i, normal, acc).0,
            groups[g].entries[e].0,
            groups[g].entries[e].1,
        ),
    decreases groups.len() - i,
{
    let last = finalize(env, ctx, st, node, scope, groups, i, normal, acc).0;
    let (s3, n3, a3) = group_done(env, ctx, st, node, scope, groups[i], normal, acc);
    lemma_group_done(env, ctx, st, node, scope, groups[i], normal, acc);
    lemma_finalize(env, ctx, s3, node, scope, groups, i + 1, n3, a3);
    assert(group_ok(groups[i], size(st)));
    if g == i {
        let (s1, entry, f) = finally_body(env, ctx, st, node, scope, groups[i].key);
        let s2 = entered(s1, groups[i].entries, 0, entry);
        lemma_finally_body(env, ctx, st, node, scope, groups[i].key);
        lemma_entered(ctx, s1, groups[i].entries, 0, entry);
        lemma_entered_edges(s1, groups[i].entries, 0, entry, e);
        lemma_enters_still(s2, last, groups[g].entries[e].0, groups[g].entries[e].1);
    } else {
        lemma_groups_grow(groups, size(st), size(s3));
        lemma_finalize_enters(env, ctx, s3, node, scope, groups, i + 1, n3, a3, g, e);
    }
}

/// Whether one of the groups has an entry.
pub open spec fn has_entry(groups: Seq<GroupModel>, entry: (BlockId, EdgeKind)) -> bool {
    exists|g: int, e: int|
        0 <= g < groups.len() && 0 <= e < groups[g].entries.len() && #[trigger] groups[g].entries[e]
            == entry
}

proof fn lemma_grouped_keeps(groups: Seq<GroupModel>, t: TransferModel, entry: (BlockId, EdgeKind))
    requires
        has_entry(groups, entry),
    ensures
        has_entry(grouped(groups, t), entry),
{
    lemma_group_bounds(groups, Some(t.key()), 0);
    let after = grouped(groups, t);
    let (g, e) = choose|g: int, e: int|
        0 <= g < groups.len() && 0 <= e < groups[g].entries.len() && #[trigger] groups[g].entries[e]
            == entry;
    assert(after[g].entries[e] == entry);
}

proof fn lemma_grouped_has(groups: Seq<GroupModel>, t: TransferModel)
    ensures
        has_entry(grouped(groups, t), (t.source, crate::scope_graph::entry_edge(t))),
{
    lemma_group_bounds(groups, Some(t.key()), 0);
    let after = grouped(groups, t);
    match group_with(groups, Some(t.key()), 0) {
        Some(k) => {
            let e = groups[k].entries.len() as int;
            assert(after[k].entries[e] == (t.source, crate::scope_graph::entry_edge(t)));
        },
        None => {
            let k = groups.len() as int;
            assert(after[k].entries[0] == (t.source, crate::scope_graph::entry_edge(t)));
        },
    }
}

proof fn lemma_groups_have(
    normal: Option<BlockId>,
    transfers: Seq<TransferModel>,
    scope: usize,
    n: int,
)
    requires
        0 <= n <= transfers.len(),
    ensures
        normal matches Some(b) ==> has_entry(
            groups_of(normal, transfers, scope, n),
            (b, EdgeKind::FinallyEntry),
        ),
        forall|k: int|
            0 <= k < n && (#[trigger] transfers[k]).leaves(scope) ==> has_entry(
                groups_of(normal, transfers, scope, n),
                (transfers[k].source, crate::scope_graph::entry_edge(transfers[k])),
            ),
    decreases n,
{
    if n == 0 {
        if let Some(b) = normal {
            let groups = groups_of(normal, transfers, scope, 0);
            assert(groups[0].entries[0] == (b, EdgeKind::FinallyEntry));
        }
    } else {
        lemma_groups_have(normal, transfers, scope, n - 1);
        let before = groups_of(normal, transfers, scope, n - 1);
        let t = transfers[n - 1];
        if t.leaves(scope) {
            lemma_grouped_has(before, t);
            if let Some(b) = normal {
                lemma_grouped_keeps(before, t, (b, EdgeKind::FinallyEntry));
            }
            assert forall|k: int| 0 <= k < n && (#[trigger] transfers[k]).leaves(
                scope,
            ) implies has_entry(
                groups_of(normal, transfers, scope, n),
                (transfers[k].source, crate::scope_graph::entry_edge(transfers[k])),
            ) by {
                if k < n - 1 {
                    lemma_grouped_keeps(
                        before,
                        t,
                        (transfers[k].source, crate::scope_graph::entry_edge(transfers[k])),
                    );
                }
            }
        }
    }
}

/// Every way out of the protected statements of a `try..finally` enters the
/// finalizer: the normal end, each exception, each `Exit`, and each `break`,
/// `continue` or `goto` whose target lies outside.
pub proof fn law_every_way_out_enters_the_finalizer(
    env: EnvModel,
    ctx: ContextModel,
    st: StateModel,
    node: SyntaxNode,
    current: BlockId,
)
    requires
        sound(st),
        context_ok(ctx, size(st)),
        inside(current, size(st)),
        size(try_finally(env, ctx, st, node, current).0) <= usize::MAX,
    ensures
        ({
            let scope = scope_number(
                env.scope_ids,
                node.start,
                node.end,
                env.scope_ids.len() as int,
            );
            let body = try_body(env, ctx.in_cleanup(scope), st, node, current).1;
            let after = try_finally(env, ctx, st, node, current).0;
            &&& body.normal matches Some(end) ==> enters_finalizer(
                after,
                end,
                EdgeKind::FinallyEntry,
            )
            &&& forall|k: int|
                0 <= k < body.transfers.len() && (#[trigger] body.transfers[k]).leaves(scope)
                    ==> enters_finalizer(
                    after,
                    body.transfers[k].source,
                    crate::scope_graph::entry_edge(body.transfers[k]),
                )
        }),
{
    let scope = scope_number(env.scope_ids, node.start, node.end, env.scope_ids.len() as int);
    let inner = ctx.in_cleanup(scope);
    let (s, f) = try_body(env, inner, st, node, current);
    lemma_try_body(env, inner, st, node, current);
    assert(context_ok(inner, size(st)));
    let transfers = distinct(f.transfers);
    let count = transfers.len() as int;
    let groups = groups_of(f.normal, transfers, scope, count);
    let rest = staying(transfers, scope, count);
    let after = finalize(env, ctx, s, node, scope, groups, 0, None, rest).0;
    lemma_finalize(env, ctx, s, node, scope, groups, 0, None, rest);
    lemma_distinct_ok(f.transfers, size(s));
    lemma_groups_of(f.normal, transfers, scope, count, size(s));
    lemma_staying(transfers, scope, count, size(s));
    lemma_groups_have(f.normal, transfers, scope, count);
    assert forall|entry: (BlockId, EdgeKind)| #[trigger] has_entry(groups, entry) implies
        enters_finalizer(after, entry.0, entry.1) by {
        let (g, e) = choose|g: int, e: int|
            0 <= g < groups.len() && 0 <= e < groups[g].entries.len()
                && #[trigger] groups[g].entries[e] == entry;
        lemma_finalize_enters(env, ctx, s, node, scope, groups, 0, None, rest, g, e);
    }
    assert forall|k: int| 0 <= k < f.transfers.len() && (#[trigger] f.transfers[k]).leaves(
        scope,
    ) implies enters_finalizer(
        after,
        f.transfers[k].source,
        crate::scope_graph::entry_edge(f.transfers[k]),
    ) by {
        lemma_distinct_holds(f.transfers, k);
        let j = choose|j: int| 0 <= j < transfers.len() && transfers[j] == f.transfers[k];
        assert(transfers[j].leaves(scope));
        assert(has_entry(
            groups,
            (f.transfers[k].source, crate::scope_graph::entry_edge(f.transfers[k])),
        ));
    }
}

/// Whether all transfers that leave a cleanup scope have passed a finalizer.
pub open spec fn passed(transfers: Seq<TransferModel>, scope: usize) -> bool {
    forall|k: int|
        0 <= k < transfers.len() && (#[trigger] transfers[k]).leaves(scope)
            ==> transfers[k].from_finally
}

proof fn lemma_staying_stays(transfers: Seq<TransferModel>, scope: usize, n: int)
    ensures
        passed(staying(transfers, scope, n), scope),
    decreases n,
{
    if 0 < n <= transfers.len() {
        lemma_staying_stays(transfers, scope, n - 1);
    }
}

proof fn lemma_finalize_passed(
    env: EnvModel,
    ctx: ContextModel,
    st: StateModel,
    node: SyntaxNode,
    scope: usize,
    groups: Seq<GroupModel>,
    i: int,
    normal: Option<BlockId>,
    acc: Seq<TransferModel>,
)
    requires
        passed(acc, scope),
    ensures
        passed(
            finalize(env, ctx, st, node, scope, groups, i, normal, acc).1.transfers,
            scope,
        ),
    decreases groups.len() - i,
{
    if i < 0 || i >= groups.len() {
        assert forall|k: int| 0 <= k < distinct(acc).len() && (#[trigger] distinct(acc)[k]).leaves(
            scope,
        ) implies distinct(acc)[k].from_finally by {
            lemma_distinct_from(acc, k);
            let j = choose|j: int| 0 <= j < acc.len() && acc[j] == distinct(acc)[k];
            assert(acc[j].leaves(scope));
        }
    } else {
        let (s3, n3, a3) = group_done(env, ctx, st, node, scope, groups[i], normal, acc);
        assert(passed(a3, scope));
        lemma_finalize_passed(env, ctx, s3, node, scope, groups, i + 1, n3, a3);
    }
}

/// What is still pending behind a `try..finally` and leads out of it has passed
/// its finalizer.
pub proof fn law_what_leaves_has_passed_the_finalizer(
    env: EnvModel,
    ctx: ContextModel,
    st: StateModel,
    node: SyntaxNode,
    current: BlockId,
)
    ensures
        passed(
            try_finally(env, ctx, st, node, current).1.transfers,
            scope_number(env.scope_ids, node.start, node.end, env.scope_ids.len() as int),
        ),
{
    let scope = scope_number(env.scope_ids, node.start, node.end, env.scope_ids.len() as int);
    let (s, f) = try_body(env, ctx.in_cleanup(scope), st, node, current);
    let transfers = distinct(f.transfers);
    let count = transfers.len() as int;
    lemma_staying_stays(transfers, scope, count);
    lemma_finalize_passed(
        env,
        ctx,
        s,
        node,
        scope,
        groups_of(f.normal, transfers, scope, count),
        0,
        None,
        staying(transfers, scope, count),
    );
}

// Loops and scope boundaries ---------------------------------------------------------------------

pub proof fn lemma_settled_holds(
    st: StateModel,
    transfers: Seq<TransferModel>,
    i: int,
    after: BlockId,
    again: BlockId,
    acc: Seq<TransferModel>,
    k: int,
)
    requires
        0 <= i <= k < transfers.len(),
    ensures
        ({
            let (s, r) = settled(st, transfers, i, after, again, acc);
            let t = transfers[k];
            &&& t.kind == TransferKind::Break && t.target == Some(after)
                ==> s.graph.edges.contains(
                Edge { source: t.source, target: after, kind: t.completion() },
            )
            &&& t.kind == TransferKind::Continue && t.target == Some(again) && !(t.kind
                == TransferKind::Break && t.target == Some(after)) ==> s.graph.edges.contains(
                Edge { source: t.source, target: again, kind: t.completion() },
            )
            &&& !(t.kind == TransferKind::Break && t.target == Some(after)) && !(t.kind
                == TransferKind::Continue && t.target == Some(again)) ==> r.contains(t)
        }),
    decreases transfers.len() - i,
{
    let t = transfers[i];
    let leaves = t.kind == TransferKind::Break && t.target == Some(after);
    let restarts = t.kind == TransferKind::Continue && t.target == Some(again);
    let s1 = if leaves {
        st.edge(t.source, after, t.completion())
    } else if restarts {
        st.edge(t.source, again, t.completion())
    } else {
        st
    };
    let acc1 = if leaves || restarts {
        acc
    } else {
        acc.push(t)
    };
    if k > i {
        lemma_settled_holds(s1, transfers, i + 1, after, again, acc1, k);
    } else {
        lemma_settled(outermost(), s1, transfers, i + 1, after, again, acc1);
        lemma_settled_keeps(s1, transfers, i + 1, after, again, acc1);
        let (s, r) = settled(s1, transfers, i + 1, after, again, acc1);
        assert(extends(s1, s));
        reveal(extends);
        if leaves || restarts {
            let n = st.graph.edges.len() as int;
            assert(s.graph.edges[n] == s1.graph.edges[n]);
        } else {
            assert(r[acc.len() as int] == t);
        }
    }
}

pub proof fn lemma_settled_keeps(
    st: StateModel,
    transfers: Seq<TransferModel>,
    i: int,
    after: BlockId,
    again: BlockId,
    acc: Seq<TransferModel>,
)
    ensures
        acc.len() <= settled(st, transfers, i, after, again, acc).1.len(),
        forall|k: int|
            0 <= k < acc.len() ==> #[trigger] settled(
                st,
                transfers,
                i,
                after,
                again,
                acc,
            ).1[k] == acc[k],
    decreases transfers.len() - i,
{
    if 0 <= i < transfers.len() {
        let t = transfers[i];
        if t.kind == TransferKind::Break && t.target == Some(after) {
            lemma_settled_keeps(
                st.edge(t.source, after, t.completion()),
                transfers,
                i + 1,
                after,
                again,
                acc,
            );
        } else if t.kind == TransferKind::Continue && t.target == Some(again) {
            lemma_settled_keeps(
                st.edge(t.source, again, t.completion()),
                transfers,
                i + 1,
                after,
                again,
                acc,
            );
        } else {
            lemma_settled_keeps(st, transfers, i + 1, after, again, acc.push(t));
            let r = settled(st, transfers, i + 1, after, again, acc.push(t)).1;
            assert forall|k: int| 0 <= k < acc.len() implies #[trigger] settled(
                st,
                transfers,
                i,
                after,
                again,
                acc,
            ).1[k] == acc[k] by {
                assert(r[k] == acc.push(t)[k]);
            }
        }
    }
}

/// Whether a transfer is a `break` or `continue` of the loop with the given blocks.
pub open spec fn of_loop(t: TransferModel, after: BlockId, again: BlockId) -> bool {
    (t.kind == TransferKind::Break && t.target == Some(after)) || (t.kind == TransferKind::Continue
        && t.target == Some(again))
}

pub proof fn lemma_settled_rest(
    st: StateModel,
    transfers: Seq<TransferModel>,
    i: int,
    after: BlockId,
    again: BlockId,
    acc: Seq<TransferModel>,
)
    requires
        forall|k: int| 0 <= k < acc.len() ==> !of_loop(#[trigger] acc[k], after, again),
    ensures
        ({
            let r = settled(st, transfers, i, after, again, acc).1;
            forall|k: int| 0 <= k < r.len() ==> !of_loop(#[trigger] r[k], after, again)
        }),
    decreases transfers.len() - i,
{
    if 0 <= i < transfers.len() {
        let t = transfers[i];
        if t.kind == TransferKind::Break && t.target == Some(after) {
            let s = st.edge(t.source, after, t.completion());
            lemma_settled_rest(s, transfers, i + 1, after, again, acc);
            assert(settled(st, transfers, i, after, again, acc) == settled(
                s,
                transfers,
                i + 1,
                after,
                again,
                acc,
            ));
        } else if t.kind == TransferKind::Continue && t.target == Some(again) {
            let s = st.edge(t.source, again, t.completion());
            lemma_settled_rest(s, transfers, i + 1, after, again, acc);
            assert(settled(st, transfers, i, after, again, acc) == settled(
                s,
                transfers,
                i + 1,
                after,
                again,
                acc,
            ));
        } else {
            lemma_settled_rest(st, transfers, i + 1, after, again, acc.push(t));
            assert(settled(st, transfers, i, after, again, acc) == settled(
                st,
                transfers,
                i + 1,
                after,
                again,
                acc.push(t),
            ));
        }
    }
}

/// A `for` or `while` loop turns each `break` and `continue` that belongs to it
/// into an edge to the block behind the loop or to its header; every other
/// transfer of its body goes on outward, and none of its own does.
pub proof fn law_loop_settles_its_own_transfers(
    env: EnvModel,
    ctx: ContextModel,
    st: StateModel,
    node: SyntaxNode,
    current: BlockId,
    k: int,
)
    requires
        0 <= k < loop_body(env, ctx, st, node, current).1.transfers.len(),
    ensures
        ({
            let again = st.next();
            let after = st.block(BasicBlockKind::Normal).block(BasicBlockKind::Normal).next();
            let t = loop_body(env, ctx, st, node, current).1.transfers[k];
            let (last, flow) = counted_loop(env, ctx, st, node, current);
            &&& flow.normal == Some(after)
            &&& t.kind == TransferKind::Break && t.target == Some(after)
                ==> last.graph.edges.contains(
                Edge { source: t.source, target: after, kind: t.completion() },
            )
            &&& t.kind == TransferKind::Continue && t.target == Some(again)
                ==> last.graph.edges.contains(
                Edge { source: t.source, target: again, kind: t.completion() },
            )
            &&& !of_loop(t, after, again) ==> flow.transfers.contains(t)
            &&& forall|n: int|
                0 <= n < flow.transfers.len() ==> !of_loop(
                    #[trigger] flow.transfers[n],
                    after,
                    again,
                )
        }),
{
    let again = st.next();
    let after = st.block(BasicBlockKind::Normal).block(BasicBlockKind::Normal).next();
    let (s4, f) = loop_body(env, ctx, st, node, current);
    let s5 = match f.normal {
        Some(end) => s4.edge(end, again, EdgeKind::LoopBack),
        None => s4,
    };
    lemma_settled_holds(s5, f.transfers, 0, after, again, implicit(ctx, again), k);
    lemma_settled_rest(s5, f.transfers, 0, after, again, implicit(ctx, again));
}

/// The walk of the body of a `for` or `while` loop.
pub open spec fn loop_body(
    env: EnvModel,
    ctx: ContextModel,
    st: StateModel,
    node: SyntaxNode,
    current: BlockId,
) -> (StateModel, crate::flow::FlowModel) {
    let c = st.next();
    let s1 = st.block(BasicBlockKind::Normal);
    let b = s1.next();
    let s2 = s1.block(BasicBlockKind::Normal);
    let a = s2.next();
    let s3 = loop_header(
        s2.block(BasicBlockKind::Normal).edge(current, c, EdgeKind::Normal),
        c,
        node,
    ).edge(c, b, EdgeKind::ConditionalTrue).edge(c, a, EdgeKind::LoopExit);
    walk(env, ctx.in_loop(c, a), s3, node, Selection::Body, 0, Some(b), Seq::empty())
}

/// A `repeat` loop turns each `break` that belongs to it into an edge to the block
/// behind the loop and each `continue` into an edge to the block of its condition;
/// every other transfer of its body goes on outward, and none of its own does.
pub proof fn law_repeat_settles_its_own_transfers(
    env: EnvModel,
    ctx: ContextModel,
    st: StateModel,
    node: SyntaxNode,
    current: BlockId,
    k: int,
)
    requires
        0 <= k < repeat_body(env, ctx, st, node, current).1.transfers.len(),
    ensures
        ({
            let again = st.block(BasicBlockKind::Normal).next();
            let after = st.block(BasicBlockKind::Normal).block(BasicBlockKind::Normal).next();
            let t = repeat_body(env, ctx, st, node, current).1.transfers[k];
            let (last, flow) = repeat_loop(env, ctx, st, node, current);
            &&& flow.normal == Some(after)
            &&& t.kind == TransferKind::Break && t.target == Some(after)
                ==> last.graph.edges.contains(
                Edge { source: t.source, target: after, kind: t.completion() },
            )
            &&& t.kind == TransferKind::Continue && t.target == Some(again)
                ==> last.graph.edges.contains(
                Edge { source: t.source, target: again, kind: t.completion() },
            )
            &&& !of_loop(t, after, again) ==> flow.transfers.contains(t)
            &&& forall|n: int|
                0 <= n < flow.transfers.len() ==> !of_loop(
                    #[trigger] flow.transfers[n],
                    after,
                    again,
                )
        }),
{
    let again = st.block(BasicBlockKind::Normal).next();
    let after = st.block(BasicBlockKind::Normal).block(BasicBlockKind::Normal).next();
    let (s4, f) = repeat_body(env, ctx, st, node, current);
    let s5 = match f.normal {
        Some(end) => s4.edge(end, again, EdgeKind::Normal),
        None => s4,
    };
    let acc = implicit(ctx, again);
    lemma_settled_holds(s5, f.transfers, 0, after, again, acc, k);
    lemma_settled_rest(s5, f.transfers, 0, after, again, acc);
    let s6 = settled(s5, f.transfers, 0, after, again, acc).0;
    let (last, flow) = repeat_loop(env, ctx, st, node, current);
    assert(repeat_header(s6, again, node).graph.edges == s6.graph.edges);
    assert forall|e: Edge| #[trigger] s6.graph.edges.contains(e) implies last.graph.edges.contains(
        e,
    ) by {
        let n = choose|n: int| 0 <= n < s6.graph.edges.len() && s6.graph.edges[n] == e;
        assert(last.graph.edges[n] == e);
    }
}

/// The walk of the body of a `repeat` loop.
pub open spec fn repeat_body(
    env: EnvModel,
    ctx: ContextModel,
    st: StateModel,
    node: SyntaxNode,
    current: BlockId,
) -> (StateModel, crate::flow::FlowModel) {
    let b = st.next();
    let s1 = st.block(BasicBlockKind::Normal);
    let c = s1.next();
    let s2 = s1.block(BasicBlockKind::Normal);
    let a = s2.next();
    let s3 = s2.block(BasicBlockKind::Normal).edge(current, b, EdgeKind::Normal);
    walk(env, ctx.in_loop(c, a), s3, node, Selection::Body, 0, Some(b), Seq::empty())
}

/// Where a transfer goes that has reached the boundary of its scope: exceptions
/// and `Exit` leave the scope; a `goto` goes to its label, or leaves the scope
/// where there is none; a `break` or `continue` goes to its loop.
pub open spec fn destination(env: EnvModel, st: StateModel, t: TransferModel) -> Option<BlockId> {
    match t.kind {
        TransferKind::Exception => Some(env.exit),
        TransferKind::Exit => Some(env.exit),
        TransferKind::Goto => match t.target {
            Some(b) => Some(b),
            None => match (t.binding, t.label) {
                (Some(binding), Some(label)) => match goto_target(
                    st.targets,
                    st.parents,
                    binding,
                    label,
                ) {
                    Some(b) => Some(b),
                    None => Some(env.exit),
                },
                _ => Some(env.exit),
            },
        },
        _ => t.target,
    }
}

/// Whether some edge leads from one block to another.
pub open spec fn leads(edges: Seq<Edge>, source: BlockId, target: BlockId) -> bool {
    exists|k: int|
        0 <= k < edges.len() && (#[trigger] edges[k]).source == source && edges[k].target == target
}

proof fn lemma_routed_step(env: EnvModel, st: StateModel, t: TransferModel)
    ensures
        extends(st, routed(env, st, t)),
        routed(env, st, t).targets == st.targets,
        routed(env, st, t).parents == st.parents,
        destination(env, st, t) matches Some(b) ==> leads(
            routed(env, st, t).graph.edges,
            t.source,
            b,
        ),
{
    let after = routed(env, st, t);
    if let Some(b) = destination(env, st, t) {
        let n = st.graph.edges.len() as int;
        assert(after.graph.edges.len() == n + 1);
        assert(after.graph.edges[n].source == t.source && after.graph.edges[n].target == b);
    }
}

proof fn lemma_routed_all_holds(
    env: EnvModel,
    st: StateModel,
    transfers: Seq<TransferModel>,
    i: int,
    k: int,
)
    requires
        0 <= i <= transfers.len(),
        i <= k < transfers.len() || k == -1,
    ensures
        extends(st, routed_all(env, st, transfers, i)),
        k >= 0 ==> (destination(env, st, transfers[k]) matches Some(b) ==> leads(
            routed_all(env, st, transfers, i).graph.edges,
            transfers[k].source,
            b,
        )),
    decreases transfers.len() - i,
{
    if i < transfers.len() {
        let s = routed(env, st, transfers[i]);
        lemma_routed_step(env, st, transfers[i]);
        if k > i {
            lemma_routed_all_holds(env, s, transfers, i + 1, k);
            assert(destination(env, s, transfers[k]) == destination(env, st, transfers[k]));
        } else {
            lemma_routed_all_holds(env, s, transfers, i + 1, -1);
            if k == i {
                if let Some(b) = destination(env, st, transfers[k]) {
                    let source = transfers[k].source;
                    let j = choose|j: int|
                        0 <= j < s.graph.edges.len() && (#[trigger] s.graph.edges[j]).source
                            == source && s.graph.edges[j].target == b;
                    reveal(extends);
                    let edges = routed_all(env, st, transfers, i).graph.edges;
                    assert(edges[j] == s.graph.edges[j]);
                    assert(leads(edges, source, b));
                }
            }
        }
    }
}

/// No transfer is lost at the boundary of a scope: each that is pending there gets
/// an edge to its destination.
pub proof fn law_pending_transfers_reach_their_destination(
    env: EnvModel,
    st: StateModel,
    f: crate::flow::FlowModel,
    k: int,
)
    requires
        0 <= k < f.transfers.len(),
    ensures
        destination(env, st, f.transfers[k]) matches Some(b) ==> leads(
            finished(env, st, f).graph.edges,
            f.transfers[k].source,
            b,
        ),
{
    let after = match f.normal {
        Some(end) => st.edge(end, env.exit, EdgeKind::Normal),
        None => st,
    };
    lemma_routed_all_holds(env, after, f.transfers, 0, k);
    assert(destination(env, after, f.transfers[k]) == destination(env, st, f.transfers[k]));
}

// Handlers ---------------------------------------------------------------------------------------

/// Whether a handler is certain to receive an exception that reaches it.
pub open spec fn certain(x: IndexModel, t: TransferModel, h: HandlerModel) -> bool {
    h.catch_all || crate::exception_types::matches_handler(
        x,
        crate::scope_graph::fact_of(t),
        h.fact,
    ) == TypeMatch::Yes
}

/// Whether a handler may receive an exception that reaches it: it is not known to
/// be for other classes only.
pub open spec fn possible(x: IndexModel, t: TransferModel, h: HandlerModel) -> bool {
    h.catch_all || crate::exception_types::matches_handler(
        x,
        crate::scope_graph::fact_of(t),
        h.fact,
    ) != TypeMatch::No
}

/// Whether an exception reaches handler `h`: none before it is certain to
/// receive it.
pub open spec fn reaches(
    x: IndexModel,
    t: TransferModel,
    handlers: Seq<HandlerModel>,
    h: int,
) -> bool {
    forall|k: int| 0 <= k < h ==> !certain(x, t, #[trigger] handlers[k])
}

/// Whether an exceptional edge leads from one block to another.
pub open spec fn throws_to(st: StateModel, source: BlockId, target: BlockId) -> bool {
    st.graph.edges.contains(Edge { source, target, kind: EdgeKind::ExceptionThrow })
}

proof fn lemma_throws_still(st: StateModel, later: StateModel, source: BlockId, target: BlockId)
    requires
        throws_to(st, source, target),
        extends(st, later),
    ensures
        throws_to(later, source, target),
{
    reveal(extends);
    let e = Edge { source, target, kind: EdgeKind::ExceptionThrow };
    let k = choose|k: int| 0 <= k < st.graph.edges.len() && st.graph.edges[k] == e;
    assert(later.graph.edges[k] == e);
}

proof fn lemma_dispatch_reaches(
    x: IndexModel,
    st: StateModel,
    t: TransferModel,
    handlers: Seq<HandlerModel>,
    i: int,
    h: int,
)
    requires
        0 <= i <= h < handlers.len(),
        reaches(x, t, handlers, h),
        possible(x, t, handlers[h]),
    ensures
        throws_to(dispatch(x, st, t, handlers, i).0, t.source, handlers[h].entry),
    decreases handlers.len() - i,
{
    let caught = st.edge(t.source, handlers[i].entry, EdgeKind::ExceptionThrow);
    let after = dispatch(x, st, t, handlers, i).0;
    lemma_dispatch(outermost(), x, caught, t, handlers, i + 1);
    if i == h {
        assert(caught.graph.edges[st.graph.edges.len() as int] == (Edge {
            source: t.source,
            target: handlers[h].entry,
            kind: EdgeKind::ExceptionThrow,
        }));
        assert(throws_to(caught, t.source, handlers[h].entry));
        lemma_throws_still(caught, after, t.source, handlers[h].entry);
    } else {
        assert(!certain(x, t, handlers[i]));
        lemma_dispatch_reaches(x, st, t, handlers, i + 1, h);
        lemma_dispatch_reaches(x, caught, t, handlers, i + 1, h);
    }
}

proof fn lemma_dispatch_escapes(
    x: IndexModel,
    st: StateModel,
    t: TransferModel,
    handlers: Seq<HandlerModel>,
    i: int,
)
    requires
        0 <= i <= handlers.len(),
    ensures
        dispatch(x, st, t, handlers, i).1 == (forall|k: int|
            i <= k < handlers.len() ==> !certain(x, t, #[trigger] handlers[k])),
    decreases handlers.len() - i,
{
    if i < handlers.len() {
        let caught = st.edge(t.source, handlers[i].entry, EdgeKind::ExceptionThrow);
        lemma_dispatch_escapes(x, st, t, handlers, i + 1);
        lemma_dispatch_escapes(x, caught, t, handlers, i + 1);
        if certain(x, t, handlers[i]) {
            assert(!dispatch(x, st, t, handlers, i).1);
        } else {
            assert(dispatch(x, st, t, handlers, i).1 == dispatch(x, st, t, handlers, i + 1).1);
        }
    }
}

proof fn lemma_dispatch_all_holds(
    x: IndexModel,
    st: StateModel,
    exceptions: Seq<TransferModel>,
    handlers: Seq<HandlerModel>,
    i: int,
    acc: Seq<TransferModel>,
    k: int,
    h: int,
)
    requires
        0 <= i <= k < exceptions.len(),
        0 <= h <= handlers.len(),
        reaches(x, exceptions[k], handlers, h),
    ensures
        ({
            let (s, r) = dispatch_all(x, st, exceptions, handlers, i, acc);
            &&& h < handlers.len() && possible(x, exceptions[k], handlers[h]) ==> throws_to(
                s,
                exceptions[k].source,
                handlers[h].entry,
            )
            &&& h == handlers.len() ==> r.contains(exceptions[k])
        }),
    decreases exceptions.len() - i,
{
    let (s, escapes) = dispatch(x, st, exceptions[i], handlers, 0);
    let acc1 = if escapes {
        acc.push(exceptions[i])
    } else {
        acc
    };
    let (last, r) = dispatch_all(x, s, exceptions, handlers, i + 1, acc1);
    if k == i {
        lemma_dispatch_all(outermost(), x, s, exceptions, handlers, i + 1, acc1);
        if h < handlers.len() {
            if possible(x, exceptions[k], handlers[h]) {
                lemma_dispatch_reaches(x, st, exceptions[k], handlers, 0, h);
                lemma_throws_still(s, last, exceptions[k].source, handlers[h].entry);
            }
        } else {
            lemma_dispatch_escapes(x, st, exceptions[k], handlers, 0);
            lemma_dispatch_all_keeps(x, s, exceptions, handlers, i + 1, acc1);
            assert(acc1[acc1.len() - 1] == exceptions[k]);
            assert(r[acc1.len() - 1] == exceptions[k]);
        }
    } else {
        lemma_dispatch_all_holds(x, s, exceptions, handlers, i + 1, acc1, k, h);
    }
}

pub proof fn lemma_dispatch_all_keeps(
    x: IndexModel,
    st: StateModel,
    exceptions: Seq<TransferModel>,
    handlers: Seq<HandlerModel>,
    i: int,
    acc: Seq<TransferModel>,
)
    ensures
        acc.len() <= dispatch_all(x, st, exceptions, handlers, i, acc).1.len(),
        forall|k: int|
            0 <= k < acc.len() ==> #[trigger] dispatch_all(
                x,
                st,
                exceptions,
                handlers,
                i,
                acc,
            ).1[k] == acc[k],
    decreases exceptions.len() - i,
{
    if 0 <= i < exceptions.len() {
        let (s, escapes) = dispatch(x, st, exceptions[i], handlers, 0);
        let acc1 = if escapes {
            acc.push(exceptions[i])
        } else {
            acc
        };
        lemma_dispatch_all_keeps(x, s, exceptions, handlers, i + 1, acc1);
        let r = dispatch_all(x, s, exceptions, handlers, i + 1, acc1).1;
        assert forall|k: int| 0 <= k < acc.len() implies #[trigger] dispatch_all(
            x,
            st,
            exceptions,
            handlers,
            i,
            acc,
        ).1[k] == acc[k] by {
            assert(r[k] == acc1[k]);
        }
    }
}

pub proof fn lemma_exceptions_hold(transfers: Seq<TransferModel>, wanted: bool, n: int, k: int)
    requires
        0 <= k < n <= transfers.len(),
        (transfers[k].kind == TransferKind::Exception) == wanted,
    ensures
        exceptions_of(transfers, wanted, n).contains(transfers[k]),
    decreases n,
{
    let before = exceptions_of(transfers, wanted, n - 1);
    let after = exceptions_of(transfers, wanted, n);
    if k < n - 1 {
        lemma_exceptions_hold(transfers, wanted, n - 1, k);
        let j = choose|j: int| 0 <= j < before.len() && before[j] == transfers[k];
        assert(after[j] == transfers[k]);
    } else {
        assert(after[before.len() as int] == transfers[k]);
    }
}

pub proof fn lemma_handler_transfers_keep(
    handlers: Seq<HandlerModel>,
    before: Seq<TransferModel>,
    n: int,
    t: TransferModel,
)
    requires
        before.contains(t),
    ensures
        handler_transfers(handlers, before, n).contains(t),
    decreases n,
{
    if 0 < n <= handlers.len() {
        lemma_handler_transfers_keep(handlers, before, n - 1, t);
        let shorter = handler_transfers(handlers, before, n - 1);
        let j = choose|j: int| 0 <= j < shorter.len() && shorter[j] == t;
        assert(handler_transfers(handlers, before, n)[j] == t);
    }
}

/// The handlers of a `try..except`, as the walk of its protected statements and
/// of the handlers themselves gives them.
pub open spec fn handlers_of(
    env: EnvModel,
    ctx: ContextModel,
    st: StateModel,
    node: SyntaxNode,
    current: BlockId,
) -> Seq<HandlerModel> {
    let (s1, f) = try_body(
        env,
        ctx.in_dispatch(st.graph.blocks.len() as usize),
        st,
        node,
        current,
    );
    all_handlers(
        env,
        ctx,
        s1,
        node,
        facts_of(exceptions_of(f.transfers, true, f.transfers.len() as int)),
    ).1
}

/// An exception of the protected statements of a `try..except` has an edge to
/// every handler that it reaches and that may receive it; where no handler is
/// certain to receive it, it goes on outward. Only a handler that is proven to be
/// for other classes is left out.
pub proof fn law_exceptions_reach_every_possible_handler(
    env: EnvModel,
    ctx: ContextModel,
    st: StateModel,
    node: SyntaxNode,
    current: BlockId,
    k: int,
    h: int,
)
    requires
        ({
            let body = try_body(
                env,
                ctx.in_dispatch(st.graph.blocks.len() as usize),
                st,
                node,
                current,
            ).1;
            let handlers = handlers_of(env, ctx, st, node, current);
            &&& 0 <= k < body.transfers.len()
            &&& body.transfers[k].kind == TransferKind::Exception
            &&& 0 <= h <= handlers.len()
            &&& reaches(env.types, body.transfers[k], handlers, h)
        }),
    ensures
        ({
            let body = try_body(
                env,
                ctx.in_dispatch(st.graph.blocks.len() as usize),
                st,
                node,
                current,
            ).1;
            let handlers = handlers_of(env, ctx, st, node, current);
            let (after, flow) = try_except(env, ctx, st, node, current);
            let t = body.transfers[k];
            &&& h < handlers.len() && possible(env.types, t, handlers[h]) ==> throws_to(
                after,
                t.source,
                handlers[h].entry,
            )
            &&& h == handlers.len() ==> flow.transfers.contains(t)
        }),
{
    let (s1, f) = try_body(
        env,
        ctx.in_dispatch(st.graph.blocks.len() as usize),
        st,
        node,
        current,
    );
    let count = f.transfers.len() as int;
    let t = f.transfers[k];
    let exceptions = exceptions_of(f.transfers, true, count);
    let others = exceptions_of(f.transfers, false, count);
    let (s2, handlers) = all_handlers(env, ctx, s1, node, facts_of(exceptions));
    let (s3, escaped) = dispatch_all(env.types, s2, exceptions, handlers, 0, others);
    lemma_exceptions_hold(f.transfers, true, count, k);
    let j = choose|j: int| 0 <= j < exceptions.len() && exceptions[j] == t;
    lemma_dispatch_all_holds(env.types, s2, exceptions, handlers, 0, others, j, h);
    let first = match f.normal {
        Some(end) => seq![end],
        None => Seq::empty(),
    };
    let ends = handler_ends(handlers, first, handlers.len() as int);
    let s4 = edges_to(
        s3.block(BasicBlockKind::Normal),
        ends,
        0,
        s3.next(),
        EdgeKind::Normal,
    );
    lemma_edges_to(
        ctx,
        s3.block(BasicBlockKind::Normal),
        ends,
        0,
        s3.next(),
        EdgeKind::Normal,
    );
    let after = try_except(env, ctx, st, node, current).0;
    assert(extends(s3, after));
    if h < handlers.len() {
        if possible(env.types, t, handlers[h]) {
            lemma_throws_still(s3, after, t.source, handlers[h].entry);
        }
    } else {
        lemma_handler_transfers_keep(handlers, escaped, handlers.len() as int, t);
    }
}

// Alternatives -----------------------------------------------------------------------------------

/// A block of conditional compilation without an unconditional `else` can be left
/// out as a whole: an edge leads past it.
pub proof fn law_conditional_block_can_be_skipped(
    env: EnvModel,
    ctx: ContextModel,
    st: StateModel,
    node: SyntaxNode,
    current: BlockId,
)
    requires
        !hollow(node, env.source),
        !has_else(node, env.source),
    ensures
        ({
            let (after, flow) = conditional_block(env, ctx, st, node, current);
            flow.normal matches Some(end) && after.graph.edges.contains(
                Edge { source: current, target: end, kind: EdgeKind::ConditionalFalse },
            )
        }),
{
    let (s, ends, transfers) = conditional_branches(
        env,
        ctx,
        st,
        node,
        current,
        0,
        Seq::empty(),
        Seq::empty(),
    );
    let j = s.next();
    let s1 = edges_to(s.block(BasicBlockKind::Normal), ends, 0, j, EdgeKind::Normal);
    let after = s1.edge(current, j, EdgeKind::ConditionalFalse);
    assert(after.graph.edges[s1.graph.edges.len() as int] == (Edge {
        source: current,
        target: j,
        kind: EdgeKind::ConditionalFalse,
    }));
}

/// A `case` without a default arm may match none of its arms: an edge leads from
/// the selector past it.
pub proof fn law_case_without_default_may_match_nothing(
    env: EnvModel,
    ctx: ContextModel,
    st: StateModel,
    node: SyntaxNode,
    current: BlockId,
)
    requires
        !default_before(node, node.children@.len() as int),
    ensures
        ({
            let (after, flow) = case_statement(env, ctx, st, node, current);
            flow.normal matches Some(end) && after.graph.edges.contains(
                Edge {
                    source: prepared(ctx, st, current).1,
                    target: end,
                    kind: EdgeKind::CaseArm,
                },
            )
        }),
{
    let (s0, b) = prepared(ctx, st, current);
    let s1 = match case_selector(node, 0) {
        Some(k) => s0.stmt(b, node.start, node.children@[k].end, node.kind@),
        None => s0,
    };
    let (s2, ends, transfers) = case_arms(
        env,
        ctx,
        s1,
        node,
        b,
        0,
        Seq::empty(),
        implicit(ctx, b),
    );
    let s3 = edges_to(
        s2.block(BasicBlockKind::Normal),
        ends,
        0,
        s2.next(),
        EdgeKind::Normal,
    );
    let after = s3.edge(b, s2.next(), EdgeKind::CaseArm);
    assert(after.graph.edges[s3.graph.edges.len() as int] == (Edge {
        source: b,
        target: s2.next(),
        kind: EdgeKind::CaseArm,
    }));
}

/// The edges that `edges_to` adds all go to its target and have its kind.
proof fn lemma_edges_to_adds(
    st: StateModel,
    ends: Seq<BlockId>,
    i: int,
    target: BlockId,
    kind: EdgeKind,
    k: int,
)
    requires
        0 <= k < edges_to(st, ends, i, target, kind).graph.edges.len(),
    ensures
        k < st.graph.edges.len() ==> edges_to(st, ends, i, target, kind).graph.edges[k]
            == st.graph.edges[k],
        k >= st.graph.edges.len() ==> edges_to(st, ends, i, target, kind).graph.edges[k].kind
            == kind,
    decreases ends.len() - i,
{
    if 0 <= i < ends.len() {
        lemma_edges_to_adds(st.edge(ends[i], target, kind), ends, i + 1, target, kind, k);
    }
}

proof fn lemma_fresh_target(st: StateModel, k: int)
    requires
        sound(st),
        0 <= k < st.graph.edges.len(),
    ensures
        st.graph.edges[k].target.0 < size(st),
{
    reveal(sound);
    if k > 0 {
        assert(edge_ok(st.graph.edges[k], size(st)));
    }
}

/// A `case` with a default arm has no path past its arms: no edge leads from the
/// selector to where the statement ends.
pub proof fn law_case_with_default_takes_an_arm(
    env: EnvModel,
    ctx: ContextModel,
    st: StateModel,
    node: SyntaxNode,
    current: BlockId,
    k: int,
)
    requires
        default_before(node, node.children@.len() as int),
        sound(st),
        context_ok(ctx, size(st)),
        inside(current, size(st)),
        size(case_statement(env, ctx, st, node, current).0) <= usize::MAX,
        0 <= k < case_statement(env, ctx, st, node, current).0.graph.edges.len(),
    ensures
        ({
            let (after, flow) = case_statement(env, ctx, st, node, current);
            flow.normal == Some(after.graph.edges[k].target) ==> after.graph.edges[k].kind
                != EdgeKind::CaseArm
        }),
{
    lemma_prepared(ctx, st, current);
    let (s0, b) = prepared(ctx, st, current);
    let s1 = match case_selector(node, 0) {
        Some(c) => s0.stmt(b, node.start, node.children@[c].end, node.kind@),
        None => s0,
    };
    let (s2, ends, transfers) = case_arms(
        env,
        ctx,
        s1,
        node,
        b,
        0,
        Seq::empty(),
        implicit(ctx, b),
    );
    lemma_case_arms(env, ctx, s1, node, b, 0, Seq::empty(), implicit(ctx, b));
    let d = s2.next();
    let s20 = s2.block(BasicBlockKind::Normal).edge(b, d, EdgeKind::CaseArm);
    let (s3, f) = walk(env, ctx, s20, node, Selection::CaseDefault, 0, Some(d), Seq::empty());
    lemma_walk(env, ctx, s20, node, Selection::CaseDefault, 0, Some(d), Seq::empty());
    let all = match f.normal {
        Some(end) => ends.push(end),
        None => ends,
    };
    if all.len() > 0 {
        let s4 = s3.block(BasicBlockKind::Normal);
        lemma_edges_to(ctx, s4, all, 0, s3.next(), EdgeKind::Normal);
        lemma_edges_to_adds(s4, all, 0, s3.next(), EdgeKind::Normal, k);
        if k < s3.graph.edges.len() {
            lemma_fresh_target(s3, k);
        }
    }
}

// The graphs of a file ---------------------------------------------------------------------------

/// Whether a graph, as far as it can be held in memory, has the form of a
/// control-flow graph with the entry and exit that it names.
pub open spec fn proper(c: CfgModel) -> bool {
    c.graph.blocks.len() <= usize::MAX ==> well_formed(c.graph) && c.entry == BlockId(0) && c.exit
        == BlockId(1)
}

/// Whether all graphs of a list are proper.
pub open spec fn all_proper(cfgs: Seq<CfgModel>) -> bool {
    forall|k: int| 0 <= k < cfgs.len() ==> proper(#[trigger] cfgs[k])
}

proof fn lemma_scope_proper(
    name: Seq<char>,
    start: usize,
    end: usize,
    node: SyntaxNode,
    sel: Selection,
    source: Seq<u8>,
    types: IndexModel,
    unit: usize,
)
    ensures
        proper(scope_cfg(name, start, end, node, sel, source, types, unit)),
{
    if scope_graph(node, sel, source, types, unit).blocks.len() <= usize::MAX {
        law_graph_is_well_formed(node, sel, source, types, unit);
    }
}

proof fn lemma_routines_proper(
    node: SyntaxNode,
    source: Seq<u8>,
    parent: Option<Seq<char>>,
    types: IndexModel,
    unit: usize,
)
    ensures
        all_proper(routines(node, source, parent, types, unit)),
    decreases node, 1int, 0int,
{
    if node.kind@ == "defProc"@ {
        match crate::scope_graph::proc_name(node, source) {
            None => {},
            Some(local) => {
                let qualified = crate::scope_graph::qualified_name(node, source, parent, local);
                let name = if parent is Some {
                    qualified
                } else {
                    local
                };
                if let Some(k) = node.find(any_field("body"@)) {
                    lemma_scope_proper(
                        name,
                        node.start,
                        node.end,
                        node.children@[k],
                        Selection::Block,
                        source,
                        types,
                        unit,
                    );
                }
                lemma_routines_among_proper(node, true, source, Some(qualified), types, unit, 0);
            },
        }
    } else {
        lemma_routines_among_proper(node, false, source, parent, types, unit, 0);
    }
}

proof fn lemma_routines_among_proper(
    node: SyntaxNode,
    local_only: bool,
    source: Seq<u8>,
    parent: Option<Seq<char>>,
    types: IndexModel,
    unit: usize,
    i: int,
)
    ensures
        all_proper(routines_among(node, local_only, source, parent, types, unit, i)),
    decreases node, 0int, node.children@.len() - i,
{
    if 0 <= i < node.children@.len() {
        lemma_routines_proper(node.children@[i], source, parent, types, unit);
        lemma_routines_among_proper(node, local_only, source, parent, types, unit, i + 1);
    }
}

proof fn lemma_sections_proper(
    module: SyntaxNode,
    name: Seq<char>,
    source: Seq<u8>,
    types: IndexModel,
    unit: usize,
    i: int,
)
    ensures
        all_proper(section_graphs(module, name, source, types, unit, i)),
    decreases module.children@.len() - i,
{
    if 0 <= i < module.children@.len() {
        let child = module.children@[i];
        lemma_scope_proper(
            name + ".<"@ + child.kind@ + ">"@,
            child.start,
            child.end,
            child,
            Selection::Section,
            source,
            types,
            unit,
        );
        lemma_scope_proper(
            name + ".<initialization>"@,
            child.start,
            child.end,
            child,
            Selection::Block,
            source,
            types,
            unit,
        );
        lemma_sections_proper(module, name, source, types, unit, i + 1);
    }
}

proof fn lemma_module_proper(root: SyntaxNode, source: Seq<u8>, types: IndexModel, unit: usize)
    ensures
        all_proper(module_graphs(root, source, types, unit)),
{
    if let Some(m) = crate::syntax::module_from(root.children@, 0) {
        let module = root.children@[m];
        if let Some(n) = module.find(any_kind("moduleName"@)) {
            let name = module.children@[n].text(source);
            lemma_sections_proper(module, name, source, types, unit, 0);
            if let Some(b) = module.find(any_kind("block"@)) {
                lemma_scope_proper(
                    name + ".<main>"@,
                    module.children@[b].start,
                    module.children@[b].end,
                    module.children@[b],
                    Selection::Block,
                    source,
                    types,
                    unit,
                );
            }
        }
    }
}

proof fn lemma_slot(cfgs: Seq<CfgModel>, start: usize, i: int)
    requires
        0 <= i <= cfgs.len(),
    ensures
        i <= slot(cfgs, start, i) <= cfgs.len(),
        forall|k: int| i <= k < slot(cfgs, start, i) ==> (#[trigger] cfgs[k]).start <= start,
        slot(cfgs, start, i) < cfgs.len() ==> cfgs[slot(cfgs, start, i)].start > start,
    decreases cfgs.len() - i,
{
    if i < cfgs.len() && cfgs[i].start <= start {
        lemma_slot(cfgs, start, i + 1);
    }
}

/// Whether graphs come in the order in which their scopes start.
pub open spec fn in_source_order(cfgs: Seq<CfgModel>) -> bool {
    forall|i: int, k: int|
        0 <= i <= k < cfgs.len() ==> (#[trigger] cfgs[i]).start <= (#[trigger] cfgs[k]).start
}

/// The graphs of a list whose scopes start at an offset.
pub open spec fn starting_at(cfgs: Seq<CfgModel>, start: usize) -> Seq<CfgModel> {
    cfgs.filter(|c: CfgModel| c.start == start)
}

proof fn lemma_none_starting(cfgs: Seq<CfgModel>, start: usize)
    requires
        forall|k: int| 0 <= k < cfgs.len() ==> (#[trigger] cfgs[k]).start != start,
    ensures
        starting_at(cfgs, start) == Seq::<CfgModel>::empty(),
    decreases cfgs.len(),
{
    reveal(Seq::filter);
    if cfgs.len() > 0 {
        assert(cfgs.last().start != start);
        lemma_none_starting(cfgs.drop_last(), start);
    }
}

/// Putting a graph at its slot keeps the order.
proof fn lemma_insert_ordered(before: Seq<CfgModel>, c: CfgModel)
    requires
        in_source_order(before),
    ensures
        in_source_order(before.insert(slot(before, c.start, 0), c)),
{
    let at = slot(before, c.start, 0);
    lemma_slot(before, c.start, 0);
    let after = before.insert(at, c);
    assert forall|i: int, k: int| 0 <= i <= k < after.len() implies (#[trigger] after[i]).start <= (
    #[trigger] after[k]).start by {
        let x = if i < at {
            i
        } else {
            i - 1
        };
        let y = if k < at {
            k
        } else {
            k - 1
        };
        if i == at {
            if k > at {
                assert(before[at].start <= before[y].start);
            }
        } else if k == at {
            assert(before[x].start <= c.start);
        } else {
            assert(before[x].start <= before[y].start);
        }
    }
}

/// A graph at its slot stands behind those that start where it does.
proof fn lemma_insert_starting(before: Seq<CfgModel>, c: CfgModel, start: usize)
    requires
        in_source_order(before),
    ensures
        starting_at(before.insert(slot(before, c.start, 0), c), start) == starting_at(before, start)
            + starting_at(seq![c], start),
{
    let at = slot(before, c.start, 0);
    lemma_slot(before, c.start, 0);
    let head = before.subrange(0, at);
    let tail = before.subrange(at, before.len() as int);
    let p = |x: CfgModel| x.start == start;
    assert(before =~= head + tail);
    assert(before.insert(at, c) =~= head + seq![c] + tail);
    Seq::filter_distributes_over_add(head, tail, p);
    Seq::filter_distributes_over_add(head + seq![c], tail, p);
    Seq::filter_distributes_over_add(head, seq![c], p);
    if c.start == start {
        assert forall|k: int| 0 <= k < tail.len() implies (#[trigger] tail[k]).start != start by {
            assert(before[at].start <= before[at + k].start);
        }
        lemma_none_starting(tail, start);
        assert(tail.filter(p) == Seq::<CfgModel>::empty());
    } else {
        lemma_none_starting(seq![c], start);
        assert(seq![c].filter(p) == Seq::<CfgModel>::empty());
    }
    assert(head.filter(p) + seq![c].filter(p) + tail.filter(p) =~= head.filter(p) + tail.filter(p)
        + seq![c].filter(p));
}

/// Graphs are ordered by the start of their scopes. None is lost or added, and
/// those that start at the same place keep their order.
pub proof fn law_graphs_come_in_source_order(cfgs: Seq<CfgModel>)
    ensures
        in_source_order(by_start(cfgs)),
        by_start(cfgs).len() == cfgs.len(),
        forall|start: usize| #[trigger] starting_at(by_start(cfgs), start) == starting_at(cfgs, start),
    decreases cfgs.len(),
{
    if cfgs.len() > 0 {
        let rest = cfgs.drop_last();
        let c = cfgs.last();
        law_graphs_come_in_source_order(rest);
        let before = by_start(rest);
        lemma_slot(before, c.start, 0);
        lemma_insert_ordered(before, c);
        assert forall|start: usize| #[trigger] starting_at(by_start(cfgs), start) == starting_at(
            cfgs,
            start,
        ) by {
            lemma_insert_starting(before, c, start);
            assert(starting_at(before, start) == starting_at(rest, start));
            assert(cfgs =~= rest + seq![c]);
            Seq::filter_distributes_over_add(rest, seq![c], |x: CfgModel| x.start == start);
        }
    }
}

proof fn lemma_by_start_proper(cfgs: Seq<CfgModel>)
    requires
        all_proper(cfgs),
    ensures
        all_proper(by_start(cfgs)),
    decreases cfgs.len(),
{
    if cfgs.len() > 0 {
        lemma_by_start_proper(cfgs.drop_last());
        let before = by_start(cfgs.drop_last());
        lemma_slot(before, cfgs.last().start, 0);
        assert(proper(cfgs[cfgs.len() - 1]));
    }
}

/// The graphs of a file come in source order, and each of them has the form of a
/// control-flow graph with block 0 as its entry and block 1 as its exit.
pub proof fn law_graphs_of_a_tree(root: SyntaxNode, source: Seq<u8>, types: IndexModel, unit: usize)
    ensures
        in_source_order(tree_graphs(root, source, types, unit)),
        all_proper(tree_graphs(root, source, types, unit)),
{
    let all = routines(root, source, None, types, unit) + module_graphs(root, source, types, unit);
    law_graphs_come_in_source_order(all);
    lemma_routines_proper(root, source, None, types, unit);
    lemma_module_proper(root, source, types, unit);
    lemma_by_start_proper(all);
}

/// A project of one unit without `uses` entries gives that unit the graphs that
/// its file has alone.
pub proof fn law_single_unit_has_the_graphs_of_its_file(unit: UnitInputModel)
    requires
        sites_in(unit.tree.root, false).len() == 0,
    ensures
        project_graphs(ProjectModel { units: seq![unit], imports: Seq::empty() }, unit.id) == Some(
            file_graphs(unit.tree.root, unit.source),
        ),
{
    law_single_unit_knows_its_file(unit);
    assert(unit_index(seq![unit], unit.id, 0) is None);
    assert(unit_index(seq![unit], unit.id, 1) == Some(0int));
}

/// The graphs of a unit do not depend on the order in which the units of its
/// project are given.
pub proof fn law_graphs_do_not_depend_on_unit_order(
    a: ProjectModel,
    b: ProjectModel,
    id: Seq<char>,
)
    requires
        a.valid(),
        b.valid(),
        a.imports == b.imports,
        a.units.len() == b.units.len(),
        forall|u: UnitInputModel| a.units.contains(u) <==> #[trigger] b.units.contains(u),
    ensures
        project_graphs(a, id) == project_graphs(b, id),
{
    law_unit_order_does_not_matter(a, b);
}

/// Every unit of a project, and nothing else, has graphs.
pub proof fn law_every_unit_has_graphs(project: ProjectModel, id: Seq<char>)
    ensures
        project_graphs(project, id) is Some <==> project.find(id) is Some,
{
    let units = ranked(project.units);
    law_units_are_ranked(project.units);
    lemma_unit_found(units, id, units.len() as int);
    lemma_unit_found(project.units, id, project.units.len() as int);
    if let Some(k) = project.find(id) {
        assert(project.units.contains(project.units[k]));
        assert(units.contains(project.units[k]));
    }
    if let Some(k) = unit_index(units, id, units.len() as int) {
        assert(units.contains(units[k]));
        assert(project.units.contains(units[k]));
    }
}

} // verus!
