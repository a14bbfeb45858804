//! Trees with the same nodes have the same graphs.

use vstd::prelude::*;
use crate::declaration_laws::lemma_alike_unit_types;
use crate::exception_types::{
    context_of, file_index, handler_fact_of, ExceptionTypeFact, ImportSection, IndexModel,
};
use crate::flow::{distinct, KeyModel, TransferModel};
use crate::graph::{BasicBlockKind, BlockId, EdgeKind};
use crate::graph_laws::law_graphs_do_not_depend_on_unit_order;
use crate::labels::{label_index, label_of, last_branch};
use crate::project::{
    first_configuration, import_error, imports_error, known_texts, law_units_are_distinct,
    lemma_unit_found, sites_in, sites_in_list, source_taken, unit_error, unit_index, units_error,
    ImportBindingModel, ImportTargetModel, ProjectModel, UnitInputModel,
};
use crate::project_index::{
    chosen, covering, declarations, open_entries, open_in_unit, place, project_index, ranked,
    section_at, section_below,
};
use crate::scope_graph::{
    all_handlers, body_key, body_return, branch_binding, case_arms, case_selector, case_statement,
    condition, conditional_block, conditional_branches, counted_loop, dotted_name, entered,
    environment, exceptions_of, facts_of, file_graphs, finalize, finally_body, full_proc_name,
    goto_statement, groups_of, handlers_from, header_field, header_name, if_else, if_only, implicit,
    initial, labelled, labelled_statement, last_under, loop_header, module_graphs, outermost,
    prepared, proc_header, proc_name, project_graphs, qualified_name, raise_statement,
    repeat_header, repeat_loop, return_number, routines, routines_among, scope_graph, scope_number,
    section_graph, section_graphs, selected, sequence_child, settled, single, staying, superseding,
    tree_graphs, try_body, try_except, try_finally, waiting, walk, with_statement, ContextModel,
    EnvModel, GroupModel, HandlerModel, Selection, StateModel,
};
use crate::syntax::{
    any_field, any_kind, field_kind, find_from, hit, module_from, named_kind, SyntaxNode,
    SyntaxTree,
};
use crate::tree_laws::{
    alike, group_alike, group_alike_readings, lemma_alike, lemma_alike_branch_at,
    lemma_alike_calls, lemma_alike_case_selector, lemma_alike_content_among,
    lemma_alike_default_before, lemma_alike_else_among, lemma_alike_exit_argument,
    lemma_alike_finalizer_holds_goto, lemma_alike_handler_fact, lemma_alike_jumps,
    lemma_alike_last_under, lemma_alike_plan, lemma_alike_selected,
};

verus! {

// One scope ------------------------------------------------------------------------------------

proof fn lemma_alike_walk(
    env: EnvModel,
    ctx: ContextModel,
    st: StateModel,
    a: SyntaxNode,
    b: SyntaxNode,
    sel: Selection,
    i: int,
    current: Option<BlockId>,
    acc: Seq<TransferModel>,
)
    requires
        alike(a, b),
    ensures
        walk(env, ctx, st, a, sel, i, current, acc) == walk(env, ctx, st, b, sel, i, current, acc),
    decreases a, 1int, a.children@.len() - i,
{
    broadcast use {group_alike, lemma_alike_selected};

    if 0 <= i < a.children@.len() {
        if !selected(sel, a, i) {
            lemma_alike_walk(env, ctx, st, a, b, sel, i + 1, current, acc);
        } else {
            let x = a.children@[i];
            lemma_alike_sequence_child(env, ctx, st, x, b.children@[i], current);
            let (s, f) = sequence_child(env, ctx, st, x, current);
            lemma_alike_walk(env, ctx, s, a, b, sel, i + 1, f.normal, acc + f.transfers);
        }
    }
}

proof fn lemma_alike_sequence_child(
    env: EnvModel,
    ctx: ContextModel,
    st: StateModel,
    a: SyntaxNode,
    b: SyntaxNode,
    current: Option<BlockId>,
)
    requires
        alike(a, b),
    ensures
        sequence_child(env, ctx, st, a, current) == sequence_child(env, ctx, st, b, current),
    decreases a, 9int, 0int,
{
    broadcast use group_alike;

    let (s, block) = match current {
        Some(block) => (st, block),
        None => (st.block(BasicBlockKind::Normal), st.next()),
    };
    if a.extra {
    } else if a.kind@ == "label"@ {
        lemma_alike_labelled(env, ctx, s, a, b, block);
    } else {
        lemma_alike_single(env, ctx, s, a, b, block);
    }
}

proof fn lemma_alike_labelled(
    env: EnvModel,
    ctx: ContextModel,
    st: StateModel,
    a: SyntaxNode,
    b: SyntaxNode,
    current: BlockId,
)
    requires
        alike(a, b),
    ensures
        labelled(env, ctx, st, a, current) == labelled(env, ctx, st, b, current),
{
    broadcast use group_alike;

    if let Some(k) = label_index(a) {
        assert(alike(a.children@[k], b.children@[k]));
    }
    assert(label_of(a, env.source) == label_of(b, env.source));
}

proof fn lemma_alike_goto_statement(
    env: EnvModel,
    ctx: ContextModel,
    st: StateModel,
    a: SyntaxNode,
    b: SyntaxNode,
    current: BlockId,
)
    requires
        alike(a, b),
    ensures
        goto_statement(env, ctx, st, a, current) == goto_statement(env, ctx, st, b, current),
{
    broadcast use group_alike;

    if let Some(k) = label_index(a) {
        assert(alike(a.children@[k], b.children@[k]));
    }
    assert(label_of(a, env.source) == label_of(b, env.source));
}

proof fn lemma_alike_raise_statement(
    env: EnvModel,
    ctx: ContextModel,
    st: StateModel,
    a: SyntaxNode,
    b: SyntaxNode,
    current: BlockId,
)
    requires
        alike(a, b),
    ensures
        raise_statement(env, ctx, st, a, current) == raise_statement(env, ctx, st, b, current),
{
    broadcast use {group_alike, group_alike_readings};

}

proof fn lemma_alike_single(
    env: EnvModel,
    ctx: ContextModel,
    st: StateModel,
    a: SyntaxNode,
    b: SyntaxNode,
    current: BlockId,
)
    requires
        alike(a, b),
    ensures
        single(env, ctx, st, a, current) == single(env, ctx, st, b, current),
    decreases a, 8int, 0int,
{
    broadcast use {group_alike, lemma_alike_calls, lemma_alike_exit_argument, lemma_alike_jumps};

    let kind = a.kind@;
    let begin = Some(current);
    let none = Seq::<TransferModel>::empty();
    if a.extra {
    } else if kind == "ppBlock"@ {
        lemma_alike_conditional_block(env, ctx, st, a, b, current);
    } else if kind == "labeledStatement"@ || kind == "labeledStatementTr"@ {
        lemma_alike_labelled_statement(env, ctx, st, a, b, 0, begin, none);
    } else if kind == "block"@ {
        lemma_alike_walk(env, ctx, st, a, b, Selection::Block, 0, begin, none);
    } else if kind == "statements"@ {
        lemma_alike_walk(env, ctx, st, a, b, Selection::Statements, 0, begin, none);
    } else if kind == "ifElse"@ {
        lemma_alike_if_else(env, ctx, st, a, b, current);
    } else if kind == "if"@ {
        lemma_alike_if_only(env, ctx, st, a, b, current);
    } else if kind == "for"@ || kind == "foreach"@ || kind == "while"@ {
        lemma_alike_counted_loop(env, ctx, st, a, b, current);
    } else if kind == "case"@ {
        lemma_alike_case_statement(env, ctx, st, a, b, current);
    } else if kind == "repeat"@ {
        lemma_alike_repeat_loop(env, ctx, st, a, b, current);
    } else if kind == "try"@ {
        lemma_alike_try_finally(env, ctx, st, a, b, current);
        lemma_alike_try_except(env, ctx, st, a, b, current);
    } else if kind == "with"@ {
        lemma_alike_with_statement(env, ctx, st, a, b, current);
    } else if kind == "raise"@ {
        lemma_alike_raise_statement(env, ctx, st, a, b, current);
    } else if kind == "goto"@ {
        lemma_alike_goto_statement(env, ctx, st, a, b, current);
    }
}

proof fn lemma_alike_condition(
    ctx: ContextModel,
    st: StateModel,
    a: SyntaxNode,
    b: SyntaxNode,
    current: BlockId,
)
    requires
        alike(a, b),
    ensures
        condition(ctx, st, a, current) == condition(ctx, st, b, current),
{
    broadcast use group_alike;

    if let Some(k) = a.find(any_field("condition"@)) {
        assert(alike(a.children@[k], b.children@[k]));
    }
}

proof fn lemma_alike_loop_header(
    st: StateModel,
    block: BlockId,
    a: SyntaxNode,
    b: SyntaxNode,
)
    requires
        alike(a, b),
    ensures
        loop_header(st, block, a) == loop_header(st, block, b),
{
    broadcast use group_alike;

    if let Some(k) = a.find(any_field(header_field(a.kind@))) {
        assert(alike(a.children@[k], b.children@[k]));
    }
}

proof fn lemma_alike_repeat_header(
    st: StateModel,
    block: BlockId,
    a: SyntaxNode,
    b: SyntaxNode,
)
    requires
        alike(a, b),
    ensures
        repeat_header(st, block, a) == repeat_header(st, block, b),
{
    broadcast use group_alike;

    if let Some(k) = a.find(any_kind("kRepeat"@)) {
        assert(alike(a.children@[k], b.children@[k]));
    }
    if let Some(k) = a.find(any_field("condition"@)) {
        assert(alike(a.children@[k], b.children@[k]));
    }
}

proof fn lemma_alike_if_else(
    env: EnvModel,
    ctx: ContextModel,
    st: StateModel,
    a: SyntaxNode,
    b: SyntaxNode,
    current: BlockId,
)
    requires
        alike(a, b),
    ensures
        if_else(env, ctx, st, a, current) == if_else(env, ctx, st, b, current),
    decreases a, 7int, 0int,
{
    broadcast use group_alike;

    let none = Seq::<TransferModel>::empty();
    lemma_alike_condition(ctx, st, a, b, current);
    let (s1, c) = condition(ctx, st, a, current);
    let t = s1.next();
    let s2 = s1.block(BasicBlockKind::Normal);
    let e = s2.next();
    let s3 = s2.block(BasicBlockKind::Normal).edge(c, t, EdgeKind::ConditionalTrue).edge(
        c,
        e,
        EdgeKind::ConditionalFalse,
    );
    lemma_alike_walk(env, ctx, s3, a, b, Selection::Then, 0, Some(t), none);
    let (s4, f1) = walk(env, ctx, s3, a, Selection::Then, 0, Some(t), none);
    lemma_alike_walk(env, ctx, s4, a, b, Selection::Else, 0, Some(e), none);
}

proof fn lemma_alike_if_only(
    env: EnvModel,
    ctx: ContextModel,
    st: StateModel,
    a: SyntaxNode,
    b: SyntaxNode,
    current: BlockId,
)
    requires
        alike(a, b),
    ensures
        if_only(env, ctx, st, a, current) == if_only(env, ctx, st, b, current),
    decreases a, 7int, 0int,
{
    broadcast use group_alike;

    lemma_alike_condition(ctx, st, a, b, current);
    let (s1, c) = condition(ctx, st, a, current);
    let t = s1.next();
    let s2 = s1.block(BasicBlockKind::Normal);
    let s3 = s2.block(BasicBlockKind::Normal).edge(c, t, EdgeKind::ConditionalTrue).edge(
        c,
        s2.next(),
        EdgeKind::ConditionalFalse,
    );
    lemma_alike_walk(env, ctx, s3, a, b, Selection::Then, 0, Some(t), Seq::empty());
}

proof fn lemma_alike_counted_loop(
    env: EnvModel,
    ctx: ContextModel,
    st: StateModel,
    a: SyntaxNode,
    b: SyntaxNode,
    current: BlockId,
)
    requires
        alike(a, b),
    ensures
        counted_loop(env, ctx, st, a, current) == counted_loop(env, ctx, st, b, current),
    decreases a, 7int, 0int,
{
    broadcast use group_alike;

    let c = st.next();
    let s1 = st.block(BasicBlockKind::Normal);
    let body = s1.next();
    let s2 = s1.block(BasicBlockKind::Normal);
    let after = s2.next();
    let s0 = s2.block(BasicBlockKind::Normal).edge(current, c, EdgeKind::Normal);
    lemma_alike_loop_header(s0, c, a, b);
    let s3 = loop_header(s0, c, a).edge(c, body, EdgeKind::ConditionalTrue).edge(
        c,
        after,
        EdgeKind::LoopExit,
    );
    let inner = ctx.in_loop(c, after);
    lemma_alike_walk(env, inner, s3, a, b, Selection::Body, 0, Some(body), Seq::empty());
}

proof fn lemma_alike_repeat_loop(
    env: EnvModel,
    ctx: ContextModel,
    st: StateModel,
    a: SyntaxNode,
    b: SyntaxNode,
    current: BlockId,
)
    requires
        alike(a, b),
    ensures
        repeat_loop(env, ctx, st, a, current) == repeat_loop(env, ctx, st, b, current),
    decreases a, 7int, 0int,
{
    broadcast use group_alike;

    let body = st.next();
    let s1 = st.block(BasicBlockKind::Normal);
    let c = s1.next();
    let s2 = s1.block(BasicBlockKind::Normal);
    let after = s2.next();
    let s3 = s2.block(BasicBlockKind::Normal).edge(current, body, EdgeKind::Normal);
    let inner = ctx.in_loop(c, after);
    lemma_alike_walk(env, inner, s3, a, b, Selection::Body, 0, Some(body), Seq::empty());
    let (s4, f) = walk(env, inner, s3, a, Selection::Body, 0, Some(body), Seq::empty());
    let s5 = match f.normal {
        Some(end) => s4.edge(end, c, EdgeKind::Normal),
        None => s4,
    };
    let (s6, transfers) = settled(s5, f.transfers, 0, after, c, implicit(ctx, c));
    lemma_alike_repeat_header(s6, c, a, b);
}

proof fn lemma_alike_case_arms(
    env: EnvModel,
    ctx: ContextModel,
    st: StateModel,
    a: SyntaxNode,
    b: SyntaxNode,
    selector: BlockId,
    i: int,
    ends: Seq<BlockId>,
    acc: Seq<TransferModel>,
)
    requires
        alike(a, b),
    ensures
        case_arms(env, ctx, st, a, selector, i, ends, acc) == case_arms(
            env,
            ctx,
            st,
            b,
            selector,
            i,
            ends,
            acc,
        ),
    decreases a, 3int, a.children@.len() - i,
{
    broadcast use group_alike;

    if 0 <= i < a.children@.len() {
        let x = a.children@[i];
        assert(alike(x, b.children@[i]));
        if !hit(named_kind("caseCase"@), x) {
            lemma_alike_case_arms(env, ctx, st, a, b, selector, i + 1, ends, acc);
        } else {
            let arm = st.next();
            let s0 = st.block(BasicBlockKind::Normal).edge(selector, arm, EdgeKind::CaseArm);
            let none = Seq::<TransferModel>::empty();
            let body = Selection::Body;
            lemma_alike_walk(env, ctx, s0, x, b.children@[i], body, 0, Some(arm), none);
            let (s, f) = walk(env, ctx, s0, x, body, 0, Some(arm), none);
            let ends1 = match f.normal {
                Some(end) => ends.push(end),
                None => ends,
            };
            let acc1 = acc + f.transfers;
            lemma_alike_case_arms(env, ctx, s, a, b, selector, i + 1, ends1, acc1);
        }
    }
}

proof fn lemma_alike_case_statement(
    env: EnvModel,
    ctx: ContextModel,
    st: StateModel,
    a: SyntaxNode,
    b: SyntaxNode,
    current: BlockId,
)
    requires
        alike(a, b),
    ensures
        case_statement(env, ctx, st, a, current) == case_statement(env, ctx, st, b, current),
    decreases a, 7int, 0int,
{
    broadcast use {group_alike, lemma_alike_case_selector, lemma_alike_default_before};

    let (s0, block) = prepared(ctx, st, current);
    let s1 = match case_selector(a, 0) {
        Some(k) => s0.stmt(block, a.start, a.children@[k].end, a.kind@),
        None => s0,
    };
    lemma_case_selector_bounds(a, 0);
    if let Some(k) = case_selector(a, 0) {
        assert(alike(a.children@[k], b.children@[k]));
    }
    let none = Seq::<BlockId>::empty();
    let start = implicit(ctx, block);
    lemma_alike_case_arms(env, ctx, s1, a, b, block, 0, none, start);
    let (s2, ends, transfers) = case_arms(env, ctx, s1, a, block, 0, none, start);
    let d = s2.next();
    let s3 = s2.block(BasicBlockKind::Normal).edge(block, d, EdgeKind::CaseArm);
    lemma_alike_walk(env, ctx, s3, a, b, Selection::CaseDefault, 0, Some(d), Seq::empty());
}

proof fn lemma_case_selector_bounds(a: SyntaxNode, i: int)
    ensures
        case_selector(a, i) matches Some(k) ==> 0 <= k < a.children@.len(),
    decreases a.children@.len() - i,
{
    if 0 <= i < a.children@.len() {
        lemma_case_selector_bounds(a, i + 1);
    }
}

proof fn lemma_last_under_bounds(a: SyntaxNode, field: Seq<char>, n: int)
    ensures
        last_under(a, field, n) matches Some(k) ==> 0 <= k < a.children@.len(),
    decreases n,
{
    if 0 < n <= a.children@.len() {
        lemma_last_under_bounds(a, field, n - 1);
    }
}

proof fn lemma_alike_with_statement(
    env: EnvModel,
    ctx: ContextModel,
    st: StateModel,
    a: SyntaxNode,
    b: SyntaxNode,
    current: BlockId,
)
    requires
        alike(a, b),
    ensures
        with_statement(env, ctx, st, a, current) == with_statement(env, ctx, st, b, current),
    decreases a, 7int, 0int,
{
    broadcast use {group_alike, lemma_alike_last_under};

    let (s0, c) = prepared(ctx, st, current);
    let count = a.children@.len() as int;
    let s1 = match last_under(a, "entity"@, count) {
        Some(k) => s0.stmt(c, a.start, a.children@[k].end, a.kind@),
        None => s0,
    };
    lemma_last_under_bounds(a, "entity"@, count);
    if let Some(k) = last_under(a, "entity"@, count) {
        assert(alike(a.children@[k], b.children@[k]));
    }
    let body = s1.next();
    let s2 = s1.block(BasicBlockKind::Normal).edge(c, body, EdgeKind::Normal);
    lemma_alike_walk(env, ctx, s2, a, b, Selection::Body, 0, Some(body), Seq::empty());
}

proof fn lemma_alike_labelled_statement(
    env: EnvModel,
    ctx: ContextModel,
    st: StateModel,
    a: SyntaxNode,
    b: SyntaxNode,
    i: int,
    current: Option<BlockId>,
    acc: Seq<TransferModel>,
)
    requires
        alike(a, b),
    ensures
        labelled_statement(env, ctx, st, a, i, current, acc) == labelled_statement(
            env,
            ctx,
            st,
            b,
            i,
            current,
            acc,
        ),
    decreases a, 3int, a.children@.len() - i,
{
    broadcast use group_alike;

    if 0 <= i < a.children@.len() {
        let x = a.children@[i];
        let y = b.children@[i];
        assert(alike(x, y));
        match current {
            Some(block) => if !x.named {
                lemma_alike_labelled_statement(env, ctx, st, a, b, i + 1, current, acc);
            } else if x.kind@ == "label"@ {
                lemma_alike_labelled(env, ctx, st, x, y, block);
                let (s, target) = labelled(env, ctx, st, x, block);
                lemma_alike_labelled_statement(env, ctx, s, a, b, i + 1, Some(target), acc);
            } else {
                lemma_alike_single(env, ctx, st, x, y, block);
                let (s, f) = single(env, ctx, st, x, block);
                let acc1 = acc + f.transfers;
                lemma_alike_labelled_statement(env, ctx, s, a, b, i + 1, f.normal, acc1);
            },
            None => {
                lemma_alike_labelled_statement(env, ctx, st, a, b, i + 1, current, acc);
            },
        }
    }
}

proof fn lemma_alike_conditional_branches(
    env: EnvModel,
    ctx: ContextModel,
    st: StateModel,
    a: SyntaxNode,
    b: SyntaxNode,
    current: BlockId,
    n: int,
    ends: Seq<BlockId>,
    acc: Seq<TransferModel>,
)
    requires
        alike(a, b),
    ensures
        conditional_branches(env, ctx, st, a, current, n, ends, acc) == conditional_branches(
            env,
            ctx,
            st,
            b,
            current,
            n,
            ends,
            acc,
        ),
    decreases a, 3int, last_branch(a) + 1 - n,
{
    broadcast use {group_alike, lemma_alike_branch_at};

    assert(last_branch(a) == last_branch(b));
    if 0 <= n <= last_branch(a) {
        let entry = st.next();
        let count = env.branches.len() as int;
        let binding = match branch_binding(env.branches, a.start, a.end, n as usize, count) {
            Some(own) => own,
            None => ctx.binding,
        };
        let edge = if n == 0 {
            EdgeKind::ConditionalTrue
        } else {
            EdgeKind::ConditionalFalse
        };
        let s0 = st.block(BasicBlockKind::Normal).edge(current, entry, edge);
        let inner = ctx.in_branch(binding);
        let branch = Selection::Branch(n as usize);
        let none = Seq::<TransferModel>::empty();
        lemma_alike_walk(env, inner, s0, a, b, branch, 0, Some(entry), none);
        let (s, f) = walk(env, inner, s0, a, branch, 0, Some(entry), none);
        let ends1 = match f.normal {
            Some(end) => ends.push(end),
            None => ends,
        };
        let acc1 = acc + f.transfers;
        lemma_alike_conditional_branches(env, ctx, s, a, b, current, n + 1, ends1, acc1);
    }
}

proof fn lemma_alike_conditional_block(
    env: EnvModel,
    ctx: ContextModel,
    st: StateModel,
    a: SyntaxNode,
    b: SyntaxNode,
    current: BlockId,
)
    requires
        alike(a, b),
    ensures
        conditional_block(env, ctx, st, a, current) == conditional_block(env, ctx, st, b, current),
    decreases a, 7int, 0int,
{
    broadcast use {group_alike, lemma_alike_else_among, lemma_alike_content_among};

    let none = Seq::<BlockId>::empty();
    lemma_alike_conditional_branches(env, ctx, st, a, b, current, 0, none, Seq::empty());
}

proof fn lemma_alike_try_body(
    env: EnvModel,
    ctx: ContextModel,
    st: StateModel,
    a: SyntaxNode,
    b: SyntaxNode,
    current: BlockId,
)
    requires
        alike(a, b),
    ensures
        try_body(env, ctx, st, a, current) == try_body(env, ctx, st, b, current),
    decreases a, 2int, 0int,
{
    broadcast use group_alike;

    if let Some(k) = a.find(field_kind("try"@, "statements"@)) {
        let x = a.children@[k];
        let entry = st.next();
        let s0 = st.block(BasicBlockKind::Normal).edge(current, entry, EdgeKind::Normal);
        let none = Seq::<TransferModel>::empty();
        let all = Selection::Statements;
        lemma_alike_walk(env, ctx, s0, x, b.children@[k], all, 0, Some(entry), none);
    }
}

proof fn lemma_alike_finally_body(
    env: EnvModel,
    ctx: ContextModel,
    st: StateModel,
    a: SyntaxNode,
    b: SyntaxNode,
    scope: usize,
    key: Option<KeyModel>,
)
    requires
        alike(a, b),
    ensures
        finally_body(env, ctx, st, a, scope, key) == finally_body(env, ctx, st, b, scope, key),
    decreases a, 3int, 0int,
{
    broadcast use {group_alike, lemma_alike_finalizer_holds_goto};

    let what = body_key(ctx, a, scope, key);
    let r = body_return(ctx, a, scope, key);
    assert(what == body_key(ctx, b, scope, key));
    assert(r == body_return(ctx, b, scope, key));
    let (s1, number) = match return_number(st.resumptions, r, 0) {
        Some(k) => (st, k as usize),
        None => (
            StateModel { resumptions: st.resumptions.push(r), ..st },
            st.resumptions.len() as usize,
        ),
    };
    let entry = s1.next();
    let s2 = s1.block(BasicBlockKind::FinallyHandler);
    let binding = s2.parents.len() as usize;
    let s3 = StateModel { parents: s2.parents.push(Some(ctx.binding)), ..s2 };
    let inner = ctx.in_finalizer(binding, number, waiting(ctx, key));
    if let Some(k) = a.find(field_kind("finally"@, "statements"@)) {
        let x = a.children@[k];
        let none = Seq::<TransferModel>::empty();
        let all = Selection::Statements;
        lemma_alike_walk(env, inner, s3, x, b.children@[k], all, 0, Some(entry), none);
    }
}

proof fn lemma_alike_finalize(
    env: EnvModel,
    ctx: ContextModel,
    st: StateModel,
    a: SyntaxNode,
    b: SyntaxNode,
    scope: usize,
    groups: Seq<GroupModel>,
    i: int,
    normal: Option<BlockId>,
    acc: Seq<TransferModel>,
)
    requires
        alike(a, b),
    ensures
        finalize(env, ctx, st, a, scope, groups, i, normal, acc) == finalize(
            env,
            ctx,
            st,
            b,
            scope,
            groups,
            i,
            normal,
            acc,
        ),
    decreases a, 4int, groups.len() - i,
{
    broadcast use group_alike;

    if 0 <= i < groups.len() {
        let g = groups[i];
        lemma_alike_finally_body(env, ctx, st, a, b, scope, g.key);
        let (s1, entry, f) = finally_body(env, ctx, st, a, scope, g.key);
        let s2 = entered(s1, g.entries, 0, entry);
        let more = superseding(f.transfers);
        match f.normal {
            Some(end) => if g.key is None {
                let s3 = s2.block(BasicBlockKind::Normal).edge(
                    end,
                    s2.next(),
                    EdgeKind::FinallyExit,
                );
                let next = Some(s2.next());
                lemma_alike_finalize(env, ctx, s3, a, b, scope, groups, i + 1, next, acc + more);
            } else {
                let pending = match g.first {
                    Some(t) => acc.push(t.from_finalizer(end)),
                    None => acc,
                };
                let acc1 = pending + more;
                lemma_alike_finalize(env, ctx, s2, a, b, scope, groups, i + 1, normal, acc1);
            },
            None => {
                lemma_alike_finalize(env, ctx, s2, a, b, scope, groups, i + 1, normal, acc + more);
            },
        }
    }
}

proof fn lemma_alike_try_finally(
    env: EnvModel,
    ctx: ContextModel,
    st: StateModel,
    a: SyntaxNode,
    b: SyntaxNode,
    current: BlockId,
)
    requires
        alike(a, b),
    ensures
        try_finally(env, ctx, st, a, current) == try_finally(env, ctx, st, b, current),
    decreases a, 5int, 0int,
{
    broadcast use group_alike;

    let count = env.scope_ids.len() as int;
    let scope = scope_number(env.scope_ids, a.start, a.end, count);
    let inner = ctx.in_cleanup(scope);
    lemma_alike_try_body(env, inner, st, a, b, current);
    let (s, f) = try_body(env, inner, st, a, current);
    let transfers = distinct(f.transfers);
    let groups = groups_of(f.normal, transfers, scope, transfers.len() as int);
    let rest = staying(transfers, scope, transfers.len() as int);
    lemma_alike_finalize(env, ctx, s, a, b, scope, groups, 0, None, rest);
}

proof fn lemma_alike_handlers_from(
    env: EnvModel,
    ctx: ContextModel,
    st: StateModel,
    a: SyntaxNode,
    b: SyntaxNode,
    incoming: Seq<ExceptionTypeFact>,
    i: int,
    acc: Seq<HandlerModel>,
)
    requires
        alike(a, b),
    ensures
        handlers_from(env, ctx, st, a, incoming, i, acc) == handlers_from(
            env,
            ctx,
            st,
            b,
            incoming,
            i,
            acc,
        ),
    decreases a, 3int, a.children@.len() - i,
{
    broadcast use {group_alike, lemma_alike_handler_fact};

    if 0 <= i < a.children@.len() {
        let x = a.children@[i];
        let y = b.children@[i];
        assert(alike(x, y));
        let kind = x.kind@;
        let entry = st.next();
        let none = Seq::<TransferModel>::empty();
        if !hit(any_field("except"@), x) {
            lemma_alike_handlers_from(env, ctx, st, a, b, incoming, i + 1, acc);
        } else if kind == "exceptionHandler"@ {
            let fact = handler_fact_of(env.types, env.unit, x, env.source);
            assert(fact == handler_fact_of(env.types, env.unit, y, env.source));
            let inner = ctx.in_handler(context_of(env.types, fact, incoming));
            let s0 = st.block(BasicBlockKind::ExceptHandler);
            let body = Selection::Body;
            lemma_alike_walk(env, inner, s0, x, y, body, 0, Some(entry), none);
            let (s, flow) = walk(env, inner, s0, x, body, 0, Some(entry), none);
            let acc1 = acc.push(HandlerModel { entry, catch_all: false, fact, flow });
            lemma_alike_handlers_from(env, ctx, s, a, b, incoming, i + 1, acc1);
        } else if kind == "exceptionElse"@ || kind == "statements"@ {
            let inner = ctx.in_handler(ExceptionTypeFact::Unknown);
            let s0 = st.block(BasicBlockKind::BareExceptHandler);
            let sel = if kind == "exceptionElse"@ {
                Selection::ExceptElse
            } else {
                Selection::Statements
            };
            lemma_alike_walk(env, inner, s0, x, y, sel, 0, Some(entry), none);
            let (s, flow) = walk(env, inner, s0, x, sel, 0, Some(entry), none);
            let acc1 = acc.push(
                HandlerModel { entry, catch_all: true, fact: ExceptionTypeFact::Unknown, flow },
            );
            lemma_alike_handlers_from(env, ctx, s, a, b, incoming, i + 1, acc1);
        } else {
            lemma_alike_handlers_from(env, ctx, st, a, b, incoming, i + 1, acc);
        }
    }
}

proof fn lemma_alike_all_handlers(
    env: EnvModel,
    ctx: ContextModel,
    st: StateModel,
    a: SyntaxNode,
    b: SyntaxNode,
    incoming: Seq<ExceptionTypeFact>,
)
    requires
        alike(a, b),
    ensures
        all_handlers(env, ctx, st, a, incoming) == all_handlers(env, ctx, st, b, incoming),
    decreases a, 4int, 0int,
{
    broadcast use group_alike;

    lemma_alike_handlers_from(env, ctx, st, a, b, incoming, 0, Seq::empty());
}

proof fn lemma_alike_try_except(
    env: EnvModel,
    ctx: ContextModel,
    st: StateModel,
    a: SyntaxNode,
    b: SyntaxNode,
    current: BlockId,
)
    requires
        alike(a, b),
    ensures
        try_except(env, ctx, st, a, current) == try_except(env, ctx, st, b, current),
    decreases a, 5int, 0int,
{
    broadcast use group_alike;

    let inner = ctx.in_dispatch(st.graph.blocks.len() as usize);
    lemma_alike_try_body(env, inner, st, a, b, current);
    let (s1, f) = try_body(env, inner, st, a, current);
    let exceptions = exceptions_of(f.transfers, true, f.transfers.len() as int);
    lemma_alike_all_handlers(env, ctx, s1, a, b, facts_of(exceptions));
}

// One file -------------------------------------------------------------------------------------

proof fn lemma_alike_scope_graph(
    a: SyntaxNode,
    b: SyntaxNode,
    sel: Selection,
    source: Seq<u8>,
    types: IndexModel,
    unit: usize,
)
    requires
        alike(a, b),
    ensures
        scope_graph(a, sel, source, types, unit) == scope_graph(b, sel, source, types, unit),
{
    broadcast use group_alike;

    lemma_alike_plan(a, b, source);
    assert(environment(a, source, types, unit) == environment(b, source, types, unit));
    assert(initial(a, source) == initial(b, source));
    let env = environment(a, source, types, unit);
    let st = initial(a, source);
    lemma_alike_walk(env, outermost(), st, a, b, sel, 0, Some(BlockId(2)), Seq::empty());
}

proof fn lemma_alike_header_name(
    a: SyntaxNode,
    b: SyntaxNode,
    source: Seq<u8>,
)
    requires
        alike(a, b),
    ensures
        header_name(a, source) == header_name(b, source),
{
    broadcast use group_alike;

    if let Some(g) = a.find(any_kind("genericDot"@)) {
        lemma_alike_dotted_name(a.children@[g], b.children@[g], source);
    }
    if let Some(k) = a.find(any_field("name"@)) {
        assert(alike(a.children@[k], b.children@[k]));
    }
    if let Some(k) = a.find(any_kind("identifier"@)) {
        assert(alike(a.children@[k], b.children@[k]));
    }
}

proof fn lemma_alike_dotted_name(
    a: SyntaxNode,
    b: SyntaxNode,
    source: Seq<u8>,
)
    requires
        alike(a, b),
    ensures
        dotted_name(a, source) == dotted_name(b, source),
{
    broadcast use group_alike;

    if let Some(k) = a.find(any_kind("identifier"@)) {
        assert(alike(a.children@[k], b.children@[k]));
        if let Some(n) = find_from(a.children@, any_kind("identifier"@), k + 1) {
            assert(alike(a.children@[n], b.children@[n]));
        }
    }
}

proof fn lemma_alike_proc_name(
    a: SyntaxNode,
    b: SyntaxNode,
    source: Seq<u8>,
)
    requires
        alike(a, b),
    ensures
        proc_name(a, source) == proc_name(b, source),
{
    broadcast use group_alike;

    if let Some(h) = proc_header(a) {
        lemma_alike_header_name(a.children@[h], b.children@[h], source);
    }
}

proof fn lemma_alike_full_proc_name(
    a: SyntaxNode,
    b: SyntaxNode,
    source: Seq<u8>,
)
    requires
        alike(a, b),
    ensures
        full_proc_name(a, source) == full_proc_name(b, source),
{
    broadcast use group_alike;

    if let Some(h) = proc_header(a) {
        let x = a.children@[h];
        let y = b.children@[h];
        assert(alike(x, y));
        if let Some(k) = x.find(any_field("name"@)) {
            assert(alike(x.children@[k], y.children@[k]));
        }
    }
}

proof fn lemma_alike_routines(
    a: SyntaxNode,
    b: SyntaxNode,
    source: Seq<u8>,
    parent: Option<Seq<char>>,
    types: IndexModel,
    unit: usize,
)
    requires
        alike(a, b),
    ensures
        routines(a, source, parent, types, unit) == routines(b, source, parent, types, unit),
    decreases a, 1int, 0int,
{
    broadcast use group_alike;

    if a.kind@ == "defProc"@ {
        lemma_alike_proc_name(a, b, source);
        lemma_alike_full_proc_name(a, b, source);
        if let Some(local) = proc_name(a, source) {
            let qualified = qualified_name(a, source, parent, local);
            assert(qualified == qualified_name(b, source, parent, local));
            if let Some(k) = a.find(any_field("body"@)) {
                let x = a.children@[k];
                lemma_alike_scope_graph(x, b.children@[k], Selection::Block, source, types, unit);
            }
            lemma_alike_routines_among(a, b, true, source, Some(qualified), types, unit, 0);
        }
    } else {
        lemma_alike_routines_among(a, b, false, source, parent, types, unit, 0);
    }
}

proof fn lemma_alike_routines_among(
    a: SyntaxNode,
    b: SyntaxNode,
    local_only: bool,
    source: Seq<u8>,
    parent: Option<Seq<char>>,
    types: IndexModel,
    unit: usize,
    i: int,
)
    requires
        alike(a, b),
    ensures
        routines_among(a, local_only, source, parent, types, unit, i) == routines_among(
            b,
            local_only,
            source,
            parent,
            types,
            unit,
            i,
        ),
    decreases a, 0int, a.children@.len() - i,
{
    broadcast use group_alike;

    if 0 <= i < a.children@.len() {
        lemma_alike_routines(a.children@[i], b.children@[i], source, parent, types, unit);
        lemma_alike_routines_among(a, b, local_only, source, parent, types, unit, i + 1);
    }
}

proof fn lemma_alike_section_graph(
    a: SyntaxNode,
    b: SyntaxNode,
    name: Seq<char>,
    source: Seq<u8>,
    types: IndexModel,
    unit: usize,
)
    requires
        alike(a, b),
    ensures
        section_graph(a, name, source, types, unit) == section_graph(b, name, source, types, unit),
{
    broadcast use group_alike;

    lemma_alike_scope_graph(a, b, Selection::Section, source, types, unit);
    lemma_alike_scope_graph(a, b, Selection::Block, source, types, unit);
}

proof fn lemma_alike_section_graphs(
    a: SyntaxNode,
    b: SyntaxNode,
    name: Seq<char>,
    source: Seq<u8>,
    types: IndexModel,
    unit: usize,
    i: int,
)
    requires
        alike(a, b),
    ensures
        section_graphs(a, name, source, types, unit, i) == section_graphs(
            b,
            name,
            source,
            types,
            unit,
            i,
        ),
    decreases a.children@.len() - i,
{
    broadcast use group_alike;

    if 0 <= i < a.children@.len() {
        lemma_alike_section_graph(a.children@[i], b.children@[i], name, source, types, unit);
        lemma_alike_section_graphs(a, b, name, source, types, unit, i + 1);
    }
}

proof fn lemma_alike_module_graphs(
    a: SyntaxNode,
    b: SyntaxNode,
    source: Seq<u8>,
    types: IndexModel,
    unit: usize,
)
    requires
        alike(a, b),
    ensures
        module_graphs(a, source, types, unit) == module_graphs(b, source, types, unit),
{
    broadcast use group_alike;

    if let Some(m) = module_from(a.children@, 0) {
        let x = a.children@[m];
        let y = b.children@[m];
        assert(alike(x, y));
        if let Some(n) = x.find(any_kind("moduleName"@)) {
            assert(alike(x.children@[n], y.children@[n]));
            let name = x.children@[n].text(source);
            lemma_alike_section_graphs(x, y, name, source, types, unit, 0);
            if let Some(k) = x.find(any_kind("block"@)) {
                let main = x.children@[k];
                let other = y.children@[k];
                lemma_alike_scope_graph(main, other, Selection::Block, source, types, unit);
            }
        }
    }
}

proof fn lemma_alike_tree_graphs(
    a: SyntaxNode,
    b: SyntaxNode,
    source: Seq<u8>,
    types: IndexModel,
    unit: usize,
)
    requires
        alike(a, b),
    ensures
        tree_graphs(a, source, types, unit) == tree_graphs(b, source, types, unit),
{
    broadcast use group_alike;

    lemma_alike_routines(a, b, source, None, types, unit);
    lemma_alike_module_graphs(a, b, source, types, unit);
}

/// The graphs of a file depend on nothing but the nodes of its tree and its text:
/// two trees with equal nodes over equal text have equal graphs, so that a second
/// parse, or a copy of a tree, gives what the first gave.
pub proof fn law_equal_nodes_give_equal_file_graphs(a: SyntaxTree, b: SyntaxTree, source: Seq<u8>)
    requires
        a.nodes() == b.nodes(),
    ensures
        file_graphs(a.root, source) == file_graphs(b.root, source),
{
    lemma_alike(a.root, b.root, 0);
    lemma_alike_unit_types(0, a.root, b.root, source);
    assert(file_index(a.root, source) == file_index(b.root, source));
    lemma_alike_tree_graphs(a.root, b.root, source, file_index(a.root, source), 0);
}

// One project ----------------------------------------------------------------------------------

/// Units that read as each other, one by one.
spec fn same_units(xs: Seq<UnitInputModel>, ys: Seq<UnitInputModel>) -> bool {
    &&& xs.len() == ys.len()
    &&& forall|k: int| 0 <= k < xs.len() ==> (#[trigger] xs[k]).reads_as(ys[k])
}

proof fn lemma_same_index(
    xs: Seq<UnitInputModel>,
    ys: Seq<UnitInputModel>,
    id: Seq<char>,
    n: int,
)
    requires
        same_units(xs, ys),
        n <= xs.len(),
    ensures
        unit_index(xs, id, n) == unit_index(ys, id, n),
    decreases n,
{
    if n > 0 {
        lemma_same_index(xs, ys, id, n - 1);
        assert(xs[n - 1].reads_as(ys[n - 1]));
    }
}

proof fn lemma_same_configuration(xs: Seq<UnitInputModel>, ys: Seq<UnitInputModel>, n: int)
    requires
        same_units(xs, ys),
        n <= xs.len(),
    ensures
        first_configuration(xs, n) == first_configuration(ys, n),
        known_texts(xs, n) == known_texts(ys, n),
    decreases n,
{
    if n > 0 {
        lemma_same_configuration(xs, ys, n - 1);
        assert(xs[n - 1].reads_as(ys[n - 1]));
    }
}

proof fn lemma_same_source_taken(
    xs: Seq<UnitInputModel>,
    ys: Seq<UnitInputModel>,
    id: Seq<char>,
    n: int,
)
    requires
        same_units(xs, ys),
        n <= xs.len(),
        source_taken(xs, id, n),
    ensures
        source_taken(ys, id, n),
{
    let k = choose|k: int| 0 <= k < n && (#[trigger] xs[k]).source_id == id;
    assert(xs[k].reads_as(ys[k]));
    assert(ys[k].source_id == id);
}

proof fn lemma_same_unit_error(xs: Seq<UnitInputModel>, ys: Seq<UnitInputModel>, i: int)
    requires
        same_units(xs, ys),
        same_units(ys, xs),
        0 <= i < xs.len(),
    ensures
        unit_error(xs, i) == unit_error(ys, i),
{
    broadcast use group_alike;

    let x = xs[i];
    let y = ys[i];
    assert(x.reads_as(y));
    lemma_alike(x.tree.root, y.tree.root, 0);
    lemma_same_index(xs, ys, x.id, i);
    if source_taken(xs, x.source_id, i) {
        lemma_same_source_taken(xs, ys, x.source_id, i);
    }
    if source_taken(ys, x.source_id, i) {
        lemma_same_source_taken(ys, xs, x.source_id, i);
    }
    lemma_same_configuration(xs, ys, i);
    lemma_same_configuration(xs, ys, i + 1);
}

proof fn lemma_same_units_error(xs: Seq<UnitInputModel>, ys: Seq<UnitInputModel>, i: int)
    requires
        same_units(xs, ys),
        same_units(ys, xs),
    ensures
        units_error(xs, i) == units_error(ys, i),
    decreases xs.len() - i,
{
    if 0 <= i < xs.len() {
        lemma_same_unit_error(xs, ys, i);
        lemma_same_units_error(xs, ys, i + 1);
    }
}

proof fn lemma_alike_sites(a: SyntaxNode, b: SyntaxNode, in_uses: bool)
    requires
        alike(a, b),
    ensures
        sites_in(a, in_uses) == sites_in(b, in_uses),
    decreases a, 1int, 0int,
{
    broadcast use group_alike;

    let inside = in_uses || a.kind@ == "declUses"@;
    lemma_alike_sites_in_list(a, b, inside, a.children@.len() as int);
}

proof fn lemma_alike_sites_in_list(a: SyntaxNode, b: SyntaxNode, in_uses: bool, n: int)
    requires
        alike(a, b),
    ensures
        sites_in_list(a.children@, in_uses, n) == sites_in_list(b.children@, in_uses, n),
    decreases a, 0int, n,
{
    broadcast use group_alike;

    if 0 < n <= a.children@.len() {
        lemma_alike_sites_in_list(a, b, in_uses, n - 1);
        lemma_alike_sites(a.children@[n - 1], b.children@[n - 1], in_uses);
    }
}

proof fn lemma_same_import_error(
    xs: Seq<UnitInputModel>,
    ys: Seq<UnitInputModel>,
    imports: Seq<ImportBindingModel>,
    i: int,
)
    requires
        same_units(xs, ys),
    ensures
        import_error(xs, imports, i) == import_error(ys, imports, i),
{
    let count = xs.len() as int;
    let site = imports[i].site;
    lemma_same_index(xs, ys, site.unit_id, count);
    lemma_unit_found(xs, site.unit_id, count);
    if let Some(k) = unit_index(xs, site.unit_id, count) {
        assert(xs[k].reads_as(ys[k]));
        lemma_alike(xs[k].tree.root, ys[k].tree.root, 0);
        lemma_alike_sites(xs[k].tree.root, ys[k].tree.root, false);
    }
    if let ImportTargetModel::Loaded(target) = imports[i].target {
        lemma_same_index(xs, ys, target, count);
    }
}

proof fn lemma_same_imports_error(
    xs: Seq<UnitInputModel>,
    ys: Seq<UnitInputModel>,
    imports: Seq<ImportBindingModel>,
    i: int,
)
    requires
        same_units(xs, ys),
    ensures
        imports_error(xs, imports, i) == imports_error(ys, imports, i),
    decreases imports.len() - i,
{
    if 0 <= i < imports.len() {
        lemma_same_import_error(xs, ys, imports, i);
        lemma_same_imports_error(xs, ys, imports, i + 1);
    }
}

/// Projects that read as each other are accepted alike, and refused for the same
/// reason.
pub proof fn law_equal_nodes_give_equal_verdicts(a: ProjectModel, b: ProjectModel)
    requires
        a.reads_as(b),
    ensures
        a.error() == b.error(),
        a.valid() == b.valid(),
{
    assert(same_units(a.units, b.units));
    assert(same_units(b.units, a.units)) by {
        assert forall|k: int| 0 <= k < b.units.len() implies (#[trigger] b.units[k]).reads_as(
            a.units[k],
        ) by {
            assert(a.units[k].reads_as(b.units[k]));
        }
    }
    lemma_same_units_error(a.units, b.units, 0);
    lemma_same_imports_error(a.units, b.units, a.imports, 0);
}

proof fn lemma_same_place(
    xs: Seq<UnitInputModel>,
    ys: Seq<UnitInputModel>,
    id: Seq<char>,
    i: int,
)
    requires
        same_units(xs, ys),
        0 <= i <= xs.len(),
    ensures
        place(xs, id, i) == place(ys, id, i),
        i <= place(xs, id, i) <= xs.len(),
    decreases xs.len() - i,
{
    if i < xs.len() {
        assert(xs[i].reads_as(ys[i]));
        lemma_same_place(xs, ys, id, i + 1);
    }
}

proof fn lemma_same_ranked(xs: Seq<UnitInputModel>, ys: Seq<UnitInputModel>)
    requires
        same_units(xs, ys),
    ensures
        same_units(ranked(xs), ranked(ys)),
    decreases xs.len(),
{
    if xs.len() > 0 {
        let n = xs.len() - 1;
        assert(xs[n].reads_as(ys[n]));
        assert(same_units(xs.drop_last(), ys.drop_last())) by {
            assert forall|k: int| 0 <= k < n implies (#[trigger] xs.drop_last()[k]).reads_as(
                ys.drop_last()[k],
            ) by {
                assert(xs[k].reads_as(ys[k]));
            }
        }
        lemma_same_ranked(xs.drop_last(), ys.drop_last());
        let p = ranked(xs.drop_last());
        let q = ranked(ys.drop_last());
        lemma_same_place(p, q, xs.last().id, 0);
        let at = place(p, xs.last().id, 0);
        let left = p.insert(at, xs.last());
        let right = q.insert(at, ys.last());
        assert forall|k: int| 0 <= k < left.len() implies (#[trigger] left[k]).reads_as(
            right[k],
        ) by {
            if k < at {
                assert(p[k].reads_as(q[k]));
            } else if k > at {
                assert(p[k - 1].reads_as(q[k - 1]));
            }
        }
    }
}

proof fn lemma_alike_covering(a: SyntaxNode, b: SyntaxNode, offset: usize, i: int)
    requires
        alike(a, b),
    ensures
        covering(a.children@, offset, i) == covering(b.children@, offset, i),
    decreases a.children@.len() - i,
{
    broadcast use group_alike;

    if 0 <= i < a.children@.len() {
        assert(alike(a.children@[i], b.children@[i]));
        lemma_alike_covering(a, b, offset, i + 1);
    }
}

proof fn lemma_alike_section_at(
    a: SyntaxNode,
    b: SyntaxNode,
    offset: usize,
    section: Option<(ImportSection, usize)>,
    found: Option<(ImportSection, usize)>,
)
    requires
        alike(a, b),
    ensures
        section_at(a, offset, section, found) == section_at(b, offset, section, found),
    decreases a,
{
    broadcast use group_alike;

    lemma_alike_covering(a, b, offset, 0);
    let here = if a.kind@ == "declUses"@ {
        match section {
            Some(s) => Some(s),
            None => Some((ImportSection::Module, a.start)),
        }
    } else {
        found
    };
    if let Some(k) = covering(a.children@, offset, 0) {
        if 0 <= k < a.children@.len() {
            lemma_alike_section_at(
                a.children@[k],
                b.children@[k],
                offset,
                section_below(a, section),
                here,
            );
        }
    }
}

proof fn lemma_same_chosen(
    xs: Seq<UnitInputModel>,
    ys: Seq<UnitInputModel>,
    imports: Seq<ImportBindingModel>,
    n: int,
)
    requires
        same_units(xs, ys),
    ensures
        chosen(xs, imports, n) == chosen(ys, imports, n),
    decreases n,
{
    broadcast use group_alike;

    if n > 0 {
        lemma_same_chosen(xs, ys, imports, n - 1);
        let import = imports[n - 1];
        let count = xs.len() as int;
        lemma_same_index(xs, ys, import.site.unit_id, count);
        lemma_unit_found(xs, import.site.unit_id, count);
        if let Some(k) = unit_index(xs, import.site.unit_id, count) {
            let a = xs[k].tree.root;
            let b = ys[k].tree.root;
            assert(xs[k].reads_as(ys[k]));
            lemma_alike(a, b, 0);
            lemma_alike_section_at(a, b, import.site.start, None, None);
        }
        if let ImportTargetModel::Loaded(target) = import.target {
            lemma_same_index(xs, ys, target, count);
        }
    }
}

proof fn lemma_same_open_in_unit(
    x: UnitInputModel,
    y: UnitInputModel,
    importer: usize,
    imports: Seq<ImportBindingModel>,
    n: int,
)
    requires
        x.reads_as(y),
    ensures
        open_in_unit(x, importer, imports, n) == open_in_unit(y, importer, imports, n),
    decreases n,
{
    broadcast use group_alike;

    if n > 0 {
        let a = x.tree.root;
        let b = y.tree.root;
        lemma_same_open_in_unit(x, y, importer, imports, n - 1);
        lemma_alike(a, b, 0);
        lemma_alike_sites(a, b, false);
        lemma_alike_section_at(a, b, sites_in(a, false)[n - 1].0, None, None);
    }
}

proof fn lemma_same_open_entries(
    xs: Seq<UnitInputModel>,
    ys: Seq<UnitInputModel>,
    imports: Seq<ImportBindingModel>,
    n: int,
)
    requires
        same_units(xs, ys),
        n <= xs.len(),
    ensures
        open_entries(xs, imports, n) == open_entries(ys, imports, n),
    decreases n,
{
    if n > 0 {
        let x = xs[n - 1];
        let y = ys[n - 1];
        let at = (n - 1) as usize;
        assert(x.reads_as(y));
        lemma_same_open_entries(xs, ys, imports, n - 1);
        lemma_alike(x.tree.root, y.tree.root, 0);
        lemma_alike_sites(x.tree.root, y.tree.root, false);
        let count = sites_in(x.tree.root, false).len() as int;
        lemma_same_open_in_unit(x, y, at, imports, count);
    }
}

proof fn lemma_same_declarations(xs: Seq<UnitInputModel>, ys: Seq<UnitInputModel>)
    requires
        same_units(xs, ys),
    ensures
        declarations(xs) == declarations(ys),
{
    assert forall|i: int| 0 <= i < xs.len() implies #[trigger] declarations(xs)[i] == declarations(
        ys,
    )[i] by {
        assert(xs[i].reads_as(ys[i]));
        lemma_alike(xs[i].tree.root, ys[i].tree.root, 0);
        lemma_alike_unit_types(i as usize, xs[i].tree.root, ys[i].tree.root, xs[i].source);
    }
    assert(declarations(xs) =~= declarations(ys));
}

/// What is known of the classes of a project depends on nothing but the nodes and
/// the texts of its units and the choices for their `uses` clauses.
pub proof fn law_equal_nodes_give_equal_index(a: ProjectModel, b: ProjectModel)
    requires
        a.reads_as(b),
    ensures
        project_index(a) == project_index(b),
{
    assert(same_units(a.units, b.units));
    lemma_same_ranked(a.units, b.units);
    let xs = ranked(a.units);
    let ys = ranked(b.units);
    lemma_same_declarations(xs, ys);
    lemma_same_chosen(xs, ys, a.imports, a.imports.len() as int);
    lemma_same_open_entries(xs, ys, a.imports, xs.len() as int);
}

/// The graphs of a unit in a project depend on nothing but the nodes and the texts
/// of the units and the choices for their `uses` clauses: units that were copied,
/// or parsed a second time, have the graphs that they had.
pub proof fn law_equal_nodes_give_equal_project_graphs(
    a: ProjectModel,
    b: ProjectModel,
    id: Seq<char>,
)
    requires
        a.reads_as(b),
    ensures
        project_graphs(a, id) == project_graphs(b, id),
{
    assert(same_units(a.units, b.units));
    lemma_same_ranked(a.units, b.units);
    law_equal_nodes_give_equal_index(a, b);
    let xs = ranked(a.units);
    let ys = ranked(b.units);
    let types = project_index(a);
    lemma_same_index(xs, ys, id, xs.len() as int);
    lemma_unit_found(xs, id, xs.len() as int);
    if let Some(k) = unit_index(xs, id, xs.len() as int) {
        assert(xs[k].reads_as(ys[k]));
        lemma_alike(xs[k].tree.root, ys[k].tree.root, 0);
        lemma_alike_tree_graphs(
            xs[k].tree.root,
            ys[k].tree.root,
            xs[k].source,
            types,
            k as usize,
        );
    }
}

/// Whether a unit reads as one of the given ones.
pub open spec fn has_copy(x: UnitInputModel, units: Seq<UnitInputModel>) -> bool {
    exists|k: int| 0 <= k < units.len() && x.reads_as(#[trigger] units[k])
}

/// The units of the second list that those of the first read as, in the order of
/// the first.
spec fn gathered(xs: Seq<UnitInputModel>, ys: Seq<UnitInputModel>) -> Seq<UnitInputModel> {
    Seq::new(xs.len(), |i: int| ys[copy_at(xs[i], ys)])
}

spec fn copy_at(x: UnitInputModel, units: Seq<UnitInputModel>) -> int {
    choose|k: int| 0 <= k < units.len() && x.reads_as(#[trigger] units[k])
}

proof fn lemma_copy_at(x: UnitInputModel, units: Seq<UnitInputModel>)
    requires
        has_copy(x, units),
    ensures
        0 <= copy_at(x, units) < units.len(),
        x.reads_as(units[copy_at(x, units)]),
{
}

proof fn lemma_gathered_is_copied(xs: Seq<UnitInputModel>, ys: Seq<UnitInputModel>)
    requires
        forall|i: int| 0 <= i < xs.len() ==> has_copy(#[trigger] xs[i], ys),
    ensures
        same_units(xs, gathered(xs, ys)),
{
    assert forall|i: int| 0 <= i < xs.len() implies (#[trigger] xs[i]).reads_as(
        gathered(xs, ys)[i],
    ) by {
        assert(has_copy(xs[i], ys));
        lemma_copy_at(xs[i], ys);
    }
}

proof fn lemma_gathered_is_held(xs: Seq<UnitInputModel>, ys: Seq<UnitInputModel>, u: UnitInputModel)
    requires
        forall|i: int| 0 <= i < xs.len() ==> has_copy(#[trigger] xs[i], ys),
        gathered(xs, ys).contains(u),
    ensures
        ys.contains(u),
{
    let i = choose|i: int| 0 <= i < xs.len() && gathered(xs, ys)[i] == u;
    assert(has_copy(xs[i], ys));
    lemma_copy_at(xs[i], ys);
    assert(ys[copy_at(xs[i], ys)] == u);
}

proof fn lemma_gathered_holds(xs: Seq<UnitInputModel>, project: ProjectModel, n: int)
    requires
        project.valid(),
        forall|i: int| 0 <= i < xs.len() ==> has_copy(#[trigger] xs[i], project.units),
        0 <= n < project.units.len(),
        has_copy(project.units[n], xs),
    ensures
        gathered(xs, project.units).contains(project.units[n]),
{
    let ys = project.units;
    let i = copy_at(ys[n], xs);
    lemma_copy_at(ys[n], xs);
    assert(has_copy(xs[i], ys));
    lemma_copy_at(xs[i], ys);
    let k = copy_at(xs[i], ys);
    law_units_are_distinct(project, n);
    assert(ys[k].id == xs[i].id);
    assert(ys[n].id == xs[i].id);
    assert(k == n);
    assert(gathered(xs, ys)[i] == ys[n]);
}

/// The graphs of a unit depend neither on the order in which the units of its
/// project are given nor on how their trees are held: it is enough that each unit
/// of either project reads as a unit of the other.
pub proof fn law_graphs_depend_on_neither_order_nor_copies(
    a: ProjectModel,
    b: ProjectModel,
    id: Seq<char>,
)
    requires
        a.valid(),
        b.valid(),
        a.imports == b.imports,
        a.units.len() == b.units.len(),
        forall|i: int| 0 <= i < a.units.len() ==> has_copy(#[trigger] a.units[i], b.units),
        forall|i: int| 0 <= i < b.units.len() ==> has_copy(#[trigger] b.units[i], a.units),
    ensures
        project_graphs(a, id) == project_graphs(b, id),
{
    let c = ProjectModel { units: gathered(a.units, b.units), imports: a.imports };
    lemma_gathered_is_copied(a.units, b.units);
    law_equal_nodes_give_equal_verdicts(a, c);
    law_equal_nodes_give_equal_project_graphs(a, c, id);
    assert forall|u: UnitInputModel| c.units.contains(u) <==> #[trigger] b.units.contains(u) by {
        if c.units.contains(u) {
            lemma_gathered_is_held(a.units, b.units, u);
        }
        if b.units.contains(u) {
            let n = choose|n: int| 0 <= n < b.units.len() && b.units[n] == u;
            assert(has_copy(b.units[n], a.units));
            lemma_gathered_holds(a.units, b, n);
        }
    }
    law_graphs_do_not_depend_on_unit_order(c, b, id);
}

} // verus!
