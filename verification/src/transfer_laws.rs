//! What simple statements add to a graph: plain statements, the ways out of a
//! sequence, and labels.

use vstd::prelude::*;
use crate::constructs::{calls, exit_argument, jumps, raise_evaluates, written_exception};
use crate::exception_types::{raised_fact_of, ExceptionTypeFact};
use crate::flow::{unknown_exception, FlowModel, TransferKind, TransferModel};
use crate::graph::{BasicBlockKind, BlockId, EdgeKind};
use crate::graph_facts::{extends, size};
use crate::labels::{goto_bindings, goto_target, label_name, placed, TargetModel};
use crate::scope_graph::{
    labelled, labelled_statement, placed_statement, prepared, raise_statement, sequence_child,
    single, walk, ContextModel, EnvModel, Selection, StateModel,
};
use crate::statement_laws::{
    arrives, begins, holds, joins, lemma_arrives, lemma_held, lemma_holds_still, lemma_joined,
    lemma_joins_still, lemma_single_is,
};
use crate::syntax::{any_field, any_kind, SyntaxNode};
use crate::walk_facts::{in_sequence, lemma_sizes, lemma_walk_is_sequence, picked, statements_of};

verus! {

broadcast use {crate::graph_facts::group_graph_facts, crate::syntax::lemma_find_bounds};

// Sequences ------------------------------------------------------------------------------------

/// The statements of a `begin..end` block: its children but for the delimiters, the
/// separators and the declarations.
pub open spec fn block_part(node: SyntaxNode) -> Seq<SyntaxNode> {
    picked(
        node.children@,
        |i: int|
            !set![
                "kBegin"@,
                "kEnd"@,
                ";"@,
                "declVars"@,
                "declConsts"@,
                "declTypes"@,
            ].contains(node.children@[i].kind@),
        node.children@.len() as int,
    )
}

/// The statements of an initialization or finalization section: its children but for
/// comments, separators and the keyword that opens it.
pub open spec fn section_part(node: SyntaxNode) -> Seq<SyntaxNode> {
    picked(
        node.children@,
        |i: int|
            !node.children@[i].extra && node.children@[i].kind@ != ";"@ && !(node.kind@
                == "initialization"@ && node.children@[i].kind@ == "kInitialization"@) && !(
            node.kind@ == "finalization"@ && node.children@[i].kind@ == "kFinalization"@),
        node.children@.len() as int,
    )
}

pub proof fn lemma_scopes(
    env: EnvModel,
    ctx: ContextModel,
    st: StateModel,
    node: SyntaxNode,
    current: Option<BlockId>,
)
    ensures
        walk(env, ctx, st, node, Selection::Block, 0, current, Seq::empty()) == in_sequence(
            env,
            ctx,
            st,
            block_part(node),
            current,
        ),
        walk(env, ctx, st, node, Selection::Section, 0, current, Seq::empty()) == in_sequence(
            env,
            ctx,
            st,
            section_part(node),
            current,
        ),
{
    let words = set!["kBegin"@, "kEnd"@, ";"@, "declVars"@, "declConsts"@, "declTypes"@];
    let a = |i: int| !words.contains(node.children@[i].kind@);
    let b = |i: int|
        !node.children@[i].extra && node.children@[i].kind@ != ";"@ && !(node.kind@
            == "initialization"@ && node.children@[i].kind@ == "kInitialization"@) && !(node.kind@
            == "finalization"@ && node.children@[i].kind@ == "kFinalization"@);
    lemma_walk_is_sequence(env, ctx, st, node, Selection::Block, a, 0, current);
    lemma_walk_is_sequence(env, ctx, st, node, Selection::Section, b, 0, current);
}

/// A `begin..end` block and a statement list are their statements one behind the
/// other.
pub proof fn law_blocks_are_sequences(
    env: EnvModel,
    ctx: ContextModel,
    st: StateModel,
    node: SyntaxNode,
    current: BlockId,
)
    requires
        !node.extra,
    ensures
        node.kind@ == "block"@ ==> single(env, ctx, st, node, current) == in_sequence(
            env,
            ctx,
            st,
            block_part(node),
            Some(current),
        ),
        node.kind@ == "statements"@ ==> single(env, ctx, st, node, current) == in_sequence(
            env,
            ctx,
            st,
            statements_of(node),
            Some(current),
        ),
{
    lemma_single_is(env, ctx, st, node, current);
    lemma_scopes(env, ctx, st, node, Some(current));
    crate::walk_facts::lemma_statements(env, ctx, st, node, Some(current));
}

/// A statement of a sequence begins where the one before it ends. Where nothing gets
/// there it begins in a new block that no edge enters. A comment adds nothing.
///
/// The witness gives the block and the state in which the statement begins.
pub proof fn law_statement_begins_where_the_last_ends(
    env: EnvModel,
    ctx: ContextModel,
    st: StateModel,
    node: SyntaxNode,
    current: Option<BlockId>,
) -> (r: (BlockId, StateModel))
    requires
        node.kind@ != "label"@,
        size(sequence_child(env, ctx, st, node, current).0) <= usize::MAX,
    ensures
        node.extra ==> sequence_child(env, ctx, st, node, current) == (
            st,
            FlowModel { normal: current, transfers: Seq::empty() },
        ),
        !node.extra ==> ({
            let (b, s) = r;
            &&& sequence_child(env, ctx, st, node, current) == single(env, ctx, s, node, b)
            &&& current matches Some(block) ==> b == block && s == st
            &&& current is None ==> b.0 == size(st) && size(s) == size(st) + 1 && s.graph.edges
                == st.graph.edges && s.graph.blocks[b.0 as int].kind == BasicBlockKind::Normal
                && s.graph.blocks[b.0 as int].stmts.len() == 0
        }),
{
    match current {
        Some(b) => (b, st),
        None => {
            let s = st.block(BasicBlockKind::Normal);
            if !node.extra {
                crate::walk_facts::lemma_single_done(env, node, ctx, s, node, st.next());
                lemma_sizes(s, sequence_child(env, ctx, st, node, current).0);
            }
            (st.next(), s)
        },
    }
}

// Plain statements -----------------------------------------------------------------------------

/// Whether a kind names a statement with a meaning of its own.
pub open spec fn has_meaning(kind: Seq<char>) -> bool {
    set![
        "ppBlock"@,
        "labeledStatement"@,
        "labeledStatementTr"@,
        "block"@,
        "statements"@,
        "ifElse"@,
        "if"@,
        "for"@,
        "foreach"@,
        "while"@,
        "case"@,
        "repeat"@,
        "try"@,
        "with"@,
        "raise"@,
        "goto"@,
    ].contains(kind)
}

/// What a statement in a block of its own leaves behind: it stands in the block, the
/// block is where the flow arrives, and at most the edge to that block is new.
pub open spec fn stands_in(
    ctx: ContextModel,
    st: StateModel,
    last: StateModel,
    node: SyntaxNode,
    current: BlockId,
    b: BlockId,
) -> bool {
    &&& arrives(ctx, st, last, current, b)
    &&& holds(last, b, node.start, node.end, node.kind@)
    &&& extends(st, last)
    &&& b == current ==> last.graph.edges == st.graph.edges && size(last) == size(st)
    &&& b != current ==> last.graph.edges.len() == st.graph.edges.len() + 1 && size(last) == size(
        st,
    ) + 1
}

proof fn lemma_placed_stands(
    env: EnvModel,
    ctx: ContextModel,
    st: StateModel,
    node: SyntaxNode,
    current: BlockId,
)
    requires
        begins(ctx, st, current),
        size(placed_statement(ctx, st, node, current).0) <= usize::MAX,
    ensures
        ({
            let (s, b) = placed_statement(ctx, st, node, current);
            stands_in(ctx, st, s, node, current, b)
        }),
{
    let (s0, b) = prepared(ctx, st, current);
    let (s, b1) = placed_statement(ctx, st, node, current);
    assert(extends(st, s0) && extends(s0, s));
    lemma_arrives(env, ctx, st, current, s);
    lemma_held(s0, b, node.start, node.end, node.kind@);
}

/// A plain statement, one without control flow of its own, stands in the block where
/// the flow arrives, and the flow goes on from there. Inside a protected region it
/// may raise an exception of which nothing is known.
///
/// The witness gives the block.
pub proof fn law_plain_statement(
    env: EnvModel,
    ctx: ContextModel,
    st: StateModel,
    node: SyntaxNode,
    current: BlockId,
) -> (b: BlockId)
    requires
        !node.extra,
        !has_meaning(node.kind@),
        node.kind@ == "statement"@ ==> !calls(node, env.source, "exit"@) && !jumps(
            node,
            env.source,
            "break"@,
        ) && !jumps(node, env.source, "continue"@),
        begins(ctx, st, current),
        size(single(env, ctx, st, node, current).0) <= usize::MAX,
    ensures
        ({
            let (last, flow) = single(env, ctx, st, node, current);
            &&& stands_in(ctx, st, last, node, current, b)
            &&& flow.normal == Some(b)
            &&& ctx.depth == 0 ==> flow.transfers.len() == 0
            &&& ctx.depth > 0 ==> flow.transfers == seq![unknown_exception(b)]
        }),
{
    lemma_placed_stands(env, ctx, st, node, current);
    placed_statement(ctx, st, node, current).1
}

/// `Exit` ends the sequence: what leaves is an `Exit` and, inside a protected region
/// and with a value to evaluate, an exception of which nothing is known.
///
/// The witness gives the block.
pub proof fn law_exit(
    env: EnvModel,
    ctx: ContextModel,
    st: StateModel,
    node: SyntaxNode,
    current: BlockId,
) -> (b: BlockId)
    requires
        !node.extra,
        node.kind@ == "statement"@,
        calls(node, env.source, "exit"@),
        begins(ctx, st, current),
        size(single(env, ctx, st, node, current).0) <= usize::MAX,
    ensures
        ({
            let (last, flow) = single(env, ctx, st, node, current);
            &&& stands_in(ctx, st, last, node, current, b)
            &&& flow.normal is None
            &&& flow.transfers.len() == (if ctx.depth > 0 && exit_argument(node, env.source) {
                2
            } else {
                1int
            })
            &&& flow.transfers[0].kind == TransferKind::Exit && flow.transfers[0].source == b
                && !flow.transfers[0].from_finally
            &&& flow.transfers.len() == 2 ==> flow.transfers[1] == unknown_exception(b)
        }),
{
    lemma_single_is(env, ctx, st, node, current);
    crate::statement_laws::lemma_kinds_differ();
    lemma_placed_stands(env, ctx, st, node, current);
    placed_statement(ctx, st, node, current).1
}

/// `Break` and `Continue` end the sequence and go to the block behind the innermost
/// loop, or to where it decides on the next round; outside a loop they leave the
/// scope.
///
/// The witness gives the block.
pub proof fn law_break_and_continue(
    env: EnvModel,
    ctx: ContextModel,
    st: StateModel,
    node: SyntaxNode,
    current: BlockId,
) -> (b: BlockId)
    requires
        !node.extra,
        node.kind@ == "statement"@,
        !calls(node, env.source, "exit"@),
        jumps(node, env.source, "break"@) || jumps(node, env.source, "continue"@),
        begins(ctx, st, current),
        size(single(env, ctx, st, node, current).0) <= usize::MAX,
    ensures
        ({
            let (last, flow) = single(env, ctx, st, node, current);
            let breaks = jumps(node, env.source, "break"@);
            let t = flow.transfers[0];
            &&& stands_in(ctx, st, last, node, current, b)
            &&& flow.normal is None
            &&& flow.transfers.len() == 1
            &&& t.source == b && !t.from_finally
            &&& ctx.loops.len() == 0 ==> t.kind == TransferKind::Exit
            &&& ctx.loops.len() > 0 ==> t.scopes == ctx.loops.last().scopes && if breaks {
                t.kind == TransferKind::Break && t.target == Some(ctx.loops.last().break_target)
            } else {
                t.kind == TransferKind::Continue && t.target == Some(
                    ctx.loops.last().continue_target,
                )
            }
        }),
{
    lemma_single_is(env, ctx, st, node, current);
    crate::statement_laws::lemma_kinds_differ();
    lemma_placed_stands(env, ctx, st, node, current);
    placed_statement(ctx, st, node, current).1
}

/// `raise` ends the sequence with an exception: the one that is being handled where
/// it names none, and else what is known of the one that it names. Where its
/// expression is evaluated first, the exception comes from a block behind that of the
/// statement, and inside a protected region the evaluation may raise another one, of
/// which nothing is known.
///
/// The witness gives the block of the statement and the block that raises.
pub proof fn law_raise(
    env: EnvModel,
    ctx: ContextModel,
    st: StateModel,
    node: SyntaxNode,
    current: BlockId,
) -> (r: (BlockId, BlockId))
    requires
        !node.extra,
        node.kind@ == "raise"@,
        begins(ctx, st, current),
        size(single(env, ctx, st, node, current).0) <= usize::MAX,
    ensures
        ({
            let (b, raised) = r;
            let (last, flow) = single(env, ctx, st, node, current);
            let t = flow.transfers.last();
            &&& arrives(ctx, st, last, current, b)
            &&& holds(last, b, node.start, node.end, node.kind@)
            &&& extends(st, last)
            &&& flow.normal is None
            &&& flow.transfers.len() > 0
            &&& t.kind == TransferKind::Exception && t.source == raised && !t.from_finally
            &&& t.written == written_exception(node, env.source)
            &&& t.fact == Some(
                if node.find(any_field("exception"@)) is Some {
                    raised_fact_of(env.types, env.unit, node, env.source)
                } else if ctx.handled.len() > 0 {
                    ctx.handled.last()
                } else {
                    ExceptionTypeFact::Unknown
                },
            )
            &&& !raise_evaluates(node, env.source) ==> raised == b && flow.transfers.len() == 1
            &&& raise_evaluates(node, env.source) ==> raised.0 >= size(st) && raised != b && joins(
                last,
                b,
                raised,
                EdgeKind::Normal,
            ) && flow.transfers.len() == (if ctx.depth > 0 {
                2
            } else {
                1int
            })
            &&& flow.transfers.len() == 2 ==> flow.transfers[0].kind == TransferKind::Exception
                && flow.transfers[0].source == b && flow.transfers[0].fact == Some(
                ExceptionTypeFact::Unknown,
            ) && flow.transfers[0].written == (if t.fact == Some(ExceptionTypeFact::Unknown) {
                t.written
            } else {
                None
            })
        }),
{
    lemma_single_is(env, ctx, st, node, current);
    let (s0, b0) = prepared(ctx, st, current);
    let (s, b) = placed_statement(ctx, st, node, current);
    let (last, flow) = raise_statement(env, ctx, st, node, current);
    assert(extends(st, s0) && extends(s0, s) && extends(s, last));
    lemma_sizes(s, last);
    lemma_sizes(st, s);
    lemma_placed_stands(env, ctx, st, node, current);
    lemma_holds_still(s, last, b, node.start, node.end, node.kind@);
    lemma_arrives(env, ctx, st, current, last);
    if raise_evaluates(node, env.source) {
        let raised = s.next();
        lemma_joined(s.block(BasicBlockKind::Normal), b, raised, EdgeKind::Normal);
        (b, raised)
    } else {
        (b, b)
    }
}

/// `goto` ends the sequence: what leaves goes to the label that it names and to
/// nothing else.
///
/// The witness gives the block.
pub proof fn law_goto(
    env: EnvModel,
    ctx: ContextModel,
    st: StateModel,
    node: SyntaxNode,
    current: BlockId,
    name: int,
) -> (b: BlockId)
    requires
        !node.extra,
        node.kind@ == "goto"@,
        node.find(any_kind("identifier"@)) == Some(name) || (node.find(any_kind("identifier"@))
            is None && node.find(any_kind("labelNumber"@)) == Some(name)),
        begins(ctx, st, current),
        size(single(env, ctx, st, node, current).0) <= usize::MAX,
    ensures
        ({
            let (last, flow) = single(env, ctx, st, node, current);
            &&& stands_in(ctx, st, last, node, current, b)
            &&& flow.normal is None
            &&& flow.transfers.len() > 0
            &&& forall|k: int|
                0 <= k < flow.transfers.len() ==> (#[trigger] flow.transfers[k]).kind
                    == TransferKind::Goto && flow.transfers[k].source == b
                    && !flow.transfers[k].from_finally && flow.transfers[k].label == Some(
                    label_name(node.children@[name].text(env.source)),
                ) && flow.transfers[k].binding is Some
        }),
{
    lemma_single_is(env, ctx, st, node, current);
    lemma_placed_stands(env, ctx, st, node, current);
    placed_statement(ctx, st, node, current).1
}

/// A `goto` goes to each namespace in which its label may stand, and to the cleanup
/// scopes of the label there; where the label stands nowhere, it keeps its own
/// namespace and leaves every cleanup scope.
pub proof fn law_goto_goes_wherever_its_label_may_stand(
    env: EnvModel,
    ctx: ContextModel,
    st: StateModel,
    node: SyntaxNode,
    current: BlockId,
    name: int,
    i: int,
)
    requires
        !node.extra,
        node.kind@ == "goto"@,
        node.find(any_kind("identifier"@)) == Some(name) || (node.find(any_kind("identifier"@))
            is None && node.find(any_kind("labelNumber"@)) == Some(name)),
    ensures
        ({
            let (last, flow) = single(env, ctx, st, node, current);
            let label = label_name(node.children@[name].text(env.source));
            let places = goto_bindings(
                env.labels,
                env.branches,
                last.parents,
                ctx.binding,
                label,
            );
            &&& places.len() > 0 ==> flow.transfers.len() == places.len()
            &&& 0 <= i < places.len() ==> flow.transfers[i].binding == Some(places[i].0)
                && flow.transfers[i].scopes == places[i].1
            &&& places.len() == 0 ==> flow.transfers.len() == 1 && flow.transfers[0].binding
                == Some(ctx.binding) && flow.transfers[0].scopes.len() == 0
        }),
{
    lemma_single_is(env, ctx, st, node, current);
}

/// What is raised without a trace is an exception of which nothing is known, and a
/// transfer is completed by an edge that shows where it comes from: out of a finalizer,
/// by a jump, or as ordinary flow.
pub proof fn law_transfers_and_their_edges(b: BlockId, t: TransferModel)
    ensures
        unknown_exception(b).kind == TransferKind::Exception,
        unknown_exception(b).source == b,
        unknown_exception(b).fact == Some(ExceptionTypeFact::Unknown),
        unknown_exception(b).written is None,
        unknown_exception(b).target is None,
        !unknown_exception(b).from_finally,
        t.from_finally ==> t.completion() == EdgeKind::FinallyExit,
        !t.from_finally && t.kind == TransferKind::Goto ==> t.completion() == EdgeKind::Goto,
        !t.from_finally && t.kind != TransferKind::Goto ==> t.completion() == EdgeKind::Normal,
{
}

// Labels ---------------------------------------------------------------------------------------

/// Whether a node is a labelled statement: labels, and behind them, at child `j`, one
/// statement.
pub open spec fn is_labelled(node: SyntaxNode, j: int) -> bool {
    &&& node.kind@ == "labeledStatement"@ || node.kind@ == "labeledStatementTr"@
    &&& !node.extra
    &&& 0 <= j < node.children@.len()
    &&& node.children@[j].named && node.children@[j].kind@ != "label"@ && !node.children@[j].extra
    &&& forall|i: int|
        0 <= i < j && (#[trigger] node.children@[i]).named ==> node.children@[i].kind@ == "label"@
            && !node.children@[i].extra
    &&& forall|i: int| j < i < node.children@.len() ==> !(#[trigger] node.children@[i]).named
}

/// A labelled statement is its labels and its statement, one behind the other.
pub proof fn law_labelled_statement(
    env: EnvModel,
    ctx: ContextModel,
    st: StateModel,
    node: SyntaxNode,
    current: BlockId,
    j: int,
)
    requires
        is_labelled(node, j),
    ensures
        single(env, ctx, st, node, current) == in_sequence(
            env,
            ctx,
            st,
            picked(
                node.children@,
                |i: int| node.children@[i].named,
                node.children@.len() as int,
            ),
            Some(current),
        ),
{
    lemma_single_is(env, ctx, st, node, current);
    let pick = |i: int| node.children@[i].named;
    lemma_labels(env, ctx, st, node, current, pick, j, j);
    let before = picked(node.children@, pick, j);
    let (s, f) = in_sequence(env, ctx, st, before, Some(current));
    let (s1, f1) = single(env, ctx, s, node.children@[j], f.normal->0);
    let none = Seq::<TransferModel>::empty();
    assert(none + f1.transfers =~= f1.transfers);
    lemma_nothing_behind(env, ctx, s1, node, j, j + 1, f1.normal, f1.transfers);
    lemma_picked_up_to(node, pick, j, node.children@.len() as int);
    let all = picked(node.children@, pick, j + 1);
    assert(all.drop_last() =~= before);
    assert(all.last() == node.children@[j]);
}

proof fn lemma_labels(
    env: EnvModel,
    ctx: ContextModel,
    st: StateModel,
    node: SyntaxNode,
    current: BlockId,
    pick: spec_fn(int) -> bool,
    j: int,
    i: int,
)
    requires
        is_labelled(node, j),
        0 <= i <= j,
        forall|k: int| 0 <= k < node.children@.len() ==> #[trigger] pick(k)
            == node.children@[k].named,
    ensures
        ({
            let (s, f) = in_sequence(
                env,
                ctx,
                st,
                picked(node.children@, pick, i),
                Some(current),
            );
            &&& f.normal is Some
            &&& f.transfers == Seq::<TransferModel>::empty()
            &&& labelled_statement(env, ctx, st, node, 0, Some(current), Seq::empty())
                == labelled_statement(env, ctx, s, node, i, f.normal, Seq::empty())
        }),
    decreases i,
{
    let none = Seq::<TransferModel>::empty();
    if i > 0 {
        lemma_labels(env, ctx, st, node, current, pick, j, i - 1);
        let before = picked(node.children@, pick, i - 1);
        let now = picked(node.children@, pick, i);
        if pick(i - 1) {
            assert(now.drop_last() =~= before);
            assert(now.last() == node.children@[i - 1]);
            assert(none + none =~= none);
        }
    }
}

proof fn lemma_nothing_behind(
    env: EnvModel,
    ctx: ContextModel,
    st: StateModel,
    node: SyntaxNode,
    j: int,
    i: int,
    current: Option<BlockId>,
    acc: Seq<TransferModel>,
)
    requires
        j < i <= node.children@.len(),
        0 <= j,
        forall|k: int| j < k < node.children@.len() ==> !(#[trigger] node.children@[k]).named,
    ensures
        labelled_statement(env, ctx, st, node, i, current, acc) == (
            st,
            FlowModel { normal: current, transfers: acc },
        ),
    decreases node.children@.len() - i,
{
    if i < node.children@.len() {
        lemma_nothing_behind(env, ctx, st, node, j, i + 1, current, acc);
    }
}

proof fn lemma_picked_up_to(node: SyntaxNode, pick: spec_fn(int) -> bool, j: int, n: int)
    requires
        0 <= j < n <= node.children@.len(),
        forall|k: int| j < k < node.children@.len() ==> !(#[trigger] node.children@[k]).named,
        forall|k: int| 0 <= k < node.children@.len() ==> #[trigger] pick(k)
            == node.children@[k].named,
    ensures
        picked(node.children@, pick, n) == picked(node.children@, pick, j + 1),
    decreases n,
{
    if n > j + 1 {
        assert(!node.children@[n - 1].named);
        assert(!pick(n - 1));
        lemma_picked_up_to(node, pick, j, n - 1);
    }
}

/// A label begins a block: one that holds nothing executable, so that a jump to it
/// runs nothing that stands before it. The flow goes on into the block, which is
/// remembered under the label's name and namespace.
///
/// The witness gives the block.
pub proof fn law_label_begins_a_block(
    env: EnvModel,
    ctx: ContextModel,
    st: StateModel,
    node: SyntaxNode,
    current: BlockId,
    name: int,
) -> (b: BlockId)
    requires
        !node.extra,
        node.kind@ == "label"@,
        node.find(any_kind("identifier"@)) == Some(name) || (node.find(any_kind("identifier"@))
            is None && node.find(any_kind("labelNumber"@)) == Some(name)),
        begins(ctx, st, current),
        size(sequence_child(env, ctx, st, node, Some(current)).0) <= usize::MAX,
    ensures
        ({
            let (last, flow) = sequence_child(env, ctx, st, node, Some(current));
            &&& flow.normal == Some(b) && flow.transfers.len() == 0
            &&& holds(last, b, node.start, node.end, node.kind@)
            &&& b == current || (b.0 >= size(st) && joins(last, current, b, EdgeKind::Normal))
            &&& forall|k: int|
                0 <= k < last.graph.blocks[b.0 as int].stmts.len() ==> (
                #[trigger] last.graph.blocks[b.0 as int].stmts[k]).kind == "label"@
            &&& last.targets == st.targets.push(
                TargetModel {
                    binding: ctx.binding,
                    name: label_name(node.children@[name].text(env.source)),
                    block: b,
                },
            )
        }),
{
    let (last, b) = labelled(env, ctx, st, node, current);
    let s = if st.graph.has_executable(current) {
        st.block(BasicBlockKind::Normal).edge(current, st.next(), EdgeKind::Normal)
    } else {
        st
    };
    let s1 = StateModel { targets: last.targets, ..s };
    assert(last == s1.stmt(b, node.start, node.end, node.kind@));
    assert(size(s1) == size(s));
    lemma_held(s1, b, node.start, node.end, node.kind@);
    if st.graph.has_executable(current) {
        lemma_joined(st.block(BasicBlockKind::Normal), current, st.next(), EdgeKind::Normal);
        assert(extends(s, s1));
        assert(extends(s, last));
        lemma_joins_still(s, last, current, b, EdgeKind::Normal);
    }
    let stmts = last.graph.blocks[b.0 as int].stmts;
    let before = s.graph.blocks[b.0 as int].stmts;
    assert forall|k: int| 0 <= k < stmts.len() implies (#[trigger] stmts[k]).kind == "label"@ by {
        if k < before.len() {
            assert(stmts[k] == before[k]);
            if !st.graph.has_executable(current) {
                assert(st.graph.blocks[current.0 as int].stmts[k].kind == "label"@);
            }
        }
    }
    b
}

/// Whether a label of a name was placed in a namespace.
pub open spec fn label_placed(targets: Seq<TargetModel>, binding: usize, name: Seq<char>) -> bool {
    exists|k: int|
        0 <= k < targets.len() && (#[trigger] targets[k]).binding == binding && targets[k].name
            == name
}

proof fn lemma_placed(targets: Seq<TargetModel>, binding: usize, name: Seq<char>, n: int)
    requires
        0 <= n <= targets.len(),
    ensures
        placed(targets, binding, name, n) is None <==> forall|k: int|
            0 <= k < n ==> !((#[trigger] targets[k]).binding == binding && targets[k].name == name),
        placed(targets, binding, name, n) matches Some(b) ==> exists|k: int|
            0 <= k < n && (#[trigger] targets[k]).binding == binding && targets[k].name == name
                && targets[k].block == b,
    decreases n,
{
    if n > 0 {
        lemma_placed(targets, binding, name, n - 1);
        if targets[n - 1].binding == binding && targets[n - 1].name == name {
            assert(targets[n - 1].block == placed(targets, binding, name, n)->0);
        }
    }
}

/// A jump goes to a label of its name in its own namespace where there is one, and
/// else to where the namespace around it would go.
pub proof fn law_goto_prefers_its_own_namespace(
    targets: Seq<TargetModel>,
    parents: Seq<Option<usize>>,
    binding: usize,
    name: Seq<char>,
)
    ensures
        label_placed(targets, binding, name) ==> exists|k: int|
            0 <= k < targets.len() && (#[trigger] targets[k]).binding == binding && targets[k].name
                == name && goto_target(targets, parents, binding, name) == Some(targets[k].block),
        !label_placed(targets, binding, name) && binding < parents.len() && (
        parents[binding as int] matches Some(p) && p < binding) ==> goto_target(
            targets,
            parents,
            binding,
            name,
        ) == goto_target(targets, parents, parents[binding as int]->0, name),
        !label_placed(targets, binding, name) && (binding >= parents.len()
            || parents[binding as int] is None) ==> goto_target(targets, parents, binding, name)
            is None,
{
    lemma_placed(targets, binding, name, targets.len() as int);
}

} // verus!
