//! What the control-flow graph of a scope is.
//!
//! The graph is defined by a walk over the syntax tree. The walk threads a state
//! (the graph so far and the bookkeeping of labels and finalizers) and passes
//! down a context (the loops, cleanup scopes and handlers around a statement). It
//! gives the flow that leaves the statement.

use vstd::prelude::*;
use crate::constructs::{calls, exit_argument, jumps, raise_evaluates, written_exception};
use crate::exception_types::{
    context_of, handler_fact_of, matches_handler, raised_fact_of, ExceptionTypeFact, IndexModel,
    TypeMatch,
};
use crate::flow::{
    distinct, exception_transfer, exit_transfer, goto_transfer, loop_transfer, unknown_exception,
    FlowModel, KeyModel, TransferKind, TransferModel,
};
use crate::graph::{BasicBlockKind, BlockId, CfgModel, EdgeKind, GraphModel, StmtModel};
use crate::labels::{
    branch_at, branch_content, goto_bindings, goto_target, has_else, hollow, label_of, last_branch,
    plan_of, BranchEntry, LabelModel, TargetModel,
};
use crate::project::{unit_index, ProjectModel};
use crate::project_index::{project_index, ranked};
use crate::syntax::{
    any_field, any_kind, field_kind, find_from, hit, module_from, named_kind, SyntaxNode,
};

verus! {

broadcast use {crate::syntax::lemma_find_bounds, crate::syntax::lemma_module_bounds};

// The pieces -------------------------------------------------------------------------------

/// What stays fixed while a scope is walked.
pub struct EnvModel {
    pub source: Seq<u8>,
    pub types: IndexModel,
    pub unit: usize,
    pub exit: BlockId,
    pub scope_ids: Seq<(usize, usize)>,
    pub labels: Seq<LabelModel>,
    pub branches: Seq<BranchEntry>,
}

/// A loop around a statement: where `continue` and `break` go, and the cleanup
/// scopes around the loop.
pub struct FrameModel {
    pub continue_target: BlockId,
    pub break_target: BlockId,
    pub scopes: Seq<usize>,
}

/// What surrounds a statement.
#[verifier::ext_equal]
pub struct ContextModel {
    pub loops: Seq<FrameModel>,
    /// The cleanup scopes, outermost first.
    pub scopes: Seq<usize>,
    /// The label namespace.
    pub binding: usize,
    /// The continuation of the finalizer body being walked.
    pub continuation: Option<usize>,
    /// The transfer that waits beyond that finalizer.
    pub suspended: Option<KeyModel>,
    /// The handler dispatches that can receive an exception.
    pub dispatches: Seq<usize>,
    /// How many `try` bodies, handlers and finalizers surround the statement.
    pub depth: nat,
    /// The exceptions being handled, outermost first.
    pub handled: Seq<ExceptionTypeFact>,
}

/// What makes two walks of a finalizer body give the same result.
#[verifier::ext_equal]
pub struct CacheKeyModel {
    pub start: usize,
    pub end: usize,
    pub scope: usize,
    pub continuation: Option<KeyModel>,
    pub caller: Option<usize>,
    pub scopes: Seq<usize>,
    pub loops: Seq<FrameModel>,
    pub dispatches: Seq<usize>,
    pub depth: nat,
    pub handled: Seq<ExceptionTypeFact>,
    pub binding: Option<usize>,
}

/// What follows the normal end of a finalizer body.
#[verifier::ext_equal]
pub struct ReturnModel {
    pub start: usize,
    pub end: usize,
    pub scope: usize,
    pub local: Option<KeyModel>,
    pub suspended: Option<KeyModel>,
    pub caller: Option<usize>,
    pub handled: Seq<ExceptionTypeFact>,
}

/// A finalizer body that has been walked.
#[verifier::ext_equal]
pub struct CachedModel {
    pub key: CacheKeyModel,
    pub entry: BlockId,
    pub flow: FlowModel,
}

/// The graph so far, and what the walk remembers.
#[verifier::ext_equal]
pub struct StateModel {
    pub graph: GraphModel,
    /// The label namespaces: those of the plan, and one for each walk of a
    /// finalizer body.
    pub parents: Seq<Option<usize>>,
    pub targets: Seq<TargetModel>,
    pub cache: Seq<CachedModel>,
    pub resumptions: Seq<ReturnModel>,
}

impl StateModel {
    /// The state with one more block.
    pub open spec fn block(self, kind: BasicBlockKind) -> StateModel {
        StateModel { graph: self.graph.with_block(kind), ..self }
    }

    /// The identifier that the next block will get.
    pub open spec fn next(self) -> BlockId {
        self.graph.next()
    }

    /// The state with one more edge.
    pub open spec fn edge(self, source: BlockId, target: BlockId, kind: EdgeKind) -> StateModel {
        StateModel { graph: self.graph.with_edge(source, target, kind), ..self }
    }

    /// The state with one more statement in a block.
    pub open spec fn stmt(self, block: BlockId, start: usize, end: usize, kind: Seq<char>) -> StateModel {
        StateModel { graph: self.graph.with_stmt(block, StmtModel { start, end, kind }), ..self }
    }
}

impl ContextModel {
    /// Inside a loop.
    pub open spec fn in_loop(self, continue_target: BlockId, break_target: BlockId) -> ContextModel {
        ContextModel {
            loops: self.loops.push(
                FrameModel { continue_target, break_target, scopes: self.scopes },
            ),
            ..self
        }
    }

    /// Inside the body of a `try..finally`.
    pub open spec fn in_cleanup(self, scope: usize) -> ContextModel {
        ContextModel { scopes: self.scopes.push(scope), depth: self.depth + 1, ..self }
    }

    /// Inside the body of a `try..except`.
    pub open spec fn in_dispatch(self, dispatch: usize) -> ContextModel {
        ContextModel { dispatches: self.dispatches.push(dispatch), depth: self.depth + 1, ..self }
    }

    /// Inside an exception handler.
    pub open spec fn in_handler(self, fact: ExceptionTypeFact) -> ContextModel {
        ContextModel { handled: self.handled.push(fact), depth: self.depth + 1, ..self }
    }

    /// Inside a branch of conditional compilation.
    pub open spec fn in_branch(self, binding: usize) -> ContextModel {
        ContextModel { binding, ..self }
    }

    /// Inside a finalizer body.
    pub open spec fn in_finalizer(
        self,
        binding: usize,
        continuation: usize,
        suspended: Option<KeyModel>,
    ) -> ContextModel {
        ContextModel {
            binding,
            continuation: Some(continuation),
            suspended,
            depth: self.depth + 1,
            ..self
        }
    }
}

/// The context of a scope's own statements.
pub open spec fn outermost() -> ContextModel {
    ContextModel {
        loops: Seq::empty(),
        scopes: Seq::empty(),
        binding: 0,
        continuation: None,
        suspended: None,
        dispatches: Seq::empty(),
        depth: 0,
        handled: Seq::empty(),
    }
}

/// A flow that ends at a block.
pub open spec fn ending(block: BlockId) -> FlowModel {
    FlowModel { normal: Some(block), transfers: Seq::empty() }
}

/// The exceptional transfer of a statement, where one is of interest.
pub open spec fn implicit(ctx: ContextModel, block: BlockId) -> Seq<TransferModel> {
    if ctx.depth == 0 {
        Seq::empty()
    } else {
        seq![unknown_exception(block)]
    }
}

/// The block for the next statement. Inside a protected region each statement
/// has a block of its own, so that its exceptional edge belongs to it alone.
pub open spec fn prepared(ctx: ContextModel, st: StateModel, current: BlockId) -> (
    StateModel,
    BlockId,
) {
    if ctx.depth == 0 || !st.graph.has_executable(current) {
        (st, current)
    } else {
        (
            st.block(BasicBlockKind::Normal).edge(current, st.next(), EdgeKind::Normal),
            st.next(),
        )
    }
}

/// The block for the next statement, with the statement in it.
pub open spec fn placed_statement(
    ctx: ContextModel,
    st: StateModel,
    node: SyntaxNode,
    current: BlockId,
) -> (StateModel, BlockId) {
    let (s, b) = prepared(ctx, st, current);
    (s.stmt(b, node.start, node.end, node.kind@), b)
}

/// Edges from each of the blocks to a target, from the `i`th on.
pub open spec fn edges_to(
    st: StateModel,
    ends: Seq<BlockId>,
    i: int,
    target: BlockId,
    kind: EdgeKind,
) -> StateModel
    decreases ends.len() - i,
{
    if i < 0 || i >= ends.len() {
        st
    } else {
        edges_to(st.edge(ends[i], target, kind), ends, i + 1, target, kind)
    }
}

/// A block where two branches meet, if one of them ends normally.
pub open spec fn met(st: StateModel, a: Option<BlockId>, b: Option<BlockId>) -> (
    StateModel,
    Option<BlockId>,
) {
    match (a, b) {
        (Some(x), Some(y)) => (
            st.block(BasicBlockKind::Normal).edge(x, st.next(), EdgeKind::Normal).edge(
                y,
                st.next(),
                EdgeKind::Normal,
            ),
            Some(st.next()),
        ),
        (Some(x), None) => (
            st.block(BasicBlockKind::Normal).edge(x, st.next(), EdgeKind::Normal),
            Some(st.next()),
        ),
        (None, Some(y)) => (
            st.block(BasicBlockKind::Normal).edge(y, st.next(), EdgeKind::Normal),
            Some(st.next()),
        ),
        (None, None) => (st, None),
    }
}

// Which children are statements ----------------------------------------------------------------

/// A part of a node whose children form a statement sequence.
#[derive(Debug, Clone, Copy, PartialEq, Eq, Structural)]
pub enum Selection {
    /// The statements of a `begin..end` block.
    Block,
    /// The children of a statement list.
    Statements,
    /// The statements of an initialization or finalization section.
    Section,
    /// The statement of an `if` branch.
    Then,
    /// The statement of an `else` branch.
    Else,
    /// The body of a loop, arm, handler or `with`.
    Body,
    /// The default arm of a `case`.
    CaseDefault,
    /// A branch of conditional compilation.
    Branch(usize),
    /// The statements of a handler's `else`.
    ExceptElse,
}

/// Whether one of the first `n` children opens the default arm of a `case`.
pub open spec fn default_before(node: SyntaxNode, n: int) -> bool
    decreases n,
{
    if n <= 0 || n > node.children@.len() {
        false
    } else {
        default_before(node, n - 1) || node.children@[n - 1].kind@ == "kElse"@
            || node.children@[n - 1].kind@ == "kOtherwise"@
    }
}

/// Whether the child `i` of a node belongs to a part.
pub open spec fn selected(sel: Selection, node: SyntaxNode, i: int) -> bool {
    let child = node.children@[i];
    let kind = child.kind@;
    match sel {
        Selection::Block => kind != "kBegin"@ && kind != "kEnd"@ && kind != ";"@ && kind
            != "declVars"@ && kind != "declConsts"@ && kind != "declTypes"@,
        Selection::Statements => kind != ";"@,
        Selection::Section => !child.extra && kind != ";"@ && !(node.kind@ == "initialization"@
            && kind == "kInitialization"@) && !(node.kind@ == "finalization"@ && kind
            == "kFinalization"@),
        Selection::Then => hit(any_field("then"@), child) && kind != ";"@ && kind != "kElse"@,
        Selection::Else => hit(any_field("else"@), child) && kind != ";"@ && kind != "kElse"@,
        Selection::Body => hit(any_field("body"@), child) && kind != ";"@,
        Selection::CaseDefault => default_before(node, i) && kind != "kElse"@ && kind
            != "kOtherwise"@ && kind != "kEnd"@ && kind != ";"@,
        Selection::Branch(b) => branch_content(kind) && branch_at(node, i) == b,
        Selection::ExceptElse => kind != "kElse"@ && kind != ";"@,
    }
}

// The walk -------------------------------------------------------------------------------------

/// The statements of a part, from the child `i` on. `current` is where the
/// sequence has got to, `acc` the transfers so far.
pub open spec fn walk(
    env: EnvModel,
    ctx: ContextModel,
    st: StateModel,
    node: SyntaxNode,
    sel: Selection,
    i: int,
    current: Option<BlockId>,
    acc: Seq<TransferModel>,
) -> (StateModel, FlowModel)
    decreases node, 1int, node.children@.len() - i,
{
    if i < 0 || i >= node.children@.len() {
        (st, FlowModel { normal: current, transfers: acc })
    } else if !selected(sel, node, i) {
        walk(env, ctx, st, node, sel, i + 1, current, acc)
    } else {
        let (s, f) = sequence_child(env, ctx, st, node.children@[i], current);
        walk(env, ctx, s, node, sel, i + 1, f.normal, acc + f.transfers)
    }
}

/// One child of a sequence. A statement behind an abrupt end gets a block that
/// only a label can make reachable.
pub open spec fn sequence_child(
    env: EnvModel,
    ctx: ContextModel,
    st: StateModel,
    node: SyntaxNode,
    current: Option<BlockId>,
) -> (StateModel, FlowModel)
    decreases node, 9int, 0int,
{
    if node.extra {
        (st, FlowModel { normal: current, transfers: Seq::empty() })
    } else {
        let (s, b) = match current {
            Some(block) => (st, block),
            None => (st.block(BasicBlockKind::Normal), st.next()),
        };
        if node.kind@ == "label"@ {
            let (s1, target) = labelled(env, ctx, s, node, b);
            (s1, ending(target))
        } else {
            single(env, ctx, s, node, b)
        }
    }
}

/// A label: the block at which it stands.
pub open spec fn labelled(
    env: EnvModel,
    ctx: ContextModel,
    st: StateModel,
    node: SyntaxNode,
    current: BlockId,
) -> (StateModel, BlockId) {
    let (s, target) = if st.graph.has_executable(current) {
        (
            st.block(BasicBlockKind::Normal).edge(current, st.next(), EdgeKind::Normal),
            st.next(),
        )
    } else {
        (st, current)
    };
    let s1 = match label_of(node, env.source) {
        Some(name) => StateModel {
            targets: s.targets.push(TargetModel { binding: ctx.binding, name, block: target }),
            ..s
        },
        None => s,
    };
    (s1.stmt(target, node.start, node.end, node.kind@), target)
}

/// One statement.
pub open spec fn single(
    env: EnvModel,
    ctx: ContextModel,
    st: StateModel,
    node: SyntaxNode,
    current: BlockId,
) -> (StateModel, FlowModel)
    decreases node, 8int, 0int,
{
    let kind = node.kind@;
    if node.extra {
        (st, ending(current))
    } else if kind == "ppBlock"@ {
        conditional_block(env, ctx, st, node, current)
    } else if kind == "labeledStatement"@ || kind == "labeledStatementTr"@ {
        labelled_statement(env, ctx, st, node, 0, Some(current), Seq::empty())
    } else if kind == "block"@ {
        walk(env, ctx, st, node, Selection::Block, 0, Some(current), Seq::empty())
    } else if kind == "statements"@ {
        walk(env, ctx, st, node, Selection::Statements, 0, Some(current), Seq::empty())
    } else if kind == "ifElse"@ {
        if_else(env, ctx, st, node, current)
    } else if kind == "if"@ {
        if_only(env, ctx, st, node, current)
    } else if kind == "for"@ || kind == "foreach"@ || kind == "while"@ {
        counted_loop(env, ctx, st, node, current)
    } else if kind == "case"@ {
        case_statement(env, ctx, st, node, current)
    } else if kind == "repeat"@ {
        repeat_loop(env, ctx, st, node, current)
    } else if kind == "try"@ {
        if crate::labels::finalized(node) {
            try_finally(env, ctx, st, node, current)
        } else if node.find(field_kind("except"@, "kExcept"@)) is Some {
            try_except(env, ctx, st, node, current)
        } else {
            (st, ending(current))
        }
    } else if kind == "with"@ {
        with_statement(env, ctx, st, node, current)
    } else if kind == "raise"@ {
        raise_statement(env, ctx, st, node, current)
    } else if kind == "statement"@ && calls(node, env.source, "exit"@) {
        let (s, b) = placed_statement(ctx, st, node, current);
        (
            s,
            FlowModel {
                normal: None,
                transfers: seq![exit_transfer(b)] + if exit_argument(node, env.source) {
                    implicit(ctx, b)
                } else {
                    Seq::empty()
                },
            },
        )
    } else if kind == "statement"@ && jumps(node, env.source, "break"@) {
        let (s, b) = placed_statement(ctx, st, node, current);
        let transfer = if ctx.loops.len() > 0 {
            let frame = ctx.loops[ctx.loops.len() - 1];
            loop_transfer(b, TransferKind::Break, frame.break_target, frame.scopes)
        } else {
            exit_transfer(b)
        };
        (s, FlowModel { normal: None, transfers: seq![transfer] })
    } else if kind == "statement"@ && jumps(node, env.source, "continue"@) {
        let (s, b) = placed_statement(ctx, st, node, current);
        let transfer = if ctx.loops.len() > 0 {
            let frame = ctx.loops[ctx.loops.len() - 1];
            loop_transfer(b, TransferKind::Continue, frame.continue_target, frame.scopes)
        } else {
            exit_transfer(b)
        };
        (s, FlowModel { normal: None, transfers: seq![transfer] })
    } else if kind == "goto"@ {
        goto_statement(env, ctx, st, node, current)
    } else {
        let (s, b) = placed_statement(ctx, st, node, current);
        (s, FlowModel { normal: Some(b), transfers: implicit(ctx, b) })
    }
}

/// A `raise`. The evaluation of its expression may raise an exception of its own,
/// before the one that is meant. Where nothing is known of the one that is meant
/// either, both go on in the same way.
pub open spec fn raise_statement(
    env: EnvModel,
    ctx: ContextModel,
    st: StateModel,
    node: SyntaxNode,
    current: BlockId,
) -> (StateModel, FlowModel) {
    let (s, b) = placed_statement(ctx, st, node, current);
    let written = written_exception(node, env.source);
    let fact = if node.find(any_field("exception"@)) is None {
        if ctx.handled.len() > 0 {
            ctx.handled[ctx.handled.len() - 1]
        } else {
            ExceptionTypeFact::Unknown
        }
    } else {
        raised_fact_of(env.types, env.unit, node, env.source)
    };
    if raise_evaluates(node, env.source) {
        let raised = s.next();
        (
            s.block(BasicBlockKind::Normal).edge(b, raised, EdgeKind::Normal),
            FlowModel {
                normal: None,
                transfers: if ctx.depth > 0 {
                    seq![
                        if fact == ExceptionTypeFact::Unknown {
                            exception_transfer(b, fact, written)
                        } else {
                            unknown_exception(b)
                        },
                        exception_transfer(raised, fact, written),
                    ]
                } else {
                    seq![exception_transfer(raised, fact, written)]
                },
            },
        )
    } else {
        (s, FlowModel { normal: None, transfers: seq![exception_transfer(b, fact, written)] })
    }
}

/// The transfers of a `goto` to each place where its label may stand.
pub open spec fn goto_transfers(
    block: BlockId,
    label: Seq<char>,
    bindings: Seq<(usize, Seq<usize>)>,
) -> Seq<TransferModel> {
    bindings.map_values(|b: (usize, Seq<usize>)| goto_transfer(block, label, b.0, b.1))
}

/// A `goto`.
pub open spec fn goto_statement(
    env: EnvModel,
    ctx: ContextModel,
    st: StateModel,
    node: SyntaxNode,
    current: BlockId,
) -> (StateModel, FlowModel) {
    let (s, b) = placed_statement(ctx, st, node, current);
    let label = match label_of(node, env.source) {
        Some(name) => name,
        None => Seq::empty(),
    };
    let bindings = goto_bindings(env.labels, env.branches, s.parents, ctx.binding, label);
    (
        s,
        FlowModel {
            normal: None,
            transfers: if bindings.len() == 0 {
                seq![goto_transfer(b, label, ctx.binding, Seq::empty())]
            } else {
                goto_transfers(b, label, bindings)
            },
        },
    )
}

/// The block that evaluates a condition.
pub open spec fn condition(
    ctx: ContextModel,
    st: StateModel,
    node: SyntaxNode,
    current: BlockId,
) -> (StateModel, BlockId) {
    let (s, b) = prepared(ctx, st, current);
    match node.find(any_field("condition"@)) {
        Some(k) => (s.stmt(b, node.start, node.children@[k].end, node.kind@), b),
        None => (s, b),
    }
}

/// `if..then..else`.
pub open spec fn if_else(
    env: EnvModel,
    ctx: ContextModel,
    st: StateModel,
    node: SyntaxNode,
    current: BlockId,
) -> (StateModel, FlowModel)
    decreases node, 7int, 0int,
{
    let (s1, c) = condition(ctx, st, node, current);
    let t = s1.next();
    let s2 = s1.block(BasicBlockKind::Normal);
    let e = s2.next();
    let s3 = s2.block(BasicBlockKind::Normal).edge(c, t, EdgeKind::ConditionalTrue).edge(
        c,
        e,
        EdgeKind::ConditionalFalse,
    );
    let (s4, f1) = walk(env, ctx, s3, node, Selection::Then, 0, Some(t), Seq::empty());
    let (s5, f2) = walk(env, ctx, s4, node, Selection::Else, 0, Some(e), Seq::empty());
    let (s6, normal) = met(s5, f1.normal, f2.normal);
    (s6, FlowModel { normal, transfers: implicit(ctx, c) + f1.transfers + f2.transfers })
}

/// `if..then`.
pub open spec fn if_only(
    env: EnvModel,
    ctx: ContextModel,
    st: StateModel,
    node: SyntaxNode,
    current: BlockId,
) -> (StateModel, FlowModel)
    decreases node, 7int, 0int,
{
    let (s1, c) = condition(ctx, st, node, current);
    let t = s1.next();
    let s2 = s1.block(BasicBlockKind::Normal);
    let j = s2.next();
    let s3 = s2.block(BasicBlockKind::Normal).edge(c, t, EdgeKind::ConditionalTrue).edge(
        c,
        j,
        EdgeKind::ConditionalFalse,
    );
    let (s4, f) = walk(env, ctx, s3, node, Selection::Then, 0, Some(t), Seq::empty());
    let s5 = match f.normal {
        Some(end) => s4.edge(end, j, EdgeKind::Normal),
        None => s4,
    };
    (s5, FlowModel { normal: Some(j), transfers: implicit(ctx, c) + f.transfers })
}

/// The transfers of a loop body, from the `i`th on: those that belong to the loop
/// become edges, the others remain.
pub open spec fn settled(
    st: StateModel,
    transfers: Seq<TransferModel>,
    i: int,
    after: BlockId,
    again: BlockId,
    acc: Seq<TransferModel>,
) -> (StateModel, Seq<TransferModel>)
    decreases transfers.len() - i,
{
    if i < 0 || i >= transfers.len() {
        (st, acc)
    } else {
        let t = transfers[i];
        if t.kind == TransferKind::Break && t.target == Some(after) {
            settled(st.edge(t.source, after, t.completion()), transfers, i + 1, after, again, acc)
        } else if t.kind == TransferKind::Continue && t.target == Some(again) {
            settled(st.edge(t.source, again, t.completion()), transfers, i + 1, after, again, acc)
        } else {
            settled(st, transfers, i + 1, after, again, acc.push(t))
        }
    }
}

/// The field whose end closes the header of a loop.
pub open spec fn header_field(kind: Seq<char>) -> Seq<char> {
    if kind == "while"@ {
        "condition"@
    } else if kind == "for"@ {
        "end"@
    } else {
        "iterable"@
    }
}

/// The header of a `for` or `while` loop.
pub open spec fn loop_header(st: StateModel, block: BlockId, node: SyntaxNode) -> StateModel {
    match node.find(any_field(header_field(node.kind@))) {
        Some(k) => st.stmt(block, node.start, node.children@[k].end, node.kind@),
        None => st,
    }
}

/// A `for` or `while` loop.
pub open spec fn counted_loop(
    env: EnvModel,
    ctx: ContextModel,
    st: StateModel,
    node: SyntaxNode,
    current: BlockId,
) -> (StateModel, FlowModel)
    decreases node, 7int, 0int,
{
    let c = st.next();
    let s1 = st.block(BasicBlockKind::Normal);
    let b = s1.next();
    let s2 = s1.block(BasicBlockKind::Normal);
    let a = s2.next();
    let s3 = loop_header(
        s2.block(BasicBlockKind::Normal).edge(current, c, EdgeKind::Normal),
        c,
        node,
    ).edge(c, b, EdgeKind::ConditionalTrue).edge(c, a, EdgeKind::LoopExit);
    let (s4, f) = walk(
        env,
        ctx.in_loop(c, a),
        s3,
        node,
        Selection::Body,
        0,
        Some(b),
        Seq::empty(),
    );
    let s5 = match f.normal {
        Some(end) => s4.edge(end, c, EdgeKind::LoopBack),
        None => s4,
    };
    let (s6, transfers) = settled(s5, f.transfers, 0, a, c, implicit(ctx, c));
    (s6, FlowModel { normal: Some(a), transfers })
}

/// The header of a `repeat` loop: its keyword and its condition.
pub open spec fn repeat_header(st: StateModel, block: BlockId, node: SyntaxNode) -> StateModel {
    let s1 = match node.find(any_kind("kRepeat"@)) {
        Some(k) => st.stmt(block, node.children@[k].start, node.children@[k].end, node.kind@),
        None => st,
    };
    match node.find(any_field("condition"@)) {
        Some(k) => s1.stmt(
            block,
            node.children@[k].start,
            node.children@[k].end,
            node.children@[k].kind@,
        ),
        None => s1,
    }
}

/// A `repeat..until` loop.
pub open spec fn repeat_loop(
    env: EnvModel,
    ctx: ContextModel,
    st: StateModel,
    node: SyntaxNode,
    current: BlockId,
) -> (StateModel, FlowModel)
    decreases node, 7int, 0int,
{
    let b = st.next();
    let s1 = st.block(BasicBlockKind::Normal);
    let c = s1.next();
    let s2 = s1.block(BasicBlockKind::Normal);
    let a = s2.next();
    let s3 = s2.block(BasicBlockKind::Normal).edge(current, b, EdgeKind::Normal);
    let (s4, f) = walk(
        env,
        ctx.in_loop(c, a),
        s3,
        node,
        Selection::Body,
        0,
        Some(b),
        Seq::empty(),
    );
    let s5 = match f.normal {
        Some(end) => s4.edge(end, c, EdgeKind::Normal),
        None => s4,
    };
    let (s6, transfers) = settled(s5, f.transfers, 0, a, c, implicit(ctx, c));
    (
        repeat_header(s6, c, node).edge(c, b, EdgeKind::LoopBack).edge(c, a, EdgeKind::LoopExit),
        FlowModel { normal: Some(a), transfers },
    )
}

/// The index of the selector of a `case`, at or behind `i`.
pub open spec fn case_selector(node: SyntaxNode, i: int) -> Option<int>
    decreases node.children@.len() - i,
{
    if i < 0 || i >= node.children@.len() {
        None
    } else {
        let child = node.children@[i];
        let kind = child.kind@;
        if child.named && !child.extra && kind != "caseCase"@ && kind != "kCase"@ && kind != "kOf"@
            && kind != "kElse"@ && kind != "kOtherwise"@ && kind != "kEnd"@ {
            Some(i)
        } else {
            case_selector(node, i + 1)
        }
    }
}

/// The arms of a `case` from the child `i` on: the state, the normal ends of the
/// arms and the transfers.
pub open spec fn case_arms(
    env: EnvModel,
    ctx: ContextModel,
    st: StateModel,
    node: SyntaxNode,
    selector: BlockId,
    i: int,
    ends: Seq<BlockId>,
    acc: Seq<TransferModel>,
) -> (StateModel, Seq<BlockId>, Seq<TransferModel>)
    decreases node, 3int, node.children@.len() - i,
{
    if i < 0 || i >= node.children@.len() {
        (st, ends, acc)
    } else if !hit(named_kind("caseCase"@), node.children@[i]) {
        case_arms(env, ctx, st, node, selector, i + 1, ends, acc)
    } else {
        let arm = st.next();
        let (s, f) = walk(
            env,
            ctx,
            st.block(BasicBlockKind::Normal).edge(selector, arm, EdgeKind::CaseArm),
            node.children@[i],
            Selection::Body,
            0,
            Some(arm),
            Seq::empty(),
        );
        case_arms(
            env,
            ctx,
            s,
            node,
            selector,
            i + 1,
            match f.normal {
                Some(end) => ends.push(end),
                None => ends,
            },
            acc + f.transfers,
        )
    }
}

/// A `case` statement. Without a default arm, no arm may match.
pub open spec fn case_statement(
    env: EnvModel,
    ctx: ContextModel,
    st: StateModel,
    node: SyntaxNode,
    current: BlockId,
) -> (StateModel, FlowModel)
    decreases node, 7int, 0int,
{
    let (s0, b) = prepared(ctx, st, current);
    let s1 = match case_selector(node, 0) {
        Some(k) => s0.stmt(b, node.start, node.children@[k].end, node.kind@),
        None => s0,
    };
    let (s2, ends, transfers) = case_arms(
        env,
        ctx,
        s1,
        node,
        b,
        0,
        Seq::empty(),
        implicit(ctx, b),
    );
    if default_before(node, node.children@.len() as int) {
        let d = s2.next();
        let (s3, f) = walk(
            env,
            ctx,
            s2.block(BasicBlockKind::Normal).edge(b, d, EdgeKind::CaseArm),
            node,
            Selection::CaseDefault,
            0,
            Some(d),
            Seq::empty(),
        );
        let all = match f.normal {
            Some(end) => ends.push(end),
            None => ends,
        };
        if all.len() == 0 {
            (s3, FlowModel { normal: None, transfers: transfers + f.transfers })
        } else {
            (
                edges_to(
                    s3.block(BasicBlockKind::Normal),
                    all,
                    0,
                    s3.next(),
                    EdgeKind::Normal,
                ),
                FlowModel { normal: Some(s3.next()), transfers: transfers + f.transfers },
            )
        }
    } else {
        (
            edges_to(
                s2.block(BasicBlockKind::Normal),
                ends,
                0,
                s2.next(),
                EdgeKind::Normal,
            ).edge(b, s2.next(), EdgeKind::CaseArm),
            FlowModel { normal: Some(s2.next()), transfers },
        )
    }
}

/// The last of the first `n` children under a field.
pub open spec fn last_under(node: SyntaxNode, field: Seq<char>, n: int) -> Option<int>
    decreases n,
{
    if n <= 0 || n > node.children@.len() {
        None
    } else if hit(any_field(field), node.children@[n - 1]) {
        Some(n - 1)
    } else {
        last_under(node, field, n - 1)
    }
}

/// A `with` statement.
pub open spec fn with_statement(
    env: EnvModel,
    ctx: ContextModel,
    st: StateModel,
    node: SyntaxNode,
    current: BlockId,
) -> (StateModel, FlowModel)
    decreases node, 7int, 0int,
{
    let (s0, c) = prepared(ctx, st, current);
    let s1 = match last_under(node, "entity"@, node.children@.len() as int) {
        Some(k) => s0.stmt(c, node.start, node.children@[k].end, node.kind@),
        None => s0,
    };
    let b = s1.next();
    let (s2, f) = walk(
        env,
        ctx,
        s1.block(BasicBlockKind::Normal).edge(c, b, EdgeKind::Normal),
        node,
        Selection::Body,
        0,
        Some(b),
        Seq::empty(),
    );
    let (s3, normal) = met(s2, f.normal, None);
    (s3, FlowModel { normal, transfers: implicit(ctx, c) + f.transfers })
}

/// A statement behind labels, from the child `i` on.
pub open spec fn labelled_statement(
    env: EnvModel,
    ctx: ContextModel,
    st: StateModel,
    node: SyntaxNode,
    i: int,
    current: Option<BlockId>,
    acc: Seq<TransferModel>,
) -> (StateModel, FlowModel)
    decreases node, 3int, node.children@.len() - i,
{
    if i < 0 || i >= node.children@.len() {
        (st, FlowModel { normal: current, transfers: acc })
    } else {
        let child = node.children@[i];
        match current {
            Some(b) => if !child.named {
                labelled_statement(env, ctx, st, node, i + 1, current, acc)
            } else if child.kind@ == "label"@ {
                let (s, target) = labelled(env, ctx, st, child, b);
                labelled_statement(env, ctx, s, node, i + 1, Some(target), acc)
            } else {
                let (s, f) = single(env, ctx, st, child, b);
                labelled_statement(env, ctx, s, node, i + 1, f.normal, acc + f.transfers)
            },
            None => labelled_statement(env, ctx, st, node, i + 1, current, acc),
        }
    }
}

/// The namespace planned for a branch, among the first `n` entries. The last one
/// counts.
pub open spec fn branch_binding(
    branches: Seq<BranchEntry>,
    start: usize,
    end: usize,
    branch: usize,
    n: int,
) -> Option<usize>
    decreases n,
{
    if n <= 0 || n > branches.len() {
        None
    } else {
        let e = branches[n - 1];
        if e.start == start && e.end == end && e.branch == branch {
            Some(e.binding)
        } else {
            branch_binding(branches, start, end, branch, n - 1)
        }
    }
}

/// The branches of a conditional block from branch `b` on: the state, their
/// normal ends and their transfers.
pub open spec fn conditional_branches(
    env: EnvModel,
    ctx: ContextModel,
    st: StateModel,
    node: SyntaxNode,
    current: BlockId,
    b: int,
    ends: Seq<BlockId>,
    acc: Seq<TransferModel>,
) -> (StateModel, Seq<BlockId>, Seq<TransferModel>)
    decreases node, 3int, last_branch(node) + 1 - b,
{
    if b < 0 || b > last_branch(node) {
        (st, ends, acc)
    } else {
        let entry = st.next();
        let binding = match branch_binding(
            env.branches,
            node.start,
            node.end,
            b as usize,
            env.branches.len() as int,
        ) {
            Some(own) => own,
            None => ctx.binding,
        };
        let (s, f) = walk(
            env,
            ctx.in_branch(binding),
            st.block(BasicBlockKind::Normal).edge(
                current,
                entry,
                if b == 0 {
                    EdgeKind::ConditionalTrue
                } else {
                    EdgeKind::ConditionalFalse
                },
            ),
            node,
            Selection::Branch(b as usize),
            0,
            Some(entry),
            Seq::empty(),
        );
        conditional_branches(
            env,
            ctx,
            s,
            node,
            current,
            b + 1,
            match f.normal {
                Some(end) => ends.push(end),
                None => ends,
            },
            acc + f.transfers,
        )
    }
}

/// A block of conditional compilation. Its branches are alternatives, and without
/// an `else` all of them may be left out.
pub open spec fn conditional_block(
    env: EnvModel,
    ctx: ContextModel,
    st: StateModel,
    node: SyntaxNode,
    current: BlockId,
) -> (StateModel, FlowModel)
    decreases node, 7int, 0int,
{
    if hollow(node, env.source) {
        (st, ending(current))
    } else {
        let (s, ends, transfers) = conditional_branches(
            env,
            ctx,
            st,
            node,
            current,
            0,
            Seq::empty(),
            Seq::empty(),
        );
        if ends.len() == 0 && has_else(node, env.source) {
            (s, FlowModel { normal: None, transfers })
        } else {
            let j = s.next();
            let s1 = edges_to(s.block(BasicBlockKind::Normal), ends, 0, j, EdgeKind::Normal);
            (
                if has_else(node, env.source) {
                    s1
                } else {
                    s1.edge(current, j, EdgeKind::ConditionalFalse)
                },
                FlowModel { normal: Some(j), transfers },
            )
        }
    }
}

/// The protected statements of a `try`, in a block of their own.
pub open spec fn try_body(
    env: EnvModel,
    ctx: ContextModel,
    st: StateModel,
    node: SyntaxNode,
    current: BlockId,
) -> (StateModel, FlowModel)
    decreases node, 2int, 0int,
{
    match node.find(field_kind("try"@, "statements"@)) {
        Some(k) => {
            let entry = st.next();
            walk(
                env,
                ctx,
                st.block(BasicBlockKind::Normal).edge(current, entry, EdgeKind::Normal),
                node.children@[k],
                Selection::Statements,
                0,
                Some(entry),
                Seq::empty(),
            )
        },
        None => (st, ending(current)),
    }
}

// Finalizers -------------------------------------------------------------------------------------

/// The number of the cleanup scope of a `try..finally`, among the first `n`. The
/// last one counts; a scope that the plan lacks gets a number of its own.
pub open spec fn scope_number(
    scope_ids: Seq<(usize, usize)>,
    start: usize,
    end: usize,
    n: int,
) -> usize
    decreases n,
{
    if n <= 0 || n > scope_ids.len() {
        scope_ids.len() as usize
    } else if scope_ids[n - 1] == (start, end) {
        (n - 1) as usize
    } else {
        scope_number(scope_ids, start, end, n - 1)
    }
}

/// The flows that enter a finalizer with the same continuation: the edges by
/// which they enter, and the first transfer among them.
#[verifier::ext_equal]
pub struct GroupModel {
    pub key: Option<KeyModel>,
    pub entries: Seq<(BlockId, EdgeKind)>,
    pub first: Option<TransferModel>,
}

/// The first of the groups at or behind `i` with a key.
pub open spec fn group_with(groups: Seq<GroupModel>, key: Option<KeyModel>, i: int) -> Option<int>
    decreases groups.len() - i,
{
    if i < 0 || i >= groups.len() {
        None
    } else if groups[i].key == key {
        Some(i)
    } else {
        group_with(groups, key, i + 1)
    }
}

/// The edge by which a transfer enters a finalizer.
pub open spec fn entry_edge(t: TransferModel) -> EdgeKind {
    if t.kind == TransferKind::Exception {
        EdgeKind::ExceptionThrow
    } else {
        EdgeKind::FinallyEntry
    }
}

/// The groups with one more transfer.
pub open spec fn grouped(groups: Seq<GroupModel>, t: TransferModel) -> Seq<GroupModel> {
    match group_with(groups, Some(t.key()), 0) {
        Some(k) => groups.update(
            k,
            GroupModel {
                entries: groups[k].entries.push((t.source, entry_edge(t))),
                ..groups[k]
            },
        ),
        None => groups.push(
            GroupModel {
                key: Some(t.key()),
                entries: seq![(t.source, entry_edge(t))],
                first: Some(t),
            },
        ),
    }
}

/// The groups of the first `n` transfers that leave a cleanup scope, behind the
/// group of its normal end.
pub open spec fn groups_of(
    normal: Option<BlockId>,
    transfers: Seq<TransferModel>,
    scope: usize,
    n: int,
) -> Seq<GroupModel>
    decreases n,
{
    if n <= 0 || n > transfers.len() {
        match normal {
            Some(b) => seq![
                GroupModel {
                    key: None,
                    entries: seq![(b, EdgeKind::FinallyEntry)],
                    first: None,
                },
            ],
            None => Seq::empty(),
        }
    } else {
        let before = groups_of(normal, transfers, scope, n - 1);
        if transfers[n - 1].leaves(scope) {
            grouped(before, transfers[n - 1])
        } else {
            before
        }
    }
}

/// Those of the first `n` transfers that stay inside a cleanup scope.
pub open spec fn staying(transfers: Seq<TransferModel>, scope: usize, n: int) -> Seq<TransferModel>
    decreases n,
{
    if n <= 0 || n > transfers.len() {
        Seq::empty()
    } else {
        let before = staying(transfers, scope, n - 1);
        if transfers[n - 1].leaves(scope) {
            before
        } else {
            before.push(transfers[n - 1])
        }
    }
}

/// Edges into a finalizer, from the `i`th entry on.
pub open spec fn entered(
    st: StateModel,
    entries: Seq<(BlockId, EdgeKind)>,
    i: int,
    target: BlockId,
) -> StateModel
    decreases entries.len() - i,
{
    if i < 0 || i >= entries.len() {
        st
    } else {
        entered(st.edge(entries[i].0, target, entries[i].1), entries, i + 1, target)
    }
}

/// The transfers that a finalizer body itself produces, marked as such.
pub open spec fn superseding(transfers: Seq<TransferModel>) -> Seq<TransferModel> {
    transfers.map_values(|t: TransferModel| t.from_finalizer(t.source))
}

/// Whether a subtree holds a `goto`, reached through named nodes.
pub open spec fn holds_goto(node: SyntaxNode) -> bool
    decreases node, 1int, 0int,
{
    node.kind@ == "goto"@ || child_holds_goto(node, 0)
}

/// Whether a named child at or behind `i` holds a `goto`.
pub open spec fn child_holds_goto(node: SyntaxNode, i: int) -> bool
    decreases node, 0int, node.children@.len() - i,
{
    if i < 0 || i >= node.children@.len() {
        false
    } else {
        (node.children@[i].named && holds_goto(node.children@[i])) || child_holds_goto(node, i + 1)
    }
}

/// Whether the finalizer of a `try` holds a `goto`, in a child at or behind `i`.
pub open spec fn finalizer_holds_goto(node: SyntaxNode, i: int) -> bool
    decreases node.children@.len() - i,
{
    if i < 0 || i >= node.children@.len() {
        false
    } else {
        (hit(any_field("finally"@), node.children@[i]) && holds_goto(node.children@[i]))
            || finalizer_holds_goto(node, i + 1)
    }
}

/// The first walked body at or behind `i` with a key.
pub open spec fn cached(cache: Seq<CachedModel>, key: CacheKeyModel, i: int) -> Option<int>
    decreases cache.len() - i,
{
    if i < 0 || i >= cache.len() {
        None
    } else if cache[i].key == key {
        Some(i)
    } else {
        cached(cache, key, i + 1)
    }
}

/// The first continuation at or behind `i` that is the given one.
pub open spec fn return_number(resumptions: Seq<ReturnModel>, r: ReturnModel, i: int) -> Option<int>
    decreases resumptions.len() - i,
{
    if i < 0 || i >= resumptions.len() {
        None
    } else if resumptions[i] == r {
        Some(i)
    } else {
        return_number(resumptions, r, i + 1)
    }
}

/// What identifies a walk of a finalizer body.
pub open spec fn body_key(
    ctx: ContextModel,
    node: SyntaxNode,
    scope: usize,
    key: Option<KeyModel>,
) -> CacheKeyModel {
    CacheKeyModel {
        start: node.start,
        end: node.end,
        scope,
        continuation: key,
        caller: if key is None {
            ctx.continuation
        } else {
            None
        },
        scopes: ctx.scopes,
        loops: ctx.loops,
        dispatches: ctx.dispatches,
        depth: ctx.depth,
        handled: ctx.handled,
        binding: if finalizer_holds_goto(node, 0) {
            Some(ctx.binding)
        } else {
            None
        },
    }
}

/// The transfer that waits beyond a finalizer body.
pub open spec fn waiting(ctx: ContextModel, key: Option<KeyModel>) -> Option<KeyModel> {
    if key is Some {
        key
    } else {
        ctx.suspended
    }
}

/// What follows the normal end of a finalizer body.
pub open spec fn body_return(
    ctx: ContextModel,
    node: SyntaxNode,
    scope: usize,
    key: Option<KeyModel>,
) -> ReturnModel {
    ReturnModel {
        start: node.start,
        end: node.end,
        scope,
        local: key,
        suspended: waiting(ctx, key),
        caller: ctx.continuation,
        handled: ctx.handled,
    }
}

/// The body of a finalizer for one continuation: walked, or the one that was
/// walked before under the same circumstances.
pub open spec fn finally_body(
    env: EnvModel,
    ctx: ContextModel,
    st: StateModel,
    node: SyntaxNode,
    scope: usize,
    key: Option<KeyModel>,
) -> (StateModel, BlockId, FlowModel)
    decreases node, 3int, 0int,
{
    let what = body_key(ctx, node, scope, key);
    let r = body_return(ctx, node, scope, key);
    let (s1, number) = match return_number(st.resumptions, r, 0) {
        Some(k) => (st, k as usize),
        None => (
            StateModel { resumptions: st.resumptions.push(r), ..st },
            st.resumptions.len() as usize,
        ),
    };
    match cached(s1.cache, what, 0) {
        Some(k) => (s1, s1.cache[k].entry, s1.cache[k].flow),
        None => {
            let entry = s1.next();
            let s2 = s1.block(BasicBlockKind::FinallyHandler);
            let binding = s2.parents.len() as usize;
            let s3 = StateModel { parents: s2.parents.push(Some(ctx.binding)), ..s2 };
            let inner = ctx.in_finalizer(binding, number, waiting(ctx, key));
            let (s4, f) = match node.find(field_kind("finally"@, "statements"@)) {
                Some(k) => walk(
                    env,
                    inner,
                    s3,
                    node.children@[k],
                    Selection::Statements,
                    0,
                    Some(entry),
                    Seq::empty(),
                ),
                None => (s3, ending(entry)),
            };
            (
                StateModel {
                    cache: s4.cache.push(CachedModel { key: what, entry, flow: f }),
                    ..s4
                },
                entry,
                f,
            )
        },
    }
}

/// The finalizer for each group from the `i`th on. Behind it the normal flow goes
/// on, a transfer stays pending, and what the body itself starts supersedes both.
pub open spec fn finalize(
    env: EnvModel,
    ctx: ContextModel,
    st: StateModel,
    node: SyntaxNode,
    scope: usize,
    groups: Seq<GroupModel>,
    i: int,
    normal: Option<BlockId>,
    acc: Seq<TransferModel>,
) -> (StateModel, FlowModel)
    decreases node, 4int, groups.len() - i,
{
    if i < 0 || i >= groups.len() {
        (st, FlowModel { normal, transfers: distinct(acc) })
    } else {
        let g = groups[i];
        let (s1, entry, f) = finally_body(env, ctx, st, node, scope, g.key);
        let s2 = entered(s1, g.entries, 0, entry);
        match f.normal {
            Some(end) => if g.key is None {
                finalize(
                    env,
                    ctx,
                    s2.block(BasicBlockKind::Normal).edge(end, s2.next(), EdgeKind::FinallyExit),
                    node,
                    scope,
                    groups,
                    i + 1,
                    Some(s2.next()),
                    acc + superseding(f.transfers),
                )
            } else {
                let pending = match g.first {
                    Some(t) => acc.push(t.from_finalizer(end)),
                    None => acc,
                };
                finalize(
                    env,
                    ctx,
                    s2,
                    node,
                    scope,
                    groups,
                    i + 1,
                    normal,
                    pending + superseding(f.transfers),
                )
            },
            None => finalize(
                env,
                ctx,
                s2,
                node,
                scope,
                groups,
                i + 1,
                normal,
                acc + superseding(f.transfers),
            ),
        }
    }
}

/// `try..finally`.
pub open spec fn try_finally(
    env: EnvModel,
    ctx: ContextModel,
    st: StateModel,
    node: SyntaxNode,
    current: BlockId,
) -> (StateModel, FlowModel)
    decreases node, 5int, 0int,
{
    let scope = scope_number(env.scope_ids, node.start, node.end, env.scope_ids.len() as int);
    let (s, f) = try_body(env, ctx.in_cleanup(scope), st, node, current);
    let transfers = distinct(f.transfers);
    finalize(
        env,
        ctx,
        s,
        node,
        scope,
        groups_of(f.normal, transfers, scope, transfers.len() as int),
        0,
        None,
        staying(transfers, scope, transfers.len() as int),
    )
}

// Handlers ---------------------------------------------------------------------------------------

/// An exception handler: where it starts, what it receives, and what leaves it.
#[verifier::ext_equal]
pub struct HandlerModel {
    pub entry: BlockId,
    pub catch_all: bool,
    pub fact: ExceptionTypeFact,
    pub flow: FlowModel,
}

/// Those of the first `n` transfers that are exceptions, or that are not.
pub open spec fn exceptions_of(transfers: Seq<TransferModel>, wanted: bool, n: int) -> Seq<
    TransferModel,
>
    decreases n,
{
    if n <= 0 || n > transfers.len() {
        Seq::empty()
    } else {
        let before = exceptions_of(transfers, wanted, n - 1);
        if (transfers[n - 1].kind == TransferKind::Exception) == wanted {
            before.push(transfers[n - 1])
        } else {
            before
        }
    }
}

/// What is known of the exception of a transfer.
pub open spec fn fact_of(t: TransferModel) -> ExceptionTypeFact {
    match t.fact {
        Some(fact) => fact,
        None => ExceptionTypeFact::Unknown,
    }
}

/// What is known of the exceptions of several transfers.
pub open spec fn facts_of(transfers: Seq<TransferModel>) -> Seq<ExceptionTypeFact> {
    transfers.map_values(|t: TransferModel| fact_of(t))
}

/// The handlers of a `try..except` from the child `i` on.
pub open spec fn handlers_from(
    env: EnvModel,
    ctx: ContextModel,
    st: StateModel,
    node: SyntaxNode,
    incoming: Seq<ExceptionTypeFact>,
    i: int,
    acc: Seq<HandlerModel>,
) -> (StateModel, Seq<HandlerModel>)
    decreases node, 3int, node.children@.len() - i,
{
    if i < 0 || i >= node.children@.len() {
        (st, acc)
    } else {
        let child = node.children@[i];
        let kind = child.kind@;
        if !hit(any_field("except"@), child) {
            handlers_from(env, ctx, st, node, incoming, i + 1, acc)
        } else if kind == "exceptionHandler"@ {
            let entry = st.next();
            let fact = handler_fact_of(env.types, env.unit, child, env.source);
            let (s, flow) = walk(
                env,
                ctx.in_handler(context_of(env.types, fact, incoming)),
                st.block(BasicBlockKind::ExceptHandler),
                child,
                Selection::Body,
                0,
                Some(entry),
                Seq::empty(),
            );
            handlers_from(
                env,
                ctx,
                s,
                node,
                incoming,
                i + 1,
                acc.push(HandlerModel { entry, catch_all: false, fact, flow }),
            )
        } else if kind == "exceptionElse"@ || kind == "statements"@ {
            let entry = st.next();
            let (s, flow) = walk(
                env,
                ctx.in_handler(ExceptionTypeFact::Unknown),
                st.block(BasicBlockKind::BareExceptHandler),
                child,
                if kind == "exceptionElse"@ {
                    Selection::ExceptElse
                } else {
                    Selection::Statements
                },
                0,
                Some(entry),
                Seq::empty(),
            );
            handlers_from(
                env,
                ctx,
                s,
                node,
                incoming,
                i + 1,
                acc.push(
                    HandlerModel {
                        entry,
                        catch_all: true,
                        fact: ExceptionTypeFact::Unknown,
                        flow,
                    },
                ),
            )
        } else {
            handlers_from(env, ctx, st, node, incoming, i + 1, acc)
        }
    }
}

/// The handlers of a `try..except`. Without any, everything is caught.
pub open spec fn all_handlers(
    env: EnvModel,
    ctx: ContextModel,
    st: StateModel,
    node: SyntaxNode,
    incoming: Seq<ExceptionTypeFact>,
) -> (StateModel, Seq<HandlerModel>)
    decreases node, 4int, 0int,
{
    let (s, handlers) = handlers_from(env, ctx, st, node, incoming, 0, Seq::empty());
    if handlers.len() == 0 {
        (
            s.block(BasicBlockKind::BareExceptHandler),
            seq![
                HandlerModel {
                    entry: s.next(),
                    catch_all: true,
                    fact: ExceptionTypeFact::Unknown,
                    flow: ending(s.next()),
                },
            ],
        )
    } else {
        (s, handlers)
    }
}

/// The edges of an exception to the handlers from the `h`th on that may receive
/// it, and whether it may escape all of them.
pub open spec fn dispatch(
    x: IndexModel,
    st: StateModel,
    t: TransferModel,
    handlers: Seq<HandlerModel>,
    h: int,
) -> (StateModel, bool)
    decreases handlers.len() - h,
{
    if h < 0 || h >= handlers.len() {
        (st, true)
    } else {
        let caught = st.edge(t.source, handlers[h].entry, EdgeKind::ExceptionThrow);
        if handlers[h].catch_all {
            (caught, false)
        } else {
            match matches_handler(x, fact_of(t), handlers[h].fact) {
                TypeMatch::Yes => (caught, false),
                TypeMatch::No => dispatch(x, st, t, handlers, h + 1),
                TypeMatch::Unknown => dispatch(x, caught, t, handlers, h + 1),
            }
        }
    }
}

/// The dispatch of the exceptions from the `i`th on. Those that may escape join
/// the transfers.
pub open spec fn dispatch_all(
    x: IndexModel,
    st: StateModel,
    exceptions: Seq<TransferModel>,
    handlers: Seq<HandlerModel>,
    i: int,
    acc: Seq<TransferModel>,
) -> (StateModel, Seq<TransferModel>)
    decreases exceptions.len() - i,
{
    if i < 0 || i >= exceptions.len() {
        (st, acc)
    } else {
        let (s, escapes) = dispatch(x, st, exceptions[i], handlers, 0);
        dispatch_all(
            x,
            s,
            exceptions,
            handlers,
            i + 1,
            if escapes {
                acc.push(exceptions[i])
            } else {
                acc
            },
        )
    }
}

/// The normal ends of the first `n` handlers, behind those given.
pub open spec fn handler_ends(handlers: Seq<HandlerModel>, before: Seq<BlockId>, n: int) -> Seq<
    BlockId,
>
    decreases n,
{
    if n <= 0 || n > handlers.len() {
        before
    } else {
        let ends = handler_ends(handlers, before, n - 1);
        match handlers[n - 1].flow.normal {
            Some(end) => ends.push(end),
            None => ends,
        }
    }
}

/// The transfers of the first `n` handlers, behind those given.
pub open spec fn handler_transfers(
    handlers: Seq<HandlerModel>,
    before: Seq<TransferModel>,
    n: int,
) -> Seq<TransferModel>
    decreases n,
{
    if n <= 0 || n > handlers.len() {
        before
    } else {
        handler_transfers(handlers, before, n - 1) + handlers[n - 1].flow.transfers
    }
}

/// `try..except`. A dispatch is identified by the number of blocks that existed
/// when it was opened.
pub open spec fn try_except(
    env: EnvModel,
    ctx: ContextModel,
    st: StateModel,
    node: SyntaxNode,
    current: BlockId,
) -> (StateModel, FlowModel)
    decreases node, 5int, 0int,
{
    let (s1, f) = try_body(
        env,
        ctx.in_dispatch(st.graph.blocks.len() as usize),
        st,
        node,
        current,
    );
    let count = f.transfers.len() as int;
    let exceptions = exceptions_of(f.transfers, true, count);
    let (s2, handlers) = all_handlers(env, ctx, s1, node, facts_of(exceptions));
    let (s3, escaped) = dispatch_all(
        env.types,
        s2,
        exceptions,
        handlers,
        0,
        exceptions_of(f.transfers, false, count),
    );
    let transfers = handler_transfers(handlers, escaped, handlers.len() as int);
    let ends = handler_ends(
        handlers,
        match f.normal {
            Some(end) => seq![end],
            None => Seq::empty(),
        },
        handlers.len() as int,
    );
    if ends.len() == 0 {
        (s3, FlowModel { normal: None, transfers })
    } else {
        (
            edges_to(s3.block(BasicBlockKind::Normal), ends, 0, s3.next(), EdgeKind::Normal),
            FlowModel { normal: Some(s3.next()), transfers },
        )
    }
}

// The graph of a scope ------------------------------------------------------------------------------

/// The edge of a transfer that has reached the boundary of the scope.
pub open spec fn routed(env: EnvModel, st: StateModel, t: TransferModel) -> StateModel {
    match t.kind {
        TransferKind::Exception => st.edge(t.source, env.exit, EdgeKind::ExceptionThrow),
        TransferKind::Exit => st.edge(t.source, env.exit, t.completion()),
        TransferKind::Goto => {
            let target = match t.target {
                Some(b) => Some(b),
                None => match (t.binding, t.label) {
                    (Some(binding), Some(label)) => goto_target(
                        st.targets,
                        st.parents,
                        binding,
                        label,
                    ),
                    _ => None,
                },
            };
            match target {
                Some(b) => st.edge(t.source, b, t.completion()),
                None => st.edge(t.source, env.exit, EdgeKind::Goto),
            }
        },
        _ => match t.target {
            Some(b) => st.edge(t.source, b, t.completion()),
            None => st,
        },
    }
}

/// The edges of the transfers from the `i`th on.
pub open spec fn routed_all(
    env: EnvModel,
    st: StateModel,
    transfers: Seq<TransferModel>,
    i: int,
) -> StateModel
    decreases transfers.len() - i,
{
    if i < 0 || i >= transfers.len() {
        st
    } else {
        routed_all(env, routed(env, st, transfers[i]), transfers, i + 1)
    }
}

/// The flow of the whole scope, joined to its exit.
pub open spec fn finished(env: EnvModel, st: StateModel, f: FlowModel) -> StateModel {
    routed_all(
        env,
        match f.normal {
            Some(end) => st.edge(end, env.exit, EdgeKind::Normal),
            None => st,
        },
        f.transfers,
        0,
    )
}

/// The entry and exit block of a scope and the block in which it starts.
pub open spec fn opening() -> GraphModel {
    GraphModel::empty().with_block(BasicBlockKind::Entry).with_block(
        BasicBlockKind::Exit,
    ).with_block(BasicBlockKind::Normal).with_edge(BlockId(0), BlockId(2), EdgeKind::Normal)
}

/// What stays fixed while the statements of a node are walked.
pub open spec fn environment(
    node: SyntaxNode,
    source: Seq<u8>,
    types: IndexModel,
    unit: usize,
) -> EnvModel {
    let plan = plan_of(node, source);
    EnvModel {
        source,
        types,
        unit,
        exit: BlockId(1),
        scope_ids: plan.scope_ids,
        labels: plan.labels,
        branches: plan.branches,
    }
}

/// The state in which the walk of a node starts.
pub open spec fn initial(node: SyntaxNode, source: Seq<u8>) -> StateModel {
    StateModel {
        graph: opening(),
        parents: plan_of(node, source).parents,
        targets: Seq::empty(),
        cache: Seq::empty(),
        resumptions: Seq::empty(),
    }
}

/// The graph of the statements of a node.
pub open spec fn scope_graph(
    node: SyntaxNode,
    sel: Selection,
    source: Seq<u8>,
    types: IndexModel,
    unit: usize,
) -> GraphModel {
    let env = environment(node, source, types, unit);
    let (st, f) = walk(
        env,
        outermost(),
        initial(node, source),
        node,
        sel,
        0,
        Some(BlockId(2)),
        Seq::empty(),
    );
    finished(env, st, f).graph
}

/// The control-flow graph of a scope.
pub open spec fn scope_cfg(
    name: Seq<char>,
    start: usize,
    end: usize,
    node: SyntaxNode,
    sel: Selection,
    source: Seq<u8>,
    types: IndexModel,
    unit: usize,
) -> CfgModel {
    CfgModel {
        name,
        start,
        end,
        entry: BlockId(0),
        exit: BlockId(1),
        graph: scope_graph(node, sel, source, types, unit),
    }
}

// The graphs of a file -----------------------------------------------------------------------------------

/// The header of a routine definition.
pub open spec fn proc_header(node: SyntaxNode) -> Option<int> {
    match node.find(any_field("header"@)) {
        Some(k) => Some(k),
        None => node.find(any_kind("declProc"@)),
    }
}

/// The name of a routine as its header writes it. Of a qualified name the first
/// two parts count.
pub open spec fn proc_name(node: SyntaxNode, source: Seq<u8>) -> Option<Seq<char>> {
    match proc_header(node) {
        Some(h) => header_name(node.children@[h], source),
        None => None,
    }
}

/// The name that a routine header writes.
pub open spec fn header_name(header: SyntaxNode, source: Seq<u8>) -> Option<Seq<char>> {
    let dotted = match header.find(any_kind("genericDot"@)) {
        Some(g) => dotted_name(header.children@[g], source),
        None => None,
    };
    if dotted is Some {
        dotted
    } else {
        match header.find(any_field("name"@)) {
            Some(k) => Some(header.children@[k].text(source)),
            None => match header.find(any_kind("identifier"@)) {
                Some(k) => Some(header.children@[k].text(source)),
                None => None,
            },
        }
    }
}

/// The first two identifiers of a qualified name.
pub open spec fn dotted_name(node: SyntaxNode, source: Seq<u8>) -> Option<Seq<char>> {
    match node.find(any_kind("identifier"@)) {
        Some(a) => match find_from(node.children@, any_kind("identifier"@), a + 1) {
            Some(b) => Some(
                node.children@[a].text(source) + "."@ + node.children@[b].text(source),
            ),
            None => Some(node.children@[a].text(source)),
        },
        None => None,
    }
}

/// The complete name in the header of a routine, generic arguments included.
pub open spec fn full_proc_name(node: SyntaxNode, source: Seq<u8>) -> Option<Seq<char>> {
    match proc_header(node) {
        Some(h) => match node.children@[h].find(any_field("name"@)) {
            Some(k) => {
                let text = node.children@[h].children@[k].text(source);
                if text.len() > 0 {
                    Some(text)
                } else {
                    None
                }
            },
            None => None,
        },
        None => None,
    }
}

/// The name by which a routine qualifies those inside it.
pub open spec fn qualified_name(
    node: SyntaxNode,
    source: Seq<u8>,
    parent: Option<Seq<char>>,
    local: Seq<char>,
) -> Seq<char> {
    let full = match full_proc_name(node, source) {
        Some(text) => text,
        None => local,
    };
    match parent {
        Some(outer) => outer + "."@ + full,
        None => full,
    }
}

/// The graphs of the routines of a subtree, in lexical pre-order.
pub open spec fn routines(
    node: SyntaxNode,
    source: Seq<u8>,
    parent: Option<Seq<char>>,
    types: IndexModel,
    unit: usize,
) -> Seq<CfgModel>
    decreases node, 1int, 0int,
{
    if node.kind@ == "defProc"@ {
        match proc_name(node, source) {
            None => Seq::empty(),
            Some(local) => {
                let qualified = qualified_name(node, source, parent, local);
                let name = if parent is Some {
                    qualified
                } else {
                    local
                };
                let own = match node.find(any_field("body"@)) {
                    Some(k) => seq![
                        scope_cfg(
                            name,
                            node.start,
                            node.end,
                            node.children@[k],
                            Selection::Block,
                            source,
                            types,
                            unit,
                        ),
                    ],
                    None => Seq::empty(),
                };
                own + routines_among(node, true, source, Some(qualified), types, unit, 0)
            },
        }
    } else {
        routines_among(node, false, source, parent, types, unit, 0)
    }
}

/// The graphs of the routines below the children from `i` on; of a routine only
/// its local declarations count.
pub open spec fn routines_among(
    node: SyntaxNode,
    local_only: bool,
    source: Seq<u8>,
    parent: Option<Seq<char>>,
    types: IndexModel,
    unit: usize,
    i: int,
) -> Seq<CfgModel>
    decreases node, 0int, node.children@.len() - i,
{
    if i < 0 || i >= node.children@.len() {
        Seq::empty()
    } else {
        let here = if !local_only || hit(any_field("local"@), node.children@[i]) {
            routines(node.children@[i], source, parent, types, unit)
        } else {
            Seq::empty()
        };
        here + routines_among(node, local_only, source, parent, types, unit, i + 1)
    }
}

/// The graph of a section of a unit, if the child is one.
pub open spec fn section_graph(
    child: SyntaxNode,
    name: Seq<char>,
    source: Seq<u8>,
    types: IndexModel,
    unit: usize,
) -> Seq<CfgModel> {
    if !child.named {
        Seq::empty()
    } else if child.kind@ == "initialization"@ || child.kind@ == "finalization"@ {
        seq![
            scope_cfg(
                name + ".<"@ + child.kind@ + ">"@,
                child.start,
                child.end,
                child,
                Selection::Section,
                source,
                types,
                unit,
            ),
        ]
    } else if child.kind@ == "block"@ {
        seq![
            scope_cfg(
                name + ".<initialization>"@,
                child.start,
                child.end,
                child,
                Selection::Block,
                source,
                types,
                unit,
            ),
        ]
    } else {
        Seq::empty()
    }
}

/// The graphs of the sections of a unit from the child `i` on.
pub open spec fn section_graphs(
    module: SyntaxNode,
    name: Seq<char>,
    source: Seq<u8>,
    types: IndexModel,
    unit: usize,
    i: int,
) -> Seq<CfgModel>
    decreases module.children@.len() - i,
{
    if i < 0 || i >= module.children@.len() {
        Seq::empty()
    } else {
        section_graph(module.children@[i], name, source, types, unit) + section_graphs(
            module,
            name,
            source,
            types,
            unit,
            i + 1,
        )
    }
}

/// The graphs of a module's own statements: the main body of a program or
/// library, the initialization and finalization of a unit.
pub open spec fn module_graphs(
    root: SyntaxNode,
    source: Seq<u8>,
    types: IndexModel,
    unit: usize,
) -> Seq<CfgModel> {
    match module_from(root.children@, 0) {
        None => Seq::empty(),
        Some(m) => {
            let module = root.children@[m];
            match module.find(any_kind("moduleName"@)) {
                None => Seq::empty(),
                Some(n) => {
                    let name = module.children@[n].text(source);
                    if name.len() == 0 {
                        Seq::empty()
                    } else if module.kind@ == "unit"@ {
                        section_graphs(module, name, source, types, unit, 0)
                    } else {
                        match module.find(any_kind("block"@)) {
                            Some(b) => seq![
                                scope_cfg(
                                    name + ".<main>"@,
                                    module.children@[b].start,
                                    module.children@[b].end,
                                    module.children@[b],
                                    Selection::Block,
                                    source,
                                    types,
                                    unit,
                                ),
                            ],
                            None => Seq::empty(),
                        }
                    }
                },
            }
        },
    }
}

/// The first index at or behind `i` whose graph starts behind an offset.
pub open spec fn slot(cfgs: Seq<CfgModel>, start: usize, i: int) -> int
    decreases cfgs.len() - i,
{
    if i < 0 || i >= cfgs.len() || cfgs[i].start > start {
        i
    } else {
        slot(cfgs, start, i + 1)
    }
}

/// The graphs ordered by the start of their scopes. Those that start at the same
/// place keep their order.
pub open spec fn by_start(cfgs: Seq<CfgModel>) -> Seq<CfgModel>
    decreases cfgs.len(),
{
    if cfgs.len() == 0 {
        Seq::empty()
    } else {
        let before = by_start(cfgs.drop_last());
        before.insert(slot(before, cfgs.last().start, 0), cfgs.last())
    }
}

/// The graphs of a file, given the types that are known in it.
pub open spec fn tree_graphs(
    root: SyntaxNode,
    source: Seq<u8>,
    types: IndexModel,
    unit: usize,
) -> Seq<CfgModel> {
    by_start(routines(root, source, None, types, unit) + module_graphs(root, source, types, unit))
}

/// The graphs of a file that stands alone.
pub open spec fn file_graphs(root: SyntaxNode, source: Seq<u8>) -> Seq<CfgModel> {
    tree_graphs(root, source, crate::exception_types::file_index(root, source), 0)
}

/// The graphs of one unit of a project, or `None` where there is no such unit.
pub open spec fn project_graphs(project: ProjectModel, id: Seq<char>) -> Option<Seq<CfgModel>> {
    let units = ranked(project.units);
    match unit_index(units, id, units.len() as int) {
        Some(k) => Some(
            tree_graphs(units[k].tree.root, units[k].source, project_index(project), k as usize),
        ),
        None => None,
    }
}

} // verus!
