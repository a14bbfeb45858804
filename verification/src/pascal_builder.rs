//! Building the control-flow graphs of a Pascal file.

use vstd::prelude::*;
use crate::constructs::{
    exit_has_argument, is_break_call, is_continue_call, is_exit_call,
    raise_may_throw_during_evaluation, raised_exception_type,
};
use crate::exception_types::{ExceptionTypeFact, ExceptionTypeIndex, TypeMatch};
use crate::flow::{
    append_transfers, copy_facts, copy_ids, copy_key, dedup_transfers, exception_transfer,
    exit_transfer, loop_transfer, opt_key, push_transfer, same_facts, same_ids, same_key,
    transfer_models, unknown_exception, ContinuationKey, Flow, PendingTransfer, TransferKind,
    TransferModel,
};
use crate::graph::{cfg_models, BasicBlockKind, BlockId, Cfg, CfgModel, EdgeKind, Graph};
use crate::graph_facts::well_formed;
use crate::graph_laws::{in_source_order, law_graphs_of_a_tree};
use crate::labels::{
    binding_models, branch_at, is_branch_content, label_models, label_target_bindings, label_text,
    preprocessor_branches, resolve_label_target, target_models, try_has_finally, BranchEntry,
    LabelEntry, LabelTarget, Plan,
};
use crate::project::{ProjectBuildError, ProjectSnapshot, ProjectUnitId};
use crate::project_index::{input_models, position, ranked_units};
use crate::scope_graph::{
    all_handlers, body_key, body_return, branch_binding, by_start, cached, dotted_name,
    file_graphs, full_proc_name, module_graphs, proc_header, proc_name, qualified_name, routines,
    routines_among, section_graph, section_graphs, slot, tree_graphs, case_arms, case_selector,
    case_statement, child_holds_goto, condition, conditional_block, conditional_branches,
    counted_loop, default_before, dispatch, dispatch_all, edges_to, ending, entered, entry_edge,
    environment, exceptions_of, fact_of, facts_of, finalize, finalizer_holds_goto, finally_body,
    finished, goto_statement, goto_transfers, group_with, grouped, groups_of, handler_ends,
    handler_transfers, handlers_from, holds_goto, if_else, if_only, implicit, initial, labelled,
    labelled_statement, last_under, loop_header, met, opening, outermost, placed_statement,
    prepared, project_graphs, raise_statement, repeat_header, repeat_loop, return_number, routed,
    routed_all, scope_cfg, scope_number, selected, sequence_child, settled, single, staying,
    superseding, try_body, try_except, try_finally, waiting, walk, with_statement, CacheKeyModel,
    CachedModel, ContextModel, EnvModel, FrameModel, GroupModel, HandlerModel, ReturnModel,
    Selection, StateModel,
};
use crate::syntax::{opt_text, SyntaxNode, SyntaxTree};

verus! {

broadcast use {crate::syntax::lemma_find_bounds, crate::syntax::lemma_module_bounds};

// The pieces of a walk --------------------------------------------------------------------------

/// A loop around a statement.
#[derive(Debug)]
struct LoopFrame {
    continue_target: BlockId,
    break_target: BlockId,
    scopes: Vec<usize>,
}

/// A region in which exceptions are of interest.
#[derive(Debug, Clone, Copy, PartialEq, Eq, Structural)]
enum Region {
    TryBody,
    Handler,
    Finalizer,
}

/// What surrounds a statement.
#[derive(Debug)]
struct Context {
    loops: Vec<LoopFrame>,
    scopes: Vec<usize>,
    binding: usize,
    continuation: Option<usize>,
    suspended: Option<ContinuationKey>,
    dispatches: Vec<usize>,
    regions: Vec<Region>,
    handled: Vec<ExceptionTypeFact>,
}

/// What makes two walks of a finalizer body give the same result.
#[derive(Debug)]
struct FinalizerCacheKey {
    start: usize,
    end: usize,
    scope: usize,
    continuation: Option<ContinuationKey>,
    caller: Option<usize>,
    scopes: Vec<usize>,
    loops: Vec<LoopFrame>,
    dispatches: Vec<usize>,
    depth: usize,
    handled: Vec<ExceptionTypeFact>,
    binding: Option<usize>,
}

/// What follows the normal end of a finalizer body.
#[derive(Debug)]
struct Resumption {
    start: usize,
    end: usize,
    scope: usize,
    local: Option<ContinuationKey>,
    suspended: Option<ContinuationKey>,
    caller: Option<usize>,
    handled: Vec<ExceptionTypeFact>,
}

/// A finalizer body that has been walked.
#[derive(Debug)]
struct CachedFinalizerBody {
    key: FinalizerCacheKey,
    entry: BlockId,
    flow: Flow,
}

/// The graph so far, and what the walk remembers.
#[derive(Debug)]
struct State {
    graph: Graph,
    parents: Vec<Option<usize>>,
    targets: Vec<LabelTarget>,
    cache: Vec<CachedFinalizerBody>,
    resumptions: Vec<Resumption>,
}

/// What stays fixed while a scope is walked.
struct Env<'a> {
    source: &'a [u8],
    types: &'a ExceptionTypeIndex,
    unit: usize,
    exit: BlockId,
    scope_ids: Vec<(usize, usize)>,
    labels: Vec<LabelEntry>,
    branches: Vec<BranchEntry>,
}

impl View for LoopFrame {
    type V = FrameModel;

    closed spec fn view(&self) -> FrameModel {
        FrameModel {
            continue_target: self.continue_target,
            break_target: self.break_target,
            scopes: self.scopes@,
        }
    }
}

spec fn frame_models(v: Seq<LoopFrame>) -> Seq<FrameModel> {
    v.map_values(|f: LoopFrame| f@)
}

impl View for Context {
    type V = ContextModel;

    closed spec fn view(&self) -> ContextModel {
        ContextModel {
            loops: frame_models(self.loops@),
            scopes: self.scopes@,
            binding: self.binding,
            continuation: self.continuation,
            suspended: opt_key(self.suspended),
            dispatches: self.dispatches@,
            depth: self.regions@.len(),
            handled: self.handled@,
        }
    }
}

impl View for FinalizerCacheKey {
    type V = CacheKeyModel;

    closed spec fn view(&self) -> CacheKeyModel {
        CacheKeyModel {
            start: self.start,
            end: self.end,
            scope: self.scope,
            continuation: opt_key(self.continuation),
            caller: self.caller,
            scopes: self.scopes@,
            loops: frame_models(self.loops@),
            dispatches: self.dispatches@,
            depth: self.depth as nat,
            handled: self.handled@,
            binding: self.binding,
        }
    }
}

impl View for Resumption {
    type V = ReturnModel;

    closed spec fn view(&self) -> ReturnModel {
        ReturnModel {
            start: self.start,
            end: self.end,
            scope: self.scope,
            local: opt_key(self.local),
            suspended: opt_key(self.suspended),
            caller: self.caller,
            handled: self.handled@,
        }
    }
}

impl View for CachedFinalizerBody {
    type V = CachedModel;

    closed spec fn view(&self) -> CachedModel {
        CachedModel { key: self.key@, entry: self.entry, flow: self.flow@ }
    }
}

spec fn cached_models(v: Seq<CachedFinalizerBody>) -> Seq<CachedModel> {
    v.map_values(|c: CachedFinalizerBody| c@)
}

spec fn resumption_models(v: Seq<Resumption>) -> Seq<ReturnModel> {
    v.map_values(|r: Resumption| r@)
}

impl View for State {
    type V = StateModel;

    closed spec fn view(&self) -> StateModel {
        StateModel {
            graph: self.graph@,
            parents: self.parents@,
            targets: target_models(self.targets@),
            cache: cached_models(self.cache@),
            resumptions: resumption_models(self.resumptions@),
        }
    }
}

impl<'a> View for Env<'a> {
    type V = EnvModel;

    closed spec fn view(&self) -> EnvModel {
        EnvModel {
            source: self.source@,
            types: self.types@,
            unit: self.unit,
            exit: self.exit,
            scope_ids: self.scope_ids@,
            labels: label_models(self.labels@),
            branches: self.branches@,
        }
    }
}

impl State {
    fn new_block(&mut self, kind: BasicBlockKind) -> (r: BlockId)
        ensures
            final(self)@ == old(self)@.block(kind),
            r == old(self)@.next(),
    {
        let r = self.graph.new_block(kind);
        assert(self@ =~= old(self)@.block(kind));
        r
    }

    fn add_edge(&mut self, source: BlockId, target: BlockId, kind: EdgeKind)
        ensures
            final(self)@ == old(self)@.edge(source, target, kind),
    {
        self.graph.add_edge(source, target, kind);
        assert(self@ =~= old(self)@.edge(source, target, kind));
    }

    fn add_span(&mut self, block: BlockId, start: usize, end: usize, kind: &str)
        ensures
            final(self)@ == old(self)@.stmt(block, start, end, kind@),
    {
        self.graph.add_stmt(block, start, end, kind);
        assert(self@ =~= old(self)@.stmt(block, start, end, kind@));
    }

    fn add_stmt_ref(&mut self, block: BlockId, node: &SyntaxNode)
        ensures
            final(self)@ == old(self)@.stmt(block, node.start, node.end, node.kind@),
    {
        self.add_span(block, node.start, node.end, node.kind.as_str());
    }

    fn add_target(&mut self, binding: usize, name: String, block: BlockId)
        ensures
            final(self)@ == (StateModel {
                targets: old(self)@.targets.push(
                    (crate::labels::TargetModel { binding, name: name@, block }),
                ),
                ..old(self)@
            }),
    {
        let target = LabelTarget { binding, name, block };
        self.targets.push(target);
        assert(self@.targets =~= old(self)@.targets.push(target@));
        assert(self@ =~= StateModel {
            targets: old(self)@.targets.push(target@),
            ..old(self)@
        });
    }

    fn add_edges(&mut self, ends: &Vec<BlockId>, target: BlockId, kind: EdgeKind)
        ensures
            final(self)@ == edges_to(old(self)@, ends@, 0, target, kind),
    {
        let mut i: usize = 0;
        while i < ends.len()
            invariant
                i <= ends@.len(),
                edges_to(self@, ends@, i as int, target, kind) == edges_to(
                    old(self)@,
                    ends@,
                    0,
                    target,
                    kind,
                ),
            decreases ends@.len() - i,
        {
            self.add_edge(ends[i], target, kind);
            i = i + 1;
        }
    }
}

fn copy_frames(v: &Vec<LoopFrame>) -> (r: Vec<LoopFrame>)
    ensures
        frame_models(r@) == frame_models(v@),
{
    let mut out: Vec<LoopFrame> = Vec::new();
    let mut i: usize = 0;
    while i < v.len()
        invariant
            i <= v@.len(),
            frame_models(out@) == frame_models(v@).take(i as int),
        decreases v@.len() - i,
    {
        let f = &v[i];
        let copy = LoopFrame {
            continue_target: f.continue_target,
            break_target: f.break_target,
            scopes: copy_ids(&f.scopes),
        };
        let ghost before = out@;
        out.push(copy);
        assert(frame_models(out@) =~= frame_models(before).push(v@[i as int]@));
        i = i + 1;
        assert(frame_models(v@).take(i as int) =~= frame_models(v@).take(i as int - 1).push(
            v@[i as int - 1]@,
        ));
    }
    assert(frame_models(v@).take(i as int) =~= frame_models(v@));
    out
}

fn same_frames(a: &Vec<LoopFrame>, b: &Vec<LoopFrame>) -> (r: bool)
    ensures
        r == (frame_models(a@) == frame_models(b@)),
{
    assert(frame_models(a@).len() == a@.len());
    assert(frame_models(b@).len() == b@.len());
    if a.len() != b.len() {
        return false;
    }
    let mut i: usize = 0;
    while i < a.len()
        invariant
            a@.len() == b@.len(),
            i <= a@.len(),
            forall|k: int| 0 <= k < i ==> a@[k]@ == b@[k]@,
        decreases a@.len() - i,
    {
        if !(a[i].continue_target == b[i].continue_target && a[i].break_target
            == b[i].break_target && same_ids(&a[i].scopes, &b[i].scopes)) {
            assert(frame_models(a@)[i as int] != frame_models(b@)[i as int]);
            return false;
        }
        i = i + 1;
    }
    assert(frame_models(a@) =~= frame_models(b@));
    true
}

fn copy_regions(v: &Vec<Region>) -> (r: Vec<Region>)
    ensures
        r@ == v@,
{
    let mut out: Vec<Region> = Vec::new();
    let mut i: usize = 0;
    while i < v.len()
        invariant
            i <= v@.len(),
            out@ == v@.take(i as int),
        decreases v@.len() - i,
    {
        out.push(v[i]);
        i = i + 1;
        assert(v@.take(i as int) =~= v@.take(i as int - 1).push(v@[i as int - 1]));
    }
    assert(v@.take(i as int) =~= v@);
    out
}

impl Context {
    fn outermost() -> (r: Context)
        ensures
            r@ == outermost(),
    {
        let r = Context {
            loops: Vec::new(),
            scopes: Vec::new(),
            binding: 0,
            continuation: None,
            suspended: None,
            dispatches: Vec::new(),
            regions: Vec::new(),
            handled: Vec::new(),
        };
        assert(r@ =~= outermost());
        r
    }

    fn copy(&self) -> (r: Context)
        ensures
            r@ == self@,
            r.regions@ == self.regions@,
    {
        let r = Context {
            loops: copy_frames(&self.loops),
            scopes: copy_ids(&self.scopes),
            binding: self.binding,
            continuation: self.continuation,
            suspended: copy_key(&self.suspended),
            dispatches: copy_ids(&self.dispatches),
            regions: copy_regions(&self.regions),
            handled: copy_facts(&self.handled),
        };
        assert(r@ =~= self@);
        r
    }

    fn in_loop(&self, continue_target: BlockId, break_target: BlockId) -> (r: Context)
        ensures
            r@ == self@.in_loop(continue_target, break_target),
    {
        let mut r = self.copy();
        let ghost before = r.loops@;
        let frame = LoopFrame { continue_target, break_target, scopes: copy_ids(&self.scopes) };
        r.loops.push(frame);
        assert(frame_models(r.loops@) =~= frame_models(before).push(frame@));
        assert(r@ =~= self@.in_loop(continue_target, break_target));
        r
    }

    fn in_cleanup(&self, scope: usize) -> (r: Context)
        ensures
            r@ == self@.in_cleanup(scope),
    {
        let mut r = self.copy();
        r.scopes.push(scope);
        r.regions.push(Region::TryBody);
        assert(r@ =~= self@.in_cleanup(scope));
        r
    }

    fn in_dispatch(&self, dispatch: usize) -> (r: Context)
        ensures
            r@ == self@.in_dispatch(dispatch),
    {
        let mut r = self.copy();
        r.dispatches.push(dispatch);
        r.regions.push(Region::TryBody);
        assert(r@ =~= self@.in_dispatch(dispatch));
        r
    }

    fn in_handler(&self, fact: ExceptionTypeFact) -> (r: Context)
        ensures
            r@ == self@.in_handler(fact),
    {
        let mut r = self.copy();
        r.handled.push(fact);
        r.regions.push(Region::Handler);
        assert(r@ =~= self@.in_handler(fact));
        r
    }

    fn in_branch(&self, binding: usize) -> (r: Context)
        ensures
            r@ == self@.in_branch(binding),
    {
        let mut r = self.copy();
        r.binding = binding;
        assert(r@ =~= self@.in_branch(binding));
        r
    }

    fn in_finalizer(
        &self,
        binding: usize,
        continuation: usize,
        suspended: Option<ContinuationKey>,
    ) -> (r: Context)
        ensures
            r@ == self@.in_finalizer(binding, continuation, opt_key(suspended)),
    {
        let mut r = self.copy();
        r.binding = binding;
        r.continuation = Some(continuation);
        r.suspended = suspended;
        r.regions.push(Region::Finalizer);
        assert(r@ =~= self@.in_finalizer(binding, continuation, opt_key(suspended)));
        r
    }

    fn implicit_exception_transfers(&self, block: BlockId) -> (r: Vec<PendingTransfer>)
        ensures
            transfer_models(r@) == implicit(self@, block),
    {
        let mut out: Vec<PendingTransfer> = Vec::new();
        if self.regions.len() > 0 {
            out.push(PendingTransfer::exception(block));
            assert(transfer_models(out@) =~= seq![unknown_exception(block)]);
        } else {
            assert(transfer_models(out@) =~= Seq::<TransferModel>::empty());
        }
        out
    }

    fn prepare_statement_block(&self, st: &mut State, current: BlockId) -> (r: BlockId)
        ensures
            (final(st)@, r) == prepared(self@, old(st)@, current),
    {
        if self.regions.len() == 0 || !st.graph.has_executable(current) {
            return current;
        }
        let next = st.new_block(BasicBlockKind::Normal);
        st.add_edge(current, next, EdgeKind::Normal);
        next
    }

    fn place_statement(&self, st: &mut State, node: &SyntaxNode, current: BlockId) -> (r: BlockId)
        ensures
            (final(st)@, r) == placed_statement(self@, old(st)@, *node, current),
    {
        let block = self.prepare_statement_block(st, current);
        st.add_stmt_ref(block, node);
        block
    }

    fn prepare_condition_block(&self, st: &mut State, node: &SyntaxNode, current: BlockId) -> (r:
        BlockId)
        ensures
            (final(st)@, r) == condition(self@, old(st)@, *node, current),
    {
        let block = self.prepare_statement_block(st, current);
        if let Some(k) = node.child_by_field("condition") {
            st.add_span(block, node.start, node.children[k].end, node.kind.as_str());
        }
        block
    }
}

fn join_branch_flows(st: &mut State, a: Option<BlockId>, b: Option<BlockId>) -> (r: Option<BlockId>)
    ensures
        (final(st)@, r) == met(old(st)@, a, b),
{
    if a.is_none() && b.is_none() {
        return None;
    }
    let join = st.new_block(BasicBlockKind::Normal);
    if let Some(x) = a {
        st.add_edge(x, join, EdgeKind::Normal);
    }
    if let Some(y) = b {
        st.add_edge(y, join, EdgeKind::Normal);
    }
    Some(join)
}

// The walk -----------------------------------------------------------------------------------------

/// Where a `case` has its default arm and which branch a child is in, as far as
/// a selection needs it.
fn is_selected(sel: Selection, node: &SyntaxNode, i: usize, in_default: bool, branch: usize) -> (r:
    bool)
    requires
        i < node.children@.len(),
        in_default == default_before(*node, i as int),
        branch == branch_at(*node, i as int),
    ensures
        r == selected(sel, *node, i as int),
{
    let child = &node.children[i];
    match sel {
        Selection::Block => !(child.is_kind("kBegin") || child.is_kind("kEnd") || child.is_kind(";")
            || child.is_kind("declVars") || child.is_kind("declConsts") || child.is_kind(
            "declTypes",
        )),
        Selection::Statements => !child.is_kind(";"),
        Selection::Section => !child.extra && !child.is_kind(";") && !(node.is_kind(
            "initialization",
        ) && child.is_kind("kInitialization")) && !(node.is_kind("finalization")
            && child.is_kind("kFinalization")),
        Selection::Then => child.is_field("then") && !child.is_kind(";") && !child.is_kind("kElse"),
        Selection::Else => child.is_field("else") && !child.is_kind(";") && !child.is_kind("kElse"),
        Selection::Body => child.is_field("body") && !child.is_kind(";"),
        Selection::CaseDefault => in_default && !(child.is_kind("kElse") || child.is_kind(
            "kOtherwise",
        ) || child.is_kind("kEnd") || child.is_kind(";")),
        Selection::Branch(b) => is_branch_content(child) && branch == b,
        Selection::ExceptElse => !child.is_kind("kElse") && !child.is_kind(";"),
    }
}

/// Walks the statements of a part of a node.
fn walk_part(
    env: &Env,
    ctx: &Context,
    st: &mut State,
    node: &SyntaxNode,
    sel: Selection,
    current: Option<BlockId>,
) -> (r: Flow)
    ensures
        (final(st)@, r@) == walk(
            env@,
            ctx@,
            old(st)@,
            *node,
            sel,
            0,
            current,
            Seq::empty(),
        ),
    decreases *node, 1int,
{
    let mut at = current;
    let mut transfers: Vec<PendingTransfer> = Vec::new();
    assert(transfer_models(transfers@) =~= Seq::<TransferModel>::empty());
    let mut in_default: bool = false;
    let mut branch: usize = 0;
    let mut i: usize = 0;
    while i < node.children.len()
        invariant
            i <= node.children@.len(),
            in_default == default_before(*node, i as int),
            branch == branch_at(*node, i as int),
            branch <= i,
            walk(
                env@,
                ctx@,
                st@,
                *node,
                sel,
                i as int,
                at,
                transfer_models(transfers@),
            ) == walk(env@, ctx@, old(st)@, *node, sel, 0, current, Seq::empty()),
        decreases node.children@.len() - i,
    {
        let child = &node.children[i];
        if is_selected(sel, node, i, in_default, branch) {
            let flow = process_sequence_child(env, ctx, st, child, at);
            at = flow.normal;
            append_transfers(&mut transfers, flow.transfers);
        }
        if child.is_kind("kElse") || child.is_kind("kOtherwise") {
            in_default = true;
        }
        if child.is_kind("ppElse") {
            branch = branch + 1;
        }
        i = i + 1;
    }
    Flow { normal: at, transfers }
}

fn process_sequence_child(
    env: &Env,
    ctx: &Context,
    st: &mut State,
    node: &SyntaxNode,
    current: Option<BlockId>,
) -> (r: Flow)
    ensures
        (final(st)@, r@) == sequence_child(env@, ctx@, old(st)@, *node, current),
    decreases *node, 9int,
{
    if node.extra {
        let r = Flow { normal: current, transfers: Vec::new() };
        assert(r@.transfers =~= Seq::<TransferModel>::empty());
        return r;
    }
    let block = match current {
        Some(b) => b,
        None => st.new_block(BasicBlockKind::Normal),
    };
    if node.is_kind("label") {
        let target = register_label(env, ctx, st, node, block);
        return Flow::ending(target);
    }
    process_single_stmt(env, ctx, st, node, block)
}

fn register_label(env: &Env, ctx: &Context, st: &mut State, node: &SyntaxNode, current: BlockId) -> (r:
    BlockId)
    ensures
        (final(st)@, r) == labelled(env@, ctx@, old(st)@, *node, current),
{
    let target = if st.graph.has_executable(current) {
        let next = st.new_block(BasicBlockKind::Normal);
        st.add_edge(current, next, EdgeKind::Normal);
        next
    } else {
        current
    };
    if let Some(name) = label_text(node, env.source) {
        st.add_target(ctx.binding, name, target);
    }
    st.add_stmt_ref(target, node);
    target
}

fn process_single_stmt(
    env: &Env,
    ctx: &Context,
    st: &mut State,
    node: &SyntaxNode,
    current: BlockId,
) -> (r: Flow)
    ensures
        (final(st)@, r@) == single(env@, ctx@, old(st)@, *node, current),
    decreases *node, 8int,
{
    if node.extra {
        return Flow::ending(current);
    }
    if node.is_kind("ppBlock") {
        return handle_preprocessor_block(env, ctx, st, node, current);
    }
    if node.is_kind("labeledStatement") || node.is_kind("labeledStatementTr") {
        return walk_labeled_statement(env, ctx, st, node, current);
    }
    if node.is_kind("block") {
        return walk_part(env, ctx, st, node, Selection::Block, Some(current));
    }
    if node.is_kind("statements") {
        return walk_part(env, ctx, st, node, Selection::Statements, Some(current));
    }
    if node.is_kind("ifElse") {
        return handle_if_else(env, ctx, st, node, current);
    }
    if node.is_kind("if") {
        return handle_if_only(env, ctx, st, node, current);
    }
    if node.is_kind("for") || node.is_kind("foreach") || node.is_kind("while") {
        return handle_for_or_while(env, ctx, st, node, current);
    }
    if node.is_kind("case") {
        return handle_case(env, ctx, st, node, current);
    }
    if node.is_kind("repeat") {
        return handle_repeat(env, ctx, st, node, current);
    }
    if node.is_kind("try") {
        return if try_has_finally(node) {
            handle_try_finally(env, ctx, st, node, current)
        } else if node.child_by_field_of_kind("except", "kExcept").is_some() {
            handle_try_except(env, ctx, st, node, current)
        } else {
            // A malformed `try` does not swallow the statement behind it.
            Flow::ending(current)
        };
    }
    if node.is_kind("with") {
        return handle_with(env, ctx, st, node, current);
    }
    if node.is_kind("raise") {
        return handle_raise(env, ctx, st, node, current);
    }
    if node.is_kind("statement") {
        if is_exit_call(node, env.source) {
            let block = ctx.place_statement(st, node, current);
            let mut r = Flow::leaving(PendingTransfer::exit(block));
            if exit_has_argument(node, env.source) {
                append_transfers(&mut r.transfers, ctx.implicit_exception_transfers(block));
            }
            assert(r@.transfers =~= seq![exit_transfer(block)] + if crate::constructs::exit_argument(
                *node,
                env@.source,
            ) {
                implicit(ctx@, block)
            } else {
                Seq::empty()
            });
            return r;
        }
        if is_break_call(node, env.source) {
            let block = ctx.place_statement(st, node, current);
            return Flow::leaving(loop_exit(ctx, block, TransferKind::Break));
        }
        if is_continue_call(node, env.source) {
            let block = ctx.place_statement(st, node, current);
            return Flow::leaving(loop_exit(ctx, block, TransferKind::Continue));
        }
    }
    if node.is_kind("goto") {
        return handle_goto(env, ctx, st, node, current);
    }
    let block = ctx.place_statement(st, node, current);
    Flow { normal: Some(block), transfers: ctx.implicit_exception_transfers(block) }
}

/// The transfer of a `break` or `continue`, which outside a loop leaves the
/// routine.
fn loop_exit(ctx: &Context, block: BlockId, kind: TransferKind) -> (r: PendingTransfer)
    ensures
        r@ == (if ctx@.loops.len() > 0 {
            let frame = ctx@.loops[ctx@.loops.len() - 1];
            loop_transfer(
                block,
                kind,
                if kind == TransferKind::Break {
                    frame.break_target
                } else {
                    frame.continue_target
                },
                frame.scopes,
            )
        } else {
            exit_transfer(block)
        }),
{
    let count: usize = ctx.loops.len();
    assert(ctx@.loops.len() == count);
    if count > 0 {
        let frame = &ctx.loops[count - 1];
        assert(ctx@.loops[count - 1] == frame@);
        let target = if kind == TransferKind::Break {
            frame.break_target
        } else {
            frame.continue_target
        };
        PendingTransfer::block_target(block, kind, target, copy_ids(&frame.scopes))
    } else {
        PendingTransfer::exit(block)
    }
}

fn handle_raise(env: &Env, ctx: &Context, st: &mut State, node: &SyntaxNode, current: BlockId) -> (r:
    Flow)
    ensures
        (final(st)@, r@) == raise_statement(env@, ctx@, old(st)@, *node, current),
{
    let block = ctx.place_statement(st, node, current);
    let written = raised_exception_type(node, env.source);
    let fact = if node.child_by_field("exception").is_none() {
        let count: usize = ctx.handled.len();
        if count > 0 {
            ctx.handled[count - 1]
        } else {
            ExceptionTypeFact::Unknown
        }
    } else {
        env.types.raised_fact(env.unit, node, env.source)
    };
    let mut transfers: Vec<PendingTransfer> = Vec::new();
    if raise_may_throw_during_evaluation(node, env.source) {
        if ctx.regions.len() > 0 {
            transfers.push(
                if fact == ExceptionTypeFact::Unknown {
                    PendingTransfer::exception_with_fact(
                        block,
                        fact,
                        crate::flow::copy_opt(&written),
                    )
                } else {
                    PendingTransfer::exception(block)
                },
            );
        }
        let raised = st.new_block(BasicBlockKind::Normal);
        st.add_edge(block, raised, EdgeKind::Normal);
        transfers.push(PendingTransfer::exception_with_fact(raised, fact, written));
        let ghost text = opt_text(written);
        assert(transfer_models(transfers@) =~= if ctx@.depth > 0 {
            seq![
                if fact == ExceptionTypeFact::Unknown {
                    exception_transfer(block, fact, text)
                } else {
                    unknown_exception(block)
                },
                exception_transfer(raised, fact, text),
            ]
        } else {
            seq![exception_transfer(raised, fact, text)]
        });
    } else {
        transfers.push(PendingTransfer::exception_with_fact(block, fact, written));
        assert(transfer_models(transfers@) =~= seq![
            exception_transfer(block, fact, opt_text(written)),
        ]);
    }
    Flow { normal: None, transfers }
}

fn handle_goto(env: &Env, ctx: &Context, st: &mut State, node: &SyntaxNode, current: BlockId) -> (r:
    Flow)
    ensures
        (final(st)@, r@) == goto_statement(env@, ctx@, old(st)@, *node, current),
{
    let block = ctx.place_statement(st, node, current);
    let label = match label_text(node, env.source) {
        Some(name) => name,
        None => String::new(),
    };
    let bindings = label_target_bindings(
        &env.labels,
        &env.branches,
        &st.parents,
        ctx.binding,
        label.as_str(),
    );
    let ghost models = binding_models(bindings@);
    assert(models.len() == bindings@.len());
    if bindings.len() == 0 {
        let scopes: Vec<usize> = Vec::new();
        assert(scopes@ =~= Seq::<usize>::empty());
        return Flow::leaving(PendingTransfer::goto(block, label, ctx.binding, scopes));
    }
    let mut transfers: Vec<PendingTransfer> = Vec::new();
    let mut i: usize = 0;
    while i < bindings.len()
        invariant
            i <= bindings@.len(),
            models == binding_models(bindings@),
            models.len() == bindings@.len(),
            transfer_models(transfers@) == goto_transfers(block, label@, models.take(i as int)),
        decreases bindings@.len() - i,
    {
        assert(models[i as int] == bindings@[i as int]@);
        push_transfer(
            &mut transfers,
            PendingTransfer::goto(
                block,
                label.clone(),
                bindings[i].binding,
                copy_ids(&bindings[i].scopes),
            ),
        );
        i = i + 1;
        assert(transfer_models(transfers@) =~= goto_transfers(
            block,
            label@,
            models.take(i as int),
        ));
    }
    assert(models.take(i as int) =~= models);
    Flow { normal: None, transfers }
}

fn handle_if_else(env: &Env, ctx: &Context, st: &mut State, node: &SyntaxNode, current: BlockId) -> (r:
    Flow)
    ensures
        (final(st)@, r@) == if_else(env@, ctx@, old(st)@, *node, current),
    decreases *node, 7int,
{
    let condition_block = ctx.prepare_condition_block(st, node, current);
    let mut transfers = ctx.implicit_exception_transfers(condition_block);
    let then_block = st.new_block(BasicBlockKind::Normal);
    let else_block = st.new_block(BasicBlockKind::Normal);
    st.add_edge(condition_block, then_block, EdgeKind::ConditionalTrue);
    st.add_edge(condition_block, else_block, EdgeKind::ConditionalFalse);
    let then_flow = walk_part(env, ctx, st, node, Selection::Then, Some(then_block));
    let else_flow = walk_part(env, ctx, st, node, Selection::Else, Some(else_block));
    let normal = join_branch_flows(st, then_flow.normal, else_flow.normal);
    append_transfers(&mut transfers, then_flow.transfers);
    append_transfers(&mut transfers, else_flow.transfers);
    Flow { normal, transfers }
}

fn handle_if_only(env: &Env, ctx: &Context, st: &mut State, node: &SyntaxNode, current: BlockId) -> (r:
    Flow)
    ensures
        (final(st)@, r@) == if_only(env@, ctx@, old(st)@, *node, current),
    decreases *node, 7int,
{
    let condition_block = ctx.prepare_condition_block(st, node, current);
    let mut transfers = ctx.implicit_exception_transfers(condition_block);
    let then_block = st.new_block(BasicBlockKind::Normal);
    let join = st.new_block(BasicBlockKind::Normal);
    st.add_edge(condition_block, then_block, EdgeKind::ConditionalTrue);
    st.add_edge(condition_block, join, EdgeKind::ConditionalFalse);
    let then_flow = walk_part(env, ctx, st, node, Selection::Then, Some(then_block));
    if let Some(then_end) = then_flow.normal {
        st.add_edge(then_end, join, EdgeKind::Normal);
    }
    append_transfers(&mut transfers, then_flow.transfers);
    Flow { normal: Some(join), transfers }
}

/// Turns the transfers that belong to a loop into edges; the others join `out`.
fn settle_loop(
    st: &mut State,
    transfers: &Vec<PendingTransfer>,
    after: BlockId,
    again: BlockId,
    out: Vec<PendingTransfer>,
) -> (r: Vec<PendingTransfer>)
    ensures
        (final(st)@, transfer_models(r@)) == settled(
            old(st)@,
            transfer_models(transfers@),
            0,
            after,
            again,
            transfer_models(out@),
        ),
{
    let ghost all = transfer_models(transfers@);
    let ghost first = transfer_models(out@);
    let mut rest = out;
    let mut i: usize = 0;
    while i < transfers.len()
        invariant
            i <= transfers@.len(),
            all == transfer_models(transfers@),
            all.len() == transfers@.len(),
            settled(st@, all, i as int, after, again, transfer_models(rest@)) == settled(
                old(st)@,
                all,
                0,
                after,
                again,
                first,
            ),
        decreases transfers@.len() - i,
    {
        let t = &transfers[i];
        assert(all[i as int] == t@);
        if t.kind == TransferKind::Break && t.target == Some(after) {
            st.add_edge(t.source, after, t.completion_edge());
        } else if t.kind == TransferKind::Continue && t.target == Some(again) {
            st.add_edge(t.source, again, t.completion_edge());
        } else {
            push_transfer(&mut rest, t.copy());
        }
        i = i + 1;
    }
    rest
}

fn add_loop_header_stmt(st: &mut State, block: BlockId, node: &SyntaxNode)
    ensures
        final(st)@ == loop_header(old(st)@, block, *node),
{
    let end = if node.is_kind("while") {
        node.child_by_field("condition")
    } else if node.is_kind("for") {
        node.child_by_field("end")
    } else {
        node.child_by_field("iterable")
    };
    if let Some(k) = end {
        st.add_span(block, node.start, node.children[k].end, node.kind.as_str());
    }
}

fn handle_for_or_while(
    env: &Env,
    ctx: &Context,
    st: &mut State,
    node: &SyntaxNode,
    current: BlockId,
) -> (r: Flow)
    ensures
        (final(st)@, r@) == counted_loop(env@, ctx@, old(st)@, *node, current),
    decreases *node, 7int,
{
    let cond_block = st.new_block(BasicBlockKind::Normal);
    let body_block = st.new_block(BasicBlockKind::Normal);
    let after_block = st.new_block(BasicBlockKind::Normal);
    st.add_edge(current, cond_block, EdgeKind::Normal);
    add_loop_header_stmt(st, cond_block, node);
    let transfers = ctx.implicit_exception_transfers(cond_block);
    st.add_edge(cond_block, body_block, EdgeKind::ConditionalTrue);
    st.add_edge(cond_block, after_block, EdgeKind::LoopExit);
    let inner = ctx.in_loop(cond_block, after_block);
    let body_flow = walk_part(env, &inner, st, node, Selection::Body, Some(body_block));
    if let Some(body_end) = body_flow.normal {
        st.add_edge(body_end, cond_block, EdgeKind::LoopBack);
    }
    let rest = settle_loop(st, &body_flow.transfers, after_block, cond_block, transfers);
    Flow { normal: Some(after_block), transfers: rest }
}

fn add_repeat_header_stmts(st: &mut State, block: BlockId, node: &SyntaxNode)
    ensures
        final(st)@ == repeat_header(old(st)@, block, *node),
{
    if let Some(k) = node.child_of_kind("kRepeat") {
        st.add_span(block, node.children[k].start, node.children[k].end, node.kind.as_str());
    }
    if let Some(k) = node.child_by_field("condition") {
        st.add_stmt_ref(block, &node.children[k]);
    }
}

fn handle_repeat(env: &Env, ctx: &Context, st: &mut State, node: &SyntaxNode, current: BlockId) -> (r:
    Flow)
    ensures
        (final(st)@, r@) == repeat_loop(env@, ctx@, old(st)@, *node, current),
    decreases *node, 7int,
{
    let body_block = st.new_block(BasicBlockKind::Normal);
    let cond_block = st.new_block(BasicBlockKind::Normal);
    let after_block = st.new_block(BasicBlockKind::Normal);
    st.add_edge(current, body_block, EdgeKind::Normal);
    let inner = ctx.in_loop(cond_block, after_block);
    let body_flow = walk_part(env, &inner, st, node, Selection::Body, Some(body_block));
    if let Some(body_end) = body_flow.normal {
        st.add_edge(body_end, cond_block, EdgeKind::Normal);
    }
    let transfers = ctx.implicit_exception_transfers(cond_block);
    let rest = settle_loop(st, &body_flow.transfers, after_block, cond_block, transfers);
    add_repeat_header_stmts(st, cond_block, node);
    st.add_edge(cond_block, body_block, EdgeKind::LoopBack);
    st.add_edge(cond_block, after_block, EdgeKind::LoopExit);
    Flow { normal: Some(after_block), transfers: rest }
}

fn find_case_selector(node: &SyntaxNode) -> (r: Option<usize>)
    ensures
        crate::syntax::index_of(r) == case_selector(*node, 0),
        r matches Some(k) ==> k < node.children@.len(),
{
    let mut i: usize = 0;
    while i < node.children.len()
        invariant
            i <= node.children@.len(),
            case_selector(*node, 0) == case_selector(*node, i as int),
        decreases node.children@.len() - i,
    {
        let child = &node.children[i];
        if child.named && !child.extra && !(child.is_kind("caseCase") || child.is_kind("kCase")
            || child.is_kind("kOf") || child.is_kind("kElse") || child.is_kind("kOtherwise")
            || child.is_kind("kEnd")) {
            return Some(i);
        }
        i = i + 1;
    }
    None
}

fn has_default_arm(node: &SyntaxNode) -> (r: bool)
    ensures
        r == default_before(*node, node.children@.len() as int),
{
    let mut found: bool = false;
    let mut i: usize = 0;
    while i < node.children.len()
        invariant
            i <= node.children@.len(),
            found == default_before(*node, i as int),
        decreases node.children@.len() - i,
    {
        if node.children[i].is_kind("kElse") || node.children[i].is_kind("kOtherwise") {
            found = true;
        }
        i = i + 1;
    }
    found
}

fn handle_case(env: &Env, ctx: &Context, st: &mut State, node: &SyntaxNode, current: BlockId) -> (r:
    Flow)
    ensures
        (final(st)@, r@) == case_statement(env@, ctx@, old(st)@, *node, current),
    decreases *node, 7int,
{
    let selector_block = ctx.prepare_statement_block(st, current);
    if let Some(k) = find_case_selector(node) {
        st.add_span(selector_block, node.start, node.children[k].end, node.kind.as_str());
    }
    let mut transfers = ctx.implicit_exception_transfers(selector_block);
    let mut ends: Vec<BlockId> = Vec::new();
    let ghost s1 = st@;
    let ghost t1 = transfer_models(transfers@);
    assert(ends@ =~= Seq::<BlockId>::empty());
    let mut i: usize = 0;
    while i < node.children.len()
        invariant
            i <= node.children@.len(),
            case_arms(
                env@,
                ctx@,
                st@,
                *node,
                selector_block,
                i as int,
                ends@,
                transfer_models(transfers@),
            ) == case_arms(env@, ctx@, s1, *node, selector_block, 0, Seq::empty(), t1),
        decreases node.children@.len() - i,
    {
        let arm = &node.children[i];
        if arm.named && arm.is_kind("caseCase") {
            let arm_block = st.new_block(BasicBlockKind::Normal);
            st.add_edge(selector_block, arm_block, EdgeKind::CaseArm);
            let arm_flow = walk_part(env, ctx, st, arm, Selection::Body, Some(arm_block));
            if let Some(arm_end) = arm_flow.normal {
                ends.push(arm_end);
            }
            append_transfers(&mut transfers, arm_flow.transfers);
        }
        i = i + 1;
    }
    if has_default_arm(node) {
        let default_block = st.new_block(BasicBlockKind::Normal);
        st.add_edge(selector_block, default_block, EdgeKind::CaseArm);
        let default_flow = walk_part(
            env,
            ctx,
            st,
            node,
            Selection::CaseDefault,
            Some(default_block),
        );
        if let Some(default_end) = default_flow.normal {
            ends.push(default_end);
        }
        append_transfers(&mut transfers, default_flow.transfers);
        if ends.len() == 0 {
            return Flow { normal: None, transfers };
        }
        let after_block = st.new_block(BasicBlockKind::Normal);
        st.add_edges(&ends, after_block, EdgeKind::Normal);
        return Flow { normal: Some(after_block), transfers };
    }
    let after_block = st.new_block(BasicBlockKind::Normal);
    st.add_edges(&ends, after_block, EdgeKind::Normal);
    st.add_edge(selector_block, after_block, EdgeKind::CaseArm);
    Flow { normal: Some(after_block), transfers }
}

fn last_child_under(node: &SyntaxNode, field: &str) -> (r: Option<usize>)
    ensures
        crate::syntax::index_of(r) == last_under(*node, field@, node.children@.len() as int),
        r matches Some(k) ==> k < node.children@.len(),
{
    let mut n: usize = node.children.len();
    while n > 0
        invariant
            n <= node.children@.len(),
            last_under(*node, field@, node.children@.len() as int) == last_under(
                *node,
                field@,
                n as int,
            ),
        decreases n,
    {
        if node.children[n - 1].is_field(field) {
            return Some(n - 1);
        }
        n = n - 1;
    }
    None
}

fn handle_with(env: &Env, ctx: &Context, st: &mut State, node: &SyntaxNode, current: BlockId) -> (r:
    Flow)
    ensures
        (final(st)@, r@) == with_statement(env@, ctx@, old(st)@, *node, current),
    decreases *node, 7int,
{
    let context_block = ctx.prepare_statement_block(st, current);
    if let Some(k) = last_child_under(node, "entity") {
        st.add_span(context_block, node.start, node.children[k].end, node.kind.as_str());
    }
    let mut transfers = ctx.implicit_exception_transfers(context_block);
    let body_block = st.new_block(BasicBlockKind::Normal);
    st.add_edge(context_block, body_block, EdgeKind::Normal);
    let body_flow = walk_part(env, ctx, st, node, Selection::Body, Some(body_block));
    let normal = join_branch_flows(st, body_flow.normal, None);
    append_transfers(&mut transfers, body_flow.transfers);
    Flow { normal, transfers }
}

fn walk_labeled_statement(
    env: &Env,
    ctx: &Context,
    st: &mut State,
    node: &SyntaxNode,
    current: BlockId,
) -> (r: Flow)
    ensures
        (final(st)@, r@) == labelled_statement(
            env@,
            ctx@,
            old(st)@,
            *node,
            0,
            Some(current),
            Seq::empty(),
        ),
    decreases *node, 3int,
{
    let mut at = Some(current);
    let mut transfers: Vec<PendingTransfer> = Vec::new();
    assert(transfer_models(transfers@) =~= Seq::<TransferModel>::empty());
    let mut i: usize = 0;
    while i < node.children.len()
        invariant
            i <= node.children@.len(),
            labelled_statement(
                env@,
                ctx@,
                st@,
                *node,
                i as int,
                at,
                transfer_models(transfers@),
            ) == labelled_statement(
                env@,
                ctx@,
                old(st)@,
                *node,
                0,
                Some(current),
                Seq::empty(),
            ),
        decreases node.children@.len() - i,
    {
        let child = &node.children[i];
        if let Some(block) = at {
            if child.named {
                if child.is_kind("label") {
                    at = Some(register_label(env, ctx, st, child, block));
                } else {
                    let flow = process_single_stmt(env, ctx, st, child, block);
                    at = flow.normal;
                    append_transfers(&mut transfers, flow.transfers);
                }
            }
        }
        i = i + 1;
    }
    Flow { normal: at, transfers }
}

fn find_branch_binding(branches: &Vec<BranchEntry>, start: usize, end: usize, branch: usize) -> (r:
    Option<usize>)
    ensures
        r == branch_binding(branches@, start, end, branch, branches@.len() as int),
{
    let mut n: usize = branches.len();
    while n > 0
        invariant
            n <= branches@.len(),
            branch_binding(branches@, start, end, branch, branches@.len() as int)
                == branch_binding(branches@, start, end, branch, n as int),
        decreases n,
    {
        let e = branches[n - 1];
        if e.start == start && e.end == end && e.branch == branch {
            return Some(e.binding);
        }
        n = n - 1;
    }
    None
}

fn handle_preprocessor_block(
    env: &Env,
    ctx: &Context,
    st: &mut State,
    node: &SyntaxNode,
    current: BlockId,
) -> (r: Flow)
    ensures
        (final(st)@, r@) == conditional_block(env@, ctx@, old(st)@, *node, current),
    decreases *node, 7int,
{
    let branches = preprocessor_branches(node, env.source);
    if branches.hollow {
        return Flow::ending(current);
    }
    let mut ends: Vec<BlockId> = Vec::new();
    let mut transfers: Vec<PendingTransfer> = Vec::new();
    assert(ends@ =~= Seq::<BlockId>::empty());
    assert(transfer_models(transfers@) =~= Seq::<TransferModel>::empty());
    let ghost all = conditional_branches(
        env@,
        ctx@,
        st@,
        *node,
        current,
        0,
        Seq::empty(),
        Seq::empty(),
    );
    let mut b: usize = 0;
    let mut done: bool = false;
    while !done
        invariant
            b <= branches.last,
            branches.last == crate::labels::last_branch(*node),
            !done ==> conditional_branches(
                env@,
                ctx@,
                st@,
                *node,
                current,
                b as int,
                ends@,
                transfer_models(transfers@),
            ) == all,
            done ==> (st@, ends@, transfer_models(transfers@)) == all,
        decreases branches.last - b + if done { 0int } else { 1int },
    {
        let branch_entry = st.new_block(BasicBlockKind::Normal);
        st.add_edge(
            current,
            branch_entry,
            if b == 0 {
                EdgeKind::ConditionalTrue
            } else {
                EdgeKind::ConditionalFalse
            },
        );
        let binding = match find_branch_binding(&env.branches, node.start, node.end, b) {
            Some(own) => own,
            None => ctx.binding,
        };
        let inner = ctx.in_branch(binding);
        let flow = walk_part(env, &inner, st, node, Selection::Branch(b), Some(branch_entry));
        if let Some(branch_end) = flow.normal {
            ends.push(branch_end);
        }
        append_transfers(&mut transfers, flow.transfers);
        if b == branches.last {
            assert(conditional_branches(
                env@,
                ctx@,
                st@,
                *node,
                current,
                b + 1,
                ends@,
                transfer_models(transfers@),
            ) == (st@, ends@, transfer_models(transfers@)));
            done = true;
        } else {
            b = b + 1;
        }
    }
    if ends.len() == 0 && branches.has_else {
        return Flow { normal: None, transfers };
    }
    let join = st.new_block(BasicBlockKind::Normal);
    st.add_edges(&ends, join, EdgeKind::Normal);
    if !branches.has_else {
        st.add_edge(current, join, EdgeKind::ConditionalFalse);
    }
    Flow { normal: Some(join), transfers }
}

fn walk_try_body(env: &Env, ctx: &Context, st: &mut State, node: &SyntaxNode, current: BlockId) -> (r:
    Flow)
    ensures
        (final(st)@, r@) == try_body(env@, ctx@, old(st)@, *node, current),
    decreases *node, 2int,
{
    match node.child_by_field_of_kind("try", "statements") {
        Some(k) => {
            let protected_entry = st.new_block(BasicBlockKind::Normal);
            st.add_edge(current, protected_entry, EdgeKind::Normal);
            walk_part(
                env,
                ctx,
                st,
                &node.children[k],
                Selection::Statements,
                Some(protected_entry),
            )
        },
        None => Flow::ending(current),
    }
}

// Finalizers -----------------------------------------------------------------------------------------

/// The flows that enter a finalizer with the same continuation.
#[derive(Debug)]
struct FinalizerGroup {
    key: Option<ContinuationKey>,
    entries: Vec<(BlockId, EdgeKind)>,
    first: Option<PendingTransfer>,
}

impl View for FinalizerGroup {
    type V = GroupModel;

    closed spec fn view(&self) -> GroupModel {
        GroupModel {
            key: opt_key(self.key),
            entries: self.entries@,
            first: match self.first {
                Some(t) => Some(t@),
                None => None,
            },
        }
    }
}

spec fn group_models(v: Seq<FinalizerGroup>) -> Seq<GroupModel> {
    v.map_values(|g: FinalizerGroup| g@)
}

fn find_scope_number(scope_ids: &Vec<(usize, usize)>, start: usize, end: usize) -> (r: usize)
    ensures
        r == scope_number(scope_ids@, start, end, scope_ids@.len() as int),
{
    let mut n: usize = scope_ids.len();
    while n > 0
        invariant
            n <= scope_ids@.len(),
            scope_number(scope_ids@, start, end, scope_ids@.len() as int) == scope_number(
                scope_ids@,
                start,
                end,
                n as int,
            ),
        decreases n,
    {
        if scope_ids[n - 1].0 == start && scope_ids[n - 1].1 == end {
            return n - 1;
        }
        n = n - 1;
    }
    scope_ids.len()
}

fn find_group(groups: &Vec<FinalizerGroup>, key: &Option<ContinuationKey>) -> (r: Option<usize>)
    ensures
        crate::syntax::index_of(r) == group_with(group_models(groups@), opt_key(*key), 0),
        r matches Some(k) ==> k < groups@.len(),
{
    let mut i: usize = 0;
    while i < groups.len()
        invariant
            i <= groups@.len(),
            group_models(groups@).len() == groups@.len(),
            group_with(group_models(groups@), opt_key(*key), 0) == group_with(
                group_models(groups@),
                opt_key(*key),
                i as int,
            ),
        decreases groups@.len() - i,
    {
        assert(group_models(groups@)[i as int] == groups@[i as int]@);
        if same_key(&groups[i].key, key) {
            return Some(i);
        }
        i = i + 1;
    }
    None
}

fn add_to_groups(groups: &mut Vec<FinalizerGroup>, t: &PendingTransfer)
    ensures
        group_models(final(groups)@) == grouped(group_models(old(groups)@), t@),
{
    let key = Some(t.key());
    let edge = if t.kind == TransferKind::Exception {
        EdgeKind::ExceptionThrow
    } else {
        EdgeKind::FinallyEntry
    };
    let ghost before = group_models(groups@);
    match find_group(groups, &key) {
        Some(k) => {
            let ghost old_group = groups@[k as int]@;
            assert(before[k as int] == old_group);
            groups[k].entries.push((t.source, edge));
            assert(groups@[k as int]@ =~= GroupModel {
                entries: old_group.entries.push((t.source, edge)),
                ..old_group
            });
            assert(group_models(groups@) =~= grouped(before, t@));
        },
        None => {
            let mut entries: Vec<(BlockId, EdgeKind)> = Vec::new();
            entries.push((t.source, edge));
            assert(entries@ =~= seq![(t.source, edge)]);
            let group = FinalizerGroup { key, entries, first: Some(t.copy()) };
            groups.push(group);
            assert(group@ =~= GroupModel {
                key: Some(t@.key()),
                entries: seq![(t.source, entry_edge(t@))],
                first: Some(t@),
            });
            assert(group_models(groups@) =~= before.push(group@));
        },
    }
}

fn group_inputs(normal: Option<BlockId>, transfers: &Vec<PendingTransfer>, scope: usize) -> (r: Vec<
    FinalizerGroup,
>)
    ensures
        group_models(r@) == groups_of(
            normal,
            transfer_models(transfers@),
            scope,
            transfers@.len() as int,
        ),
{
    let ghost all = transfer_models(transfers@);
    let mut groups: Vec<FinalizerGroup> = Vec::new();
    if let Some(b) = normal {
        let mut entries: Vec<(BlockId, EdgeKind)> = Vec::new();
        entries.push((b, EdgeKind::FinallyEntry));
        assert(entries@ =~= seq![(b, EdgeKind::FinallyEntry)]);
        let group = FinalizerGroup { key: None, entries, first: None };
        groups.push(group);
        assert(group@ =~= GroupModel {
            key: None,
            entries: seq![(b, EdgeKind::FinallyEntry)],
            first: None,
        });
        assert(group_models(groups@) =~= seq![group@]);
    } else {
        assert(group_models(groups@) =~= Seq::<GroupModel>::empty());
    }
    let mut i: usize = 0;
    while i < transfers.len()
        invariant
            i <= transfers@.len(),
            all == transfer_models(transfers@),
            all.len() == transfers@.len(),
            group_models(groups@) == groups_of(normal, all, scope, i as int),
        decreases transfers@.len() - i,
    {
        let t = &transfers[i];
        assert(all[i as int] == t@);
        if t.leaves_scope(scope) {
            add_to_groups(&mut groups, t);
        }
        i = i + 1;
    }
    groups
}

fn transfers_staying(transfers: &Vec<PendingTransfer>, scope: usize) -> (r: Vec<PendingTransfer>)
    ensures
        transfer_models(r@) == staying(
            transfer_models(transfers@),
            scope,
            transfers@.len() as int,
        ),
{
    let ghost all = transfer_models(transfers@);
    let mut out: Vec<PendingTransfer> = Vec::new();
    assert(transfer_models(out@) =~= Seq::<TransferModel>::empty());
    let mut i: usize = 0;
    while i < transfers.len()
        invariant
            i <= transfers@.len(),
            all == transfer_models(transfers@),
            all.len() == transfers@.len(),
            transfer_models(out@) == staying(all, scope, i as int),
        decreases transfers@.len() - i,
    {
        let t = &transfers[i];
        assert(all[i as int] == t@);
        if !t.leaves_scope(scope) {
            push_transfer(&mut out, t.copy());
        }
        i = i + 1;
    }
    out
}

fn node_contains_goto(node: &SyntaxNode) -> (r: bool)
    ensures
        r == holds_goto(*node),
    decreases *node,
{
    if node.is_kind("goto") {
        return true;
    }
    let mut i: usize = 0;
    while i < node.children.len()
        invariant
            i <= node.children@.len(),
            child_holds_goto(*node, 0) == child_holds_goto(*node, i as int),
        decreases node.children@.len() - i,
    {
        if node.children[i].named && node_contains_goto(&node.children[i]) {
            assert(child_holds_goto(*node, i as int));
            return true;
        }
        i = i + 1;
    }
    false
}

fn finally_body_contains_goto(node: &SyntaxNode) -> (r: bool)
    ensures
        r == finalizer_holds_goto(*node, 0),
{
    let mut i: usize = 0;
    while i < node.children.len()
        invariant
            i <= node.children@.len(),
            finalizer_holds_goto(*node, 0) == finalizer_holds_goto(*node, i as int),
        decreases node.children@.len() - i,
    {
        if node.children[i].is_field("finally") && node_contains_goto(&node.children[i]) {
            assert(finalizer_holds_goto(*node, i as int));
            return true;
        }
        i = i + 1;
    }
    false
}

impl FinalizerCacheKey {
    fn of(ctx: &Context, node: &SyntaxNode, scope: usize, key: &Option<ContinuationKey>) -> (r:
        FinalizerCacheKey)
        ensures
            r@ == body_key(ctx@, *node, scope, opt_key(*key)),
    {
        let r = FinalizerCacheKey {
            start: node.start,
            end: node.end,
            scope,
            continuation: copy_key(key),
            caller: if key.is_none() {
                ctx.continuation
            } else {
                None
            },
            scopes: copy_ids(&ctx.scopes),
            loops: copy_frames(&ctx.loops),
            dispatches: copy_ids(&ctx.dispatches),
            depth: ctx.regions.len(),
            handled: copy_facts(&ctx.handled),
            binding: if finally_body_contains_goto(node) {
                Some(ctx.binding)
            } else {
                None
            },
        };
        assert(r@ =~= body_key(ctx@, *node, scope, opt_key(*key)));
        r
    }

    fn same(&self, other: &FinalizerCacheKey) -> (r: bool)
        ensures
            r == (self@ == other@),
    {
        let r = self.start == other.start && self.end == other.end && self.scope == other.scope
            && self.caller == other.caller && self.depth == other.depth && self.binding
            == other.binding && same_key(&self.continuation, &other.continuation) && same_ids(
            &self.scopes,
            &other.scopes,
        ) && same_frames(&self.loops, &other.loops) && same_ids(
            &self.dispatches,
            &other.dispatches,
        ) && same_facts(&self.handled, &other.handled);
        assert(r ==> self@ =~= other@);
        r
    }
}

impl Resumption {
    fn same(&self, other: &Resumption) -> (r: bool)
        ensures
            r == (self@ == other@),
    {
        let r = self.start == other.start && self.end == other.end && self.scope == other.scope
            && self.caller == other.caller && same_key(&self.local, &other.local) && same_key(
            &self.suspended,
            &other.suspended,
        ) && same_facts(&self.handled, &other.handled);
        assert(r ==> self@ =~= other@);
        r
    }
}

fn suspended_transfer(ctx: &Context, key: &Option<ContinuationKey>) -> (r: Option<ContinuationKey>)
    ensures
        opt_key(r) == waiting(ctx@, opt_key(*key)),
{
    if key.is_some() {
        copy_key(key)
    } else {
        copy_key(&ctx.suspended)
    }
}

impl State {
    /// The number of a continuation, entered if it is new.
    fn number_resumption(&mut self, r: Resumption) -> (n: usize)
        ensures
            (final(self)@, n) == (match return_number(old(self)@.resumptions, r@, 0) {
                Some(k) => (old(self)@, k as usize),
                None => (
                    StateModel { resumptions: old(self)@.resumptions.push(r@), ..old(self)@ },
                    old(self)@.resumptions.len() as usize,
                ),
            }),
    {
        let mut i: usize = 0;
        while i < self.resumptions.len()
            invariant
                self@ == old(self)@,
                i <= self.resumptions@.len(),
                self@.resumptions.len() == self.resumptions@.len(),
                return_number(self@.resumptions, r@, 0) == return_number(
                    self@.resumptions,
                    r@,
                    i as int,
                ),
            decreases self.resumptions@.len() - i,
        {
            assert(self@.resumptions[i as int] == self.resumptions@[i as int]@);
            if self.resumptions[i].same(&r) {
                return i;
            }
            i = i + 1;
        }
        let n: usize = self.resumptions.len();
        self.resumptions.push(r);
        assert(self@.resumptions =~= old(self)@.resumptions.push(r@));
        assert(self@ =~= StateModel {
            resumptions: old(self)@.resumptions.push(r@),
            ..old(self)@
        });
        n
    }

    fn find_cached(&self, key: &FinalizerCacheKey) -> (r: Option<usize>)
        ensures
            crate::syntax::index_of(r) == cached(self@.cache, key@, 0),
            r matches Some(k) ==> k < self.cache@.len(),
    {
        let mut i: usize = 0;
        while i < self.cache.len()
            invariant
                i <= self.cache@.len(),
                self@.cache.len() == self.cache@.len(),
                cached(self@.cache, key@, 0) == cached(self@.cache, key@, i as int),
            decreases self.cache@.len() - i,
        {
            assert(self@.cache[i as int] == self.cache@[i as int]@);
            if self.cache[i].key.same(key) {
                return Some(i);
            }
            i = i + 1;
        }
        None
    }

    fn add_namespace(&mut self, parent: usize) -> (r: usize)
        ensures
            final(self)@ == (StateModel {
                parents: old(self)@.parents.push(Some(parent)),
                ..old(self)@
            }),
            r == old(self)@.parents.len() as usize,
    {
        let binding: usize = self.parents.len();
        self.parents.push(Some(parent));
        assert(self@ =~= StateModel {
            parents: old(self)@.parents.push(Some(parent)),
            ..old(self)@
        });
        binding
    }

    fn remember(&mut self, key: FinalizerCacheKey, entry: BlockId, flow: &Flow)
        ensures
            final(self)@ == (StateModel {
                cache: old(self)@.cache.push((CachedModel { key: key@, entry, flow: flow@ })),
                ..old(self)@
            }),
    {
        let body = CachedFinalizerBody { key, entry, flow: flow.copy() };
        self.cache.push(body);
        assert(self@.cache =~= old(self)@.cache.push(body@));
        assert(self@ =~= StateModel { cache: old(self)@.cache.push(body@), ..old(self)@ });
    }
}

fn walk_or_reuse_finally_body(
    env: &Env,
    ctx: &Context,
    st: &mut State,
    node: &SyntaxNode,
    scope: usize,
    key: &Option<ContinuationKey>,
) -> (r: (BlockId, Flow))
    ensures
        (final(st)@, r.0, r.1@) == finally_body(
            env@,
            ctx@,
            old(st)@,
            *node,
            scope,
            opt_key(*key),
        ),
    decreases *node, 3int,
{
    let cache_key = FinalizerCacheKey::of(ctx, node, scope, key);
    let resumption = Resumption {
        start: node.start,
        end: node.end,
        scope,
        local: copy_key(key),
        suspended: suspended_transfer(ctx, key),
        caller: ctx.continuation,
        handled: copy_facts(&ctx.handled),
    };
    assert(resumption@ =~= body_return(ctx@, *node, scope, opt_key(*key)));
    let number = st.number_resumption(resumption);
    if let Some(k) = st.find_cached(&cache_key) {
        assert(st@.cache[k as int] == st.cache@[k as int]@);
        return (st.cache[k].entry, st.cache[k].flow.copy());
    }
    let entry = st.new_block(BasicBlockKind::FinallyHandler);
    let binding = st.add_namespace(ctx.binding);
    let inner = ctx.in_finalizer(binding, number, suspended_transfer(ctx, key));
    let flow = match node.child_by_field_of_kind("finally", "statements") {
        Some(k) => walk_part(
            env,
            &inner,
            st,
            &node.children[k],
            Selection::Statements,
            Some(entry),
        ),
        None => Flow::ending(entry),
    };
    st.remember(cache_key, entry, &flow);
    (entry, flow)
}

fn enter_finalizer(st: &mut State, entries: &Vec<(BlockId, EdgeKind)>, target: BlockId)
    ensures
        final(st)@ == entered(old(st)@, entries@, 0, target),
{
    let mut i: usize = 0;
    while i < entries.len()
        invariant
            i <= entries@.len(),
            entered(st@, entries@, i as int, target) == entered(old(st)@, entries@, 0, target),
        decreases entries@.len() - i,
    {
        st.add_edge(entries[i].0, target, entries[i].1);
        i = i + 1;
    }
}

fn superseding_transfers(transfers: &Vec<PendingTransfer>) -> (r: Vec<PendingTransfer>)
    ensures
        transfer_models(r@) == superseding(transfer_models(transfers@)),
{
    let ghost all = transfer_models(transfers@);
    let mut out: Vec<PendingTransfer> = Vec::new();
    let mut i: usize = 0;
    assert(transfer_models(out@) =~= superseding(all.take(0)));
    while i < transfers.len()
        invariant
            i <= transfers@.len(),
            all == transfer_models(transfers@),
            all.len() == transfers@.len(),
            transfer_models(out@) == superseding(all.take(i as int)),
        decreases transfers@.len() - i,
    {
        let t = &transfers[i];
        assert(all[i as int] == t@);
        push_transfer(&mut out, t.with_source(t.source));
        i = i + 1;
        assert(transfer_models(out@) =~= superseding(all.take(i as int)));
    }
    assert(all.take(i as int) =~= all);
    out
}

fn handle_try_finally(env: &Env, ctx: &Context, st: &mut State, node: &SyntaxNode, current: BlockId) -> (r:
    Flow)
    ensures
        (final(st)@, r@) == try_finally(env@, ctx@, old(st)@, *node, current),
    decreases *node, 5int,
{
    let scope = find_scope_number(&env.scope_ids, node.start, node.end);
    let inner = ctx.in_cleanup(scope);
    let try_flow = walk_try_body(env, &inner, st, node, current);
    let transfers = dedup_transfers(&try_flow.transfers);
    let ghost leaving = transfer_models(transfers@);
    assert(leaving.len() == transfers@.len());
    let groups = group_inputs(try_flow.normal, &transfers, scope);
    let mut out = transfers_staying(&transfers, scope);
    let mut normal: Option<BlockId> = None;
    let ghost models = group_models(groups@);
    let ghost s1 = st@;
    let ghost first = transfer_models(out@);
    let mut i: usize = 0;
    while i < groups.len()
        invariant
            i <= groups@.len(),
            models == group_models(groups@),
            models.len() == groups@.len(),
            finalize(
                env@,
                ctx@,
                st@,
                *node,
                scope,
                models,
                i as int,
                normal,
                transfer_models(out@),
            ) == finalize(env@, ctx@, s1, *node, scope, models, 0, None, first),
        decreases groups@.len() - i,
    {
        let group = &groups[i];
        assert(models[i as int] == group@);
        let (entry, flow) = walk_or_reuse_finally_body(env, ctx, st, node, scope, &group.key);
        enter_finalizer(st, &group.entries, entry);
        if let Some(finally_end) = flow.normal {
            if group.key.is_none() {
                let after_block = st.new_block(BasicBlockKind::Normal);
                st.add_edge(finally_end, after_block, EdgeKind::FinallyExit);
                normal = Some(after_block);
            } else if let Some(t) = &group.first {
                push_transfer(&mut out, t.with_source(finally_end));
            }
        }
        append_transfers(&mut out, superseding_transfers(&flow.transfers));
        i = i + 1;
    }
    let transfers = dedup_transfers(&out);
    Flow { normal, transfers }
}

// Handlers --------------------------------------------------------------------------------------------

/// A handler body and the block at which it starts.
#[derive(Debug)]
struct HandlerFlow {
    entry: BlockId,
    catch_all: bool,
    fact: ExceptionTypeFact,
    flow: Flow,
}

impl View for HandlerFlow {
    type V = HandlerModel;

    closed spec fn view(&self) -> HandlerModel {
        HandlerModel {
            entry: self.entry,
            catch_all: self.catch_all,
            fact: self.fact,
            flow: self.flow@,
        }
    }
}

spec fn handler_models(v: Seq<HandlerFlow>) -> Seq<HandlerModel> {
    v.map_values(|h: HandlerFlow| h@)
}

fn add_handler(handlers: &mut Vec<HandlerFlow>, handler: HandlerFlow)
    ensures
        handler_models(final(handlers)@) == handler_models(old(handlers)@).push(handler@),
{
    handlers.push(handler);
    assert(handler_models(handlers@) =~= handler_models(old(handlers)@).push(handler@));
}

fn build_except_handlers(
    env: &Env,
    ctx: &Context,
    st: &mut State,
    node: &SyntaxNode,
    incoming: &Vec<ExceptionTypeFact>,
) -> (r: Vec<HandlerFlow>)
    ensures
        (final(st)@, handler_models(r@)) == all_handlers(
            env@,
            ctx@,
            old(st)@,
            *node,
            incoming@,
        ),
    decreases *node, 4int,
{
    let mut handlers: Vec<HandlerFlow> = Vec::new();
    assert(handler_models(handlers@) =~= Seq::<HandlerModel>::empty());
    let mut i: usize = 0;
    while i < node.children.len()
        invariant
            i <= node.children@.len(),
            handlers_from(
                env@,
                ctx@,
                st@,
                *node,
                incoming@,
                i as int,
                handler_models(handlers@),
            ) == handlers_from(env@, ctx@, old(st)@, *node, incoming@, 0, Seq::empty()),
        decreases node.children@.len() - i,
    {
        let child = &node.children[i];
        if child.is_field("except") {
            if child.is_kind("exceptionHandler") {
                let entry = st.new_block(BasicBlockKind::ExceptHandler);
                let fact = env.types.handler_fact(env.unit, child, env.source);
                let inner = ctx.in_handler(env.types.handler_context(fact, incoming));
                let flow = walk_part(env, &inner, st, child, Selection::Body, Some(entry));
                add_handler(&mut handlers, HandlerFlow { entry, catch_all: false, fact, flow });
            } else if child.is_kind("exceptionElse") || child.is_kind("statements") {
                let entry = st.new_block(BasicBlockKind::BareExceptHandler);
                let inner = ctx.in_handler(ExceptionTypeFact::Unknown);
                let sel = if child.is_kind("exceptionElse") {
                    Selection::ExceptElse
                } else {
                    Selection::Statements
                };
                let flow = walk_part(env, &inner, st, child, sel, Some(entry));
                add_handler(
                    &mut handlers,
                    HandlerFlow {
                        entry,
                        catch_all: true,
                        fact: ExceptionTypeFact::Unknown,
                        flow,
                    },
                );
            }
        }
        i = i + 1;
    }
    assert(handler_models(handlers@).len() == handlers@.len());
    if handlers.len() == 0 {
        let entry = st.new_block(BasicBlockKind::BareExceptHandler);
        add_handler(
            &mut handlers,
            HandlerFlow {
                entry,
                catch_all: true,
                fact: ExceptionTypeFact::Unknown,
                flow: Flow::ending(entry),
            },
        );
        assert(handler_models(handlers@) =~= seq![
            HandlerModel {
                entry,
                catch_all: true,
                fact: ExceptionTypeFact::Unknown,
                flow: ending(entry),
            },
        ]);
    }
    handlers
}

fn split_exceptions(transfers: &Vec<PendingTransfer>, wanted: bool) -> (r: Vec<PendingTransfer>)
    ensures
        transfer_models(r@) == exceptions_of(
            transfer_models(transfers@),
            wanted,
            transfers@.len() as int,
        ),
{
    let ghost all = transfer_models(transfers@);
    let mut out: Vec<PendingTransfer> = Vec::new();
    assert(transfer_models(out@) =~= Seq::<TransferModel>::empty());
    let mut i: usize = 0;
    while i < transfers.len()
        invariant
            i <= transfers@.len(),
            all == transfer_models(transfers@),
            all.len() == transfers@.len(),
            transfer_models(out@) == exceptions_of(all, wanted, i as int),
        decreases transfers@.len() - i,
    {
        let t = &transfers[i];
        assert(all[i as int] == t@);
        if (t.kind == TransferKind::Exception) == wanted {
            push_transfer(&mut out, t.copy());
        }
        i = i + 1;
    }
    out
}

fn transfer_fact(t: &PendingTransfer) -> (r: ExceptionTypeFact)
    ensures
        r == fact_of(t@),
{
    match t.exception_fact {
        Some(fact) => fact,
        None => ExceptionTypeFact::Unknown,
    }
}

fn transfer_facts(transfers: &Vec<PendingTransfer>) -> (r: Vec<ExceptionTypeFact>)
    ensures
        r@ == facts_of(transfer_models(transfers@)),
{
    let ghost all = transfer_models(transfers@);
    let mut out: Vec<ExceptionTypeFact> = Vec::new();
    let mut i: usize = 0;
    while i < transfers.len()
        invariant
            i <= transfers@.len(),
            all == transfer_models(transfers@),
            all.len() == transfers@.len(),
            out@ == facts_of(all).take(i as int),
        decreases transfers@.len() - i,
    {
        assert(all[i as int] == transfers@[i as int]@);
        out.push(transfer_fact(&transfers[i]));
        i = i + 1;
        assert(facts_of(all).take(i as int) =~= facts_of(all).take(i as int - 1).push(
            facts_of(all)[i as int - 1],
        ));
    }
    assert(facts_of(all).take(i as int) =~= facts_of(all));
    out
}

fn dispatch_exception(
    env: &Env,
    st: &mut State,
    t: &PendingTransfer,
    handlers: &Vec<HandlerFlow>,
) -> (r: bool)
    ensures
        (final(st)@, r) == dispatch(
            env@.types,
            old(st)@,
            t@,
            handler_models(handlers@),
            0,
        ),
{
    let ghost models = handler_models(handlers@);
    let mut h: usize = 0;
    while h < handlers.len()
        invariant
            h <= handlers@.len(),
            models == handler_models(handlers@),
            models.len() == handlers@.len(),
            dispatch(env@.types, st@, t@, models, h as int) == dispatch(
                env@.types,
                old(st)@,
                t@,
                models,
                0,
            ),
        decreases handlers@.len() - h,
    {
        let handler = &handlers[h];
        assert(models[h as int] == handler@);
        if handler.catch_all {
            st.add_edge(t.source, handler.entry, EdgeKind::ExceptionThrow);
            return false;
        }
        match env.types.match_handler(transfer_fact(t), handler.fact) {
            TypeMatch::Yes => {
                st.add_edge(t.source, handler.entry, EdgeKind::ExceptionThrow);
                return false;
            },
            TypeMatch::No => {},
            TypeMatch::Unknown => {
                st.add_edge(t.source, handler.entry, EdgeKind::ExceptionThrow);
            },
        }
        h = h + 1;
    }
    true
}

fn handle_try_except(env: &Env, ctx: &Context, st: &mut State, node: &SyntaxNode, current: BlockId) -> (r:
    Flow)
    ensures
        (final(st)@, r@) == try_except(env@, ctx@, old(st)@, *node, current),
    decreases *node, 5int,
{
    let dispatch_id: usize = st.graph.blocks.len();
    let inner = ctx.in_dispatch(dispatch_id);
    assert(st@.graph.blocks.len() == dispatch_id);
    let try_flow = walk_try_body(env, &inner, st, node, current);
    assert(try_flow@.transfers.len() == try_flow.transfers@.len());
    let exceptions = split_exceptions(&try_flow.transfers, true);
    let mut out = split_exceptions(&try_flow.transfers, false);
    let incoming = transfer_facts(&exceptions);
    let handlers = build_except_handlers(env, ctx, st, node, &incoming);
    let ghost models = handler_models(handlers@);
    let ghost sources = transfer_models(exceptions@);
    let ghost s2 = st@;
    let ghost first = transfer_models(out@);
    let mut i: usize = 0;
    while i < exceptions.len()
        invariant
            i <= exceptions@.len(),
            models == handler_models(handlers@),
            sources == transfer_models(exceptions@),
            sources.len() == exceptions@.len(),
            dispatch_all(
                env@.types,
                st@,
                sources,
                models,
                i as int,
                transfer_models(out@),
            ) == dispatch_all(env@.types, s2, sources, models, 0, first),
        decreases exceptions@.len() - i,
    {
        assert(sources[i as int] == exceptions@[i as int]@);
        if dispatch_exception(env, st, &exceptions[i], &handlers) {
            push_transfer(&mut out, exceptions[i].copy());
        }
        i = i + 1;
    }
    let ghost escaped = transfer_models(out@);
    let mut ends: Vec<BlockId> = Vec::new();
    if let Some(try_end) = try_flow.normal {
        ends.push(try_end);
    }
    let ghost start = ends@;
    assert(start =~= match try_flow.normal {
        Some(end) => seq![end],
        None => Seq::empty(),
    });
    let mut h: usize = 0;
    while h < handlers.len()
        invariant
            h <= handlers@.len(),
            models == handler_models(handlers@),
            models.len() == handlers@.len(),
            transfer_models(out@) == handler_transfers(models, escaped, h as int),
            ends@ == handler_ends(models, start, h as int),
        decreases handlers@.len() - h,
    {
        assert(models[h as int] == handlers@[h as int]@);
        if let Some(handler_end) = handlers[h].flow.normal {
            ends.push(handler_end);
        }
        append_transfers(&mut out, handlers[h].flow.copy().transfers);
        h = h + 1;
    }
    if ends.len() == 0 {
        return Flow { normal: None, transfers: out };
    }
    let after_block = st.new_block(BasicBlockKind::Normal);
    st.add_edges(&ends, after_block, EdgeKind::Normal);
    Flow { normal: Some(after_block), transfers: out }
}

// The graph of a scope ----------------------------------------------------------------------------------

fn route_transfer(env: &Env, st: &mut State, t: &PendingTransfer)
    ensures
        final(st)@ == routed(env@, old(st)@, t@),
{
    match t.kind {
        TransferKind::Exception => {
            st.add_edge(t.source, env.exit, EdgeKind::ExceptionThrow);
        },
        TransferKind::Exit => {
            st.add_edge(t.source, env.exit, t.completion_edge());
        },
        TransferKind::Goto => {
            let target = match t.target {
                Some(b) => Some(b),
                None => match (t.target_label_binding, &t.target_label) {
                    (Some(binding), Some(label)) => resolve_label_target(
                        &st.targets,
                        &st.parents,
                        binding,
                        label.as_str(),
                    ),
                    _ => None,
                },
            };
            match target {
                Some(b) => {
                    st.add_edge(t.source, b, t.completion_edge());
                },
                None => {
                    st.add_edge(t.source, env.exit, EdgeKind::Goto);
                },
            }
        },
        _ => {
            if let Some(b) = t.target {
                st.add_edge(t.source, b, t.completion_edge());
            }
        },
    }
}

fn finish_flow(env: &Env, st: &mut State, flow: &Flow)
    ensures
        final(st)@ == finished(env@, old(st)@, flow@),
{
    if let Some(end) = flow.normal {
        st.add_edge(end, env.exit, EdgeKind::Normal);
    }
    let ghost s1 = st@;
    let ghost all = flow@.transfers;
    let mut i: usize = 0;
    while i < flow.transfers.len()
        invariant
            i <= flow.transfers@.len(),
            all == flow@.transfers,
            all.len() == flow.transfers@.len(),
            routed_all(env@, st@, all, i as int) == routed_all(env@, s1, all, 0),
        decreases flow.transfers@.len() - i,
    {
        assert(all[i as int] == flow.transfers@[i as int]@);
        route_transfer(env, st, &flow.transfers[i]);
        i = i + 1;
    }
}

/// Builds the control-flow graph of a scope.
pub(crate) fn build_scope_cfg(
    scope_name: String,
    start: usize,
    end: usize,
    node: &SyntaxNode,
    sel: Selection,
    source: &[u8],
    types: &ExceptionTypeIndex,
    unit: usize,
) -> (r: Cfg)
    ensures
        r@ == scope_cfg(scope_name@, start, end, *node, sel, source@, types@, unit),
{
    let mut graph = Graph::new();
    let entry = graph.new_block(BasicBlockKind::Entry);
    let exit = graph.new_block(BasicBlockKind::Exit);
    let body = graph.new_block(BasicBlockKind::Normal);
    graph.add_edge(entry, body, EdgeKind::Normal);
    assert(graph@ == opening());
    let plan = Plan::build(node, source);
    let env = Env {
        source,
        types,
        unit,
        exit,
        scope_ids: plan.scope_ids,
        labels: plan.labels,
        branches: plan.branches,
    };
    assert(env@ == environment(*node, source@, types@, unit));
    let mut st = State {
        graph,
        parents: plan.parents,
        targets: Vec::new(),
        cache: Vec::new(),
        resumptions: Vec::new(),
    };
    assert(st@ =~= initial(*node, source@));
    let ctx = Context::outermost();
    let flow = walk_part(&env, &ctx, &mut st, node, sel, Some(body));
    finish_flow(&env, &mut st, &flow);
    Cfg { proc_name: scope_name, byte_range: start..end, entry, exit, graph: st.graph }
}

// The graphs of a file ------------------------------------------------------------------------------------

fn dotted_proc_name(node: &SyntaxNode, source: &[u8]) -> (r: Option<String>)
    ensures
        opt_text(r) == dotted_name(*node, source@),
{
    match node.child_of_kind("identifier") {
        Some(a) => {
            let mut name = node.children[a].node_text(source);
            assert(a < node.children.len());
            if let Some(b) = node.child_of_kind_from("identifier", a + 1) {
                name.append(".");
                name.append(node.children[b].node_text(source).as_str());
            }
            Some(name)
        },
        None => None,
    }
}

fn find_proc_header(node: &SyntaxNode) -> (r: Option<usize>)
    ensures
        crate::syntax::index_of(r) == proc_header(*node),
        r matches Some(k) ==> k < node.children@.len(),
{
    match node.child_by_field("header") {
        Some(k) => Some(k),
        None => node.child_of_kind("declProc"),
    }
}

fn extract_proc_name(node: &SyntaxNode, source: &[u8]) -> (r: Option<String>)
    ensures
        opt_text(r) == proc_name(*node, source@),
{
    match find_proc_header(node) {
        Some(h) => {
            let header = &node.children[h];
            if let Some(g) = header.child_of_kind("genericDot") {
                let dotted = dotted_proc_name(&header.children[g], source);
                if dotted.is_some() {
                    return dotted;
                }
            }
            match header.child_by_field("name") {
                Some(k) => Some(header.children[k].node_text(source)),
                None => match header.child_of_kind("identifier") {
                    Some(k) => Some(header.children[k].node_text(source)),
                    None => None,
                },
            }
        },
        None => None,
    }
}

fn extract_full_proc_name(node: &SyntaxNode, source: &[u8]) -> (r: Option<String>)
    ensures
        opt_text(r) == full_proc_name(*node, source@),
{
    match find_proc_header(node) {
        Some(h) => match node.children[h].child_by_field("name") {
            Some(k) => {
                let text = node.children[h].children[k].node_text(source);
                if text.as_str().is_empty() {
                    None
                } else {
                    Some(text)
                }
            },
            None => None,
        },
        None => None,
    }
}

fn qualify(
    node: &SyntaxNode,
    source: &[u8],
    parent: &Option<String>,
    local: &String,
) -> (r: String)
    ensures
        r@ == qualified_name(*node, source@, opt_text(*parent), local@),
{
    let full = match extract_full_proc_name(node, source) {
        Some(text) => text,
        None => local.clone(),
    };
    match parent {
        Some(outer) => {
            let mut name = outer.clone();
            name.append(".");
            name.append(full.as_str());
            name
        },
        None => full,
    }
}

fn append_cfgs(to: &mut Vec<Cfg>, from: Vec<Cfg>)
    ensures
        cfg_models(final(to)@) == cfg_models(old(to)@) + cfg_models(from@),
{
    let mut rest = from;
    to.append(&mut rest);
    assert(cfg_models(to@) =~= cfg_models(old(to)@) + cfg_models(from@));
}

fn one_cfg(cfg: Cfg) -> (r: Vec<Cfg>)
    ensures
        cfg_models(r@) == seq![cfg@],
{
    let mut out: Vec<Cfg> = Vec::new();
    out.push(cfg);
    assert(cfg_models(out@) =~= seq![cfg@]);
    out
}

fn no_cfg() -> (r: Vec<Cfg>)
    ensures
        cfg_models(r@) == Seq::<CfgModel>::empty(),
{
    let out: Vec<Cfg> = Vec::new();
    assert(cfg_models(out@) =~= Seq::<CfgModel>::empty());
    out
}

fn collect_def_proc_cfgs(
    node: &SyntaxNode,
    source: &[u8],
    parent: &Option<String>,
    types: &ExceptionTypeIndex,
    unit: usize,
) -> (r: Vec<Cfg>)
    ensures
        cfg_models(r@) == routines(*node, source@, opt_text(*parent), types@, unit),
    decreases *node, 1int,
{
    if !node.is_kind("defProc") {
        return collect_among(node, false, source, parent, types, unit);
    }
    match extract_proc_name(node, source) {
        None => no_cfg(),
        Some(local) => {
            let qualified = qualify(node, source, parent, &local);
            let mut out = match node.child_by_field("body") {
                Some(k) => {
                    let name = if parent.is_some() {
                        qualified.clone()
                    } else {
                        local
                    };
                    one_cfg(
                        build_scope_cfg(
                            name,
                            node.start,
                            node.end,
                            &node.children[k],
                            Selection::Block,
                            source,
                            types,
                            unit,
                        ),
                    )
                },
                None => no_cfg(),
            };
            let nested = collect_among(node, true, source, &Some(qualified), types, unit);
            append_cfgs(&mut out, nested);
            out
        },
    }
}

fn collect_among(
    node: &SyntaxNode,
    local_only: bool,
    source: &[u8],
    parent: &Option<String>,
    types: &ExceptionTypeIndex,
    unit: usize,
) -> (r: Vec<Cfg>)
    ensures
        cfg_models(r@) == routines_among(
            *node,
            local_only,
            source@,
            opt_text(*parent),
            types@,
            unit,
            0,
        ),
    decreases *node, 0int,
{
    let ghost all = routines_among(
        *node,
        local_only,
        source@,
        opt_text(*parent),
        types@,
        unit,
        0,
    );
    let mut out = no_cfg();
    let mut i: usize = 0;
    assert(cfg_models(out@) + all =~= all);
    while i < node.children.len()
        invariant
            i <= node.children@.len(),
            cfg_models(out@) + routines_among(
                *node,
                local_only,
                source@,
                opt_text(*parent),
                types@,
                unit,
                i as int,
            ) == all,
        decreases node.children@.len() - i,
    {
        let ghost before = cfg_models(out@);
        let ghost rest = routines_among(
            *node,
            local_only,
            source@,
            opt_text(*parent),
            types@,
            unit,
            i as int + 1,
        );
        if !local_only || node.children[i].is_field("local") {
            let found = collect_def_proc_cfgs(&node.children[i], source, parent, types, unit);
            append_cfgs(&mut out, found);
            assert(before + (cfg_models(found@) + rest) =~= cfg_models(out@) + rest);
        } else {
            assert(before + (Seq::<CfgModel>::empty() + rest) =~= before + rest);
        }
        i = i + 1;
    }
    assert(cfg_models(out@) + Seq::<CfgModel>::empty() =~= cfg_models(out@));
    out
}

fn section_cfg(
    child: &SyntaxNode,
    name: &String,
    source: &[u8],
    types: &ExceptionTypeIndex,
    unit: usize,
) -> (r: Vec<Cfg>)
    ensures
        cfg_models(r@) == section_graph(*child, name@, source@, types@, unit),
{
    if !child.named {
        no_cfg()
    } else if child.is_kind("initialization") || child.is_kind("finalization") {
        let mut full = name.clone();
        full.append(".<");
        full.append(child.kind.as_str());
        full.append(">");
        one_cfg(
            build_scope_cfg(
                full,
                child.start,
                child.end,
                child,
                Selection::Section,
                source,
                types,
                unit,
            ),
        )
    } else if child.is_kind("block") {
        let mut full = name.clone();
        full.append(".<initialization>");
        one_cfg(
            build_scope_cfg(
                full,
                child.start,
                child.end,
                child,
                Selection::Block,
                source,
                types,
                unit,
            ),
        )
    } else {
        no_cfg()
    }
}

fn collect_module_cfgs(
    root: &SyntaxNode,
    source: &[u8],
    types: &ExceptionTypeIndex,
    unit: usize,
) -> (r: Vec<Cfg>)
    ensures
        cfg_models(r@) == module_graphs(*root, source@, types@, unit),
{
    match root.module_child() {
        None => no_cfg(),
        Some(m) => {
            let module = &root.children[m];
            match module.child_of_kind("moduleName") {
                None => no_cfg(),
                Some(n) => {
                    let name = module.children[n].node_text(source);
                    if name.as_str().is_empty() {
                        no_cfg()
                    } else if module.is_kind("unit") {
                        let ghost all = section_graphs(*module, name@, source@, types@, unit, 0);
                        let mut out = no_cfg();
                        let mut i: usize = 0;
                        assert(cfg_models(out@) + all =~= all);
                        while i < module.children.len()
                            invariant
                                i <= module.children@.len(),
                                cfg_models(out@) + section_graphs(
                                    *module,
                                    name@,
                                    source@,
                                    types@,
                                    unit,
                                    i as int,
                                ) == all,
                            decreases module.children@.len() - i,
                        {
                            let ghost before = cfg_models(out@);
                            let ghost rest = section_graphs(
                                *module,
                                name@,
                                source@,
                                types@,
                                unit,
                                i as int + 1,
                            );
                            let found = section_cfg(
                                &module.children[i],
                                &name,
                                source,
                                types,
                                unit,
                            );
                            append_cfgs(&mut out, found);
                            assert(before + (cfg_models(found@) + rest) =~= cfg_models(out@)
                                + rest);
                            i = i + 1;
                        }
                        assert(cfg_models(out@) + Seq::<CfgModel>::empty() =~= cfg_models(out@));
                        out
                    } else {
                        match module.child_of_kind("block") {
                            Some(b) => {
                                let body = &module.children[b];
                                let mut full = name;
                                full.append(".<main>");
                                one_cfg(
                                    build_scope_cfg(
                                        full,
                                        body.start,
                                        body.end,
                                        body,
                                        Selection::Block,
                                        source,
                                        types,
                                        unit,
                                    ),
                                )
                            },
                            None => no_cfg(),
                        }
                    }
                },
            }
        },
    }
}

fn sort_by_start(cfgs: Vec<Cfg>) -> (r: Vec<Cfg>)
    ensures
        cfg_models(r@) == by_start(cfg_models(cfgs@)),
{
    let ghost all = cfg_models(cfgs@);
    let mut rest = cfgs;
    let mut reversed: Vec<Cfg> = Vec::new();
    let mut out: Vec<Cfg> = Vec::new();
    let count: usize = rest.len();
    while rest.len() > 0
        invariant
            all.len() == count,
            rest@.len() + reversed@.len() == count,
            cfg_models(rest@) == all.take(rest@.len() as int),
            forall|k: int|
                0 <= k < reversed@.len() ==> (#[trigger] reversed@[k])@ == all[count - 1 - k],
        decreases rest@.len(),
    {
        let ghost before = rest@;
        if let Some(last) = rest.pop() {
            assert(last@ == cfg_models(before)[before.len() - 1]);
            assert(cfg_models(rest@) =~= all.take(rest@.len() as int));
            reversed.push(last);
        }
    }
    let mut i: usize = 0;
    assert(cfg_models(out@) =~= by_start(all.take(0)));
    while reversed.len() > 0
        invariant
            all.len() == count,
            i + reversed@.len() == count,
            cfg_models(out@) == by_start(all.take(i as int)),
            forall|k: int|
                0 <= k < reversed@.len() ==> (#[trigger] reversed@[k])@ == all[count - 1 - k],
        decreases reversed@.len(),
    {
        let ghost models = cfg_models(out@);
        assert(models.len() == out@.len());
        if let Some(next) = reversed.pop() {
            assert(next@ == all[i as int]);
            assert(all.take(i as int + 1).drop_last() =~= all.take(i as int));
            let start: usize = next.byte_range.start;
            let mut at: usize = 0;
            while at < out.len() && out[at].byte_range.start <= start
                invariant
                    at <= out@.len(),
                    models == cfg_models(out@),
                    models.len() == out@.len(),
                    slot(models, start, 0) == slot(models, start, at as int),
                decreases out@.len() - at,
            {
                assert(models[at as int] == out@[at as int]@);
                at = at + 1;
            }
            proof {
                if at < out@.len() {
                    assert(models[at as int] == out@[at as int]@);
                }
            }
            let ghost held = next@;
            out.insert(at, next);
            assert(cfg_models(out@) =~= models.insert(at as int, held));
            i = i + 1;
        }
    }
    assert(all.take(i as int) =~= all);
    out
}

/// Builds the graphs of a tree, given the types that are known in it.
pub(crate) fn build_tree_cfgs(
    root: &SyntaxNode,
    source: &[u8],
    types: &ExceptionTypeIndex,
    unit: usize,
) -> (r: Vec<Cfg>)
    ensures
        cfg_models(r@) == tree_graphs(*root, source@, types@, unit),
        orderly(r@),
{
    let mut cfgs = collect_def_proc_cfgs(root, source, &None, types, unit);
    append_cfgs(&mut cfgs, collect_module_cfgs(root, source, types, unit));
    let sorted = sort_by_start(cfgs);
    proof {
        law_graphs_of_a_tree(*root, source@, types@, unit);
        assert forall|k: int| 0 <= k < sorted@.len() implies well_formed(
            (#[trigger] sorted@[k]).graph@,
        ) && sorted@[k].entry == BlockId(0) && sorted@[k].exit == BlockId(1) by {
            assert(cfg_models(sorted@)[k] == sorted@[k]@);
            assert(sorted@[k].graph@.blocks.len() == sorted@[k].graph.blocks.len());
        }
    }
    sorted
}

/// Whether graphs come in source order and each has the form of a control-flow
/// graph, with block 0 as its entry and block 1 as its exit.
pub open spec fn orderly(cfgs: Seq<Cfg>) -> bool {
    &&& in_source_order(cfg_models(cfgs))
    &&& forall|k: int|
        0 <= k < cfgs.len() ==> well_formed((#[trigger] cfgs[k]).graph@) && cfgs[k].entry
            == BlockId(0) && cfgs[k].exit == BlockId(1)
}

/// Builds the control-flow graphs of all executable scopes of a Pascal file.
///
/// Each routine definition gives a graph under its source name; a nested routine
/// is qualified by the routines around it. Programs and libraries add
/// `<module>.<main>`, units `<module>.<initialization>` and
/// `<module>.<finalization>`. The graphs come in the order in which their scopes
/// start.
pub fn build_file_cfgs(tree: &SyntaxTree, source: &[u8]) -> (r: Vec<Cfg>)
    ensures
        cfg_models(r@) == file_graphs(tree.root, source@),
        orderly(r@),
{
    let types = ExceptionTypeIndex::build(&tree.root, source);
    build_tree_cfgs(&tree.root, source, &types, 0)
}

/// Builds the control-flow graphs of one unit of a project.
///
/// What is known of exception classes comes from the declarations of all units of
/// the snapshot, through the choices made for their `uses` clauses.
pub fn build_file_cfgs_in_project(snapshot: &ProjectSnapshot, unit_id: &ProjectUnitId) -> (r: Result<
    Vec<Cfg>,
    ProjectBuildError,
>)
    ensures
        match r {
            Ok(cfgs) => project_graphs(snapshot@, unit_id@) == Some(cfg_models(cfgs@)) && orderly(
                cfgs@,
            ),
            Err(error) => project_graphs(snapshot@, unit_id@) is None && (error matches
                ProjectBuildError::UnitNotFound(id) && id@ == unit_id@),
        },
{
    let units = ranked_units(snapshot);
    assert(input_models(units@).len() == units@.len());
    match position(&units, unit_id) {
        Some(k) => {
            assert(input_models(units@)[k as int] == units@[k as int]@);
            let types = ExceptionTypeIndex::build_project(snapshot);
            Ok(build_tree_cfgs(&units[k].tree().root, units[k].source(), &types, k))
        },
        None => Err(ProjectBuildError::UnitNotFound(unit_id.clone())),
    }
}

} // verus!
