//! What `case` and conditional compilation add to a graph.

use vstd::prelude::*;
use crate::flow::{unknown_exception, TransferModel};
use crate::graph::{BasicBlockKind, BlockId, EdgeKind};
use crate::graph_facts::{extends, size};
use crate::graph_laws::lemma_edges_to;
use crate::labels::{
    branch_at, branch_content, content_among, else_among, is_white, last_branch, plain_else,
    skip_white, trim_white, word_end, BranchEntry,
};
use crate::scope_graph::{
    branch_binding, case_arms, case_selector, case_statement, conditional_block,
    conditional_branches, default_before, edges_to, ending, implicit, prepared, single, walk,
    ContextModel, EnvModel, Selection, StateModel,
};
use crate::statement_laws::{
    arrives, begins, body_part, goes_on, holds, joins, lemma_arrives, lemma_contains_add,
    lemma_held, lemma_holds_still, lemma_joined, lemma_joins_still, lemma_parts, lemma_single_is,
};
use crate::syntax::SyntaxNode;
use crate::text::lower_text;
use crate::try_laws::lemma_edges_to_join;
use crate::walk_facts::{
    in_sequence, lemma_case_arms_done, lemma_conditional_branches_done, lemma_sizes,
    lemma_walk_done, lemma_walk_is_sequence, picked,
};

verus! {

broadcast use {crate::graph_facts::group_graph_facts, crate::syntax::lemma_find_bounds};

proof fn lemma_added(a: Seq<TransferModel>, b: Seq<TransferModel>)
    ensures
        forall|t: TransferModel| #[trigger] a.contains(t) ==> (a + b).contains(t),
        forall|t: TransferModel| #[trigger] b.contains(t) ==> (a + b).contains(t),
{
    lemma_contains_add(a, b);
    assert forall|t: TransferModel| #[trigger] a.contains(t) implies (a + b).contains(t) by {}
    assert forall|t: TransferModel| #[trigger] b.contains(t) implies (a + b).contains(t) by {}
}

// `case` ----------------------------------------------------------------------------------------

/// Whether a child opens the default arm of a `case`.
pub open spec fn opens_default(child: SyntaxNode) -> bool {
    child.kind@ == "kElse"@ || child.kind@ == "kOtherwise"@
}

/// Whether one of the children before `n` opens the default arm.
pub open spec fn default_opened(node: SyntaxNode, n: int) -> bool {
    exists|j: int| 0 <= j < n && j < node.children@.len() && opens_default(
        #[trigger] node.children@[j],
    )
}

/// The statements of the default arm: what stands behind the word that opens it.
pub open spec fn default_part(node: SyntaxNode) -> Seq<SyntaxNode> {
    picked(
        node.children@,
        |i: int|
            default_opened(node, i) && !opens_default(node.children@[i])
                && node.children@[i].kind@ != "kEnd"@ && node.children@[i].kind@ != ";"@,
        node.children@.len() as int,
    )
}

proof fn lemma_default_before(node: SyntaxNode, n: int)
    requires
        0 <= n <= node.children@.len(),
    ensures
        default_before(node, n) == default_opened(node, n),
    decreases n,
{
    if n > 0 {
        lemma_default_before(node, n - 1);
        if default_before(node, n) && !default_before(node, n - 1) {
            assert(opens_default(node.children@[n - 1]));
        }
        if default_opened(node, n) {
            let j = choose|j: int|
                0 <= j < n && j < node.children@.len() && opens_default(
                    #[trigger] node.children@[j],
                );
            if j < n - 1 {
                assert(opens_default(node.children@[j]));
            }
        }
        if default_opened(node, n - 1) {
            let j = choose|j: int|
                0 <= j < n - 1 && j < node.children@.len() && opens_default(
                    #[trigger] node.children@[j],
                );
            assert(opens_default(node.children@[j]));
        }
    }
}

proof fn lemma_default(
    env: EnvModel,
    ctx: ContextModel,
    st: StateModel,
    node: SyntaxNode,
    current: Option<BlockId>,
)
    ensures
        walk(env, ctx, st, node, Selection::CaseDefault, 0, current, Seq::empty()) == in_sequence(
            env,
            ctx,
            st,
            default_part(node),
            current,
        ),
{
    let pick = |i: int|
        default_opened(node, i) && !opens_default(node.children@[i]) && node.children@[i].kind@
            != "kEnd"@ && node.children@[i].kind@ != ";"@;
    assert forall|k: int| 0 <= k < node.children@.len() implies #[trigger]
        crate::scope_graph::selected(Selection::CaseDefault, node, k) == pick(k) by {
        lemma_default_before(node, k);
    }
    lemma_walk_is_sequence(env, ctx, st, node, Selection::CaseDefault, pick, 0, current);
}

proof fn lemma_arms_keep(
    env: EnvModel,
    ctx: ContextModel,
    st: StateModel,
    node: SyntaxNode,
    selector: BlockId,
    j: int,
    ends: Seq<BlockId>,
    acc: Seq<TransferModel>,
)
    ensures
        ({
            let (s, e, a) = case_arms(env, ctx, st, node, selector, j, ends, acc);
            &&& forall|x: BlockId| #[trigger] ends.contains(x) ==> e.contains(x)
            &&& forall|t: TransferModel| #[trigger] acc.contains(t) ==> a.contains(t)
        }),
    decreases node.children@.len() - j,
{
    if 0 <= j < node.children@.len() {
        let child = node.children@[j];
        if !(child.kind@ == "caseCase"@ && child.named) {
            lemma_arms_keep(env, ctx, st, node, selector, j + 1, ends, acc);
        } else {
            let arm = st.next();
            let s0 = st.block(BasicBlockKind::Normal).edge(selector, arm, EdgeKind::CaseArm);
            let (s, f) = walk(env, ctx, s0, child, Selection::Body, 0, Some(arm), Seq::empty());
            let ends1 = match f.normal {
                Some(end) => ends.push(end),
                None => ends,
            };
            let acc1 = acc + f.transfers;
            lemma_arms_keep(env, ctx, s, node, selector, j + 1, ends1, acc1);
            lemma_added(acc, f.transfers);
            assert forall|x: BlockId| #[trigger] ends.contains(x) implies ends1.contains(x) by {
                let k = choose|k: int| 0 <= k < ends.len() && ends[k] == x;
                assert(ends1[k] == x);
            }
        }
    }
}

proof fn lemma_arm_found(
    env: EnvModel,
    ctx: ContextModel,
    st: StateModel,
    node: SyntaxNode,
    selector: BlockId,
    j: int,
    ends: Seq<BlockId>,
    acc: Seq<TransferModel>,
    i: int,
) -> (at: StateModel)
    requires
        0 <= j <= i < node.children@.len(),
        node.children@[i].kind@ == "caseCase"@,
        node.children@[i].named,
    ensures
        ({
            let (s, e, a) = case_arms(env, ctx, st, node, selector, j, ends, acc);
            let arm = at.next();
            let s0 = at.block(BasicBlockKind::Normal).edge(selector, arm, EdgeKind::CaseArm);
            let (end, f) = walk(
                env,
                ctx,
                s0,
                node.children@[i],
                Selection::Body,
                0,
                Some(arm),
                Seq::empty(),
            );
            &&& extends(st, at) && extends(s0, end) && extends(end, s)
            &&& f.normal matches Some(x) ==> e.contains(x)
            &&& forall|t: TransferModel| #[trigger] f.transfers.contains(t) ==> a.contains(t)
        }),
    decreases i - j,
{
    let child = node.children@[j];
    if !(child.kind@ == "caseCase"@ && child.named) {
        lemma_arm_found(env, ctx, st, node, selector, j + 1, ends, acc, i)
    } else {
        let arm = st.next();
        let none = Seq::<TransferModel>::empty();
        let s0 = st.block(BasicBlockKind::Normal).edge(selector, arm, EdgeKind::CaseArm);
        let (s, f) = walk(env, ctx, s0, child, Selection::Body, 0, Some(arm), none);
        lemma_walk_done(env, child, ctx, s0, child, Selection::Body, 0, Some(arm), none);
        let ends1 = match f.normal {
            Some(end) => ends.push(end),
            None => ends,
        };
        let acc1 = acc + f.transfers;
        assert(extends(st, s));
        if i == j {
            lemma_case_arms_done(env, node, ctx, s, node, selector, j + 1, ends1, acc1);
            lemma_arms_keep(env, ctx, s, node, selector, j + 1, ends1, acc1);
            lemma_added(acc, f.transfers);
            if let Some(x) = f.normal {
                assert(ends1[ends.len() as int] == x);
            assert(ends1.contains(x));
            }
            st
        } else {
            let at = lemma_arm_found(env, ctx, s, node, selector, j + 1, ends1, acc1, i);
            assert(extends(st, s) && extends(s, at));
            assert(extends(st, at));
            at
        }
    }
}

/// The block in which the selector of a `case` is evaluated.
spec fn selector_of(ctx: ContextModel, st: StateModel, current: BlockId) -> BlockId {
    prepared(ctx, st, current).1
}

spec fn selector_state(
    ctx: ContextModel,
    st: StateModel,
    node: SyntaxNode,
    current: BlockId,
) -> StateModel {
    let (s0, b) = prepared(ctx, st, current);
    match case_selector(node, 0) {
        Some(k) => s0.stmt(b, node.start, node.children@[k].end, node.kind@),
        None => s0,
    }
}

/// What stands behind the arms: everything up to the last arm stays, every end leads
/// on, and every transfer leaves.
proof fn lemma_case_behind(
    env: EnvModel,
    ctx: ContextModel,
    st: StateModel,
    node: SyntaxNode,
    current: BlockId,
)
    requires
        begins(ctx, st, current),
        size(case_statement(env, ctx, st, node, current).0) <= usize::MAX,
    ensures
        ({
            let b = selector_of(ctx, st, current);
            let s1 = selector_state(ctx, st, node, current);
            let (s2, ends, transfers) = case_arms(
                env,
                ctx,
                s1,
                node,
                b,
                0,
                Seq::empty(),
                implicit(ctx, b),
            );
            let (last, flow) = case_statement(env, ctx, st, node, current);
            &&& extends(st, s1) && extends(s1, s2) && extends(s2, last)
            &&& arrives(ctx, st, last, current, b)
            &&& forall|x: BlockId| #[trigger] ends.contains(x) ==> flow.normal is Some && joins(
                last,
                x,
                flow.normal->0,
                EdgeKind::Normal,
            )
            &&& forall|t: TransferModel| #[trigger]
                transfers.contains(t) ==> flow.transfers.contains(t)
        }),
{
    let none = Seq::<TransferModel>::empty();
    let (s0, b) = prepared(ctx, st, current);
    let s1 = selector_state(ctx, st, node, current);
    let first = implicit(ctx, b);
    let (s2, ends, transfers) = case_arms(env, ctx, s1, node, b, 0, Seq::empty(), first);
    lemma_case_arms_done(env, node, ctx, s1, node, b, 0, Seq::empty(), first);
    let (last, flow) = case_statement(env, ctx, st, node, current);
    assert(extends(st, s0) && extends(s0, s1));
    if default_before(node, node.children@.len() as int) {
        let d = s2.next();
        let s20 = s2.block(BasicBlockKind::Normal).edge(b, d, EdgeKind::CaseArm);
        let (s3, f) = walk(env, ctx, s20, node, Selection::CaseDefault, 0, Some(d), none);
        lemma_walk_done(env, node, ctx, s20, node, Selection::CaseDefault, 0, Some(d), none);
        let all = match f.normal {
            Some(end) => ends.push(end),
            None => ends,
        };
        let s4 = s3.block(BasicBlockKind::Normal);
        lemma_edges_to(ctx, s4, all, 0, s3.next(), EdgeKind::Normal);
        lemma_added(transfers, f.transfers);
        assert(extends(s4, edges_to(s4, all, 0, s3.next(), EdgeKind::Normal)));
        assert(extends(s2, last));
        assert forall|x: BlockId| #[trigger] ends.contains(x) implies flow.normal is Some && joins(
            last,
            x,
            flow.normal->0,
            EdgeKind::Normal,
        ) by {
            let k = choose|k: int| 0 <= k < ends.len() && ends[k] == x;
            assert(all[k] == x);
            lemma_edges_to_join(s4, all, 0, s3.next(), EdgeKind::Normal, k);
        }
    } else {
        let j = s2.next();
        let s4 = s2.block(BasicBlockKind::Normal);
        let s5 = edges_to(s4, ends, 0, j, EdgeKind::Normal);
        lemma_edges_to(ctx, s4, ends, 0, j, EdgeKind::Normal);
        assert(extends(s4, s5));
        assert(extends(s5, last));
        assert forall|x: BlockId| #[trigger] ends.contains(x) implies flow.normal is Some && joins(
            last,
            x,
            flow.normal->0,
            EdgeKind::Normal,
        ) by {
            let k = choose|k: int| 0 <= k < ends.len() && ends[k] == x;
            lemma_edges_to_join(s4, ends, 0, j, EdgeKind::Normal, k);
            lemma_joins_still(s5, last, x, j, EdgeKind::Normal);
        }
    }
    lemma_sizes(s2, last);
    lemma_arrives(env, ctx, st, current, last);
}

/// `case`: one edge leads from the block of the selector to each arm, where the
/// statement of the arm begins; from the end of each arm the flow goes on behind the
/// whole statement.
///
/// The witness gives the block of the selector, the block at which arm `i` begins,
/// and the state in which it begins.
pub proof fn law_case_arm(
    env: EnvModel,
    ctx: ContextModel,
    st: StateModel,
    node: SyntaxNode,
    current: BlockId,
    i: int,
) -> (r: (BlockId, BlockId, StateModel))
    requires
        node.kind@ == "case"@,
        !node.extra,
        begins(ctx, st, current),
        size(single(env, ctx, st, node, current).0) <= usize::MAX,
        0 <= i < node.children@.len(),
        node.children@[i].kind@ == "caseCase"@,
        node.children@[i].named,
    ensures
        ({
            let (c, arm, s1) = r;
            let (last, flow) = single(env, ctx, st, node, current);
            let (e1, f1) = in_sequence(env, ctx, s1, body_part(node.children@[i]), Some(arm));
            &&& arrives(ctx, st, last, current, c)
            &&& joins(last, c, arm, EdgeKind::CaseArm)
            &&& size(st) <= arm.0 < size(s1)
            &&& s1.graph.blocks[arm.0 as int].stmts.len() == 0
            &&& extends(st, s1) && extends(e1, last)
            &&& goes_on(last, f1.normal, flow.normal, EdgeKind::Normal)
            &&& forall|t: TransferModel| #[trigger]
                f1.transfers.contains(t) ==> flow.transfers.contains(t)
        }),
{
    lemma_single_is(env, ctx, st, node, current);
    lemma_case_behind(env, ctx, st, node, current);
    let b = selector_of(ctx, st, current);
    let s1 = selector_state(ctx, st, node, current);
    let last = case_statement(env, ctx, st, node, current).0;
    let at = lemma_arm_found(env, ctx, s1, node, b, 0, Seq::empty(), implicit(ctx, b), i);
    let arm = at.next();
    let s = at.block(BasicBlockKind::Normal);
    let s0 = s.edge(b, arm, EdgeKind::CaseArm);
    lemma_parts(env, ctx, s0, node.children@[i], Some(arm));
    lemma_joined(s, b, arm, EdgeKind::CaseArm);
    assert(extends(s0, last));
    lemma_sizes(s0, last);
    lemma_sizes(st, s1);
    lemma_sizes(s1, at);
    lemma_joins_still(s0, last, b, arm, EdgeKind::CaseArm);
    (b, arm, s0)
}

/// The default arm of a `case` is entered like the others; where there is none, an
/// edge leads from the selector past the arms.
///
/// The witness gives the block of the selector, the block at which the default arm
/// begins, and the state in which it begins.
pub proof fn law_case_default(
    env: EnvModel,
    ctx: ContextModel,
    st: StateModel,
    node: SyntaxNode,
    current: BlockId,
) -> (r: (BlockId, BlockId, StateModel))
    requires
        node.kind@ == "case"@,
        !node.extra,
        begins(ctx, st, current),
        size(single(env, ctx, st, node, current).0) <= usize::MAX,
    ensures
        ({
            let (c, arm, s1) = r;
            let (last, flow) = single(env, ctx, st, node, current);
            let (e1, f1) = in_sequence(env, ctx, s1, default_part(node), Some(arm));
            &&& arrives(ctx, st, last, current, c)
            &&& case_selector(node, 0) matches Some(k) ==> holds(
                last,
                c,
                node.start,
                node.children@[k].end,
                node.kind@,
            )
            &&& default_opened(node, node.children@.len() as int) ==> {
                &&& joins(last, c, arm, EdgeKind::CaseArm)
                &&& size(st) <= arm.0 < size(s1)
                &&& extends(st, s1) && extends(e1, last)
                &&& goes_on(last, f1.normal, flow.normal, EdgeKind::Normal)
                &&& forall|t: TransferModel| #[trigger]
                    f1.transfers.contains(t) ==> flow.transfers.contains(t)
            }
            &&& !default_opened(node, node.children@.len() as int) ==> (flow.normal matches Some(
                behind,
            ) && joins(last, c, behind, EdgeKind::CaseArm))
            &&& ctx.depth > 0 ==> flow.transfers.contains(unknown_exception(c))
        }),
{
    lemma_single_is(env, ctx, st, node, current);
    lemma_case_behind(env, ctx, st, node, current);
    let none = Seq::<TransferModel>::empty();
    let count = node.children@.len() as int;
    lemma_default_before(node, count);
    let (s0, b) = prepared(ctx, st, current);
    let s1 = selector_state(ctx, st, node, current);
    let first = implicit(ctx, b);
    let (s2, ends, transfers) = case_arms(env, ctx, s1, node, b, 0, Seq::empty(), first);
    let (last, flow) = case_statement(env, ctx, st, node, current);
    lemma_sizes(st, s1);
    lemma_sizes(s1, s2);
    lemma_sizes(s2, last);
    if let Some(k) = case_selector(node, 0) {
        lemma_held(s0, b, node.start, node.children@[k].end, node.kind@);
        assert(extends(s1, last));
        lemma_holds_still(s1, last, b, node.start, node.children@[k].end, node.kind@);
    }
    lemma_arms_keep(env, ctx, s1, node, b, 0, Seq::empty(), first);
    if ctx.depth > 0 {
        assert(first[0] == unknown_exception(b));
        assert(first.contains(unknown_exception(b)));
    }
    let d = s2.next();
    let s = s2.block(BasicBlockKind::Normal);
    let s20 = s.edge(b, d, EdgeKind::CaseArm);
    lemma_joined(s, b, d, EdgeKind::CaseArm);
    if default_before(node, count) {
        let (s3, f) = walk(env, ctx, s20, node, Selection::CaseDefault, 0, Some(d), none);
        lemma_walk_done(env, node, ctx, s20, node, Selection::CaseDefault, 0, Some(d), none);
        lemma_default(env, ctx, s20, node, Some(d));
        let all = match f.normal {
            Some(end) => ends.push(end),
            None => ends,
        };
        let s4 = s3.block(BasicBlockKind::Normal);
        lemma_edges_to(ctx, s4, all, 0, s3.next(), EdgeKind::Normal);
        lemma_added(transfers, f.transfers);
        assert(extends(s4, edges_to(s4, all, 0, s3.next(), EdgeKind::Normal)));
        assert(extends(s3, last));
        assert(extends(s20, last));
        lemma_sizes(s20, last);
        lemma_joins_still(s20, last, b, d, EdgeKind::CaseArm);
        if let Some(end) = f.normal {
            let k = ends.len() as int;
            assert(all[k] == end);
            lemma_edges_to_join(s4, all, 0, s3.next(), EdgeKind::Normal, k);
        }
    } else {
        let j = s2.next();
        let s4 = s2.block(BasicBlockKind::Normal);
        let s5 = edges_to(s4, ends, 0, j, EdgeKind::Normal);
        lemma_joined(s5, b, j, EdgeKind::CaseArm);
    }
    (b, d, s20)
}

/// The selector of a `case` is its first part that is neither a comment nor one of its
/// arms and keywords.
pub proof fn law_case_selector(node: SyntaxNode, k: int)
    requires
        0 <= k < node.children@.len(),
        is_selector(node.children@[k]),
        forall|j: int| 0 <= j < k ==> !is_selector(#[trigger] node.children@[j]),
    ensures
        case_selector(node, 0) == Some(k),
{
    lemma_selector(node, k, 0);
}

/// Whether a child can be the selector of a `case`.
pub open spec fn is_selector(child: SyntaxNode) -> bool {
    child.named && !child.extra && !set![
        "caseCase"@,
        "kCase"@,
        "kOf"@,
        "kElse"@,
        "kOtherwise"@,
        "kEnd"@,
    ].contains(child.kind@)
}

proof fn lemma_selector(node: SyntaxNode, k: int, i: int)
    requires
        0 <= i <= k < node.children@.len(),
        is_selector(node.children@[k]),
        forall|j: int| 0 <= j < k ==> !is_selector(#[trigger] node.children@[j]),
    ensures
        case_selector(node, i) == Some(k),
    decreases k - i,
{
    let words = set!["caseCase"@, "kCase"@, "kOf"@, "kElse"@, "kOtherwise"@, "kEnd"@];
    assert(words.contains("caseCase"@) && words.contains("kCase"@) && words.contains("kOf"@));
    assert(words.contains("kElse"@) && words.contains("kOtherwise"@) && words.contains("kEnd"@));
    if i < k {
        assert(!is_selector(node.children@[i]));
        lemma_selector(node, k, i + 1);
    }
}

// Conditional compilation ------------------------------------------------------------------------

/// How many `else` directives stand before child `i`: the branch that it belongs to.
pub open spec fn branch_of(node: SyntaxNode, i: int) -> int {
    picked(node.children@, |k: int| node.children@[k].kind@ == "ppElse"@, i).len() as int
}

pub proof fn lemma_branch_of(node: SyntaxNode, i: int)
    requires
        0 <= i <= node.children@.len(),
    ensures
        branch_at(node, i) == branch_of(node, i),
    decreases i,
{
    if i > 0 {
        lemma_branch_of(node, i - 1);
    }
}

/// The content of a branch: its children but for the directives, other directive
/// text and separators.
pub open spec fn branch_part(node: SyntaxNode, b: int) -> Seq<SyntaxNode> {
    picked(
        node.children@,
        |i: int|
            branch_of(node, i) == b && !set![
                "ppIf"@,
                "ppEndIf"@,
                "ppDirective"@,
                "ppText"@,
                "ppElse"@,
                ";"@,
                ","@,
            ].contains(node.children@[i].kind@),
        node.children@.len() as int,
    )
}

proof fn lemma_word_end(s: Seq<char>, i: int, j: int, end: int)
    requires
        0 <= i <= j <= end <= s.len(),
        forall|k: int| i <= k < j ==> !is_white(#[trigger] s[k]),
        j == end || is_white(s[j]),
    ensures
        word_end(s, i, end) == j,
    decreases j - i,
{
    if i < j {
        lemma_word_end(s, i + 1, j, end);
    }
}

/// An `else` directive is unconditional exactly where its first word is `else`, in
/// whatever case it is written.
pub proof fn law_plain_else(
    node: SyntaxNode,
    source: Seq<u8>,
    word: Seq<char>,
    tail: Seq<char>,
)
    requires
        word.len() > 0,
        forall|k: int| 0 <= k < word.len() ==> !is_white(#[trigger] word[k]),
        tail.len() == 0 || is_white(tail[0]),
        node.text(source) == seq!['{', '$'] + word + tail + seq!['}'],
    ensures
        plain_else(node, source) <==> lower_text(word) == "else"@,
{
    let s = node.text(source);
    let n = s.len() as int;
    let m = 2 + word.len();
    assert(s[0] == '{' && s[1] == '$' && s[n - 1] == '}');
    assert(trim_white(s, n) == n);
    assert(skip_white(s, 0, n) == 0);
    assert(s[2] == word[0]);
    assert forall|k: int| 2 <= k < m implies !is_white(#[trigger] s[k]) by {
        assert(s[k] == word[k - 2]);
    }
    assert(skip_white(s, 2, n - 1) == 2);
    if tail.len() > 0 {
        assert(s[m as int] == tail[0]);
    }
    lemma_word_end(s, 2, m as int, n - 1);
    assert(s.subrange(2, m as int) =~= word);
}

/// Whether a block of conditional compilation has an unconditional last branch.
pub open spec fn has_plain_else(node: SyntaxNode, source: Seq<u8>) -> bool {
    exists|i: int|
        0 <= i < node.children@.len() && (#[trigger] node.children@[i]).kind@ == "ppElse"@
            && plain_else(node.children@[i], source)
}

/// Whether a block of conditional compilation has content.
pub open spec fn has_content(node: SyntaxNode) -> bool {
    exists|i: int|
        0 <= i < node.children@.len() && branch_content((#[trigger] node.children@[i]).kind@)
}

proof fn lemma_among(node: SyntaxNode, source: Seq<u8>, n: int)
    requires
        0 <= n <= node.children@.len(),
    ensures
        else_among(node, source, n) <==> exists|i: int|
            0 <= i < n && (#[trigger] node.children@[i]).kind@ == "ppElse"@ && plain_else(
                node.children@[i],
                source,
            ),
        content_among(node, n) <==> exists|i: int|
            0 <= i < n && branch_content((#[trigger] node.children@[i]).kind@),
    decreases n,
{
    if n > 0 {
        lemma_among(node, source, n - 1);
        let child = node.children@[n - 1];
        if exists|i: int|
            0 <= i < n && (#[trigger] node.children@[i]).kind@ == "ppElse"@ && plain_else(
                node.children@[i],
                source,
            ) {
            let i = choose|i: int|
                0 <= i < n && (#[trigger] node.children@[i]).kind@ == "ppElse"@ && plain_else(
                    node.children@[i],
                    source,
                );
            assert(i < n - 1 || i == n - 1);
        }
        if exists|i: int| 0 <= i < n && branch_content((#[trigger] node.children@[i]).kind@) {
            let i = choose|i: int|
                0 <= i < n && branch_content((#[trigger] node.children@[i]).kind@);
            assert(i < n - 1 || i == n - 1);
        }
    }
}

proof fn lemma_branch(
    env: EnvModel,
    ctx: ContextModel,
    st: StateModel,
    node: SyntaxNode,
    b: int,
    current: Option<BlockId>,
)
    requires
        0 <= b <= usize::MAX,
    ensures
        walk(
            env,
            ctx,
            st,
            node,
            Selection::Branch(b as usize),
            0,
            current,
            Seq::empty(),
        ) == in_sequence(env, ctx, st, branch_part(node, b), current),
{
    let words = set![
        "ppIf"@,
        "ppEndIf"@,
        "ppDirective"@,
        "ppText"@,
        "ppElse"@,
        ";"@,
        ","@,
    ];
    let pick = |i: int| branch_of(node, i) == b && !words.contains(node.children@[i].kind@);
    let sel = Selection::Branch(b as usize);
    assert forall|k: int| 0 <= k < node.children@.len() implies #[trigger]
        crate::scope_graph::selected(sel, node, k) == pick(k) by {
        lemma_branch_of(node, k);
    }
    lemma_walk_is_sequence(env, ctx, st, node, sel, pick, 0, current);
}

/// Whether a namespace is the one that is planned for branch `b` of a block; where none
/// is, it is that of the block.
pub open spec fn names_branch(
    env: EnvModel,
    ctx: ContextModel,
    node: SyntaxNode,
    b: int,
    binding: usize,
) -> bool {
    if exists|k: int| 0 <= k < env.branches.len() && plans(#[trigger] env.branches[k], node, b) {
        exists|k: int|
            0 <= k < env.branches.len() && plans(#[trigger] env.branches[k], node, b)
                && env.branches[k].binding == binding
    } else {
        binding == ctx.binding
    }
}

/// Whether an entry of the plan is for branch `b` of a block.
pub open spec fn plans(entry: BranchEntry, node: SyntaxNode, b: int) -> bool {
    entry.start == node.start && entry.end == node.end && entry.branch == b
}

proof fn lemma_branch_binding(
    branches: Seq<BranchEntry>,
    start: usize,
    end: usize,
    b: usize,
    n: int,
)
    requires
        0 <= n <= branches.len(),
    ensures
        match branch_binding(branches, start, end, b, n) {
            Some(own) => exists|k: int|
                0 <= k < n && (#[trigger] branches[k]).start == start && branches[k].end == end
                    && branches[k].branch == b && branches[k].binding == own,
            None => forall|k: int|
                0 <= k < n ==> !((#[trigger] branches[k]).start == start && branches[k].end == end
                    && branches[k].branch == b),
        },
    decreases n,
{
    if n > 0 {
        lemma_branch_binding(branches, start, end, b, n - 1);
        let last = branches[n - 1];
        if last.start == start && last.end == end && last.branch == b {
            assert(branches[n - 1].binding == branch_binding(branches, start, end, b, n)->0);
        }
    }
}

/// The context of a branch: its own label namespace.
pub open spec fn branch_context(ctx: ContextModel, binding: usize) -> ContextModel {
    ContextModel { binding, ..ctx }
}

proof fn lemma_branches_keep(
    env: EnvModel,
    ctx: ContextModel,
    st: StateModel,
    node: SyntaxNode,
    current: BlockId,
    j: int,
    ends: Seq<BlockId>,
    acc: Seq<TransferModel>,
)
    ensures
        ({
            let (s, e, a) = conditional_branches(env, ctx, st, node, current, j, ends, acc);
            &&& forall|x: BlockId| #[trigger] ends.contains(x) ==> e.contains(x)
            &&& forall|t: TransferModel| #[trigger] acc.contains(t) ==> a.contains(t)
        }),
    decreases last_branch(node) + 1 - j,
{
    if 0 <= j <= last_branch(node) {
        let (s, f) = branch_step(env, ctx, st, node, current, j);
        let ends1 = match f.normal {
            Some(end) => ends.push(end),
            None => ends,
        };
        let acc1 = acc + f.transfers;
        lemma_branches_keep(env, ctx, s, node, current, j + 1, ends1, acc1);
        lemma_added(acc, f.transfers);
        assert forall|x: BlockId| #[trigger] ends.contains(x) implies ends1.contains(x) by {
            let k = choose|k: int| 0 <= k < ends.len() && ends[k] == x;
            assert(ends1[k] == x);
        }
    }
}

spec fn binding_of(env: EnvModel, ctx: ContextModel, node: SyntaxNode, b: int) -> usize {
    match branch_binding(
        env.branches,
        node.start,
        node.end,
        b as usize,
        env.branches.len() as int,
    ) {
        Some(own) => own,
        None => ctx.binding,
    }
}

spec fn branch_start(st: StateModel, current: BlockId, b: int) -> StateModel {
    st.block(BasicBlockKind::Normal).edge(
        current,
        st.next(),
        if b == 0 {
            EdgeKind::ConditionalTrue
        } else {
            EdgeKind::ConditionalFalse
        },
    )
}

spec fn branch_step(
    env: EnvModel,
    ctx: ContextModel,
    st: StateModel,
    node: SyntaxNode,
    current: BlockId,
    b: int,
) -> (StateModel, crate::flow::FlowModel) {
    walk(
        env,
        ctx.in_branch(binding_of(env, ctx, node, b)),
        branch_start(st, current, b),
        node,
        Selection::Branch(b as usize),
        0,
        Some(st.next()),
        Seq::empty(),
    )
}

proof fn lemma_branch_found(
    env: EnvModel,
    ctx: ContextModel,
    st: StateModel,
    node: SyntaxNode,
    current: BlockId,
    j: int,
    ends: Seq<BlockId>,
    acc: Seq<TransferModel>,
    i: int,
) -> (at: StateModel)
    requires
        0 <= j <= i <= last_branch(node),
    ensures
        ({
            let (s, e, a) = conditional_branches(env, ctx, st, node, current, j, ends, acc);
            let s0 = branch_start(at, current, i);
            let (end, f) = branch_step(env, ctx, at, node, current, i);
            &&& extends(st, at) && extends(s0, end) && extends(end, s)
            &&& f.normal matches Some(x) ==> e.contains(x)
            &&& forall|t: TransferModel| #[trigger] f.transfers.contains(t) ==> a.contains(t)
        }),
    decreases i - j,
{
    let (s, f) = branch_step(env, ctx, st, node, current, j);
    let s0 = branch_start(st, current, j);
    let inner = ctx.in_branch(binding_of(env, ctx, node, j));
    let sel = Selection::Branch(j as usize);
    lemma_walk_done(env, node, inner, s0, node, sel, 0, Some(st.next()), Seq::empty());
    assert(extends(st, s0) && extends(s0, s));
    let ends1 = match f.normal {
        Some(end) => ends.push(end),
        None => ends,
    };
    let acc1 = acc + f.transfers;
    if i == j {
        lemma_conditional_branches_done(env, node, ctx, s, node, current, j + 1, ends1, acc1);
        lemma_branches_keep(env, ctx, s, node, current, j + 1, ends1, acc1);
        lemma_added(acc, f.transfers);
        if let Some(x) = f.normal {
            assert(ends1[ends.len() as int] == x);
            assert(ends1.contains(x));
        }
        st
    } else {
        let at = lemma_branch_found(env, ctx, s, node, current, j + 1, ends1, acc1, i);
        assert(extends(st, s) && extends(s, at));
        assert(extends(st, at));
        at
    }
}

/// Conditional compilation: each branch can be the one that is compiled. An edge
/// leads from the current block to where its content begins, for the true case of the
/// condition to the first branch and for the false case to each other; from the end
/// of each branch the flow goes on behind the block. Without an unconditional `else`
/// an edge leads past all branches.
///
/// The witness gives the block at which branch `b` begins, the state in which it
/// begins, and its label namespace.
pub proof fn law_conditional_branch(
    env: EnvModel,
    ctx: ContextModel,
    st: StateModel,
    node: SyntaxNode,
    current: BlockId,
    b: int,
) -> (r: (BlockId, StateModel, usize))
    requires
        node.kind@ == "ppBlock"@,
        !node.extra,
        has_content(node) || has_plain_else(node, env.source),
        0 <= b <= branch_of(node, node.children@.len() as int),
        branch_of(node, node.children@.len() as int) <= usize::MAX,
        begins(ctx, st, current),
        size(single(env, ctx, st, node, current).0) <= usize::MAX,
    ensures
        ({
            let (entry, s1, binding) = r;
            let (last, flow) = single(env, ctx, st, node, current);
            let inner = branch_context(ctx, binding);
            let (e1, f1) = in_sequence(env, inner, s1, branch_part(node, b), Some(entry));
            &&& joins(
                last,
                current,
                entry,
                if b == 0 {
                    EdgeKind::ConditionalTrue
                } else {
                    EdgeKind::ConditionalFalse
                },
            )
            &&& names_branch(env, ctx, node, b, binding)
            &&& size(st) <= entry.0 < size(s1)
            &&& extends(st, s1) && extends(e1, last)
            &&& goes_on(last, f1.normal, flow.normal, EdgeKind::Normal)
            &&& forall|t: TransferModel| #[trigger]
                f1.transfers.contains(t) ==> flow.transfers.contains(t)
            &&& !has_plain_else(node, env.source) ==> (flow.normal matches Some(behind) && joins(
                last,
                current,
                behind,
                EdgeKind::ConditionalFalse,
            ))
        }),
{
    lemma_single_is(env, ctx, st, node, current);
    let count = node.children@.len() as int;
    lemma_branch_of(node, count);
    lemma_among(node, env.source, count);
    let blank = Seq::<BlockId>::empty();
    let none = Seq::<TransferModel>::empty();
    let (s, ends, transfers) = conditional_branches(env, ctx, st, node, current, 0, blank, none);
    let (last, flow) = conditional_block(env, ctx, st, node, current);
    let at = lemma_branch_found(env, ctx, st, node, current, 0, blank, none, b);
    let binding = binding_of(env, ctx, node, b);
    lemma_branch_binding(
        env.branches,
        node.start,
        node.end,
        b as usize,
        env.branches.len() as int,
    );
    let entry = at.next();
    let s1 = branch_start(at, current, b);
    let inner = ctx.in_branch(binding);
    assert(inner =~= branch_context(ctx, binding));
    lemma_branch(env, inner, s1, node, b, Some(entry));
    let j = s.next();
    let s4 = s.block(BasicBlockKind::Normal);
    let s5 = edges_to(s4, ends, 0, j, EdgeKind::Normal);
    lemma_edges_to(ctx, s4, ends, 0, j, EdgeKind::Normal);
    assert(extends(s4, s5));
    assert(extends(s, last));
    assert(extends(s1, last));
    lemma_sizes(s1, last);
    lemma_sizes(st, at);
    let kind = if b == 0 {
        EdgeKind::ConditionalTrue
    } else {
        EdgeKind::ConditionalFalse
    };
    lemma_joined(at.block(BasicBlockKind::Normal), current, entry, kind);
    lemma_joins_still(s1, last, current, entry, kind);
    let f = branch_step(env, ctx, at, node, current, b).1;
    if let Some(x) = f.normal {
        let k = choose|k: int| 0 <= k < ends.len() && ends[k] == x;
        lemma_edges_to_join(s4, ends, 0, j, EdgeKind::Normal, k);
        lemma_joins_still(s5, last, x, j, EdgeKind::Normal);
    }
    if !has_plain_else(node, env.source) {
        lemma_joined(s5, current, j, EdgeKind::ConditionalFalse);
    }
    (entry, s1, binding)
}

/// A block of conditional compilation without content and without an unconditional
/// `else` adds nothing.
pub proof fn law_hollow_block_adds_nothing(
    env: EnvModel,
    ctx: ContextModel,
    st: StateModel,
    node: SyntaxNode,
    current: BlockId,
)
    requires
        node.kind@ == "ppBlock"@,
        !node.extra,
        !has_content(node),
        !has_plain_else(node, env.source),
    ensures
        single(env, ctx, st, node, current) == (st, ending(current)),
{
    lemma_single_is(env, ctx, st, node, current);
    lemma_among(node, env.source, node.children@.len() as int);
}

} // verus!
