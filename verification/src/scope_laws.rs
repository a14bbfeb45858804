//! What the graph of a scope is, and which scopes of a file have one.

use vstd::prelude::*;
use crate::exception_types::IndexModel;
use crate::flow::{TransferKind, TransferModel};
use crate::graph::{BasicBlockKind, BlockId, CfgModel, Edge, EdgeKind};
use crate::labels::goto_target;
use crate::scope_graph::{
    by_start, environment, initial, module_graphs, outermost, qualified_name, routed, routed_all,
    routines, routines_among, scope_cfg, section_graphs, slot, tree_graphs, walk, EnvModel,
    Selection, StateModel,
};
use crate::syntax::{any_field, any_kind, find_from, hit, module_from, opt_text, Query, SyntaxNode};
use crate::transfer_laws::{block_part, lemma_scopes, section_part};
use crate::walk_facts::{in_sequence, picked};

verus! {

broadcast use {crate::graph_facts::group_graph_facts, crate::syntax::lemma_find_bounds};

// The graph of a scope -----------------------------------------------------------------------

proof fn lemma_routed(env: EnvModel, st: StateModel, t: TransferModel)
    ensures
        ({
            let after = routed(env, st, t);
            &&& after.graph.blocks == st.graph.blocks
            &&& after.targets == st.targets
            &&& after.parents == st.parents
            &&& after.graph.edges.len() <= st.graph.edges.len() + 1
            &&& after.graph.edges.len() >= st.graph.edges.len()
            &&& forall|e: Edge| #[trigger]
                st.graph.edges.contains(e) ==> after.graph.edges.contains(e)
            &&& forall|k: int|
                0 <= k < st.graph.edges.len() ==> #[trigger] after.graph.edges[k]
                    == st.graph.edges[k]
            &&& after.graph.edges.len() > st.graph.edges.len() ==> after.graph.edges.last().source
                == t.source
            &&& settled_by(env, st, t, after.graph.edges)
        }),
{
    let before = st.graph.edges;
    let after = routed(env, st, t).graph.edges;
    assert forall|e: Edge| #[trigger] before.contains(e) implies after.contains(e) by {
        let k = choose|k: int| 0 <= k < before.len() && before[k] == e;
        assert(after[k] == e);
    }
    if after.len() > before.len() {
        assert(after.contains(after.last()));
    }
}

/// Whether the edge that a transfer calls for at the boundary of its scope is there.
spec fn settled_by(env: EnvModel, st: StateModel, t: TransferModel, edges: Seq<Edge>) -> bool {
    let source = t.source;
    let named = match (t.binding, t.label) {
        (Some(binding), Some(label)) => goto_target(st.targets, st.parents, binding, label),
        _ => None,
    };
    let exit = env.exit;
    &&& t.kind == TransferKind::Exception ==> edges.contains(
        Edge { source, target: exit, kind: EdgeKind::ExceptionThrow },
    )
    &&& t.kind == TransferKind::Exit && t.from_finally ==> edges.contains(
        Edge { source, target: exit, kind: EdgeKind::FinallyExit },
    )
    &&& t.kind == TransferKind::Exit && !t.from_finally ==> edges.contains(
        Edge { source, target: exit, kind: EdgeKind::Normal },
    )
    &&& t.kind == TransferKind::Goto && t.target is Some && t.from_finally ==> edges.contains(
        Edge { source, target: t.target->0, kind: EdgeKind::FinallyExit },
    )
    &&& t.kind == TransferKind::Goto && t.target is Some && !t.from_finally ==> edges.contains(
        Edge { source, target: t.target->0, kind: EdgeKind::Goto },
    )
    &&& t.kind == TransferKind::Goto && t.target is None && named is Some && t.from_finally
        ==> edges.contains(Edge { source, target: named->0, kind: EdgeKind::FinallyExit })
    &&& t.kind == TransferKind::Goto && t.target is None && named is Some && !t.from_finally
        ==> edges.contains(Edge { source, target: named->0, kind: EdgeKind::Goto })
    &&& t.kind == TransferKind::Goto && t.target is None && named is None ==> edges.contains(
        Edge { source, target: exit, kind: EdgeKind::Goto },
    )
}

proof fn lemma_routed_all(env: EnvModel, st: StateModel, transfers: Seq<TransferModel>, i: int)
    requires
        0 <= i <= transfers.len(),
    ensures
        ({
            let after = routed_all(env, st, transfers, i);
            &&& after.graph.blocks == st.graph.blocks
            &&& after.graph.edges.len() >= st.graph.edges.len()
            &&& after.graph.edges.len() <= st.graph.edges.len() + transfers.len() - i
            &&& forall|e: Edge| #[trigger]
                st.graph.edges.contains(e) ==> after.graph.edges.contains(e)
            &&& forall|k: int|
                0 <= k < st.graph.edges.len() ==> #[trigger] after.graph.edges[k]
                    == st.graph.edges[k]
            &&& forall|k: int|
                st.graph.edges.len() <= k < after.graph.edges.len() ==> exists|j: int|
                    i <= j < transfers.len() && (#[trigger] transfers[j]).source == (
                    #[trigger] after.graph.edges[k]).source
            &&& forall|j: int|
                i <= j < transfers.len() ==> settled_by(
                    env,
                    st,
                    #[trigger] transfers[j],
                    after.graph.edges,
                )
        }),
    decreases transfers.len() - i,
{
    if i < transfers.len() {
        let t = transfers[i];
        let mid = routed(env, st, t);
        let after = routed_all(env, st, transfers, i);
        lemma_routed(env, st, t);
        lemma_routed_all(env, mid, transfers, i + 1);
        let b = st.graph.edges;
        let m = mid.graph.edges;
        let a = after.graph.edges;
        assert forall|e: Edge| #[trigger] b.contains(e) implies a.contains(e) by {
            assert(m.contains(e));
        }
        assert forall|k: int| b.len() <= k < a.len() implies exists|j: int|
            i <= j < transfers.len() && (#[trigger] transfers[j]).source == (
            #[trigger] a[k]).source by {
            if k < m.len() {
                assert(m[k] == a[k]);
                assert(transfers[i].source == a[k].source);
            }
        }
        assert forall|k: int| 0 <= k < b.len() implies #[trigger] a[k] == b[k] by {
            assert(m[k] == b[k]);
        }
        assert forall|j: int| i <= j < transfers.len() implies settled_by(
            env,
            st,
            #[trigger] transfers[j],
            a,
        ) by {
            if j > i {
                assert(settled_by(env, mid, transfers[j], a));
            } else {
                assert forall|e: Edge| #[trigger] m.contains(e) implies a.contains(e) by {}
                let t = transfers[i];
                assert(settled_by(env, st, t, m));
            }
        }
    }
}

/// The statements of a scope: those of a `begin..end` block, or of an initialization
/// or finalization section.
pub open spec fn scope_part(node: SyntaxNode, section: bool) -> Seq<SyntaxNode> {
    if section {
        section_part(node)
    } else {
        block_part(node)
    }
}

/// The graph of a scope: control enters at the entry block, which holds nothing and
/// leads to the block in which the statements of the scope begin, one behind the
/// other and with nothing around them; their end leads to the exit block, which holds
/// nothing either. Exceptions and `Exit` that leave the statements lead to the exit,
/// a `goto` to its label or, where the scope has none of that name, to the exit. No
/// other edge is added behind the statements.
///
/// The witness gives the state in which the statements begin, and their first block.
pub proof fn law_scope(
    name: Seq<char>,
    start: usize,
    end: usize,
    node: SyntaxNode,
    section: bool,
    source: Seq<u8>,
    types: IndexModel,
    unit: usize,
) -> (r: (StateModel, BlockId))
    ensures
        ({
            let (s0, first) = r;
            let sel = if section {
                Selection::Section
            } else {
                Selection::Block
            };
            let c = scope_cfg(name, start, end, node, sel, source, types, unit);
            let env = environment(node, source, types, unit);
            let (e, f) = in_sequence(env, outermost(), s0, scope_part(node, section), Some(first));
            let blocks = c.graph.blocks;
            let edges = c.graph.edges;
            &&& c.name == name && c.start == start && c.end == end
            &&& env.source == source && env.types == types && env.unit == unit && env.exit == c.exit
            &&& outermost().loops.len() == 0 && outermost().scopes.len() == 0
            &&& outermost().depth == 0 && outermost().dispatches.len() == 0
            &&& outermost().handled.len() == 0 && outermost().binding == 0
            &&& outermost().continuation is None && outermost().suspended is None
            &&& s0.targets.len() == 0 && s0.cache.len() == 0 && s0.resumptions.len() == 0
            &&& c.entry != c.exit && first != c.entry && first != c.exit
            &&& s0.graph.blocks.len() == 3 && c.entry.0 < 3 && c.exit.0 < 3 && first.0 < 3
            &&& s0.graph.blocks[c.entry.0 as int].kind == BasicBlockKind::Entry
            &&& s0.graph.blocks[c.exit.0 as int].kind == BasicBlockKind::Exit
            &&& s0.graph.blocks[first.0 as int].kind == BasicBlockKind::Normal
            &&& forall|b: int|
                0 <= b < 3 ==> (#[trigger] s0.graph.blocks[b]).stmts.len() == 0
            &&& s0.graph.edges.len() == 1 && s0.graph.edges[0] == (Edge {
                source: c.entry,
                target: first,
                kind: EdgeKind::Normal,
            })
            &&& blocks == e.graph.blocks
            &&& forall|k: int|
                0 <= k < e.graph.edges.len() ==> #[trigger] edges[k] == e.graph.edges[k]
            &&& e.graph.edges.len() <= edges.len()
            &&& f.normal matches Some(b) ==> edges.contains(
                Edge { source: b, target: c.exit, kind: EdgeKind::Normal },
            )
            &&& forall|k: int|
                e.graph.edges.len() <= k < edges.len() ==> f.normal == Some(
                    (#[trigger] edges[k]).source,
                ) || exists|j: int|
                    0 <= j < f.transfers.len() && (#[trigger] f.transfers[j]).source
                        == edges[k].source
            &&& forall|j: int|
                #![trigger f.transfers[j]]
                0 <= j < f.transfers.len() ==> {
                    let t = f.transfers[j];
                    let named = match (t.binding, t.label) {
                        (Some(binding), Some(label)) => goto_target(
                            e.targets,
                            e.parents,
                            binding,
                            label,
                        ),
                        _ => None,
                    };
                    &&& t.kind == TransferKind::Exception ==> edges.contains(
                        Edge { source: t.source, target: c.exit, kind: EdgeKind::ExceptionThrow },
                    )
                    &&& t.kind == TransferKind::Exit ==> edges.contains(
                        Edge {
                            source: t.source,
                            target: c.exit,
                            kind: if t.from_finally {
                                EdgeKind::FinallyExit
                            } else {
                                EdgeKind::Normal
                            },
                        },
                    )
                    &&& t.kind == TransferKind::Goto && (t.target is Some || named is Some)
                        ==> edges.contains(
                        Edge {
                            source: t.source,
                            target: if t.target is Some {
                                t.target->0
                            } else {
                                named->0
                            },
                            kind: if t.from_finally {
                                EdgeKind::FinallyExit
                            } else {
                                EdgeKind::Goto
                            },
                        },
                    )
                    &&& t.kind == TransferKind::Goto && t.target is None && named is None
                        ==> edges.contains(
                        Edge { source: t.source, target: c.exit, kind: EdgeKind::Goto },
                    )
                }
        }),
{
    let sel = if section {
        Selection::Section
    } else {
        Selection::Block
    };
    let env = environment(node, source, types, unit);
    let s0 = initial(node, source);
    let first = BlockId(2);
    lemma_scopes(env, outermost(), s0, node, Some(first));
    let (e, f) = walk(env, outermost(), s0, node, sel, 0, Some(first), Seq::empty());
    let mid = match f.normal {
        Some(b) => e.edge(b, env.exit, EdgeKind::Normal),
        None => e,
    };
    lemma_routed_all(env, mid, f.transfers, 0);
    let c = scope_cfg(name, start, end, node, sel, source, types, unit);
    let edges = c.graph.edges;
    assert(edges == routed_all(env, mid, f.transfers, 0).graph.edges);
    if let Some(b) = f.normal {
        let own = Edge { source: b, target: env.exit, kind: EdgeKind::Normal };
        assert(mid.graph.edges[e.graph.edges.len() as int] == own);
        assert(mid.graph.edges.contains(own));
    }
    assert forall|k: int| 0 <= k < e.graph.edges.len() implies #[trigger] edges[k]
        == e.graph.edges[k] by {
        assert(mid.graph.edges[k] == e.graph.edges[k]);
    }
    assert forall|k: int| e.graph.edges.len() <= k < edges.len() implies f.normal == Some(
        (#[trigger] edges[k]).source,
    ) || exists|j: int|
        0 <= j < f.transfers.len() && (#[trigger] f.transfers[j]).source == edges[k].source by {
        if k < mid.graph.edges.len() {
            assert(mid.graph.edges[k] == edges[k]);
        }
    }
    assert(mid.targets == e.targets && mid.parents == e.parents);
    assert forall|j: int| 0 <= j < f.transfers.len() implies settled_by(
        env,
        mid,
        #[trigger] f.transfers[j],
        edges,
    ) by {}
    (s0, first)
}

// Searches ---------------------------------------------------------------------------------------

/// A search among nodes gives the first that fits, and nothing only where none does.
pub proof fn law_first_that_fits(nodes: Seq<SyntaxNode>, q: Query, from: int)
    requires
        0 <= from,
    ensures
        match find_from(nodes, q, from) {
            Some(k) => from <= k < nodes.len() && hit(q, nodes[k]) && forall|j: int|
                from <= j < k ==> !hit(q, #[trigger] nodes[j]),
            None => forall|j: int| from <= j < nodes.len() ==> !hit(q, #[trigger] nodes[j]),
        },
    decreases nodes.len() - from,
{
    if from < nodes.len() && !hit(q, nodes[from]) {
        law_first_that_fits(nodes, q, from + 1);
    }
}

/// A node fits a search by field where it stands under that field, and one by kind
/// where it is of that kind.
pub proof fn law_fits(word: Seq<char>, node: SyntaxNode)
    ensures
        hit(any_field(word), node) <==> opt_text(node.field) == Some(word),
        hit(any_kind(word), node) <==> node.kind@ == word,
        hit(crate::syntax::named_kind(word), node) <==> node.kind@ == word && node.named,
        hit(crate::syntax::named_field(word), node) <==> opt_text(node.field) == Some(word)
            && node.named,
{
}

// Routines ---------------------------------------------------------------------------------------

/// The graphs of the routines of some nodes, one node behind the other.
pub open spec fn gathered(
    nodes: Seq<SyntaxNode>,
    source: Seq<u8>,
    parent: Option<Seq<char>>,
    types: IndexModel,
    unit: usize,
) -> Seq<CfgModel>
    decreases nodes.len(),
{
    if nodes.len() == 0 {
        Seq::empty()
    } else {
        gathered(nodes.drop_last(), source, parent, types, unit) + routines(
            nodes.last(),
            source,
            parent,
            types,
            unit,
        )
    }
}

proof fn lemma_gathered(
    node: SyntaxNode,
    local_only: bool,
    source: Seq<u8>,
    parent: Option<Seq<char>>,
    types: IndexModel,
    unit: usize,
    pick: spec_fn(int) -> bool,
    i: int,
)
    requires
        0 <= i <= node.children@.len(),
        forall|k: int|
            0 <= k < node.children@.len() ==> #[trigger] pick(k) == (!local_only || opt_text(
                node.children@[k].field,
            ) == Some("local"@)),
    ensures
        gathered(picked(node.children@, pick, i), source, parent, types, unit) + routines_among(
            node,
            local_only,
            source,
            parent,
            types,
            unit,
            i,
        ) == gathered(
            picked(node.children@, pick, node.children@.len() as int),
            source,
            parent,
            types,
            unit,
        ),
    decreases node.children@.len() - i,
{
    let all = node.children@;
    let done = gathered(picked(all, pick, i), source, parent, types, unit);
    if i < all.len() {
        lemma_gathered(node, local_only, source, parent, types, unit, pick, i + 1);
        let next = picked(all, pick, i + 1);
        let more = routines_among(node, local_only, source, parent, types, unit, i + 1);
        if pick(i) {
            assert(next.drop_last() =~= picked(all, pick, i));
            assert(next.last() == all[i]);
            let here = routines(all[i], source, parent, types, unit);
            assert(done + (here + more) =~= done + here + more);
        } else {
            let none = Seq::<CfgModel>::empty();
            assert(done + (none + more) =~= done + more);
        }
    } else {
        assert(done + Seq::<CfgModel>::empty() =~= done);
    }
}

/// The children of a routine that declare something local to it.
pub open spec fn local_part(node: SyntaxNode) -> Seq<SyntaxNode> {
    picked(
        node.children@,
        |i: int| opt_text(node.children@[i].field) == Some("local"@),
        node.children@.len() as int,
    )
}

/// Outside a routine the graphs of its routines come child by child, under the name
/// of the same surrounding routine.
pub proof fn law_routines_of_a_subtree(
    node: SyntaxNode,
    source: Seq<u8>,
    parent: Option<Seq<char>>,
    types: IndexModel,
    unit: usize,
)
    requires
        node.kind@ != "defProc"@,
    ensures
        routines(node, source, parent, types, unit) == gathered(
            node.children@,
            source,
            parent,
            types,
            unit,
        ),
{
    let pick = |i: int| true;
    let count = node.children@.len() as int;
    lemma_gathered(node, false, source, parent, types, unit, pick, 0);
    lemma_all_picked(node.children@, pick, count);
    assert(node.children@.subrange(0, count) =~= node.children@);
    let all = routines_among(node, false, source, parent, types, unit, 0);
    assert(picked(node.children@, pick, 0) =~= Seq::empty());
    assert(gathered(Seq::empty(), source, parent, types, unit) + all =~= all);
}

proof fn lemma_all_picked(nodes: Seq<SyntaxNode>, pick: spec_fn(int) -> bool, n: int)
    requires
        0 <= n <= nodes.len(),
        forall|k: int| 0 <= k < nodes.len() ==> #[trigger] pick(k),
    ensures
        picked(nodes, pick, n) =~= nodes.subrange(0, n),
    decreases n,
{
    if n > 0 {
        lemma_all_picked(nodes, pick, n - 1);
        assert(pick(n - 1));
        assert(nodes.subrange(0, n) =~= nodes.subrange(0, n - 1).push(nodes[n - 1]));
    }
}

/// A routine whose header names it has one graph, of its body, over the bytes of the
/// whole routine; the graphs of the routines declared in it follow. At the outermost
/// level it has its own name; inside another routine the name of that one, a dot and
/// its own.
pub proof fn law_routine(
    node: SyntaxNode,
    source: Seq<u8>,
    parent: Option<Seq<char>>,
    types: IndexModel,
    unit: usize,
    h: int,
    k: int,
    b: int,
)
    requires
        node.kind@ == "defProc"@,
        0 <= h < node.children@.len(),
        opt_text(node.children@[h].field) == Some("header"@),
        forall|j: int|
            0 <= j < h ==> opt_text((#[trigger] node.children@[j]).field) != Some("header"@),
        forall|j: int|
            0 <= j < node.children@[h].children@.len() ==> (
            #[trigger] node.children@[h].children@[j]).kind@ != "genericDot"@,
        0 <= k < node.children@[h].children@.len(),
        opt_text(node.children@[h].children@[k].field) == Some("name"@),
        forall|j: int|
            0 <= j < k ==> opt_text((#[trigger] node.children@[h].children@[j]).field) != Some(
                "name"@,
            ),
        node.children@[h].children@[k].text(source).len() > 0,
        0 <= b < node.children@.len(),
        opt_text(node.children@[b].field) == Some("body"@),
        forall|j: int|
            0 <= j < b ==> opt_text((#[trigger] node.children@[j]).field) != Some("body"@),
    ensures
        ({
            let own = node.children@[h].children@[k].text(source);
            let name = match parent {
                Some(outer) => outer + "."@ + own,
                None => own,
            };
            routines(node, source, parent, types, unit) == seq![
                scope_cfg(
                    name,
                    node.start,
                    node.end,
                    node.children@[b],
                    Selection::Block,
                    source,
                    types,
                    unit,
                ),
            ] + gathered(local_part(node), source, Some(name), types, unit)
        }),
{
    let header = node.children@[h];
    law_first_that_fits(node.children@, any_field("header"@), 0);
    law_first_that_fits(node.children@, any_field("body"@), 0);
    law_first_that_fits(header.children@, any_field("name"@), 0);
    law_first_that_fits(header.children@, any_kind("genericDot"@), 0);
    lemma_locals(node, source, parent, types, unit);
    let own = header.children@[k].text(source);
    assert(node.find(any_field("header"@)) == Some(h));
    assert(node.find(any_field("body"@)) == Some(b));
    assert(header.find(any_field("name"@)) == Some(k));
    assert(header.find(any_kind("genericDot"@)) is None);
    let name = qualified_name(node, source, parent, own);
    let among = routines_among(node, true, source, Some(name), types, unit, 0);
    let locals = |p: int| opt_text(node.children@[p].field) == Some("local"@);
    lemma_gathered(node, true, source, Some(name), types, unit, locals, 0);
    assert(gathered(picked(node.children@, locals, 0), source, Some(name), types, unit) + among
        =~= among);
}

proof fn lemma_locals(
    node: SyntaxNode,
    source: Seq<u8>,
    parent: Option<Seq<char>>,
    types: IndexModel,
    unit: usize,
)
    ensures
        routines_among(node, true, source, parent, types, unit, 0) == gathered(
            local_part(node),
            source,
            parent,
            types,
            unit,
        ),
{
    let locals = |p: int| opt_text(node.children@[p].field) == Some("local"@);
    lemma_gathered(node, true, source, parent, types, unit, locals, 0);
    let among = routines_among(node, true, source, parent, types, unit, 0);
    assert(gathered(picked(node.children@, locals, 0), source, parent, types, unit) + among
        =~= among);
}

/// A routine without a body has no graph of its own, and one whose header gives no
/// name hides what is declared in it.
pub proof fn law_routine_without_body(
    node: SyntaxNode,
    source: Seq<u8>,
    parent: Option<Seq<char>>,
    types: IndexModel,
    unit: usize,
) -> (name: Seq<char>)
    requires
        node.kind@ == "defProc"@,
        forall|j: int|
            0 <= j < node.children@.len() ==> opt_text((#[trigger] node.children@[j]).field)
                != Some("body"@),
    ensures
        routines(node, source, parent, types, unit) == gathered(
            local_part(node),
            source,
            Some(name),
            types,
            unit,
        ) || routines(node, source, parent, types, unit).len() == 0,
{
    law_first_that_fits(node.children@, any_field("body"@), 0);
    match crate::scope_graph::proc_name(node, source) {
        Some(local) => {
            let name = qualified_name(node, source, parent, local);
            lemma_locals(node, source, Some(name), types, unit);
            let among = routines_among(node, true, source, Some(name), types, unit, 0);
            assert(Seq::<CfgModel>::empty() + among =~= among);
            name
        },
        None => Seq::empty(),
    }
}

/// The name of a method that its header qualifies: the first two identifiers with a
/// dot between them.
pub proof fn law_method_name(
    header: SyntaxNode,
    source: Seq<u8>,
    g: int,
    x: int,
    y: int,
)
    requires
        0 <= g < header.children@.len(),
        header.children@[g].kind@ == "genericDot"@,
        forall|j: int|
            0 <= j < g ==> (#[trigger] header.children@[j]).kind@ != "genericDot"@,
        0 <= x < y < header.children@[g].children@.len(),
        forall|j: int|
            0 <= j <= y ==> ((#[trigger] header.children@[g].children@[j]).kind@ == "identifier"@
                <==> j == x || j == y),
    ensures
        crate::scope_graph::header_name(header, source) == Some(
            header.children@[g].children@[x].text(source) + "."@
                + header.children@[g].children@[y].text(source),
        ),
{
    let dot = header.children@[g];
    law_first_that_fits(header.children@, any_kind("genericDot"@), 0);
    law_first_that_fits(dot.children@, any_kind("identifier"@), 0);
    assert(header.find(any_kind("genericDot"@)) == Some(g));
    assert(dot.find(any_kind("identifier"@)) == Some(x)) by {
        assert(dot.children@[x].kind@ == "identifier"@);
        if let Some(z) = dot.find(any_kind("identifier"@)) {
            assert(z <= x);
            assert(dot.children@[z].kind@ == "identifier"@);
        }
    }
    law_first_that_fits(dot.children@, any_kind("identifier"@), x + 1);
    assert(find_from(dot.children@, any_kind("identifier"@), x + 1) == Some(y)) by {
        assert(dot.children@[y].kind@ == "identifier"@);
        if let Some(z) = find_from(dot.children@, any_kind("identifier"@), x + 1) {
            assert(z <= y);
            assert(dot.children@[z].kind@ == "identifier"@);
        }
    }
}

// Modules ----------------------------------------------------------------------------------------

proof fn lemma_section_found(
    module: SyntaxNode,
    name: Seq<char>,
    source: Seq<u8>,
    types: IndexModel,
    unit: usize,
    i: int,
    at: int,
    c: CfgModel,
)
    requires
        0 <= i <= at < module.children@.len(),
        crate::scope_graph::section_graph(module.children@[at], name, source, types, unit)
            == seq![c],
    ensures
        section_graphs(module, name, source, types, unit, i).contains(c),
    decreases at - i,
{
    let here = crate::scope_graph::section_graph(module.children@[i], name, source, types, unit);
    let rest = section_graphs(module, name, source, types, unit, i + 1);
    if i == at {
        assert((here + rest)[0] == c);
    } else {
        lemma_section_found(module, name, source, types, unit, i + 1, at, c);
        let k = choose|k: int| 0 <= k < rest.len() && rest[k] == c;
        assert((here + rest)[here.len() + k] == c);
    }
}

/// The graphs of a module's own statements: a unit has one for each initialization
/// and finalization section and one, named as an initialization, for a block; another
/// module has one for its first block. Their names are that of the module and that of
/// the part in angle brackets.
pub proof fn law_module(
    root: SyntaxNode,
    source: Seq<u8>,
    types: IndexModel,
    unit: usize,
    m: int,
    n: int,
    i: int,
)
    requires
        0 <= m < root.children@.len(),
        module_from(root.children@, 0) == Some(m),
        0 <= n < root.children@[m].children@.len(),
        root.children@[m].children@[n].kind@ == "moduleName"@,
        forall|j: int|
            0 <= j < n ==> (#[trigger] root.children@[m].children@[j]).kind@ != "moduleName"@,
        root.children@[m].children@[n].text(source).len() > 0,
        0 <= i < root.children@[m].children@.len(),
    ensures
        ({
            let module = root.children@[m];
            let name = module.children@[n].text(source);
            let part = module.children@[i];
            let graphs = module_graphs(root, source, types, unit);
            &&& module.kind@ == "unit"@ && part.named && part.kind@ == "initialization"@
                ==> graphs.contains(
                scope_cfg(
                    name + ".<initialization>"@,
                    part.start,
                    part.end,
                    part,
                    Selection::Section,
                    source,
                    types,
                    unit,
                ),
            )
            &&& module.kind@ == "unit"@ && part.named && part.kind@ == "finalization"@
                ==> graphs.contains(
                scope_cfg(
                    name + ".<finalization>"@,
                    part.start,
                    part.end,
                    part,
                    Selection::Section,
                    source,
                    types,
                    unit,
                ),
            )
            &&& module.kind@ == "unit"@ && part.named && part.kind@ == "block"@ ==> graphs.contains(
                scope_cfg(
                    name + ".<initialization>"@,
                    part.start,
                    part.end,
                    part,
                    Selection::Block,
                    source,
                    types,
                    unit,
                ),
            )
            &&& module.kind@ != "unit"@ && part.kind@ == "block"@ && (forall|j: int|
                0 <= j < i ==> (#[trigger] module.children@[j]).kind@ != "block"@) ==> graphs
                == seq![
                scope_cfg(
                    name + ".<main>"@,
                    part.start,
                    part.end,
                    part,
                    Selection::Block,
                    source,
                    types,
                    unit,
                ),
            ]
        }),
{
    let module = root.children@[m];
    let name = module.children@[n].text(source);
    let part = module.children@[i];
    law_first_that_fits(module.children@, any_kind("moduleName"@), 0);
    law_first_that_fits(module.children@, any_kind("block"@), 0);
    assert(module.find(any_kind("moduleName"@)) == Some(n));
    reveal_strlit(".<");
    reveal_strlit(">");
    reveal_strlit("initialization");
    reveal_strlit("finalization");
    reveal_strlit("block");
    reveal_strlit(".<initialization>");
    reveal_strlit(".<finalization>");
    assert(name + ".<"@ + "initialization"@ + ">"@ =~= name + ".<initialization>"@);
    assert(name + ".<"@ + "finalization"@ + ">"@ =~= name + ".<finalization>"@);
    assert("block"@.len() != "initialization"@.len());
    assert("block"@.len() != "finalization"@.len());
    if module.kind@ == "unit"@ && part.named {
        let sections = crate::scope_graph::section_graph(part, name, source, types, unit);
        if sections.len() > 0 {
            assert(sections =~= seq![sections[0]]);
            lemma_section_found(module, name, source, types, unit, 0, i, sections[0]);
        }
    }
}

/// The module of a file is its first named child that is a program, a library or a
/// unit.
pub proof fn law_module_is_the_first(root: SyntaxNode)
    ensures
        match module_from(root.children@, 0) {
            Some(m) => 0 <= m < root.children@.len() && is_module(root.children@[m]) && forall|j:
                int| 0 <= j < m ==> !is_module(#[trigger] root.children@[j]),
            None => forall|j: int|
                0 <= j < root.children@.len() ==> !is_module(#[trigger] root.children@[j]),
        },
{
    lemma_module_from(root.children@, 0);
}

/// Whether a node is a module.
pub open spec fn is_module(node: SyntaxNode) -> bool {
    node.named && set!["program"@, "library"@, "unit"@].contains(node.kind@)
}

proof fn lemma_module_from(nodes: Seq<SyntaxNode>, i: int)
    requires
        0 <= i,
    ensures
        match module_from(nodes, i) {
            Some(m) => i <= m < nodes.len() && is_module(nodes[m]) && forall|j: int|
                i <= j < m ==> !is_module(#[trigger] nodes[j]),
            None => forall|j: int| i <= j < nodes.len() ==> !is_module(#[trigger] nodes[j]),
        },
    decreases nodes.len() - i,
{
    if i < nodes.len() && !is_module(nodes[i]) {
        lemma_module_from(nodes, i + 1);
    }
}

proof fn lemma_by_start_contains(cfgs: Seq<CfgModel>, c: CfgModel)
    ensures
        by_start(cfgs).contains(c) <==> cfgs.contains(c),
    decreases cfgs.len(),
{
    if cfgs.len() > 0 {
        let rest = cfgs.drop_last();
        lemma_by_start_contains(rest, c);
        let before = by_start(rest);
        let at = slot(before, cfgs.last().start, 0);
        lemma_slot_bounds(before, cfgs.last().start, 0);
        let after = before.insert(at, cfgs.last());
        assert(cfgs =~= rest.push(cfgs.last()));
        if cfgs.contains(c) {
            let k = choose|k: int| 0 <= k < cfgs.len() && cfgs[k] == c;
            if k < rest.len() {
                assert(rest[k] == c);
                assert(before.contains(c));
                let j = choose|j: int| 0 <= j < before.len() && before[j] == c;
                assert(after[if j < at {
                    j
                } else {
                    j + 1
                }] == c);
            } else {
                assert(after[at] == c);
            }
        }
        if after.contains(c) {
            let k = choose|k: int| 0 <= k < after.len() && after[k] == c;
            if k == at {
                assert(cfgs[cfgs.len() - 1] == c);
            } else {
                assert(before[if k < at {
                    k
                } else {
                    k - 1
                }] == c);
                assert(rest.contains(c));
                let j = choose|j: int| 0 <= j < rest.len() && rest[j] == c;
                assert(cfgs[j] == c);
            }
        }
    }
}

proof fn lemma_slot_bounds(cfgs: Seq<CfgModel>, start: usize, i: int)
    requires
        0 <= i <= cfgs.len(),
    ensures
        i <= slot(cfgs, start, i) <= cfgs.len(),
    decreases cfgs.len() - i,
{
    if i < cfgs.len() && cfgs[i].start <= start {
        lemma_slot_bounds(cfgs, start, i + 1);
    }
}

/// The graphs of a file are those of its routines and those of its module's own
/// statements, and no others.
pub proof fn law_graphs_of_a_file(
    root: SyntaxNode,
    source: Seq<u8>,
    types: IndexModel,
    unit: usize,
    c: CfgModel,
)
    ensures
        tree_graphs(root, source, types, unit).contains(c) <==> routines(
            root,
            source,
            None,
            types,
            unit,
        ).contains(c) || module_graphs(root, source, types, unit).contains(c),
        tree_graphs(root, source, types, unit).len() == routines(
            root,
            source,
            None,
            types,
            unit,
        ).len() + module_graphs(root, source, types, unit).len(),
{
    let a = routines(root, source, None, types, unit);
    let b = module_graphs(root, source, types, unit);
    lemma_by_start_contains(a + b, c);
    crate::graph_laws::law_graphs_come_in_source_order(a + b);
    if a.contains(c) {
        let k = choose|k: int| 0 <= k < a.len() && a[k] == c;
        assert((a + b)[k] == c);
    }
    if b.contains(c) {
        let k = choose|k: int| 0 <= k < b.len() && b[k] == c;
        assert((a + b)[a.len() + k] == c);
    }
}

} // verus!
