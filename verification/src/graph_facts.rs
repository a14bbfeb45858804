//! What holds of every graph while it is built.

use vstd::prelude::*;
use crate::flow::{FlowModel, TransferModel};
use crate::graph::{BasicBlockKind, BlockId, Edge, EdgeKind, GraphModel};
use crate::labels::TargetModel;
use crate::scope_graph::{CachedModel, ContextModel, StateModel};

verus! {

/// Whether a block is one of the first `n`, but neither entry nor exit.
pub open spec fn inside(block: BlockId, n: nat) -> bool {
    2 <= block.0 < n
}

/// Whether there is no block, or one inside the graph.
pub open spec fn opt_inside(block: Option<BlockId>, n: nat) -> bool {
    match block {
        Some(b) => inside(b, n),
        None => true,
    }
}

/// Whether a transfer comes from a block inside the graph and goes to one.
pub open spec fn transfer_ok(t: TransferModel, n: nat) -> bool {
    inside(t.source, n) && opt_inside(t.target, n)
}

/// Whether all transfers start and end inside the graph.
pub open spec fn transfers_ok(transfers: Seq<TransferModel>, n: nat) -> bool {
    forall|k: int| 0 <= k < transfers.len() ==> transfer_ok(#[trigger] transfers[k], n)
}

/// Whether a flow ends and its transfers start and end inside the graph.
pub open spec fn flow_ok(f: FlowModel, n: nat) -> bool {
    opt_inside(f.normal, n) && transfers_ok(f.transfers, n)
}

/// Whether all blocks of a list lie inside the graph.
pub open spec fn ends_ok(ends: Seq<BlockId>, n: nat) -> bool {
    forall|k: int| 0 <= k < ends.len() ==> inside(#[trigger] ends[k], n)
}

/// Whether the loops around a statement go on inside the graph.
pub open spec fn context_ok(ctx: ContextModel, n: nat) -> bool {
    forall|k: int|
        0 <= k < ctx.loops.len() ==> inside((#[trigger] ctx.loops[k]).continue_target, n) && inside(
            ctx.loops[k].break_target,
            n,
        )
}

/// Whether an edge joins two blocks of the first `n`, does not leave the exit and
/// does not enter the entry.
pub open spec fn edge_ok(e: Edge, n: nat) -> bool {
    inside(e.source, n) && 1 <= e.target.0 < n
}

/// Whether a graph has the form of a control-flow graph.
///
/// Block 0 is the entry and block 1 the exit; there are no others, and neither
/// holds a statement. One edge leaves the entry, and it goes to block 2. Every
/// other edge starts at an inner block and ends at an inner block or at the exit.
pub open spec fn well_formed(g: GraphModel) -> bool {
    &&& g.blocks.len() >= 3
    &&& g.blocks[0].kind == BasicBlockKind::Entry
    &&& g.blocks[0].stmts.len() == 0
    &&& g.blocks[1].kind == BasicBlockKind::Exit
    &&& g.blocks[1].stmts.len() == 0
    &&& forall|k: int|
        2 <= k < g.blocks.len() ==> (#[trigger] g.blocks[k]).kind != BasicBlockKind::Entry
            && g.blocks[k].kind != BasicBlockKind::Exit
    &&& g.edges.len() >= 1
    &&& g.edges[0] == (Edge {
        source: BlockId(0),
        target: BlockId(2),
        kind: EdgeKind::Normal,
    })
    &&& forall|k: int|
        1 <= k < g.edges.len() ==> edge_ok(#[trigger] g.edges[k], g.blocks.len())
}

/// Whether the places of labels lie inside the graph.
pub open spec fn targets_ok(targets: Seq<TargetModel>, n: nat) -> bool {
    forall|k: int| 0 <= k < targets.len() ==> inside((#[trigger] targets[k]).block, n)
}

/// Whether the walked finalizer bodies lie inside the graph.
pub open spec fn cache_ok(cache: Seq<CachedModel>, n: nat) -> bool {
    forall|k: int|
        0 <= k < cache.len() ==> inside((#[trigger] cache[k]).entry, n) && flow_ok(
            cache[k].flow,
            n,
        )
}

/// The number of blocks of a state.
pub open spec fn size(st: StateModel) -> nat {
    st.graph.blocks.len()
}

/// Whether a state comes from an earlier one by adding to it: blocks and edges
/// stay, blocks keep their kind and their statements.
#[verifier::opaque]
pub open spec fn extends(earlier: StateModel, later: StateModel) -> bool {
    &&& earlier.graph.blocks.len() <= later.graph.blocks.len()
    &&& earlier.graph.edges.len() <= later.graph.edges.len()
    &&& forall|k: int|
        0 <= k < earlier.graph.edges.len() ==> #[trigger] later.graph.edges[k]
            == earlier.graph.edges[k]
    &&& forall|k: int|
        0 <= k < earlier.graph.blocks.len() ==> (#[trigger] later.graph.blocks[k]).kind
            == earlier.graph.blocks[k].kind && earlier.graph.blocks[k].stmts.is_prefix_of(
            later.graph.blocks[k].stmts,
        )
}

/// Whether the graph of a state has the form of a control-flow graph, and what
/// the walk remembers lies inside it.
#[verifier::opaque]
pub open spec fn sound(st: StateModel) -> bool {
    &&& well_formed(st.graph)
    &&& targets_ok(st.targets, size(st))
    &&& cache_ok(st.cache, size(st))
    &&& forall|k: int|
        0 <= k < st.cache.len() ==> st.graph.blocks[(#[trigger] st.cache[k]).entry.0 as int].kind
            == BasicBlockKind::FinallyHandler
}

pub broadcast proof fn lemma_flow_grows(f: FlowModel, n: nat, m: nat)
    requires
        #[trigger] flow_ok(f, n),
        n <= m,
    ensures
        #[trigger] flow_ok(f, m),
{
    assert forall|k: int| 0 <= k < f.transfers.len() implies transfer_ok(
        #[trigger] f.transfers[k],
        m,
    ) by {
        assert(transfer_ok(f.transfers[k], n));
    }
}

pub broadcast proof fn lemma_transfers_grow(t: Seq<TransferModel>, n: nat, m: nat)
    requires
        #[trigger] transfers_ok(t, n),
        n <= m,
    ensures
        #[trigger] transfers_ok(t, m),
{
    assert forall|k: int| 0 <= k < t.len() implies transfer_ok(#[trigger] t[k], m) by {
        assert(transfer_ok(t[k], n));
    }
}

pub broadcast proof fn lemma_ends_grow(ends: Seq<BlockId>, n: nat, m: nat)
    requires
        #[trigger] ends_ok(ends, n),
        n <= m,
    ensures
        #[trigger] ends_ok(ends, m),
{
}

pub broadcast proof fn lemma_context_grows(ctx: ContextModel, n: nat, m: nat)
    requires
        #[trigger] context_ok(ctx, n),
        n <= m,
    ensures
        #[trigger] context_ok(ctx, m),
{
}

pub broadcast proof fn lemma_block_size(st: StateModel, kind: BasicBlockKind)
    ensures
        #[trigger] size(st.block(kind)) == size(st) + 1,
{
}

pub broadcast proof fn lemma_edge_size(st: StateModel, a: BlockId, b: BlockId, kind: EdgeKind)
    ensures
        #[trigger] size(st.edge(a, b, kind)) == size(st),
{
}

pub broadcast proof fn lemma_stmt_size(
    st: StateModel,
    block: BlockId,
    start: usize,
    end: usize,
    kind: Seq<char>,
)
    ensures
        #[trigger] size(st.stmt(block, start, end, kind)) == size(st),
{
}

pub broadcast proof fn lemma_block_sound(st: StateModel, kind: BasicBlockKind)
    requires
        sound(st),
        size(st) < usize::MAX,
        kind != BasicBlockKind::Entry,
        kind != BasicBlockKind::Exit,
    ensures
        sound(#[trigger] st.block(kind)),
        inside(st.next(), size(st) + 1),
{
    reveal(sound);
    let r = st.block(kind);
    assert forall|k: int| 1 <= k < r.graph.edges.len() implies edge_ok(
        #[trigger] r.graph.edges[k],
        size(r),
    ) by {
        assert(edge_ok(st.graph.edges[k], size(st)));
    }
    assert forall|k: int| 0 <= k < r.cache.len() implies inside((#[trigger] r.cache[k]).entry, size(r))
        && flow_ok(r.cache[k].flow, size(r)) by {
        lemma_flow_grows(st.cache[k].flow, size(st), size(r));
    }
}

pub broadcast proof fn lemma_edge_sound(st: StateModel, a: BlockId, b: BlockId, kind: EdgeKind)
    requires
        sound(st),
        inside(a, size(st)),
        1 <= b.0 < size(st),
    ensures
        sound(#[trigger] st.edge(a, b, kind)),
{
    reveal(sound);
    let r = st.edge(a, b, kind);
    assert forall|k: int| 1 <= k < r.graph.edges.len() implies edge_ok(
        #[trigger] r.graph.edges[k],
        size(r),
    ) by {
        if k < st.graph.edges.len() {
            assert(edge_ok(st.graph.edges[k], size(st)));
        }
    }
}

pub broadcast proof fn lemma_stmt_sound(
    st: StateModel,
    block: BlockId,
    start: usize,
    end: usize,
    kind: Seq<char>,
)
    requires
        sound(st),
        inside(block, size(st)),
    ensures
        sound(#[trigger] st.stmt(block, start, end, kind)),
{
    reveal(sound);
    let r = st.stmt(block, start, end, kind);
    assert forall|k: int| 1 <= k < r.graph.edges.len() implies edge_ok(
        #[trigger] r.graph.edges[k],
        size(r),
    ) by {
        assert(edge_ok(st.graph.edges[k], size(st)));
    }
}

pub broadcast proof fn lemma_extends_same_graph(a: StateModel, b: StateModel)
    requires
        a.graph == b.graph,
    ensures
        #[trigger] extends(a, b),
{
    reveal(extends);
}

pub broadcast proof fn lemma_extends_on(a: StateModel, b: StateModel, c: StateModel)
    requires
        #[trigger] extends(a, b),
        #[trigger] extends(b, c),
    ensures
        extends(a, c),
{
    reveal(extends);
    assert forall|k: int| 0 <= k < a.graph.edges.len() implies #[trigger] c.graph.edges[k]
        == a.graph.edges[k] by {
        assert(b.graph.edges[k] == a.graph.edges[k]);
    }
    assert forall|k: int| 0 <= k < a.graph.blocks.len() implies (
    #[trigger] c.graph.blocks[k]).kind == a.graph.blocks[k].kind
        && a.graph.blocks[k].stmts.is_prefix_of(c.graph.blocks[k].stmts) by {
        assert(b.graph.blocks[k].kind == a.graph.blocks[k].kind);
        let x = a.graph.blocks[k].stmts;
        let y = b.graph.blocks[k].stmts;
        let z = c.graph.blocks[k].stmts;
        assert(x =~= z.subrange(0, x.len() as int)) by {
            assert(x == y.subrange(0, x.len() as int));
            assert(y == z.subrange(0, y.len() as int));
        }
    }
}

pub broadcast proof fn lemma_block_extends(st: StateModel, kind: BasicBlockKind)
    ensures
        extends(st, #[trigger] st.block(kind)),
{
    reveal(extends);
    assert forall|k: int| 0 <= k < st.graph.blocks.len() implies st.graph.blocks[k].stmts.is_prefix_of(
        (#[trigger] st.block(kind).graph.blocks[k]).stmts,
    ) by {
        assert(st.graph.blocks[k].stmts =~= st.graph.blocks[k].stmts.subrange(
            0,
            st.graph.blocks[k].stmts.len() as int,
        ));
    }
}

pub broadcast proof fn lemma_edge_extends(st: StateModel, a: BlockId, b: BlockId, kind: EdgeKind)
    ensures
        extends(st, #[trigger] st.edge(a, b, kind)),
{
    reveal(extends);
    assert forall|k: int| 0 <= k < st.graph.blocks.len() implies st.graph.blocks[k].stmts.is_prefix_of(
        (#[trigger] st.edge(a, b, kind).graph.blocks[k]).stmts,
    ) by {
        assert(st.graph.blocks[k].stmts =~= st.graph.blocks[k].stmts.subrange(
            0,
            st.graph.blocks[k].stmts.len() as int,
        ));
    }
}

pub broadcast proof fn lemma_stmt_extends(
    st: StateModel,
    block: BlockId,
    start: usize,
    end: usize,
    kind: Seq<char>,
)
    ensures
        extends(st, #[trigger] st.stmt(block, start, end, kind)),
{
    reveal(extends);
    let r = st.stmt(block, start, end, kind);
    assert forall|k: int| 0 <= k < st.graph.blocks.len() implies st.graph.blocks[k].stmts.is_prefix_of(
        (#[trigger] r.graph.blocks[k]).stmts,
    ) by {
        let x = st.graph.blocks[k].stmts;
        assert(x =~= r.graph.blocks[k].stmts.subrange(0, x.len() as int));
    }
}

pub broadcast group group_graph_facts {
    lemma_extends_same_graph,
    lemma_extends_on,
    lemma_block_extends,
    lemma_edge_extends,
    lemma_stmt_extends,
    lemma_flow_grows,
    lemma_transfers_grow,
    lemma_ends_grow,
    lemma_context_grows,
    lemma_block_size,
    lemma_edge_size,
    lemma_stmt_size,
    lemma_block_sound,
    lemma_edge_sound,
    lemma_stmt_sound,
}

} // verus!
