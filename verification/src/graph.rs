//! Control-flow graphs: basic blocks, edges and the builder operations.

use vstd::prelude::*;
use std::ops::Range;

verus! {

/// Identifier of a basic block: its position in the graph.
#[derive(Debug, Clone, Copy, PartialEq, Eq, Structural, Hash)]
pub struct BlockId(pub usize);

/// The role of a basic block.
#[derive(Debug, Clone, Copy, PartialEq, Eq, Structural, Hash)]
pub enum BasicBlockKind {
    Entry,
    Exit,
    Normal,
    FinallyHandler,
    ExceptHandler,
    BareExceptHandler,
}

/// Why control passes along an edge.
#[derive(Debug, Clone, Copy, PartialEq, Eq, Structural, Hash)]
pub enum EdgeKind {
    Normal,
    ConditionalTrue,
    ConditionalFalse,
    LoopBack,
    LoopExit,
    CaseArm,
    ExceptionThrow,
    FinallyEntry,
    FinallyExit,
    Goto,
}

/// An edge between two blocks.
#[derive(Debug, Clone, Copy, PartialEq, Eq, Structural, Hash)]
pub struct Edge {
    pub source: BlockId,
    pub target: BlockId,
    pub kind: EdgeKind,
}

/// A reference from a block to the source range of a statement.
#[derive(Debug)]
pub struct StmtRef {
    pub byte_range: Range<usize>,
    pub node_kind: String,
}

/// A basic block: its role and its statements in execution order.
#[derive(Debug)]
pub struct BasicBlock {
    pub kind: BasicBlockKind,
    pub stmts: Vec<StmtRef>,
}

/// Blocks and edges, each in the order of their creation.
#[derive(Debug)]
pub struct Graph {
    pub blocks: Vec<BasicBlock>,
    pub edges: Vec<Edge>,
}

/// The control-flow graph of one executable scope.
#[derive(Debug)]
pub struct Cfg {
    pub proc_name: String,
    pub byte_range: Range<usize>,
    pub entry: BlockId,
    pub exit: BlockId,
    pub graph: Graph,
}

/// The mathematical value of a [`StmtRef`].
pub struct StmtModel {
    pub start: usize,
    pub end: usize,
    pub kind: Seq<char>,
}

/// The mathematical value of a [`BasicBlock`].
#[verifier::ext_equal]
pub struct BlockModel {
    pub kind: BasicBlockKind,
    pub stmts: Seq<StmtModel>,
}

/// The mathematical value of a [`Graph`].
#[verifier::ext_equal]
pub struct GraphModel {
    pub blocks: Seq<BlockModel>,
    pub edges: Seq<Edge>,
}

/// The mathematical value of a [`Cfg`].
#[verifier::ext_equal]
pub struct CfgModel {
    pub name: Seq<char>,
    pub start: usize,
    pub end: usize,
    pub entry: BlockId,
    pub exit: BlockId,
    pub graph: GraphModel,
}

impl View for StmtRef {
    type V = StmtModel;

    open spec fn view(&self) -> StmtModel {
        StmtModel {
            start: self.byte_range.start,
            end: self.byte_range.end,
            kind: self.node_kind@,
        }
    }
}

impl View for BasicBlock {
    type V = BlockModel;

    open spec fn view(&self) -> BlockModel {
        BlockModel { kind: self.kind, stmts: self.stmts@.map_values(|s: StmtRef| s@) }
    }
}

impl View for Graph {
    type V = GraphModel;

    open spec fn view(&self) -> GraphModel {
        GraphModel { blocks: self.blocks@.map_values(|b: BasicBlock| b@), edges: self.edges@ }
    }
}

impl View for Cfg {
    type V = CfgModel;

    open spec fn view(&self) -> CfgModel {
        CfgModel {
            name: self.proc_name@,
            start: self.byte_range.start,
            end: self.byte_range.end,
            entry: self.entry,
            exit: self.exit,
            graph: self.graph@,
        }
    }
}

/// The mathematical values of several graphs.
pub open spec fn cfg_models(cfgs: Seq<Cfg>) -> Seq<CfgModel> {
    cfgs.map_values(|c: Cfg| c@)
}

impl GraphModel {
    /// The graph without blocks.
    pub open spec fn empty() -> GraphModel {
        GraphModel { blocks: Seq::empty(), edges: Seq::empty() }
    }

    /// The identifier that the next block will get.
    pub open spec fn next(self) -> BlockId {
        BlockId(self.blocks.len() as usize)
    }

    /// The graph with one more block, without statements.
    pub open spec fn with_block(self, kind: BasicBlockKind) -> GraphModel {
        GraphModel {
            blocks: self.blocks.push(BlockModel { kind, stmts: Seq::empty() }),
            edges: self.edges,
        }
    }

    /// The graph with one more edge.
    pub open spec fn with_edge(self, source: BlockId, target: BlockId, kind: EdgeKind) -> GraphModel {
        GraphModel { blocks: self.blocks, edges: self.edges.push(Edge { source, target, kind }) }
    }

    /// The graph with one more statement at the end of a block.
    pub open spec fn with_stmt(self, block: BlockId, stmt: StmtModel) -> GraphModel {
        if block.0 < self.blocks.len() {
            let old = self.blocks[block.0 as int];
            GraphModel {
                blocks: self.blocks.update(
                    block.0 as int,
                    BlockModel { kind: old.kind, stmts: old.stmts.push(stmt) },
                ),
                edges: self.edges,
            }
        } else {
            self
        }
    }

    /// Whether a block holds a statement that is not a label.
    pub open spec fn has_executable(self, block: BlockId) -> bool {
        block.0 < self.blocks.len() && exists|k: int|
            0 <= k < self.blocks[block.0 as int].stmts.len()
                && (#[trigger] self.blocks[block.0 as int].stmts[k]).kind != "label"@
    }

    /// Whether every edge joins two blocks of the graph.
    pub open spec fn edges_in_range(self) -> bool {
        forall|k: int|
            0 <= k < self.edges.len() ==> (#[trigger] self.edges[k]).source.0 < self.blocks.len()
                && self.edges[k].target.0 < self.blocks.len()
    }
}

impl Graph {
    /// The graph without blocks.
    pub fn new() -> (r: Graph)
        ensures
            r@ == GraphModel::empty(),
    {
        let r = Graph { blocks: Vec::new(), edges: Vec::new() };
        assert(r@ =~= GraphModel::empty());
        r
    }

    /// Adds a block without statements.
    pub fn new_block(&mut self, kind: BasicBlockKind) -> (r: BlockId)
        ensures
            final(self)@ == old(self)@.with_block(kind),
            r == old(self)@.next(),
            r.0 == old(self)@.blocks.len(),
    {
        let id = BlockId(self.blocks.len());
        let block = BasicBlock { kind, stmts: Vec::new() };
        assert(block@ =~= BlockModel { kind, stmts: Seq::empty() });
        self.blocks.push(block);
        assert(self@ =~= old(self)@.with_block(kind));
        id
    }

    /// Adds an edge behind the existing ones.
    pub fn add_edge(&mut self, source: BlockId, target: BlockId, kind: EdgeKind)
        ensures
            final(self)@ == old(self)@.with_edge(source, target, kind),
    {
        self.edges.push(Edge { source, target, kind });
        assert(self@ =~= old(self)@.with_edge(source, target, kind));
    }

    /// Adds a statement reference at the end of a block. A block that the graph
    /// does not have leaves it unchanged.
    pub fn add_stmt(&mut self, block: BlockId, start: usize, end: usize, kind: &str)
        ensures
            final(self)@ == old(self)@.with_stmt(block, StmtModel { start, end, kind: kind@ }),
    {
        if block.0 < self.blocks.len() {
            let stmt = StmtRef { byte_range: start..end, node_kind: kind.to_owned() };
            let ghost model = StmtModel { start, end, kind: kind@ };
            assert(stmt@ == model);
            self.blocks[block.0].stmts.push(stmt);
            proof {
                let b = block.0 as int;
                assert(self.blocks@[b]@ =~= BlockModel {
                    kind: old(self).blocks@[b].kind,
                    stmts: old(self).blocks@[b]@.stmts.push(model),
                });
                assert(self@.blocks =~= old(self)@.with_stmt(block, model).blocks);
                assert(self@ =~= old(self)@.with_stmt(block, model));
            }
        }
    }

    /// Whether a block holds a statement that is not a label.
    pub fn has_executable(&self, block: BlockId) -> (r: bool)
        ensures
            r == self@.has_executable(block),
    {
        if block.0 >= self.blocks.len() {
            return false;
        }
        let stmts = &self.blocks[block.0].stmts;
        let ghost models = self@.blocks[block.0 as int].stmts;
        let mut i: usize = 0;
        while i < stmts.len()
            invariant
                i <= stmts@.len(),
                models == stmts@.map_values(|s: StmtRef| s@),
                block.0 < self@.blocks.len(),
                models == self@.blocks[block.0 as int].stmts,
                forall|k: int| 0 <= k < i ==> (#[trigger] models[k]).kind == "label"@,
            decreases stmts@.len() - i,
        {
            assert(models[i as int] == stmts@[i as int]@);
            if !crate::text::same_text(stmts[i].node_kind.as_str(), "label") {
                return true;
            }
            i = i + 1;
        }
        false
    }
}

} // verus!
