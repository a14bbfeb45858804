//! Control-flow graphs of Pascal source.
//!
//! [`build_file_cfgs`] gives the graphs of the executable scopes of one file;
//! [`build_file_cfgs_in_project`] gives those of one unit of a [`ProjectSnapshot`],
//! in which exception classes are known across units. A [`PreparedSource`] is a
//! projection of original files whose bytes can be traced back through a
//! [`SourceMap`]; [`prepare_source`] makes one by deciding conditional directives
//! and expanding includes.

pub mod acceptance_laws;
pub mod choice_laws;
pub mod collection_laws;
pub mod conditions;
pub mod construct_laws;
pub mod constructs;
pub mod declaration_laws;
pub mod directive_laws;
pub mod directives;
pub mod dispatch_laws;
pub mod exception_types;
pub mod expansion;
pub mod expansion_laws;
pub mod flow;
pub mod graph;
pub mod graph_facts;
pub mod graph_laws;
pub mod import_laws;
pub mod include_laws;
pub mod index_laws;
pub mod label_laws;
pub mod labels;
pub mod lookup_laws;
pub mod map_laws;
pub mod pascal_builder;
pub mod preparation;
pub mod prepared;
pub mod project;
pub mod project_index;
pub mod rebuild_laws;
pub mod scope_graph;
pub mod scope_laws;
pub mod source_map;
pub mod statement_laws;
pub mod syntax;
pub mod text;
pub mod text_laws;
pub mod transfer_laws;
pub mod tree_laws;
pub mod try_laws;
pub mod unit_types;
pub mod walk_facts;

pub use graph::{BasicBlock, BasicBlockKind, BlockId, Cfg, Edge, EdgeKind, Graph, StmtRef};
pub use pascal_builder::{build_file_cfgs, build_file_cfgs_in_project};
pub use preparation::{
    prepare_source, IncludeBinding, PreparationBudget, PreparationEnvironment, PreparationLimits,
    PrepareSourceError, PrepareSourceOptions,
};
pub use prepared::{
    PreparationFidelity, PreparationProvenance, PreparedSource, PreparedSourceError,
};
pub use project::{
    ImportBinding, ImportTarget, ProjectBuildError, ProjectSnapshot, ProjectSnapshotError,
    ProjectSourceId, ProjectUnitId, ProjectUnitInput, UsesSite,
};
pub use source_map::{
    ExpansionId, MappedSourceSpan, MappedSpan, SourceMap, SourceMapError, SourceMapSegment,
    SourceSegment, SourceSegmentKind, SourceSnapshot, SourceSnapshotError, SourceSpan,
};
pub use syntax::{SyntaxNode, SyntaxTree};
pub use tree_sitter_pascal::LANGUAGE;
