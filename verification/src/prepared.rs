//! Prepared sources: projections of Pascal text that parse cleanly, hold no
//! unresolved directive and can be traced back to their original files.
//!
//! The projected bytes and a checked [`SourceMap`] come from the caller or from
//! [`crate::prepare_source`], together with the assertion that the projection is
//! complete. The bytes are parsed here, and input that is unresolved, lossy or does
//! not parse is refused.

use vstd::prelude::*;
use std::ops::Range;
use crate::project::{push_source, shown_source, ProjectSourceId};
use crate::source_map::{
    answers, identity_map, segment_models, snapshot_models, MapErrorModel, MapModel,
    MappedSourceSpan, SnapshotModel, SourceMap, SourceMapError, SourceMapSegment, SourceSnapshot,
};
use crate::syntax::{
    pascal_nodes, preorder_list, preprocessor_at, NodeFacts, SyntaxNode, SyntaxTree,
};
use crate::text::{debug_text, decimal, push_decimal, push_range, quoted, same_bytes, shown_range};

verus! {

/// What the caller asserts of a projection.
///
/// `Complete` means that all executable content that matters is represented. It
/// is an assertion: it is not inferred from the text.
#[derive(Debug, Clone, Copy, PartialEq, Eq, Structural, Hash)]
pub enum PreparationFidelity {
    /// All executable content is represented.
    Complete,
    /// Some content or configuration is unresolved.
    Unresolved,
    /// Content was dropped or changed without being accounted for.
    Lossy,
    /// The projection is incomplete in some other way.
    Incomplete,
}

impl PreparationFidelity {
    /// `Complete`, under a name that says that the caller asserts it.
    pub const EXPLICIT_COMPLETE: PreparationFidelity = PreparationFidelity::Complete;

    /// Whether a [`PreparedSource`] may be made with this fidelity.
    pub fn is_complete(self) -> (r: bool)
        ensures
            r == (self == PreparationFidelity::Complete),
    {
        matches!(self, PreparationFidelity::Complete)
    }

    /// The name of the variant.
    pub open spec fn name(self) -> Seq<char> {
        match self {
            PreparationFidelity::Complete => "Complete"@,
            PreparationFidelity::Unresolved => "Unresolved"@,
            PreparationFidelity::Lossy => "Lossy"@,
            PreparationFidelity::Incomplete => "Incomplete"@,
        }
    }

    fn name_text(self) -> (r: &'static str)
        ensures
            r@ == self.name(),
    {
        match self {
            PreparationFidelity::Complete => "Complete",
            PreparationFidelity::Unresolved => "Unresolved",
            PreparationFidelity::Lossy => "Lossy",
            PreparationFidelity::Incomplete => "Incomplete",
        }
    }
}

/// Where a prepared source comes from.
#[derive(Debug, Clone, Copy, PartialEq, Eq, Structural, Hash)]
pub enum PreparationProvenance {
    /// The bytes are those of the original text.
    Raw,
    /// The bytes come from a chosen configuration or include projection.
    Configured,
}

impl PreparationProvenance {
    /// `Raw`, under a name that says that the text maps onto itself.
    pub const RAW_IDENTITY: PreparationProvenance = PreparationProvenance::Raw;
}

/// Why a [`PreparedSource`] was refused.
#[derive(Debug, PartialEq, Eq)]
pub enum PreparedSourceError {
    /// The identity of the prepared source was empty.
    EmptySourceId(ProjectSourceId),
    /// The identity of the configuration was empty.
    EmptyConfigurationId,
    /// The caller did not assert a complete projection.
    RejectedFidelity(PreparationFidelity),
    /// The map speaks of a buffer of another length.
    PreparedLengthMismatch { map_len: usize, prepared_len: usize },
    /// The map speaks of other bytes of the same length.
    PreparedBytesMismatch,
    /// The map was refused.
    SourceMap(SourceMapError),
    /// The parser gave no tree.
    ParserReturnedNoTree,
    /// The bytes do not parse cleanly.
    ParserErrors { range: Range<usize> },
    /// The bytes still hold a directive.
    UnresolvedPreprocessor {
        /// Where the first directive stands.
        range: Range<usize>,
        /// The grammar's name for its node.
        node_kind: String,
    },
}

/// The mathematical value of a [`PreparedSourceError`].
pub enum PreparedErrorModel {
    EmptySourceId(Seq<char>),
    EmptyConfigurationId,
    RejectedFidelity(PreparationFidelity),
    PreparedLengthMismatch { map_len: usize, prepared_len: usize },
    PreparedBytesMismatch,
    SourceMap(MapErrorModel),
    ParserReturnedNoTree,
    ParserErrors { range: Range<usize> },
    UnresolvedPreprocessor { range: Range<usize>, node_kind: Seq<char> },
}

impl View for PreparedSourceError {
    type V = PreparedErrorModel;

    open spec fn view(&self) -> PreparedErrorModel {
        match *self {
            PreparedSourceError::EmptySourceId(id) => PreparedErrorModel::EmptySourceId(id@),
            PreparedSourceError::EmptyConfigurationId => PreparedErrorModel::EmptyConfigurationId,
            PreparedSourceError::RejectedFidelity(fidelity) => {
                PreparedErrorModel::RejectedFidelity(fidelity)
            },
            PreparedSourceError::PreparedLengthMismatch { map_len, prepared_len } => {
                PreparedErrorModel::PreparedLengthMismatch { map_len, prepared_len }
            },
            PreparedSourceError::PreparedBytesMismatch => PreparedErrorModel::PreparedBytesMismatch,
            PreparedSourceError::SourceMap(error) => PreparedErrorModel::SourceMap(error@),
            PreparedSourceError::ParserReturnedNoTree => PreparedErrorModel::ParserReturnedNoTree,
            PreparedSourceError::ParserErrors { range } => {
                PreparedErrorModel::ParserErrors { range }
            },
            PreparedSourceError::UnresolvedPreprocessor { range, node_kind } => {
                PreparedErrorModel::UnresolvedPreprocessor { range, node_kind: node_kind@ }
            },
        }
    }
}

impl Clone for PreparedSourceError {
    fn clone(&self) -> (r: PreparedSourceError)
        ensures
            r@ == self@,
    {
        match self {
            PreparedSourceError::EmptySourceId(id) => PreparedSourceError::EmptySourceId(
                id.clone(),
            ),
            PreparedSourceError::EmptyConfigurationId => PreparedSourceError::EmptyConfigurationId,
            PreparedSourceError::RejectedFidelity(fidelity) => {
                PreparedSourceError::RejectedFidelity(*fidelity)
            },
            PreparedSourceError::PreparedLengthMismatch { map_len, prepared_len } => {
                PreparedSourceError::PreparedLengthMismatch {
                    map_len: *map_len,
                    prepared_len: *prepared_len,
                }
            },
            PreparedSourceError::PreparedBytesMismatch => {
                PreparedSourceError::PreparedBytesMismatch
            },
            PreparedSourceError::SourceMap(error) => PreparedSourceError::SourceMap(error.clone()),
            PreparedSourceError::ParserReturnedNoTree => PreparedSourceError::ParserReturnedNoTree,
            PreparedSourceError::ParserErrors { range } => PreparedSourceError::ParserErrors {
                range: range.start..range.end,
            },
            PreparedSourceError::UnresolvedPreprocessor { range, node_kind } => {
                PreparedSourceError::UnresolvedPreprocessor {
                    range: range.start..range.end,
                    node_kind: node_kind.clone(),
                }
            },
        }
    }
}

impl PreparedErrorModel {
    /// The error in words.
    pub open spec fn message(self) -> Seq<char> {
        match self {
            PreparedErrorModel::EmptySourceId(id) => {
                "prepared source ID "@ + shown_source(id) + " must not be empty"@
            },
            PreparedErrorModel::EmptyConfigurationId => {
                "prepared source configuration ID must not be empty"@
            },
            PreparedErrorModel::RejectedFidelity(fidelity) => {
                "prepared source requires an explicit complete projection, got "@ + fidelity.name()
            },
            PreparedErrorModel::PreparedLengthMismatch { map_len, prepared_len } => {
                "source map prepared length "@ + decimal(map_len as nat)
                    + " does not match prepared length "@ + decimal(prepared_len as nat)
            },
            PreparedErrorModel::PreparedBytesMismatch => {
                "source map was validated against different prepared bytes of the same length"@
            },
            PreparedErrorModel::SourceMap(error) => {
                "invalid prepared source map: "@ + error.message()
            },
            PreparedErrorModel::ParserReturnedNoTree => "Pascal parser returned no tree"@,
            PreparedErrorModel::ParserErrors { range } => {
                "prepared Pascal source contains parser errors in "@ + shown_range(
                    range.start,
                    range.end,
                )
            },
            PreparedErrorModel::UnresolvedPreprocessor { range, node_kind } => {
                "raw identity preparation cannot claim completeness for "@ + quoted(node_kind)
                    + " in "@ + shown_range(range.start, range.end)
            },
        }
    }
}

impl PreparedSourceError {
    /// The error in words.
    pub fn message(&self) -> (r: String)
        ensures
            r@ == self@.message(),
    {
        match self {
            PreparedSourceError::EmptySourceId(id) => {
                let mut out = "prepared source ID ".to_owned();
                push_source(&mut out, id);
                out.append(" must not be empty");
                out
            },
            PreparedSourceError::EmptyConfigurationId => {
                "prepared source configuration ID must not be empty".to_owned()
            },
            PreparedSourceError::RejectedFidelity(fidelity) => {
                let mut out =
                    "prepared source requires an explicit complete projection, got ".to_owned();
                out.append(fidelity.name_text());
                out
            },
            PreparedSourceError::PreparedLengthMismatch { map_len, prepared_len } => {
                let mut out = "source map prepared length ".to_owned();
                push_decimal(&mut out, *map_len);
                out.append(" does not match prepared length ");
                push_decimal(&mut out, *prepared_len);
                out
            },
            PreparedSourceError::PreparedBytesMismatch => {
                "source map was validated against different prepared bytes of the same length".to_owned()
            },
            PreparedSourceError::SourceMap(error) => {
                let mut out = "invalid prepared source map: ".to_owned();
                out.append(error.message().as_str());
                out
            },
            PreparedSourceError::ParserReturnedNoTree => {
                "Pascal parser returned no tree".to_owned()
            },
            PreparedSourceError::ParserErrors { range } => {
                let mut out = "prepared Pascal source contains parser errors in ".to_owned();
                push_range(&mut out, range.start, range.end);
                out
            },
            PreparedSourceError::UnresolvedPreprocessor { range, node_kind } => {
                let mut out = "raw identity preparation cannot claim completeness for ".to_owned();
                out.append(debug_text(node_kind.as_str()).as_str());
                out.append(" in ");
                push_range(&mut out, range.start, range.end);
                out
            },
        }
    }

    /// The error of the map, where that was the reason.
    pub fn source(&self) -> (r: Option<&SourceMapError>)
        ensures
            match r {
                Some(error) => *self == PreparedSourceError::SourceMap(*error),
                None => !(self is SourceMap),
            },
    {
        match self {
            PreparedSourceError::SourceMap(error) => Some(error),
            _ => None,
        }
    }
}

impl From<SourceMapError> for PreparedSourceError {
    fn from(error: SourceMapError) -> (r: PreparedSourceError) {
        PreparedSourceError::SourceMap(error)
    }
}

impl vstd::std_specs::convert::FromSpecImpl<SourceMapError> for PreparedSourceError {
    open spec fn obeys_from_spec() -> bool {
        true
    }

    open spec fn from_spec(error: SourceMapError) -> PreparedSourceError {
        PreparedSourceError::SourceMap(error)
    }
}

/// The range and the kind of the first directive among nodes in pre-order.
pub open spec fn first_directive(nodes: Seq<NodeFacts>, source: Seq<u8>) -> Option<
    (Range<usize>, Seq<char>),
>
    decreases nodes.len(),
{
    if nodes.len() == 0 {
        None
    } else if preprocessor_at(nodes[0].kind, nodes[0].start, nodes[0].end, source) {
        Some((Range { start: nodes[0].start, end: nodes[0].end }, nodes[0].kind))
    } else {
        first_directive(nodes.drop_first(), source)
    }
}

proof fn lemma_first_directive(a: Seq<NodeFacts>, b: Seq<NodeFacts>, source: Seq<u8>)
    ensures
        first_directive(a + b, source) == (match first_directive(a, source) {
            Some(found) => Some(found),
            None => first_directive(b, source),
        }),
    decreases a.len(),
{
    if a.len() == 0 {
        assert(a + b =~= b);
    } else {
        assert((a + b).drop_first() =~= a.drop_first() + b);
        lemma_first_directive(a.drop_first(), b, source);
    }
}

proof fn lemma_directive_in_list(
    nodes: Seq<SyntaxNode>,
    depth: int,
    k: int,
    n: int,
    source: Seq<u8>,
)
    requires
        0 <= k <= n <= nodes.len(),
        first_directive(preorder_list(nodes, depth, k), source) is Some,
    ensures
        first_directive(preorder_list(nodes, depth, n), source) == first_directive(
            preorder_list(nodes, depth, k),
            source,
        ),
    decreases n - k,
{
    if k < n {
        lemma_directive_in_list(nodes, depth, k, n - 1, source);
        lemma_first_directive(
            preorder_list(nodes, depth, n - 1),
            nodes[n - 1].preorder(depth),
            source,
        );
    }
}

/// Whether the found node is the one described.
pub open spec fn same_directive(
    found: Option<(Range<usize>, String)>,
    expected: Option<(Range<usize>, Seq<char>)>,
) -> bool {
    match found {
        Some((range, kind)) => expected == Some((range, kind@)),
        None => expected is None,
    }
}

fn first_preprocessor_node(node: &SyntaxNode, source: &[u8], Ghost(depth): Ghost<int>) -> (r:
    Option<(Range<usize>, String)>)
    ensures
        same_directive(r, first_directive(node.preorder(depth), source@)),
    decreases node,
{
    let ghost below = preorder_list(node.children@, depth + 1, node.children@.len() as int);
    proof {
        assert(node.preorder(depth).drop_first() =~= below);
        assert(node.preorder(depth)[0] == node.facts(depth));
    }
    if node.is_preprocessor_node(source) {
        return Some((node.start..node.end, node.kind.clone()));
    }
    let mut i: usize = 0;
    assert(first_directive(preorder_list(node.children@, depth + 1, 0), source@) is None);
    while i < node.children.len()
        invariant
            i <= node.children@.len(),
            first_directive(preorder_list(node.children@, depth + 1, i as int), source@) is None,
            below == preorder_list(node.children@, depth + 1, node.children@.len() as int),
            first_directive(node.preorder(depth), source@) == first_directive(below, source@),
        decreases node.children@.len() - i,
    {
        let found = first_preprocessor_node(&node.children[i], source, Ghost(depth + 1));
        proof {
            lemma_first_directive(
                preorder_list(node.children@, depth + 1, i as int),
                node.children@[i as int].preorder(depth + 1),
                source@,
            );
        }
        if found.is_some() {
            proof {
                lemma_directive_in_list(
                    node.children@,
                    depth + 1,
                    i as int + 1,
                    node.children@.len() as int,
                    source@,
                );
            }
            return found;
        }
        i = i + 1;
    }
    None
}

/// Why the nodes of a parse are refused: there are none, the root holds a syntax
/// error, or a directive is left.
pub open spec fn parse_error(nodes: Option<Seq<NodeFacts>>, source: Seq<u8>) -> Option<
    PreparedErrorModel,
> {
    match nodes {
        None => Some(PreparedErrorModel::ParserReturnedNoTree),
        Some(found) => if found[0].error {
            Some(
                PreparedErrorModel::ParserErrors {
                    range: Range { start: found[0].start, end: found[0].end },
                },
            )
        } else {
            match first_directive(found, source) {
                Some((range, node_kind)) => Some(
                    PreparedErrorModel::UnresolvedPreprocessor { range, node_kind },
                ),
                None => None,
            }
        },
    }
}

/// The nodes of a tree, where there is one.
pub open spec fn nodes_of(tree: Option<SyntaxTree>) -> Option<Seq<NodeFacts>> {
    match tree {
        Some(t) => Some(t.nodes()),
        None => None,
    }
}

fn check_parse(tree: &Option<SyntaxTree>, source: &[u8]) -> (r: Option<PreparedSourceError>)
    ensures
        match r {
            Some(error) => parse_error(nodes_of(*tree), source@) == Some(error@),
            None => parse_error(nodes_of(*tree), source@) is None,
        },
{
    match tree {
        None => Some(PreparedSourceError::ParserReturnedNoTree),
        Some(t) => {
            assert(t.nodes()[0] == t.root.facts(0));
            if t.root.error {
                return Some(
                    PreparedSourceError::ParserErrors { range: t.root.start..t.root.end },
                );
            }
            match first_preprocessor_node(&t.root, source, Ghost(0)) {
                Some((range, node_kind)) => Some(
                    PreparedSourceError::UnresolvedPreprocessor { range, node_kind },
                ),
                None => None,
            }
        },
    }
}

/// Why a projection is refused: the first reason, in the order in which they are
/// looked at.
pub open spec fn preparation_error(
    prepared: PreparedModel,
    bytes: Seq<u8>,
    nodes: Option<Seq<NodeFacts>>,
) -> Option<PreparedErrorModel> {
    if prepared.source_id.len() == 0 {
        Some(PreparedErrorModel::EmptySourceId(prepared.source_id))
    } else if prepared.configuration_id.len() == 0 {
        Some(PreparedErrorModel::EmptyConfigurationId)
    } else if prepared.fidelity != PreparationFidelity::Complete {
        Some(PreparedErrorModel::RejectedFidelity(prepared.fidelity))
    } else if prepared.map.prepared.len() != bytes.len() {
        Some(
            PreparedErrorModel::PreparedLengthMismatch {
                map_len: prepared.map.prepared.len() as usize,
                prepared_len: bytes.len() as usize,
            },
        )
    } else if prepared.map.prepared != bytes {
        Some(PreparedErrorModel::PreparedBytesMismatch)
    } else {
        parse_error(nodes, bytes)
    }
}

/// Why a text that is to stand for itself is refused: what the parse shows comes
/// first.
pub open spec fn identity_error(
    source: SnapshotModel,
    configuration_id: Seq<char>,
    nodes: Option<Seq<NodeFacts>>,
) -> Option<PreparedErrorModel> {
    match parse_error(nodes, source.bytes) {
        Some(error) => Some(error),
        None => if source.source_id.len() == 0 {
            Some(PreparedErrorModel::SourceMap(MapErrorModel::EmptySourceId(source.source_id)))
        } else if configuration_id.len() == 0 {
            Some(PreparedErrorModel::EmptyConfigurationId)
        } else {
            None
        },
    }
}

/// A projection that parses cleanly, holds no directive and has a checked map.
///
/// The identity is that of the prepared text. The original files are reached
/// through the map.
#[derive(Debug)]
pub struct PreparedSource {
    source_id: ProjectSourceId,
    tree: SyntaxTree,
    source_map: SourceMap,
    configuration_id: String,
    fidelity: PreparationFidelity,
    provenance: PreparationProvenance,
}

/// The mathematical value of a [`PreparedSource`] but for its tree.
#[verifier::ext_equal]
pub struct PreparedModel {
    pub source_id: Seq<char>,
    pub map: MapModel,
    pub configuration_id: Seq<char>,
    pub fidelity: PreparationFidelity,
    pub provenance: PreparationProvenance,
}

impl View for PreparedSource {
    type V = PreparedModel;

    closed spec fn view(&self) -> PreparedModel {
        PreparedModel {
            source_id: self.source_id@,
            map: self.source_map@,
            configuration_id: self.configuration_id@,
            fidelity: self.fidelity,
            provenance: self.provenance,
        }
    }
}

impl Clone for PreparedSource {
    fn clone(&self) -> (r: PreparedSource)
        ensures
            r@ == self@,
            r.syntax().nodes() == self.syntax().nodes(),
    {
        proof {
            use_type_invariant(self);
        }
        PreparedSource {
            source_id: self.source_id.clone(),
            tree: self.tree.clone(),
            source_map: self.source_map.clone(),
            configuration_id: self.configuration_id.clone(),
            fidelity: self.fidelity,
            provenance: self.provenance,
        }
    }
}

impl PreparedSource {
    /// The parse tree of the prepared text.
    pub closed spec fn syntax(&self) -> SyntaxTree {
        self.tree
    }

    #[verifier::type_invariant]
    spec fn checked(&self) -> bool {
        preparation_error(self@, self.source_map@.prepared, Some(self.tree.nodes())) is None
    }

    /// Parses and checks a projection.
    ///
    /// The map has been checked against the very bytes given here. Only a
    /// projection that the caller asserts to be complete is accepted, and only
    /// where it parses cleanly and holds no directive.
    pub fn new(
        source_id: ProjectSourceId,
        prepared_bytes: &[u8],
        source_map: SourceMap,
        configuration_id: &str,
        fidelity: PreparationFidelity,
        provenance: PreparationProvenance,
    ) -> (r: Result<PreparedSource, PreparedSourceError>)
        ensures
            ({
                let model = PreparedModel {
                    source_id: source_id@,
                    map: source_map@,
                    configuration_id: configuration_id@,
                    fidelity,
                    provenance,
                };
                let nodes = pascal_nodes(prepared_bytes@);
                match r {
                    Ok(prepared) => preparation_error(model, prepared_bytes@, nodes) is None
                        && prepared@ == model && Some(prepared.syntax().nodes()) == nodes,
                    Err(error) => preparation_error(model, prepared_bytes@, nodes) == Some(error@),
                }
            }),
    {
        PreparedSource::from_parsed(
            source_id,
            prepared_bytes,
            SyntaxTree::parse(prepared_bytes),
            source_map,
            configuration_id,
            fidelity,
            provenance,
        )
    }

    /// Checks a projection whose bytes have been parsed.
    pub fn from_parsed(
        source_id: ProjectSourceId,
        prepared_bytes: &[u8],
        tree: Option<SyntaxTree>,
        source_map: SourceMap,
        configuration_id: &str,
        fidelity: PreparationFidelity,
        provenance: PreparationProvenance,
    ) -> (r: Result<PreparedSource, PreparedSourceError>)
        ensures
            ({
                let model = PreparedModel {
                    source_id: source_id@,
                    map: source_map@,
                    configuration_id: configuration_id@,
                    fidelity,
                    provenance,
                };
                match r {
                    Ok(prepared) => preparation_error(model, prepared_bytes@, nodes_of(tree))
                        is None && prepared@ == model && Some(prepared.syntax()) == tree,
                    Err(error) => preparation_error(model, prepared_bytes@, nodes_of(tree))
                        == Some(error@),
                }
            }),
    {
        if source_id.is_empty() {
            return Err(PreparedSourceError::EmptySourceId(source_id));
        }
        if configuration_id.is_empty() {
            return Err(PreparedSourceError::EmptyConfigurationId);
        }
        if !fidelity.is_complete() {
            return Err(PreparedSourceError::RejectedFidelity(fidelity));
        }
        if source_map.prepared_len() != prepared_bytes.len() {
            return Err(
                PreparedSourceError::PreparedLengthMismatch {
                    map_len: source_map.prepared_len(),
                    prepared_len: prepared_bytes.len(),
                },
            );
        }
        if !same_bytes(source_map.prepared_bytes(), prepared_bytes) {
            return Err(PreparedSourceError::PreparedBytesMismatch);
        }
        if let Some(error) = check_parse(&tree, prepared_bytes) {
            return Err(error);
        }
        match tree {
            Some(parsed) => Ok(
                PreparedSource {
                    source_id,
                    tree: parsed,
                    source_map,
                    configuration_id: configuration_id.to_owned(),
                    fidelity,
                    provenance,
                },
            ),
            None => Err(PreparedSourceError::ParserReturnedNoTree),
        }
    }

    /// Checks the segments as a map of the bytes and then the projection.
    pub fn from_segments(
        source_id: ProjectSourceId,
        prepared_bytes: &[u8],
        original_sources: Vec<SourceSnapshot>,
        segments: Vec<SourceMapSegment>,
        configuration_id: &str,
        fidelity: PreparationFidelity,
        provenance: PreparationProvenance,
    ) -> (r: Result<PreparedSource, PreparedSourceError>)
        ensures
            ({
                let map = MapModel {
                    prepared: prepared_bytes@,
                    sources: snapshot_models(original_sources@),
                    segments: segment_models(segments@),
                };
                let model = PreparedModel {
                    source_id: source_id@,
                    map,
                    configuration_id: configuration_id@,
                    fidelity,
                    provenance,
                };
                let nodes = pascal_nodes(prepared_bytes@);
                let problem = match map.error() {
                    Some(error) => Some(PreparedErrorModel::SourceMap(error)),
                    None => preparation_error(model, prepared_bytes@, nodes),
                };
                match r {
                    Ok(prepared) => problem is None && prepared@ == model && Some(
                        prepared.syntax().nodes(),
                    ) == nodes,
                    Err(error) => problem == Some(error@),
                }
            }),
    {
        match SourceMap::new(prepared_bytes, original_sources, segments) {
            Err(error) => Err(PreparedSourceError::from(error)),
            Ok(source_map) => PreparedSource::new(
                source_id,
                prepared_bytes,
                source_map,
                configuration_id,
                fidelity,
                provenance,
            ),
        }
    }

    /// Takes a text as its own complete projection.
    ///
    /// The text must parse cleanly and hold no directive: an include or a
    /// conditional is never taken for complete.
    pub fn identity(source_id: ProjectSourceId, bytes: &[u8], configuration_id: &str) -> (r: Result<
        PreparedSource,
        PreparedSourceError,
    >)
        ensures
            ({
                let source = SnapshotModel { source_id: source_id@, bytes: bytes@ };
                let nodes = pascal_nodes(bytes@);
                match r {
                    Ok(prepared) => identity_error(source, configuration_id@, nodes) is None
                        && prepared@ == (PreparedModel {
                        source_id: source_id@,
                        map: identity_map(source),
                        configuration_id: configuration_id@,
                        fidelity: PreparationFidelity::Complete,
                        provenance: PreparationProvenance::Raw,
                    }) && Some(prepared.syntax().nodes()) == nodes,
                    Err(error) => identity_error(source, configuration_id@, nodes) == Some(error@),
                }
            }),
    {
        PreparedSource::identity_from_parsed(
            source_id,
            bytes,
            SyntaxTree::parse(bytes),
            configuration_id,
        )
    }

    /// Takes a text that has been parsed as its own complete projection.
    pub fn identity_from_parsed(
        source_id: ProjectSourceId,
        bytes: &[u8],
        tree: Option<SyntaxTree>,
        configuration_id: &str,
    ) -> (r: Result<PreparedSource, PreparedSourceError>)
        ensures
            ({
                let source = SnapshotModel { source_id: source_id@, bytes: bytes@ };
                match r {
                    Ok(prepared) => identity_error(source, configuration_id@, nodes_of(tree))
                        is None && prepared@ == (PreparedModel {
                        source_id: source_id@,
                        map: identity_map(source),
                        configuration_id: configuration_id@,
                        fidelity: PreparationFidelity::Complete,
                        provenance: PreparationProvenance::Raw,
                    }) && Some(prepared.syntax()) == tree,
                    Err(error) => identity_error(source, configuration_id@, nodes_of(tree)) == Some(
                        error@,
                    ),
                }
            }),
    {
        if let Some(error) = check_parse(&tree, bytes) {
            return Err(error);
        }
        match SourceMap::identity_for(source_id.clone(), bytes) {
            Err(error) => Err(PreparedSourceError::from(error)),
            Ok(source_map) => PreparedSource::from_parsed(
                source_id,
                bytes,
                tree,
                source_map,
                configuration_id,
                PreparationFidelity::Complete,
                PreparationProvenance::Raw,
            ),
        }
    }

    /// The identity of the prepared text.
    pub fn source_id(&self) -> (r: &ProjectSourceId)
        ensures
            r@ == self@.source_id,
            r@.len() > 0,
    {
        proof {
            use_type_invariant(self);
        }
        &self.source_id
    }

    /// The prepared bytes.
    pub fn bytes(&self) -> (r: &[u8])
        ensures
            r@ == self@.map.prepared,
    {
        self.source_map.prepared_bytes()
    }

    /// The parse tree of the prepared bytes. It holds no syntax error and no
    /// directive.
    pub fn tree(&self) -> (r: &SyntaxTree)
        ensures
            *r == self.syntax(),
            parse_error(Some(r.nodes()), self@.map.prepared) is None,
    {
        proof {
            use_type_invariant(self);
        }
        &self.tree
    }

    /// The map to the original sources.
    pub fn source_map(&self) -> (r: &SourceMap)
        ensures
            r@ == self@.map,
    {
        &self.source_map
    }

    /// The original sources.
    pub fn original_sources(&self) -> (r: &[SourceSnapshot])
        ensures
            snapshot_models(r@) == self@.map.sources,
    {
        self.source_map.original_sources()
    }

    /// The configuration under which the projection was made.
    pub fn configuration_id(&self) -> (r: &str)
        ensures
            r@ == self@.configuration_id,
            r@.len() > 0,
    {
        proof {
            use_type_invariant(self);
        }
        self.configuration_id.as_str()
    }

    /// What the caller asserted of the projection: that it is complete.
    pub fn fidelity(&self) -> (r: PreparationFidelity)
        ensures
            r == self@.fidelity,
            r == PreparationFidelity::Complete,
    {
        proof {
            use_type_invariant(self);
        }
        self.fidelity
    }

    /// Where the projection comes from.
    pub fn provenance(&self) -> (r: PreparationProvenance)
        ensures
            r == self@.provenance,
    {
        self.provenance
    }

    /// The origins of a range of the prepared bytes.
    pub fn map_range(&self, prepared_range: Range<usize>) -> (r: Result<
        Vec<MappedSourceSpan>,
        SourceMapError,
    >)
        ensures
            answers(self@.map, prepared_range, r),
    {
        self.source_map.map_range(prepared_range)
    }

    /// Takes the prepared source apart.
    pub(crate) fn into_parts(self) -> (r: (
        ProjectSourceId,
        SyntaxTree,
        SourceMap,
        String,
        PreparationFidelity,
        PreparationProvenance,
    ))
        ensures
            r.0@ == self@.source_id,
            r.1 == self.syntax(),
            r.2@ == self@.map,
            r.3@ == self@.configuration_id,
            r.4 == self@.fidelity,
            r.5 == self@.provenance,
    {
        (
            self.source_id,
            self.tree,
            self.source_map,
            self.configuration_id,
            self.fidelity,
            self.provenance,
        )
    }
}

} // verus!
