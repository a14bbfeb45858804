//! Validated mappings between a prepared Pascal buffer and its source files.
//!
//! The mapping is a contract that the caller supplies. Nothing here discovers
//! include files or decides which conditional branch is active: a map is checked
//! against the bytes it speaks of, and queries are answered from it. A synthetic
//! segment has no origin; a masked segment keeps the line breaks of its origin.

use vstd::prelude::*;
use vstd::slice::slice_to_vec;
use std::ops::Range;
use crate::project::{push_source, shown_source, ProjectSourceId};
use crate::text::{
    debug_text, decimal, hex_digit, push_decimal, push_hex, push_range, quoted, same_bytes,
    same_text, shown_range,
};

verus! {

/// One exact source text together with its identity.
#[derive(Debug, PartialEq, Eq)]
pub struct SourceSnapshot {
    source_id: ProjectSourceId,
    bytes: Vec<u8>,
}

/// The mathematical value of a [`SourceSnapshot`].
#[verifier::ext_equal]
pub struct SnapshotModel {
    pub source_id: Seq<char>,
    pub bytes: Seq<u8>,
}

impl View for SourceSnapshot {
    type V = SnapshotModel;

    closed spec fn view(&self) -> SnapshotModel {
        SnapshotModel { source_id: self.source_id@, bytes: self.bytes@ }
    }
}

impl SourceSnapshot {
    /// A snapshot of the given bytes. An empty identity is accepted here and
    /// rejected where the snapshot is used in a map or a project.
    pub fn new(source_id: ProjectSourceId, bytes: &[u8]) -> (r: SourceSnapshot)
        ensures
            r@ == (SnapshotModel { source_id: source_id@, bytes: bytes@ }),
    {
        SourceSnapshot { source_id, bytes: slice_to_vec(bytes) }
    }

    /// A snapshot of the given bytes whose identity is not empty.
    pub fn try_new(source_id: ProjectSourceId, bytes: &[u8]) -> (r: Result<
        SourceSnapshot,
        SourceSnapshotError,
    >)
        ensures
            match r {
                Ok(snapshot) => source_id@.len() > 0 && snapshot@ == (SnapshotModel {
                    source_id: source_id@,
                    bytes: bytes@,
                }),
                Err(error) => source_id@.len() == 0 && error is EmptySourceId,
            },
    {
        if source_id.is_empty() {
            return Err(SourceSnapshotError::EmptySourceId);
        }
        Ok(SourceSnapshot::new(source_id, bytes))
    }

    /// The identity of this source text.
    pub fn source_id(&self) -> (r: &ProjectSourceId)
        ensures
            r@ == self@.source_id,
    {
        &self.source_id
    }

    /// The bytes of this source text.
    pub fn bytes(&self) -> (r: &[u8])
        ensures
            r@ == self@.bytes,
    {
        self.bytes.as_slice()
    }

    /// The number of bytes.
    pub fn len(&self) -> (r: usize)
        ensures
            r == self@.bytes.len(),
    {
        self.bytes.len()
    }

    /// Whether there are no bytes.
    pub fn is_empty(&self) -> (r: bool)
        ensures
            r == (self@.bytes.len() == 0),
    {
        self.bytes.len() == 0
    }
}

impl Clone for SourceSnapshot {
    fn clone(&self) -> (r: SourceSnapshot)
        ensures
            r@ == self@,
    {
        SourceSnapshot::new(self.source_id.clone(), self.bytes.as_slice())
    }
}

/// The models of a list of snapshots.
pub open spec fn snapshot_models(v: Seq<SourceSnapshot>) -> Seq<SnapshotModel> {
    v.map_values(|s: SourceSnapshot| s@)
}

/// Why a [`SourceSnapshot`] was refused.
#[derive(Debug, Clone, Copy, PartialEq, Eq)]
pub enum SourceSnapshotError {
    /// The identity was empty.
    EmptySourceId,
}

impl SourceSnapshotError {
    /// The error in words.
    pub fn message(&self) -> (r: String)
        ensures
            r@ == "source snapshot ID must not be empty"@,
    {
        match self {
            SourceSnapshotError::EmptySourceId => "source snapshot ID must not be empty".to_owned(),
        }
    }
}

/// A range of bytes in one original source.
#[derive(Debug, PartialEq, Eq, Hash)]
pub struct SourceSpan {
    /// The source that holds the range.
    pub source_id: ProjectSourceId,
    /// Half-open range of bytes in that source.
    pub byte_range: Range<usize>,
}

/// The mathematical value of a [`SourceSpan`].
#[verifier::ext_equal]
pub struct SpanModel {
    pub source_id: Seq<char>,
    pub start: usize,
    pub end: usize,
}

impl View for SourceSpan {
    type V = SpanModel;

    open spec fn view(&self) -> SpanModel {
        SpanModel {
            source_id: self.source_id@,
            start: self.byte_range.start,
            end: self.byte_range.end,
        }
    }
}

/// The model of an optional span.
pub open spec fn span_model(span: Option<SourceSpan>) -> Option<SpanModel> {
    match span {
        Some(s) => Some(s@),
        None => None,
    }
}

impl SourceSpan {
    /// The span of a range in a source.
    pub fn new(source_id: ProjectSourceId, byte_range: Range<usize>) -> (r: SourceSpan)
        ensures
            r.source_id == source_id,
            r.byte_range == byte_range,
    {
        SourceSpan { source_id, byte_range }
    }

    /// The source that holds the range.
    pub fn source_id(&self) -> (r: &ProjectSourceId)
        ensures
            *r == self.source_id,
    {
        &self.source_id
    }

    /// The range in the source.
    pub fn byte_range(&self) -> (r: Range<usize>)
        ensures
            r == self.byte_range,
    {
        copy_range(&self.byte_range)
    }
}

impl Clone for SourceSpan {
    fn clone(&self) -> (r: SourceSpan)
        ensures
            r@ == self@,
    {
        SourceSpan::new(self.source_id.clone(), copy_range(&self.byte_range))
    }
}

fn copy_span(span: &Option<SourceSpan>) -> (r: Option<SourceSpan>)
    ensures
        span_model(r) == span_model(*span),
{
    match span {
        Some(s) => Some(s.clone()),
        None => None,
    }
}

fn copy_range(range: &Range<usize>) -> (r: Range<usize>)
    ensures
        r == *range,
{
    range.start..range.end
}

/// Identity of one occurrence of an expansion: the root text or one inclusion.
///
/// Including the same source again takes another identity. The text is opaque;
/// callers may write nested occurrences as `include-1/nested`.
#[derive(Debug, PartialEq, Eq, Hash, PartialOrd, Ord)]
pub struct ExpansionId(String);

impl View for ExpansionId {
    type V = Seq<char>;

    closed spec fn view(&self) -> Seq<char> {
        self.0@
    }
}

impl ExpansionId {
    /// An identity with the given text.
    pub fn new(value: &str) -> (r: ExpansionId)
        ensures
            r@ == value@,
    {
        ExpansionId(value.to_owned())
    }

    /// The identity of bytes that belong to the root text.
    pub fn root() -> (r: ExpansionId)
        ensures
            r@ == "root"@,
    {
        ExpansionId::new("root")
    }

    /// The text of the identity.
    pub fn as_str(&self) -> (r: &str)
        ensures
            r@ == self@,
    {
        self.0.as_str()
    }
}

impl Clone for ExpansionId {
    fn clone(&self) -> (r: ExpansionId)
        ensures
            r@ == self@,
    {
        ExpansionId(self.0.clone())
    }
}

impl From<&str> for ExpansionId {
    fn from(value: &str) -> (r: ExpansionId)
        ensures
            r@ == value@,
    {
        ExpansionId::new(value)
    }
}

impl vstd::std_specs::convert::FromSpecImpl<&str> for ExpansionId {
    open spec fn obeys_from_spec() -> bool {
        false
    }

    open spec fn from_spec(value: &str) -> ExpansionId {
        arbitrary()
    }
}

impl From<String> for ExpansionId {
    fn from(value: String) -> (r: ExpansionId)
        ensures
            r@ == value@,
    {
        ExpansionId(value)
    }
}

impl vstd::std_specs::convert::FromSpecImpl<String> for ExpansionId {
    open spec fn obeys_from_spec() -> bool {
        false
    }

    open spec fn from_spec(value: String) -> ExpansionId {
        arbitrary()
    }
}

/// How prepared bytes relate to their origin.
#[derive(Debug, Clone, Copy, PartialEq, Eq, Structural, Hash, PartialOrd, Ord)]
pub enum SourceSegmentKind {
    /// The bytes are those of the origin.
    Copied,
    /// The bytes are white space of the same length, with the origin's line
    /// breaks.
    Masked,
    /// The bytes have no origin.
    Synthetic,
}

impl SourceSegmentKind {
    /// The name of the variant.
    pub open spec fn name(self) -> Seq<char> {
        match self {
            SourceSegmentKind::Copied => "Copied"@,
            SourceSegmentKind::Masked => "Masked"@,
            SourceSegmentKind::Synthetic => "Synthetic"@,
        }
    }

    fn name_text(self) -> (r: &'static str)
        ensures
            r@ == self.name(),
    {
        match self {
            SourceSegmentKind::Copied => "Copied",
            SourceSegmentKind::Masked => "Masked",
            SourceSegmentKind::Synthetic => "Synthetic",
        }
    }
}

/// One segment of a prepared buffer.
///
/// Several segments may share an original range where a source is included more
/// than once: the [`ExpansionId`] tells them apart.
#[derive(Debug, PartialEq, Eq)]
pub struct SourceMapSegment {
    /// Half-open range in the prepared buffer.
    pub prepared_range: Range<usize>,
    /// Where copied or masked bytes come from; `None` for synthetic bytes.
    pub original: Option<SourceSpan>,
    /// The occurrence that the segment belongs to.
    pub expansion_id: ExpansionId,
    /// How the bytes relate to their origin.
    pub kind: SourceSegmentKind,
}

/// The mathematical value of a segment, or of the part of it that a query covers.
#[verifier::ext_equal]
pub struct SegmentModel {
    pub start: usize,
    pub end: usize,
    pub original: Option<SpanModel>,
    pub expansion_id: Seq<char>,
    pub kind: SourceSegmentKind,
}

impl View for SourceMapSegment {
    type V = SegmentModel;

    open spec fn view(&self) -> SegmentModel {
        SegmentModel {
            start: self.prepared_range.start,
            end: self.prepared_range.end,
            original: span_model(self.original),
            expansion_id: self.expansion_id@,
            kind: self.kind,
        }
    }
}

/// The models of a list of segments.
pub open spec fn segment_models(v: Seq<SourceMapSegment>) -> Seq<SegmentModel> {
    v.map_values(|s: SourceMapSegment| s@)
}

impl SourceMapSegment {
    /// A segment whose bytes are those of its origin.
    pub fn copied(
        prepared_range: Range<usize>,
        source_id: ProjectSourceId,
        original_range: Range<usize>,
        expansion_id: ExpansionId,
    ) -> (r: SourceMapSegment)
        ensures
            r.prepared_range == prepared_range,
            r.original == Some(SourceSpan { source_id, byte_range: original_range }),
            r.expansion_id == expansion_id,
            r.kind == SourceSegmentKind::Copied,
    {
        SourceMapSegment {
            prepared_range,
            original: Some(SourceSpan::new(source_id, original_range)),
            expansion_id,
            kind: SourceSegmentKind::Copied,
        }
    }

    /// A segment whose origin is masked by white space.
    pub fn masked(
        prepared_range: Range<usize>,
        source_id: ProjectSourceId,
        original_range: Range<usize>,
        expansion_id: ExpansionId,
    ) -> (r: SourceMapSegment)
        ensures
            r.prepared_range == prepared_range,
            r.original == Some(SourceSpan { source_id, byte_range: original_range }),
            r.expansion_id == expansion_id,
            r.kind == SourceSegmentKind::Masked,
    {
        SourceMapSegment {
            prepared_range,
            original: Some(SourceSpan::new(source_id, original_range)),
            expansion_id,
            kind: SourceSegmentKind::Masked,
        }
    }

    /// A segment without an origin.
    pub fn synthetic(prepared_range: Range<usize>, expansion_id: ExpansionId) -> (r:
        SourceMapSegment)
        ensures
            r.prepared_range == prepared_range,
            r.original is None,
            r.expansion_id == expansion_id,
            r.kind == SourceSegmentKind::Synthetic,
    {
        SourceMapSegment {
            prepared_range,
            original: None,
            expansion_id,
            kind: SourceSegmentKind::Synthetic,
        }
    }

    /// The range in the prepared buffer.
    pub fn prepared_range(&self) -> (r: Range<usize>)
        ensures
            r == self.prepared_range,
    {
        copy_range(&self.prepared_range)
    }

    /// Where the bytes come from.
    pub fn original(&self) -> (r: Option<&SourceSpan>)
        ensures
            match r {
                Some(span) => self.original == Some(*span),
                None => self.original is None,
            },
    {
        self.original.as_ref()
    }

    /// The occurrence that the segment belongs to.
    pub fn expansion_id(&self) -> (r: &ExpansionId)
        ensures
            *r == self.expansion_id,
    {
        &self.expansion_id
    }

    /// How the bytes relate to their origin.
    pub fn kind(&self) -> (r: SourceSegmentKind)
        ensures
            r == self.kind,
    {
        self.kind
    }
}

impl Clone for SourceMapSegment {
    fn clone(&self) -> (r: SourceMapSegment)
        ensures
            r@ == self@,
    {
        SourceMapSegment {
            prepared_range: copy_range(&self.prepared_range),
            original: copy_span(&self.original),
            expansion_id: self.expansion_id.clone(),
            kind: self.kind,
        }
    }
}

/// The part of a query that one segment answers.
///
/// Both ranges are clipped to the query by the same offset. Synthetic parts have
/// no origin.
#[derive(Debug, PartialEq, Eq)]
pub struct MappedSourceSpan {
    /// The part of the query in the prepared buffer.
    pub prepared_range: Range<usize>,
    /// The matching range of the origin.
    pub original: Option<SourceSpan>,
    /// The occurrence that gave this part.
    pub expansion_id: ExpansionId,
    /// How the bytes relate to their origin.
    pub kind: SourceSegmentKind,
}

impl View for MappedSourceSpan {
    type V = SegmentModel;

    open spec fn view(&self) -> SegmentModel {
        SegmentModel {
            start: self.prepared_range.start,
            end: self.prepared_range.end,
            original: span_model(self.original),
            expansion_id: self.expansion_id@,
            kind: self.kind,
        }
    }
}

/// The models of a list of mapped spans.
pub open spec fn mapped_models(v: Seq<MappedSourceSpan>) -> Seq<SegmentModel> {
    v.map_values(|s: MappedSourceSpan| s@)
}

impl MappedSourceSpan {
    /// The matching range of the origin.
    pub fn original(&self) -> (r: Option<&SourceSpan>)
        ensures
            match r {
                Some(span) => self.original == Some(*span),
                None => self.original is None,
            },
    {
        self.original.as_ref()
    }

    /// The occurrence that gave this part.
    pub fn expansion_id(&self) -> (r: &ExpansionId)
        ensures
            *r == self.expansion_id,
    {
        &self.expansion_id
    }

    /// How the bytes relate to their origin.
    pub fn kind(&self) -> (r: SourceSegmentKind)
        ensures
            r == self.kind,
    {
        self.kind
    }
}

impl Clone for MappedSourceSpan {
    fn clone(&self) -> (r: MappedSourceSpan)
        ensures
            r@ == self@,
    {
        MappedSourceSpan {
            prepared_range: copy_range(&self.prepared_range),
            original: copy_span(&self.original),
            expansion_id: self.expansion_id.clone(),
            kind: self.kind,
        }
    }
}

/// Short name of a segment.
pub type SourceSegment = SourceMapSegment;

/// Short name of the answer to a query.
pub type MappedSpan = MappedSourceSpan;

/// Why a map or a query was refused.
#[derive(Debug, PartialEq, Eq)]
pub enum SourceMapError {
    /// The identity of an origin was empty.
    EmptySourceId(ProjectSourceId),
    /// An origin was supplied twice with the same bytes.
    DuplicateSourceId(ProjectSourceId),
    /// An origin was supplied twice with different bytes.
    ConflictingSourceId(ProjectSourceId),
    /// A segment named an origin that was not supplied.
    UnknownSourceId(ProjectSourceId),
    /// The identity of an expansion was empty.
    EmptyExpansionId,
    /// A range ended before it started.
    InvalidRange {
        /// The range.
        range: Range<usize>,
        /// What the range was meant for.
        space: &'static str,
    },
    /// A segment had no bytes.
    EmptySegment { range: Range<usize> },
    /// A segment went beyond the prepared buffer.
    PreparedRangeOutOfBounds { range: Range<usize>, prepared_len: usize },
    /// An original range went beyond its source.
    OriginalRangeOutOfBounds { source_id: ProjectSourceId, range: Range<usize>, source_len: usize },
    /// The segments left bytes of the prepared buffer uncovered.
    IncompleteCoverage { expected_start: usize, actual_start: usize, prepared_len: usize },
    /// Two segments overlapped in the prepared buffer.
    OverlappingSegments { previous: Range<usize>, next: Range<usize> },
    /// A copied or masked segment had no origin.
    MissingOrigin { prepared_range: Range<usize>, kind: SourceSegmentKind },
    /// A synthetic segment had an origin.
    SyntheticHasOrigin { prepared_range: Range<usize> },
    /// Prepared and original range had different lengths.
    LengthMismatch { prepared_range: Range<usize>, original_range: Range<usize> },
    /// Copied bytes were not those of the origin.
    CopiedBytesMismatch {
        source_id: ProjectSourceId,
        prepared_range: Range<usize>,
        original_range: Range<usize>,
    },
    /// Masked bytes held something else than ASCII white space.
    MaskedBytesNotWhitespace { prepared_range: Range<usize>, offset: usize, byte: u8 },
    /// Masked bytes changed a line break.
    MaskedLineBreakMismatch {
        prepared_range: Range<usize>,
        original_range: Range<usize>,
        offset: usize,
    },
    /// Segments of one expansion came from two sources.
    ExpansionSourceConflict {
        expansion_id: ExpansionId,
        expected: ProjectSourceId,
        found: ProjectSourceId,
    },
    /// Segments of one expansion used the same original bytes twice.
    ExpansionRangeOverlap {
        expansion_id: ExpansionId,
        previous: Range<usize>,
        next: Range<usize>,
    },
    /// A query went beyond the prepared buffer.
    MapRangeOutOfBounds { range: Range<usize>, prepared_len: usize },
}

/// The mathematical value of a [`SourceMapError`].
pub enum MapErrorModel {
    EmptySourceId(Seq<char>),
    DuplicateSourceId(Seq<char>),
    ConflictingSourceId(Seq<char>),
    UnknownSourceId(Seq<char>),
    EmptyExpansionId,
    InvalidRange { range: Range<usize>, space: Seq<char> },
    EmptySegment { range: Range<usize> },
    PreparedRangeOutOfBounds { range: Range<usize>, prepared_len: usize },
    OriginalRangeOutOfBounds { source_id: Seq<char>, range: Range<usize>, source_len: usize },
    IncompleteCoverage { expected_start: usize, actual_start: usize, prepared_len: usize },
    OverlappingSegments { previous: Range<usize>, next: Range<usize> },
    MissingOrigin { prepared_range: Range<usize>, kind: SourceSegmentKind },
    SyntheticHasOrigin { prepared_range: Range<usize> },
    LengthMismatch { prepared_range: Range<usize>, original_range: Range<usize> },
    CopiedBytesMismatch {
        source_id: Seq<char>,
        prepared_range: Range<usize>,
        original_range: Range<usize>,
    },
    MaskedBytesNotWhitespace { prepared_range: Range<usize>, offset: usize, byte: u8 },
    MaskedLineBreakMismatch {
        prepared_range: Range<usize>,
        original_range: Range<usize>,
        offset: usize,
    },
    ExpansionSourceConflict { expansion_id: Seq<char>, expected: Seq<char>, found: Seq<char> },
    ExpansionRangeOverlap { expansion_id: Seq<char>, previous: Range<usize>, next: Range<usize> },
    MapRangeOutOfBounds { range: Range<usize>, prepared_len: usize },
}

impl View for SourceMapError {
    type V = MapErrorModel;

    open spec fn view(&self) -> MapErrorModel {
        match *self {
            SourceMapError::EmptySourceId(id) => MapErrorModel::EmptySourceId(id@),
            SourceMapError::DuplicateSourceId(id) => MapErrorModel::DuplicateSourceId(id@),
            SourceMapError::ConflictingSourceId(id) => MapErrorModel::ConflictingSourceId(id@),
            SourceMapError::UnknownSourceId(id) => MapErrorModel::UnknownSourceId(id@),
            SourceMapError::EmptyExpansionId => MapErrorModel::EmptyExpansionId,
            SourceMapError::InvalidRange { range, space } => {
                MapErrorModel::InvalidRange { range, space: space@ }
            },
            SourceMapError::EmptySegment { range } => {
                MapErrorModel::EmptySegment { range }
            },
            SourceMapError::PreparedRangeOutOfBounds { range, prepared_len } => {
                MapErrorModel::PreparedRangeOutOfBounds { range, prepared_len }
            },
            SourceMapError::OriginalRangeOutOfBounds { source_id, range, source_len } => {
                MapErrorModel::OriginalRangeOutOfBounds { source_id: source_id@, range, source_len }
            },
            SourceMapError::IncompleteCoverage { expected_start, actual_start, prepared_len } => {
                MapErrorModel::IncompleteCoverage { expected_start, actual_start, prepared_len }
            },
            SourceMapError::OverlappingSegments { previous, next } => {
                MapErrorModel::OverlappingSegments { previous, next }
            },
            SourceMapError::MissingOrigin { prepared_range, kind } => {
                MapErrorModel::MissingOrigin { prepared_range, kind }
            },
            SourceMapError::SyntheticHasOrigin { prepared_range } => {
                MapErrorModel::SyntheticHasOrigin { prepared_range }
            },
            SourceMapError::LengthMismatch { prepared_range, original_range } => {
                MapErrorModel::LengthMismatch { prepared_range, original_range }
            },
            SourceMapError::CopiedBytesMismatch { source_id, prepared_range, original_range } => {
                MapErrorModel::CopiedBytesMismatch {
                    source_id: source_id@,
                    prepared_range,
                    original_range,
                }
            },
            SourceMapError::MaskedBytesNotWhitespace { prepared_range, offset, byte } => {
                MapErrorModel::MaskedBytesNotWhitespace { prepared_range, offset, byte }
            },
            SourceMapError::MaskedLineBreakMismatch { prepared_range, original_range, offset } => {
                MapErrorModel::MaskedLineBreakMismatch { prepared_range, original_range, offset }
            },
            SourceMapError::ExpansionSourceConflict { expansion_id, expected, found } => {
                MapErrorModel::ExpansionSourceConflict {
                    expansion_id: expansion_id@,
                    expected: expected@,
                    found: found@,
                }
            },
            SourceMapError::ExpansionRangeOverlap { expansion_id, previous, next } => {
                MapErrorModel::ExpansionRangeOverlap { expansion_id: expansion_id@, previous, next }
            },
            SourceMapError::MapRangeOutOfBounds { range, prepared_len } => {
                MapErrorModel::MapRangeOutOfBounds { range, prepared_len }
            },
        }
    }
}

impl Clone for SourceMapError {
    fn clone(&self) -> (r: SourceMapError)
        ensures
            r@ == self@,
    {
        match self {
            SourceMapError::EmptySourceId(id) => SourceMapError::EmptySourceId(id.clone()),
            SourceMapError::DuplicateSourceId(id) => SourceMapError::DuplicateSourceId(id.clone()),
            SourceMapError::ConflictingSourceId(id) => SourceMapError::ConflictingSourceId(id.clone()),
            SourceMapError::UnknownSourceId(id) => SourceMapError::UnknownSourceId(id.clone()),
            SourceMapError::EmptyExpansionId => SourceMapError::EmptyExpansionId,
            SourceMapError::InvalidRange { range, space } => {
                SourceMapError::InvalidRange { range: copy_range(range), space: *space }
            },
            SourceMapError::EmptySegment { range } => {
                SourceMapError::EmptySegment { range: copy_range(range) }
            },
            SourceMapError::PreparedRangeOutOfBounds { range, prepared_len } => {
                SourceMapError::PreparedRangeOutOfBounds {
                    range: copy_range(range),
                    prepared_len: *prepared_len,
                }
            },
            SourceMapError::OriginalRangeOutOfBounds { source_id, range, source_len } => {
                SourceMapError::OriginalRangeOutOfBounds {
                    source_id: source_id.clone(),
                    range: copy_range(range),
                    source_len: *source_len,
                }
            },
            SourceMapError::IncompleteCoverage { expected_start, actual_start, prepared_len } => {
                SourceMapError::IncompleteCoverage {
                    expected_start: *expected_start,
                    actual_start: *actual_start,
                    prepared_len: *prepared_len,
                }
            },
            SourceMapError::OverlappingSegments { previous, next } => {
                SourceMapError::OverlappingSegments {
                    previous: copy_range(previous),
                    next: copy_range(next),
                }
            },
            SourceMapError::MissingOrigin { prepared_range, kind } => {
                SourceMapError::MissingOrigin {
                    prepared_range: copy_range(prepared_range),
                    kind: *kind,
                }
            },
            SourceMapError::SyntheticHasOrigin { prepared_range } => {
                SourceMapError::SyntheticHasOrigin { prepared_range: copy_range(prepared_range) }
            },
            SourceMapError::LengthMismatch { prepared_range, original_range } => {
                SourceMapError::LengthMismatch {
                    prepared_range: copy_range(prepared_range),
                    original_range: copy_range(original_range),
                }
            },
            SourceMapError::CopiedBytesMismatch { source_id, prepared_range, original_range } => {
                SourceMapError::CopiedBytesMismatch {
                    source_id: source_id.clone(),
                    prepared_range: copy_range(prepared_range),
                    original_range: copy_range(original_range),
                }
            },
            SourceMapError::MaskedBytesNotWhitespace { prepared_range, offset, byte } => {
                SourceMapError::MaskedBytesNotWhitespace {
                    prepared_range: copy_range(prepared_range),
                    offset: *offset,
                    byte: *byte,
                }
            },
            SourceMapError::MaskedLineBreakMismatch { prepared_range, original_range, offset } => {
                SourceMapError::MaskedLineBreakMismatch {
                    prepared_range: copy_range(prepared_range),
                    original_range: copy_range(original_range),
                    offset: *offset,
                }
            },
            SourceMapError::ExpansionSourceConflict { expansion_id, expected, found } => {
                SourceMapError::ExpansionSourceConflict {
                    expansion_id: expansion_id.clone(),
                    expected: expected.clone(),
                    found: found.clone(),
                }
            },
            SourceMapError::ExpansionRangeOverlap { expansion_id, previous, next } => {
                SourceMapError::ExpansionRangeOverlap {
                    expansion_id: expansion_id.clone(),
                    previous: copy_range(previous),
                    next: copy_range(next),
                }
            },
            SourceMapError::MapRangeOutOfBounds { range, prepared_len } => {
                SourceMapError::MapRangeOutOfBounds {
                    range: copy_range(range),
                    prepared_len: *prepared_len,
                }
            },
        }
    }
}

/// How an error message shows an expansion identity.
pub open spec fn shown_expansion(id: Seq<char>) -> Seq<char> {
    "ExpansionId("@ + quoted(id) + ")"@
}

fn push_expansion(to: &mut String, id: &ExpansionId)
    ensures
        final(to)@ == old(to)@ + shown_expansion(id@),
{
    to.append("ExpansionId(");
    to.append(debug_text(id.as_str()).as_str());
    to.append(")");
    assert(to@ =~= old(to)@ + shown_expansion(id@));
}

impl MapErrorModel {
    /// The error in words.
    pub open spec fn message(self) -> Seq<char> {
        match self {
            MapErrorModel::EmptySourceId(id) => {
                "source map source ID "@ + shown_source(id) + " is empty"@
            },
            MapErrorModel::DuplicateSourceId(id) => {
                "source map source ID "@ + shown_source(id) + " was supplied twice"@
            },
            MapErrorModel::ConflictingSourceId(id) => {
                "source map source ID "@ + shown_source(id)
                    + " was supplied with conflicting bytes"@
            },
            MapErrorModel::UnknownSourceId(id) => {
                "source map source ID "@ + shown_source(id) + " was not supplied"@
            },
            MapErrorModel::EmptyExpansionId => {
                "source map expansion ID must not be empty"@
            },
            MapErrorModel::InvalidRange { range, space } => {
                "invalid "@ + space + " range "@ + shown_range(range.start, range.end)
            },
            MapErrorModel::EmptySegment { range } => {
                "source map segment "@ + shown_range(range.start, range.end) + " must not be empty"@
            },
            MapErrorModel::PreparedRangeOutOfBounds { range, prepared_len } => {
                "prepared range "@ + shown_range(range.start, range.end)
                    + " exceeds prepared length "@ + decimal(prepared_len as nat)
            },
            MapErrorModel::OriginalRangeOutOfBounds { source_id, range, source_len } => {
                "original range "@ + shown_range(range.start, range.end) + " for source "@
                    + shown_source(source_id) + " exceeds source length "@
                    + decimal(source_len as nat)
            },
            MapErrorModel::IncompleteCoverage { expected_start, actual_start, prepared_len } => {
                "source map coverage expected byte "@ + decimal(expected_start as nat)
                    + ", found "@ + decimal(actual_start as nat) + "; prepared length "@
                    + decimal(prepared_len as nat)
            },
            MapErrorModel::OverlappingSegments { previous, next } => {
                "source map ranges "@ + shown_range(previous.start, previous.end) + " and "@
                    + shown_range(next.start, next.end) + " overlap"@
            },
            MapErrorModel::MissingOrigin { prepared_range, kind } => {
                kind.name() + " segment "@ + shown_range(prepared_range.start, prepared_range.end)
                    + " is missing its original origin"@
            },
            MapErrorModel::SyntheticHasOrigin { prepared_range } => {
                "synthetic segment "@ + shown_range(prepared_range.start, prepared_range.end)
                    + " must not claim an original origin"@
            },
            MapErrorModel::LengthMismatch { prepared_range, original_range } => {
                "prepared range "@ + shown_range(prepared_range.start, prepared_range.end)
                    + " and original range "@
                    + shown_range(original_range.start, original_range.end)
                    + " have different lengths"@
            },
            MapErrorModel::CopiedBytesMismatch { source_id, prepared_range, original_range } => {
                "copied prepared range "@ + shown_range(prepared_range.start, prepared_range.end)
                    + " differs from source "@ + shown_source(source_id) + " range "@
                    + shown_range(original_range.start, original_range.end)
            },
            MapErrorModel::MaskedBytesNotWhitespace { prepared_range, offset, byte } => {
                "masked range "@ + shown_range(prepared_range.start, prepared_range.end)
                    + " contains byte 0x"@
                    + seq![hex_digit(byte as int / 16), hex_digit(byte as int % 16)]
                    + " at offset "@ + decimal(offset as nat)
            },
            MapErrorModel::MaskedLineBreakMismatch { prepared_range, original_range, offset } => {
                "masked range "@ + shown_range(prepared_range.start, prepared_range.end)
                    + " does not preserve the line break at offset "@ + decimal(offset as nat)
                    + " from "@ + shown_range(original_range.start, original_range.end)
            },
            MapErrorModel::ExpansionSourceConflict { expansion_id, expected, found } => {
                "expansion "@ + shown_expansion(expansion_id) + " uses source "@
                    + shown_source(found) + ", expected "@ + shown_source(expected)
            },
            MapErrorModel::ExpansionRangeOverlap { expansion_id, previous, next } => {
                "expansion "@ + shown_expansion(expansion_id) + " uses original ranges "@
                    + shown_range(previous.start, previous.end) + " and "@
                    + shown_range(next.start, next.end) + ", which overlap"@
            },
            MapErrorModel::MapRangeOutOfBounds { range, prepared_len } => {
                "mapping range "@ + shown_range(range.start, range.end)
                    + " exceeds prepared length "@ + decimal(prepared_len as nat)
            },
        }
    }
}

impl SourceMapError {
    /// The error in words.
    pub fn message(&self) -> (r: String)
        ensures
            r@ == self@.message(),
    {
        match self {
            SourceMapError::EmptySourceId(id) => {
                let mut out = "source map source ID ".to_owned();
                push_source(&mut out, id);
                out.append(" is empty");
                out
            },
            SourceMapError::DuplicateSourceId(id) => {
                let mut out = "source map source ID ".to_owned();
                push_source(&mut out, id);
                out.append(" was supplied twice");
                out
            },
            SourceMapError::ConflictingSourceId(id) => {
                let mut out = "source map source ID ".to_owned();
                push_source(&mut out, id);
                out.append(" was supplied with conflicting bytes");
                out
            },
            SourceMapError::UnknownSourceId(id) => {
                let mut out = "source map source ID ".to_owned();
                push_source(&mut out, id);
                out.append(" was not supplied");
                out
            },
            SourceMapError::EmptyExpansionId => { "source map expansion ID must not be empty".to_owned() },
            SourceMapError::InvalidRange { range, space } => {
                let mut out = "invalid ".to_owned();
                out.append(*space);
                out.append(" range ");
                push_range(&mut out, range.start, range.end);
                out
            },
            SourceMapError::EmptySegment { range } => {
                let mut out = "source map segment ".to_owned();
                push_range(&mut out, range.start, range.end);
                out.append(" must not be empty");
                out
            },
            SourceMapError::PreparedRangeOutOfBounds { range, prepared_len } => {
                let mut out = "prepared range ".to_owned();
                push_range(&mut out, range.start, range.end);
                out.append(" exceeds prepared length ");
                push_decimal(&mut out, *prepared_len);
                out
            },
            SourceMapError::OriginalRangeOutOfBounds { source_id, range, source_len } => {
                let mut out = "original range ".to_owned();
                push_range(&mut out, range.start, range.end);
                out.append(" for source ");
                push_source(&mut out, source_id);
                out.append(" exceeds source length ");
                push_decimal(&mut out, *source_len);
                out
            },
            SourceMapError::IncompleteCoverage { expected_start, actual_start, prepared_len } => {
                let mut out = "source map coverage expected byte ".to_owned();
                push_decimal(&mut out, *expected_start);
                out.append(", found ");
                push_decimal(&mut out, *actual_start);
                out.append("; prepared length ");
                push_decimal(&mut out, *prepared_len);
                out
            },
            SourceMapError::OverlappingSegments { previous, next } => {
                let mut out = "source map ranges ".to_owned();
                push_range(&mut out, previous.start, previous.end);
                out.append(" and ");
                push_range(&mut out, next.start, next.end);
                out.append(" overlap");
                out
            },
            SourceMapError::MissingOrigin { prepared_range, kind } => {
                let mut out = kind.name_text().to_owned();
                out.append(" segment ");
                push_range(&mut out, prepared_range.start, prepared_range.end);
                out.append(" is missing its original origin");
                out
            },
            SourceMapError::SyntheticHasOrigin { prepared_range } => {
                let mut out = "synthetic segment ".to_owned();
                push_range(&mut out, prepared_range.start, prepared_range.end);
                out.append(" must not claim an original origin");
                out
            },
            SourceMapError::LengthMismatch { prepared_range, original_range } => {
                let mut out = "prepared range ".to_owned();
                push_range(&mut out, prepared_range.start, prepared_range.end);
                out.append(" and original range ");
                push_range(&mut out, original_range.start, original_range.end);
                out.append(" have different lengths");
                out
            },
            SourceMapError::CopiedBytesMismatch { source_id, prepared_range, original_range } => {
                let mut out = "copied prepared range ".to_owned();
                push_range(&mut out, prepared_range.start, prepared_range.end);
                out.append(" differs from source ");
                push_source(&mut out, source_id);
                out.append(" range ");
                push_range(&mut out, original_range.start, original_range.end);
                out
            },
            SourceMapError::MaskedBytesNotWhitespace { prepared_range, offset, byte } => {
                let mut out = "masked range ".to_owned();
                push_range(&mut out, prepared_range.start, prepared_range.end);
                out.append(" contains byte 0x");
                push_hex(&mut out, *byte);
                out.append(" at offset ");
                push_decimal(&mut out, *offset);
                out
            },
            SourceMapError::MaskedLineBreakMismatch { prepared_range, original_range, offset } => {
                let mut out = "masked range ".to_owned();
                push_range(&mut out, prepared_range.start, prepared_range.end);
                out.append(" does not preserve the line break at offset ");
                push_decimal(&mut out, *offset);
                out.append(" from ");
                push_range(&mut out, original_range.start, original_range.end);
                out
            },
            SourceMapError::ExpansionSourceConflict { expansion_id, expected, found } => {
                let mut out = "expansion ".to_owned();
                push_expansion(&mut out, expansion_id);
                out.append(" uses source ");
                push_source(&mut out, found);
                out.append(", expected ");
                push_source(&mut out, expected);
                out
            },
            SourceMapError::ExpansionRangeOverlap { expansion_id, previous, next } => {
                let mut out = "expansion ".to_owned();
                push_expansion(&mut out, expansion_id);
                out.append(" uses original ranges ");
                push_range(&mut out, previous.start, previous.end);
                out.append(" and ");
                push_range(&mut out, next.start, next.end);
                out.append(", which overlap");
                out
            },
            SourceMapError::MapRangeOutOfBounds { range, prepared_len } => {
                let mut out = "mapping range ".to_owned();
                push_range(&mut out, range.start, range.end);
                out.append(" exceeds prepared length ");
                push_decimal(&mut out, *prepared_len);
                out
            },
        }
    }
}

/// The first of the first `n` snapshots with the given identity.
pub open spec fn source_index(sources: Seq<SnapshotModel>, id: Seq<char>, n: int) -> Option<int>
    decreases n,
{
    if n <= 0 {
        None
    } else {
        match source_index(sources, id, n - 1) {
            Some(i) => Some(i),
            None => if sources[n - 1].source_id == id {
                Some(n - 1)
            } else {
                None
            },
        }
    }
}

/// What is wrong with one snapshot, given that those before it are in order.
pub open spec fn source_error(sources: Seq<SnapshotModel>, i: int) -> Option<MapErrorModel> {
    let source = sources[i];
    if source.source_id.len() == 0 {
        Some(MapErrorModel::EmptySourceId(source.source_id))
    } else {
        match source_index(sources, source.source_id, i) {
            Some(k) => if sources[k].bytes == source.bytes {
                Some(MapErrorModel::DuplicateSourceId(source.source_id))
            } else {
                Some(MapErrorModel::ConflictingSourceId(source.source_id))
            },
            None => None,
        }
    }
}

/// What is wrong with the first snapshot, from `i` on, that is not in order.
pub open spec fn sources_error(sources: Seq<SnapshotModel>, i: int) -> Option<MapErrorModel>
    decreases sources.len() - i,
{
    if i < 0 || i >= sources.len() {
        None
    } else {
        match source_error(sources, i) {
            Some(error) => Some(error),
            None => sources_error(sources, i + 1),
        }
    }
}

/// Whether a byte is ASCII white space.
pub open spec fn blank(byte: u8) -> bool {
    byte == 0x20 || byte == 0x09 || byte == 0x0a || byte == 0x0c || byte == 0x0d
}

/// Whether a byte breaks a line.
pub open spec fn line_break(byte: u8) -> bool {
    byte == 0x0a || byte == 0x0d
}

/// Whether `masked` may stand in for `original`: white space, and a line break
/// exactly where the original has the same one.
pub open spec fn masks(masked: u8, original: u8) -> bool {
    blank(masked) && line_break(masked) == line_break(original) && (line_break(masked) ==> masked
        == original)
}

/// What is wrong with the first byte, from `offset` on, that does not mask its
/// original.
pub open spec fn mask_error(
    prepared: Seq<u8>,
    original: Seq<u8>,
    prepared_range: Range<usize>,
    original_range: Range<usize>,
    offset: int,
) -> Option<MapErrorModel>
    decreases prepared_range.end - prepared_range.start - offset,
{
    if offset < 0 || offset >= prepared_range.end - prepared_range.start {
        None
    } else {
        let masked = prepared[prepared_range.start + offset];
        if !blank(masked) {
            Some(
                MapErrorModel::MaskedBytesNotWhitespace {
                    prepared_range,
                    offset: offset as usize,
                    byte: masked,
                },
            )
        } else if !masks(masked, original[original_range.start + offset]) {
            Some(
                MapErrorModel::MaskedLineBreakMismatch {
                    prepared_range,
                    original_range,
                    offset: offset as usize,
                },
            )
        } else {
            mask_error(prepared, original, prepared_range, original_range, offset + 1)
        }
    }
}

impl SegmentModel {
    /// The range in the prepared buffer.
    pub open spec fn range(self) -> Range<usize> {
        Range { start: self.start, end: self.end }
    }
}

impl SpanModel {
    /// The range in the source.
    pub open spec fn range(self) -> Range<usize> {
        Range { start: self.start, end: self.end }
    }
}

/// What is wrong with the range of segment `i`, where the segments before it are
/// in order: together they must cover the buffer from its start without a gap.
pub open spec fn range_error(len: nat, segments: Seq<SegmentModel>, i: int) -> Option<
    MapErrorModel,
> {
    let segment = segments[i];
    let expected: usize = if i == 0 {
        0
    } else {
        segments[i - 1].end
    };
    if segment.expansion_id.len() == 0 {
        Some(MapErrorModel::EmptyExpansionId)
    } else if segment.start > segment.end {
        Some(MapErrorModel::InvalidRange { range: segment.range(), space: "prepared"@ })
    } else if segment.end > len {
        Some(
            MapErrorModel::PreparedRangeOutOfBounds {
                range: segment.range(),
                prepared_len: len as usize,
            },
        )
    } else if segment.start < expected {
        Some(
            MapErrorModel::OverlappingSegments {
                previous: segments[i - 1].range(),
                next: segment.range(),
            },
        )
    } else if segment.start > expected {
        Some(
            MapErrorModel::IncompleteCoverage {
                expected_start: expected,
                actual_start: segment.start,
                prepared_len: len as usize,
            },
        )
    } else if segment.start == segment.end {
        Some(MapErrorModel::EmptySegment { range: segment.range() })
    } else {
        None
    }
}

/// What is wrong with the origin of a segment that has one.
pub open spec fn origin_error(
    prepared: Seq<u8>,
    sources: Seq<SnapshotModel>,
    segment: SegmentModel,
    original: SpanModel,
) -> Option<MapErrorModel> {
    match source_index(sources, original.source_id, sources.len() as int) {
        None => Some(MapErrorModel::UnknownSourceId(original.source_id)),
        Some(k) => {
            let bytes = sources[k].bytes;
            if original.start > original.end {
                Some(MapErrorModel::InvalidRange { range: original.range(), space: "original"@ })
            } else if original.end > bytes.len() {
                Some(
                    MapErrorModel::OriginalRangeOutOfBounds {
                        source_id: original.source_id,
                        range: original.range(),
                        source_len: bytes.len() as usize,
                    },
                )
            } else if segment.end - segment.start != original.end - original.start {
                Some(
                    MapErrorModel::LengthMismatch {
                        prepared_range: segment.range(),
                        original_range: original.range(),
                    },
                )
            } else if segment.kind == SourceSegmentKind::Copied {
                if prepared.subrange(segment.start as int, segment.end as int) == bytes.subrange(
                    original.start as int,
                    original.end as int,
                ) {
                    None
                } else {
                    Some(
                        MapErrorModel::CopiedBytesMismatch {
                            source_id: original.source_id,
                            prepared_range: segment.range(),
                            original_range: original.range(),
                        },
                    )
                }
            } else {
                mask_error(prepared, bytes, segment.range(), original.range(), 0)
            }
        },
    }
}

/// What is wrong between a segment with an origin and the first of the segments
/// from `j` on, up to `n`, that belongs to the same expansion and contradicts it.
pub open spec fn expansion_error(
    segments: Seq<SegmentModel>,
    expansion_id: Seq<char>,
    original: SpanModel,
    j: int,
    n: int,
) -> Option<MapErrorModel>
    decreases n - j,
{
    if j < 0 || j >= n {
        None
    } else {
        match segments[j].original {
            Some(earlier) if segments[j].expansion_id == expansion_id => if earlier.source_id
                != original.source_id {
                Some(
                    MapErrorModel::ExpansionSourceConflict {
                        expansion_id,
                        expected: earlier.source_id,
                        found: original.source_id,
                    },
                )
            } else if earlier.start < original.end && original.start < earlier.end {
                Some(
                    MapErrorModel::ExpansionRangeOverlap {
                        expansion_id,
                        previous: earlier.range(),
                        next: original.range(),
                    },
                )
            } else {
                expansion_error(segments, expansion_id, original, j + 1, n)
            },
            _ => expansion_error(segments, expansion_id, original, j + 1, n),
        }
    }
}

/// What is wrong with segment `i`, given that those before it are in order.
pub open spec fn segment_error(
    prepared: Seq<u8>,
    sources: Seq<SnapshotModel>,
    segments: Seq<SegmentModel>,
    i: int,
) -> Option<MapErrorModel> {
    let segment = segments[i];
    match range_error(prepared.len(), segments, i) {
        Some(error) => Some(error),
        None => match segment.original {
            Some(original) => if segment.kind == SourceSegmentKind::Synthetic {
                Some(MapErrorModel::SyntheticHasOrigin { prepared_range: segment.range() })
            } else {
                match origin_error(prepared, sources, segment, original) {
                    Some(error) => Some(error),
                    None => expansion_error(segments, segment.expansion_id, original, 0, i),
                }
            },
            None => if segment.kind == SourceSegmentKind::Synthetic {
                None
            } else {
                Some(
                    MapErrorModel::MissingOrigin {
                        prepared_range: segment.range(),
                        kind: segment.kind,
                    },
                )
            },
        },
    }
}

/// What is wrong with the first segment, from `i` on, that is not in order, or
/// with what the segments together leave uncovered.
pub open spec fn segments_error(
    prepared: Seq<u8>,
    sources: Seq<SnapshotModel>,
    segments: Seq<SegmentModel>,
    i: int,
) -> Option<MapErrorModel>
    decreases segments.len() - i,
{
    if i < 0 || i >= segments.len() {
        let covered: usize = if segments.len() == 0 {
            0
        } else {
            segments.last().end
        };
        if covered == prepared.len() {
            None
        } else {
            Some(
                MapErrorModel::IncompleteCoverage {
                    expected_start: covered,
                    actual_start: covered,
                    prepared_len: prepared.len() as usize,
                },
            )
        }
    } else {
        match segment_error(prepared, sources, segments, i) {
            Some(error) => Some(error),
            None => segments_error(prepared, sources, segments, i + 1),
        }
    }
}

/// The mathematical value of a map.
#[verifier::ext_equal]
pub struct MapModel {
    pub prepared: Seq<u8>,
    pub sources: Seq<SnapshotModel>,
    pub segments: Seq<SegmentModel>,
}

impl MapModel {
    /// The first thing that is wrong with the map: the sources are looked at
    /// before the segments, both in their order.
    pub open spec fn error(self) -> Option<MapErrorModel> {
        match sources_error(self.sources, 0) {
            Some(error) => Some(error),
            None => segments_error(self.prepared, self.sources, self.segments, 0),
        }
    }

    /// What the segments answer of a range. An empty range has no parts.
    pub open spec fn parts(self, start: usize, end: usize) -> Seq<SegmentModel> {
        if start == end {
            Seq::empty()
        } else {
            mapped(self.segments, start, end, self.segments.len() as int)
        }
    }

    /// Whether nothing is wrong with the map.
    pub open spec fn valid(self) -> bool {
        self.error() is None
    }
}

/// A map of one prepared buffer that has passed every check.
#[derive(Debug, PartialEq, Eq)]
pub struct SourceMap {
    prepared_bytes: Vec<u8>,
    original_sources: Vec<SourceSnapshot>,
    segments: Vec<SourceMapSegment>,
}

impl View for SourceMap {
    type V = MapModel;

    closed spec fn view(&self) -> MapModel {
        MapModel {
            prepared: self.prepared_bytes@,
            sources: snapshot_models(self.original_sources@),
            segments: segment_models(self.segments@),
        }
    }
}

/// The position of the first of the first `n` snapshots with an identity.
pub(crate) fn find_source(sources: &Vec<SourceSnapshot>, id: &ProjectSourceId, n: usize) -> (r: Option<usize>)
    requires
        n <= sources@.len(),
    ensures
        match r {
            Some(k) => k < n && source_index(snapshot_models(sources@), id@, n as int) == Some(
                k as int,
            ),
            None => source_index(snapshot_models(sources@), id@, n as int) is None,
        },
{
    let ghost models = snapshot_models(sources@);
    let mut i: usize = 0;
    while i < n
        invariant
            i <= n <= sources@.len(),
            models == snapshot_models(sources@),
            source_index(models, id@, i as int) is None,
        decreases n - i,
    {
        assert(models[i as int] == sources@[i as int]@);
        if sources[i].source_id().same(id) {
            proof {
                lemma_source_index(models, id@, i as int, n as int);
            }
            return Some(i);
        }
        i = i + 1;
    }
    None
}

proof fn lemma_source_index(sources: Seq<SnapshotModel>, id: Seq<char>, i: int, n: int)
    requires
        0 <= i < n,
        source_index(sources, id, i) is None,
        sources[i].source_id == id,
    ensures
        source_index(sources, id, n) == Some(i),
    decreases n,
{
    if n > i + 1 {
        lemma_source_index(sources, id, i, n - 1);
    }
}

fn check_sources(sources: &Vec<SourceSnapshot>) -> (r: Option<SourceMapError>)
    ensures
        match r {
            Some(error) => sources_error(snapshot_models(sources@), 0) == Some(error@),
            None => sources_error(snapshot_models(sources@), 0) is None,
        },
{
    let ghost models = snapshot_models(sources@);
    let mut i: usize = 0;
    while i < sources.len()
        invariant
            i <= sources@.len(),
            models == snapshot_models(sources@),
            models.len() == sources@.len(),
            sources_error(models, 0) == sources_error(models, i as int),
        decreases sources@.len() - i,
    {
        let source = &sources[i];
        assert(models[i as int] == source@);
        if source.source_id().is_empty() {
            return Some(SourceMapError::EmptySourceId(source.source_id().clone()));
        }
        if let Some(k) = find_source(sources, source.source_id(), i) {
            assert(models[k as int] == sources@[k as int]@);
            if same_bytes(sources[k].bytes(), source.bytes()) {
                return Some(SourceMapError::DuplicateSourceId(source.source_id().clone()));
            }
            return Some(SourceMapError::ConflictingSourceId(source.source_id().clone()));
        }
        i = i + 1;
    }
    None
}

fn is_blank(byte: u8) -> (r: bool)
    ensures
        r == blank(byte),
{
    byte == 0x20 || byte == 0x09 || byte == 0x0a || byte == 0x0c || byte == 0x0d
}

fn is_line_break(byte: u8) -> (r: bool)
    ensures
        r == line_break(byte),
{
    byte == 0x0a || byte == 0x0d
}

fn validate_mask(
    prepared: &[u8],
    original: &[u8],
    prepared_range: &Range<usize>,
    original_range: &Range<usize>,
) -> (r: Result<(), SourceMapError>)
    requires
        prepared_range.start <= prepared_range.end <= prepared@.len(),
        original_range.start <= original_range.end <= original@.len(),
        prepared_range.end - prepared_range.start == original_range.end - original_range.start,
    ensures
        match r {
            Ok(_) => mask_error(prepared@, original@, *prepared_range, *original_range, 0) is None,
            Err(error) => mask_error(prepared@, original@, *prepared_range, *original_range, 0)
                == Some(error@),
        },
{
    let mut offset: usize = 0;
    while offset < prepared_range.end - prepared_range.start
        invariant
            offset <= prepared_range.end - prepared_range.start,
            prepared_range.start <= prepared_range.end <= prepared@.len(),
            original_range.start <= original_range.end <= original@.len(),
            prepared_range.end - prepared_range.start == original_range.end - original_range.start,
            mask_error(prepared@, original@, *prepared_range, *original_range, 0) == mask_error(
                prepared@,
                original@,
                *prepared_range,
                *original_range,
                offset as int,
            ),
        decreases prepared_range.end - prepared_range.start - offset,
    {
        let prepared_byte: u8 = prepared[prepared_range.start + offset];
        let original_byte: u8 = original[original_range.start + offset];
        if !is_blank(prepared_byte) {
            return Err(
                SourceMapError::MaskedBytesNotWhitespace {
                    prepared_range: copy_range(prepared_range),
                    offset,
                    byte: prepared_byte,
                },
            );
        }
        let prepared_break = is_line_break(prepared_byte);
        if prepared_break != is_line_break(original_byte) || (prepared_break && prepared_byte
            != original_byte) {
            return Err(
                SourceMapError::MaskedLineBreakMismatch {
                    prepared_range: copy_range(prepared_range),
                    original_range: copy_range(original_range),
                    offset,
                },
            );
        }
        offset = offset + 1;
    }
    Ok(())
}

fn same_part(a: &[u8], b: &[u8], a_range: &Range<usize>, b_range: &Range<usize>) -> (r: bool)
    requires
        a_range.start <= a_range.end <= a@.len(),
        b_range.start <= b_range.end <= b@.len(),
        a_range.end - a_range.start == b_range.end - b_range.start,
    ensures
        r == (a@.subrange(a_range.start as int, a_range.end as int) == b@.subrange(
            b_range.start as int,
            b_range.end as int,
        )),
{
    let mut offset: usize = 0;
    let ghost x = a@.subrange(a_range.start as int, a_range.end as int);
    let ghost y = b@.subrange(b_range.start as int, b_range.end as int);
    while offset < a_range.end - a_range.start
        invariant
            a_range.start <= a_range.end <= a@.len(),
            b_range.start <= b_range.end <= b@.len(),
            a_range.end - a_range.start == b_range.end - b_range.start,
            x == a@.subrange(a_range.start as int, a_range.end as int),
            y == b@.subrange(b_range.start as int, b_range.end as int),
            forall|k: int| 0 <= k < offset ==> x[k] == y[k],
        decreases a_range.end - a_range.start - offset,
    {
        assert(x[offset as int] == a@[a_range.start + offset]);
        assert(y[offset as int] == b@[b_range.start + offset]);
        if a[a_range.start + offset] != b[b_range.start + offset] {
            return false;
        }
        offset = offset + 1;
    }
    assert(x =~= y);
    true
}

fn check_range(prepared_len: usize, segments: &Vec<SourceMapSegment>, i: usize) -> (r: Option<
    SourceMapError,
>)
    requires
        i < segments@.len(),
    ensures
        match r {
            Some(error) => range_error(prepared_len as nat, segment_models(segments@), i as int)
                == Some(error@),
            None => range_error(prepared_len as nat, segment_models(segments@), i as int) is None,
        },
{
    let ghost models = segment_models(segments@);
    let segment = &segments[i];
    assert(models[i as int] == segment@);
    let expected_start: usize = if i == 0 {
        0
    } else {
        assert(models[i - 1] == segments@[i - 1]@);
        segments[i - 1].prepared_range.end
    };
    let start: usize = segment.prepared_range.start;
    let end: usize = segment.prepared_range.end;
    assert(segment@.range() == segment.prepared_range);
    if segment.expansion_id.as_str().is_empty() {
        return Some(SourceMapError::EmptyExpansionId);
    }
    if start > end {
        return Some(SourceMapError::InvalidRange { range: start..end, space: "prepared" });
    }
    if end > prepared_len {
        return Some(SourceMapError::PreparedRangeOutOfBounds { range: start..end, prepared_len });
    }
    if start < expected_start {
        let previous = segments[i - 1].prepared_range();
        return Some(SourceMapError::OverlappingSegments { previous, next: start..end });
    }
    if start > expected_start {
        return Some(
            SourceMapError::IncompleteCoverage { expected_start, actual_start: start, prepared_len },
        );
    }
    if start == end {
        return Some(SourceMapError::EmptySegment { range: start..end });
    }
    None
}

fn check_origin(
    prepared: &[u8],
    sources: &Vec<SourceSnapshot>,
    segment: &SourceMapSegment,
    original: &SourceSpan,
) -> (r: Option<SourceMapError>)
    requires
        segment.prepared_range.start <= segment.prepared_range.end <= prepared@.len(),
    ensures
        match r {
            Some(error) => origin_error(
                prepared@,
                snapshot_models(sources@),
                segment@,
                original@,
            ) == Some(error@),
            None => origin_error(
                prepared@,
                snapshot_models(sources@),
                segment@,
                original@,
            ) is None,
        },
{
    let ghost models = snapshot_models(sources@);
    assert(models.len() == sources@.len());
    assert(segment@.range() == segment.prepared_range);
    assert(original@.range() == original.byte_range);
    match find_source(sources, &original.source_id, sources.len()) {
        None => Some(SourceMapError::UnknownSourceId(original.source_id.clone())),
        Some(k) => {
            assert(models[k as int] == sources@[k as int]@);
            let bytes = sources[k].bytes();
            let start: usize = original.byte_range.start;
            let end: usize = original.byte_range.end;
            if start > end {
                return Some(SourceMapError::InvalidRange { range: start..end, space: "original" });
            }
            if end > bytes.len() {
                return Some(
                    SourceMapError::OriginalRangeOutOfBounds {
                        source_id: original.source_id.clone(),
                        range: start..end,
                        source_len: bytes.len(),
                    },
                );
            }
            if segment.prepared_range.end - segment.prepared_range.start != end - start {
                return Some(
                    SourceMapError::LengthMismatch {
                        prepared_range: segment.prepared_range(),
                        original_range: start..end,
                    },
                );
            }
            if segment.kind == SourceSegmentKind::Copied {
                if same_part(prepared, bytes, &segment.prepared_range, &original.byte_range) {
                    None
                } else {
                    Some(
                        SourceMapError::CopiedBytesMismatch {
                            source_id: original.source_id.clone(),
                            prepared_range: segment.prepared_range(),
                            original_range: start..end,
                        },
                    )
                }
            } else {
                match validate_mask(prepared, bytes, &segment.prepared_range, &original.byte_range) {
                    Ok(_) => None,
                    Err(error) => Some(error),
                }
            }
        },
    }
}

fn check_expansion(
    segments: &Vec<SourceMapSegment>,
    expansion_id: &ExpansionId,
    original: &SourceSpan,
    n: usize,
) -> (r: Option<SourceMapError>)
    requires
        n <= segments@.len(),
    ensures
        match r {
            Some(error) => expansion_error(
                segment_models(segments@),
                expansion_id@,
                original@,
                0,
                n as int,
            ) == Some(error@),
            None => expansion_error(
                segment_models(segments@),
                expansion_id@,
                original@,
                0,
                n as int,
            ) is None,
        },
{
    let ghost models = segment_models(segments@);
    let mut j: usize = 0;
    while j < n
        invariant
            j <= n <= segments@.len(),
            models == segment_models(segments@),
            expansion_error(models, expansion_id@, original@, 0, n as int) == expansion_error(
                models,
                expansion_id@,
                original@,
                j as int,
                n as int,
            ),
        decreases n - j,
    {
        let segment = &segments[j];
        assert(models[j as int] == segment@);
        if let Some(earlier) = &segment.original {
            if same_text(segment.expansion_id.as_str(), expansion_id.as_str()) {
                assert(earlier@.range() == earlier.byte_range);
                assert(original@.range() == original.byte_range);
                if !earlier.source_id.same(&original.source_id) {
                    return Some(
                        SourceMapError::ExpansionSourceConflict {
                            expansion_id: expansion_id.clone(),
                            expected: earlier.source_id.clone(),
                            found: original.source_id.clone(),
                        },
                    );
                }
                if earlier.byte_range.start < original.byte_range.end && original.byte_range.start
                    < earlier.byte_range.end {
                    return Some(
                        SourceMapError::ExpansionRangeOverlap {
                            expansion_id: expansion_id.clone(),
                            previous: copy_range(&earlier.byte_range),
                            next: copy_range(&original.byte_range),
                        },
                    );
                }
            }
        }
        j = j + 1;
    }
    None
}

fn check_segment(
    prepared: &[u8],
    sources: &Vec<SourceSnapshot>,
    segments: &Vec<SourceMapSegment>,
    i: usize,
) -> (r: Option<SourceMapError>)
    requires
        i < segments@.len(),
    ensures
        match r {
            Some(error) => segment_error(
                prepared@,
                snapshot_models(sources@),
                segment_models(segments@),
                i as int,
            ) == Some(error@),
            None => segment_error(
                prepared@,
                snapshot_models(sources@),
                segment_models(segments@),
                i as int,
            ) is None,
        },
{
    let segment = &segments[i];
    assert(segment_models(segments@)[i as int] == segment@);
    assert(segment@.range() == segment.prepared_range);
    if let Some(error) = check_range(prepared.len(), segments, i) {
        return Some(error);
    }
    match &segment.original {
        Some(original) => {
            if segment.kind == SourceSegmentKind::Synthetic {
                return Some(
                    SourceMapError::SyntheticHasOrigin { prepared_range: segment.prepared_range() },
                );
            }
            if let Some(error) = check_origin(prepared, sources, segment, original) {
                return Some(error);
            }
            check_expansion(segments, &segment.expansion_id, original, i)
        },
        None => {
            if segment.kind == SourceSegmentKind::Synthetic {
                None
            } else {
                Some(
                    SourceMapError::MissingOrigin {
                        prepared_range: segment.prepared_range(),
                        kind: segment.kind,
                    },
                )
            }
        },
    }
}

fn check_segments(
    prepared: &[u8],
    sources: &Vec<SourceSnapshot>,
    segments: &Vec<SourceMapSegment>,
) -> (r: Option<SourceMapError>)
    ensures
        match r {
            Some(error) => segments_error(
                prepared@,
                snapshot_models(sources@),
                segment_models(segments@),
                0,
            ) == Some(error@),
            None => segments_error(
                prepared@,
                snapshot_models(sources@),
                segment_models(segments@),
                0,
            ) is None,
        },
{
    let ghost origins = snapshot_models(sources@);
    let ghost models = segment_models(segments@);
    let mut i: usize = 0;
    while i < segments.len()
        invariant
            i <= segments@.len(),
            origins == snapshot_models(sources@),
            models == segment_models(segments@),
            models.len() == segments@.len(),
            segments_error(prepared@, origins, models, 0) == segments_error(
                prepared@,
                origins,
                models,
                i as int,
            ),
        decreases segments@.len() - i,
    {
        if let Some(error) = check_segment(prepared, sources, segments, i) {
            return Some(error);
        }
        i = i + 1;
    }
    let covered: usize = if segments.len() == 0 {
        0
    } else {
        assert(models.last() == segments@.last()@);
        segments[segments.len() - 1].prepared_range.end
    };
    if covered == prepared.len() {
        None
    } else {
        Some(
            SourceMapError::IncompleteCoverage {
                expected_start: covered,
                actual_start: covered,
                prepared_len: prepared.len(),
            },
        )
    }
}

/// The part of a segment that a query from `start` to `end` covers.
pub open spec fn clipped(segment: SegmentModel, start: usize, end: usize) -> SegmentModel {
    let from: usize = if segment.start > start {
        segment.start
    } else {
        start
    };
    let to: usize = if segment.end < end {
        segment.end
    } else {
        end
    };
    SegmentModel {
        start: from,
        end: to,
        original: match segment.original {
            Some(original) => Some(
                SpanModel {
                    source_id: original.source_id,
                    start: (original.start + (from - segment.start)) as usize,
                    end: (original.start + (from - segment.start) + (to - from)) as usize,
                },
            ),
            None => None,
        },
        ..segment
    }
}

/// The parts of a query from `start` to `end` that the first `n` segments answer.
pub open spec fn mapped(segments: Seq<SegmentModel>, start: usize, end: usize, n: int) -> Seq<
    SegmentModel,
>
    decreases n,
{
    if n <= 0 {
        Seq::empty()
    } else {
        let before = mapped(segments, start, end, n - 1);
        let segment = segments[n - 1];
        if segment.end > start && segment.start < end {
            before.push(clipped(segment, start, end))
        } else {
            before
        }
    }
}

impl SourceMap {
    #[verifier::type_invariant]
    spec fn checked(&self) -> bool {
        self@.valid()
    }

    /// Checks a map of `prepared_bytes`.
    ///
    /// The sources have distinct identities that are not empty. The segments
    /// cover the buffer in order and without a gap. Copied and masked segments
    /// have an origin of the same length in a supplied source; copied bytes are
    /// those of the origin, masked bytes are white space that keeps the line
    /// breaks. Synthetic segments have no origin. The segments of one expansion
    /// take their origins from one source and use no byte of it twice.
    pub fn new(
        prepared_bytes: &[u8],
        original_sources: Vec<SourceSnapshot>,
        segments: Vec<SourceMapSegment>,
    ) -> (r: Result<SourceMap, SourceMapError>)
        ensures
            ({
                let model = MapModel {
                    prepared: prepared_bytes@,
                    sources: snapshot_models(original_sources@),
                    segments: segment_models(segments@),
                };
                match r {
                    Ok(map) => model.valid() && map@ == model,
                    Err(error) => model.error() == Some(error@),
                }
            }),
    {
        if let Some(error) = check_sources(&original_sources) {
            return Err(error);
        }
        if let Some(error) = check_segments(prepared_bytes, &original_sources, &segments) {
            return Err(error);
        }
        Ok(SourceMap { prepared_bytes: slice_to_vec(prepared_bytes), original_sources, segments })
    }

    /// The sources of the map.
    pub fn original_sources(&self) -> (r: &[SourceSnapshot])
        ensures
            snapshot_models(r@) == self@.sources,
    {
        self.original_sources.as_slice()
    }

    /// The prepared bytes.
    pub fn prepared_bytes(&self) -> (r: &[u8])
        ensures
            r@ == self@.prepared,
    {
        self.prepared_bytes.as_slice()
    }

    /// The segments in the order of the buffer.
    pub fn segments(&self) -> (r: &[SourceMapSegment])
        ensures
            segment_models(r@) == self@.segments,
    {
        self.segments.as_slice()
    }

    /// The number of prepared bytes.
    pub fn prepared_len(&self) -> (r: usize)
        ensures
            r == self@.prepared.len(),
    {
        self.prepared_bytes.len()
    }
}

impl Clone for SourceMap {
    fn clone(&self) -> (r: SourceMap)
        ensures
            r@ == self@,
    {
        proof {
            use_type_invariant(self);
        }
        let mut sources: Vec<SourceSnapshot> = Vec::new();
        let mut i: usize = 0;
        while i < self.original_sources.len()
            invariant
                i <= self.original_sources@.len(),
                sources@.len() == i,
                forall|k: int|
                    0 <= k < i ==> (#[trigger] sources@[k])@ == self.original_sources@[k]@,
            decreases self.original_sources@.len() - i,
        {
            sources.push(self.original_sources[i].clone());
            i = i + 1;
        }
        assert(snapshot_models(sources@) =~= snapshot_models(self.original_sources@));
        let mut segments: Vec<SourceMapSegment> = Vec::new();
        let mut k: usize = 0;
        while k < self.segments.len()
            invariant
                k <= self.segments@.len(),
                segments@.len() == k,
                forall|j: int| 0 <= j < k ==> (#[trigger] segments@[j])@ == self.segments@[j]@,
            decreases self.segments@.len() - k,
        {
            segments.push(self.segments[k].clone());
            k = k + 1;
        }
        assert(segment_models(segments@) =~= segment_models(self.segments@));
        SourceMap {
            prepared_bytes: slice_to_vec(self.prepared_bytes.as_slice()),
            original_sources: sources,
            segments,
        }
    }
}

/// In a valid map nothing is wrong with any segment, and together they cover the
/// buffer.
proof fn lemma_segments_hold(
    prepared: Seq<u8>,
    sources: Seq<SnapshotModel>,
    segments: Seq<SegmentModel>,
    i: int,
)
    requires
        0 <= i <= segments.len(),
        segments_error(prepared, sources, segments, i) is None,
    ensures
        forall|k: int|
            i <= k < segments.len() ==> (#[trigger] segment_error(
                prepared,
                sources,
                segments,
                k,
            )) is None,
        segments.len() > 0 ==> segments.last().end == prepared.len(),
        segments.len() == 0 ==> prepared.len() == 0,
    decreases segments.len() - i,
{
    if i < segments.len() {
        lemma_segments_hold(prepared, sources, segments, i + 1);
    }
}

/// The source found for an identity has that identity.
proof fn lemma_source_found(sources: Seq<SnapshotModel>, id: Seq<char>, n: int)
    requires
        0 <= n <= sources.len(),
    ensures
        match source_index(sources, id, n) {
            Some(k) => 0 <= k < n && sources[k].source_id == id,
            None => true,
        },
    decreases n,
{
    if n > 0 {
        lemma_source_found(sources, id, n - 1);
    }
}

/// In a valid map every segment lies in the buffer and starts where the one
/// before it ends; an origin lies in its source and has the same length.
pub proof fn lemma_segment_holds(map: MapModel, i: int)
    requires
        map.valid(),
        0 <= i < map.segments.len(),
    ensures
        segment_error(map.prepared, map.sources, map.segments, i) is None,
        map.segments[i].start < map.segments[i].end <= map.prepared.len(),
        i == 0 ==> map.segments[i].start == 0,
        i > 0 ==> map.segments[i].start == map.segments[i - 1].end,
        match map.segments[i].original {
            Some(original) => match source_index(
                map.sources,
                original.source_id,
                map.sources.len() as int,
            ) {
                Some(k) => {
                    &&& 0 <= k < map.sources.len()
                    &&& original.start <= original.end <= map.sources[k].bytes.len()
                    &&& original.end - original.start == map.segments[i].end
                        - map.segments[i].start
                },
                None => false,
            },
            None => map.segments[i].kind == SourceSegmentKind::Synthetic,
        },
{
    lemma_segments_hold(map.prepared, map.sources, map.segments, 0);
    assert(segment_error(map.prepared, map.sources, map.segments, i) is None);
    if let Some(original) = map.segments[i].original {
        lemma_source_found(map.sources, original.source_id, map.sources.len() as int);
    }
}

/// The map of a source onto itself.
pub open spec fn identity_map(source: SnapshotModel) -> MapModel {
    let len = source.bytes.len() as usize;
    MapModel {
        prepared: source.bytes,
        sources: seq![source],
        segments: if len > 0 {
            seq![
                SegmentModel {
                    start: 0,
                    end: len,
                    original: Some(SpanModel { source_id: source.source_id, start: 0, end: len }),
                    expansion_id: "root"@,
                    kind: SourceSegmentKind::Copied,
                },
            ]
        } else {
            Seq::empty()
        },
    }
}

proof fn lemma_identity_valid(source: SnapshotModel)
    requires
        source.bytes.len() <= usize::MAX,
    ensures
        identity_map(source).error() == (if source.source_id.len() == 0 {
            Some(MapErrorModel::EmptySourceId(source.source_id))
        } else {
            None
        }),
{
    let map = identity_map(source);
    let sources = map.sources;
    assert(source_index(sources, source.source_id, 0) is None);
    assert(sources_error(sources, 1) is None);
    assert(source_error(sources, 0) == (if source.source_id.len() == 0 {
        Some(MapErrorModel::EmptySourceId(source.source_id))
    } else {
        None
    }));
    if source.source_id.len() > 0 {
        reveal_strlit("root");
        assert(source_index(sources, source.source_id, 1) == Some(0int));
        if source.bytes.len() > 0 {
            assert(expansion_error(
                map.segments,
                "root"@,
                map.segments[0].original->0,
                0,
                0,
            ) is None);
            assert(segment_error(map.prepared, sources, map.segments, 0) is None);
            assert(segments_error(map.prepared, sources, map.segments, 1) is None);
        }
        assert(segments_error(map.prepared, sources, map.segments, 0) is None);
    }
}

impl SourceMap {
    /// The map of a source onto itself.
    pub fn identity(source: SourceSnapshot) -> (r: Result<SourceMap, SourceMapError>)
        ensures
            match r {
                Ok(map) => source@.source_id.len() > 0 && map@ == identity_map(source@),
                Err(error) => source@.source_id.len() == 0 && error@
                    == MapErrorModel::EmptySourceId(source@.source_id),
            },
    {
        let len: usize = source.len();
        let bytes = slice_to_vec(source.bytes());
        let mut segments: Vec<SourceMapSegment> = Vec::new();
        if len > 0 {
            segments.push(
                SourceMapSegment::copied(
                    0..len,
                    source.source_id().clone(),
                    0..len,
                    ExpansionId::root(),
                ),
            );
        }
        let ghost model = source@;
        let mut sources: Vec<SourceSnapshot> = Vec::new();
        sources.push(source);
        proof {
            lemma_identity_valid(model);
            assert(snapshot_models(sources@) =~= identity_map(model).sources);
            assert(segment_models(segments@) =~= identity_map(model).segments);
        }
        SourceMap::new(bytes.as_slice(), sources, segments)
    }

    /// The map of a text onto itself, from its identity and bytes.
    pub fn identity_for(source_id: ProjectSourceId, bytes: &[u8]) -> (r: Result<
        SourceMap,
        SourceMapError,
    >)
        ensures
            match r {
                Ok(map) => source_id@.len() > 0 && map@ == identity_map(
                    SnapshotModel { source_id: source_id@, bytes: bytes@ },
                ),
                Err(error) => source_id@.len() == 0 && error@ == MapErrorModel::EmptySourceId(
                    source_id@,
                ),
            },
    {
        SourceMap::identity(SourceSnapshot::new(source_id, bytes))
    }

    /// The origins of a range of the prepared buffer: one part for each segment
    /// that has bytes in it, clipped to the range. An empty range has none.
    pub fn map_range(&self, prepared_range: Range<usize>) -> (r: Result<
        Vec<MappedSourceSpan>,
        SourceMapError,
    >)
        ensures
            answers(self@, prepared_range, r),
    {
        proof {
            use_type_invariant(self);
        }
        let start: usize = prepared_range.start;
        let end: usize = prepared_range.end;
        if start > end {
            return Err(SourceMapError::InvalidRange { range: prepared_range, space: "mapping" });
        }
        if end > self.prepared_bytes.len() {
            return Err(
                SourceMapError::MapRangeOutOfBounds {
                    range: prepared_range,
                    prepared_len: self.prepared_bytes.len(),
                },
            );
        }
        let mut out: Vec<MappedSourceSpan> = Vec::new();
        assert(mapped_models(out@) =~= Seq::<SegmentModel>::empty());
        if start == end {
            return Ok(out);
        }
        let ghost models = self@.segments;
        let mut i: usize = 0;
        while i < self.segments.len()
            invariant
                i <= self.segments@.len(),
                models == self@.segments,
                models == segment_models(self.segments@),
                self@.valid(),
                start < end,
                mapped_models(out@) == mapped(models, start, end, i as int),
            decreases self.segments@.len() - i,
        {
            let ghost before = mapped_models(out@);
            let segment = &self.segments[i];
            proof {
                assert(models[i as int] == segment@);
                lemma_segment_holds(self@, i as int);
            }
            if segment.prepared_range.end > start && segment.prepared_range.start < end {
                let from: usize = if segment.prepared_range.start > start {
                    segment.prepared_range.start
                } else {
                    start
                };
                let to: usize = if segment.prepared_range.end < end {
                    segment.prepared_range.end
                } else {
                    end
                };
                let original = match &segment.original {
                    Some(span) => {
                        let offset: usize = from - segment.prepared_range.start;
                        let first: usize = span.byte_range.start + offset;
                        Some(SourceSpan::new(span.source_id.clone(), first..first + (to - from)))
                    },
                    None => None,
                };
                out.push(
                    MappedSourceSpan {
                        prepared_range: from..to,
                        original,
                        expansion_id: segment.expansion_id.clone(),
                        kind: segment.kind,
                    },
                );
                assert(mapped_models(out@) =~= before.push(clipped(segment@, start, end)));
            }
            i = i + 1;
        }
        Ok(out)
    }
}

/// What a query is answered: an error where the range is reversed or goes beyond
/// the buffer, and else the parts that the segments give.
pub open spec fn answers(
    map: MapModel,
    range: Range<usize>,
    r: Result<Vec<MappedSourceSpan>, SourceMapError>,
) -> bool {
    if range.start > range.end {
        r matches Err(error) && error@ == (MapErrorModel::InvalidRange {
            range,
            space: "mapping"@,
        })
    } else if range.end > map.prepared.len() {
        r matches Err(error) && error@ == (MapErrorModel::MapRangeOutOfBounds {
            range,
            prepared_len: map.prepared.len() as usize,
        })
    } else {
        r matches Ok(spans) && mapped_models(spans@) == map.parts(range.start, range.end)
    }
}

/// Whether part `i` has bytes and starts where the part before it ends.
pub open spec fn joined(parts: Seq<SegmentModel>, i: int) -> bool {
    parts[i].start < parts[i].end && (i > 0 ==> parts[i].start == parts[i - 1].end)
}

/// The answers of the first `n` segments tile the query up to where segment `n`
/// starts.
proof fn lemma_mapped_tiles(map: MapModel, start: usize, end: usize, n: int)
    requires
        map.valid(),
        start < end <= map.prepared.len(),
        0 <= n <= map.segments.len(),
    ensures
        ({
            let parts = mapped(map.segments, start, end, n);
            let covered: usize = if n == 0 {
                0
            } else {
                map.segments[n - 1].end
            };
            &&& covered <= start <==> parts.len() == 0
            &&& parts.len() > 0 ==> parts[0].start == start && parts.last().end == (
            if covered < end {
                covered
            } else {
                end
            })
            &&& forall|i: int| 0 <= i < parts.len() ==> joined(parts, i)
        }),
    decreases n,
{
    if n > 0 {
        lemma_mapped_tiles(map, start, end, n - 1);
        lemma_segment_holds(map, n - 1);
        let before = mapped(map.segments, start, end, n - 1);
        let parts = mapped(map.segments, start, end, n);
        assert forall|i: int| 0 <= i < parts.len() implies joined(parts, i) by {
            if i < before.len() {
                assert(joined(before, i));
            }
        }
    }
}

/// The answer to a query tiles it: the parts follow each other without a gap or
/// an overlap, from the first byte of the query to its last, and none is empty.
pub proof fn law_query_is_tiled(map: MapModel, start: usize, end: usize)
    requires
        map.valid(),
        start < end <= map.prepared.len(),
    ensures
        ({
            let parts = mapped(map.segments, start, end, map.segments.len() as int);
            &&& parts.len() > 0
            &&& parts[0].start == start
            &&& parts.last().end == end
            &&& forall|i: int| 0 <= i < parts.len() ==> joined(parts, i)
        }),
{
    lemma_mapped_tiles(map, start, end, map.segments.len() as int);
    lemma_segments_hold(map.prepared, map.sources, map.segments, 0);
}

/// Whether an offset lies behind the first byte of a segment and before its end.
pub open spec fn inside_segment(map: MapModel, offset: usize) -> bool {
    exists|k: int|
        0 <= k < map.segments.len() && (#[trigger] map.segments[k]).start < offset
            < map.segments[k].end
}

/// Whether cutting a list of parts at an offset inside one of them gives two
/// lists: the part that holds the offset is cut in two, and the others stay.
pub open spec fn cut_in_two(
    all: Seq<SegmentModel>,
    left: Seq<SegmentModel>,
    right: Seq<SegmentModel>,
    offset: usize,
) -> bool {
    let n = left.len() - 1;
    &&& 0 <= n < all.len()
    &&& all[n].start < offset < all[n].end
    &&& left == all.take(n).push(clipped(all[n], all[n].start, offset))
    &&& right == seq![clipped(all[n], offset, all[n].end)] + all.skip(n + 1)
}

proof fn lemma_segments_in_order(map: MapModel, i: int, k: int)
    requires
        map.valid(),
        0 <= i < k < map.segments.len(),
    ensures
        map.segments[i].end <= map.segments[k].start,
    decreases k - i,
{
    lemma_segment_holds(map, k);
    if i < k - 1 {
        lemma_segments_in_order(map, i, k - 1);
        lemma_segment_holds(map, k - 1);
    }
}

/// The segment that holds the byte at an offset.
proof fn lemma_segment_at(map: MapModel, offset: usize, n: int) -> (k: int)
    requires
        map.valid(),
        0 < n <= map.segments.len(),
        offset < map.segments[n - 1].end,
    ensures
        0 <= k < n,
        map.segments[k].start <= offset < map.segments[k].end,
    decreases n,
{
    lemma_segment_holds(map, n - 1);
    if map.segments[n - 1].start <= offset {
        n - 1
    } else {
        lemma_segment_at(map, offset, n - 1)
    }
}

proof fn lemma_clipped_at_once(segment: SegmentModel, a: usize, b: usize, c: usize)
    requires
        a < b < c,
        segment.start < b < segment.end,
        segment.original matches Some(original) ==> original.start <= original.end
            && original.end - original.start == segment.end - segment.start,
    ensures
        ({
            let whole = clipped(segment, a, c);
            &&& whole.start < b < whole.end
            &&& clipped(whole, whole.start, b) == clipped(segment, a, b)
            &&& clipped(whole, b, whole.end) == clipped(segment, b, c)
        }),
{
    let whole = clipped(segment, a, c);
    if let Some(original) = segment.original {
        let span = whole.original->0;
        assert(span.start == original.start + (whole.start - segment.start));
    }
    assert(clipped(whole, whole.start, b) =~= clipped(segment, a, b));
    assert(clipped(whole, b, whole.end) =~= clipped(segment, b, c));
}

/// The answers of the first `n` segments, where segment `k` holds the byte at the
/// cut.
proof fn lemma_mapped_cut(map: MapModel, a: usize, b: usize, c: usize, k: int, n: int)
    requires
        map.valid(),
        a < b < c <= map.prepared.len(),
        0 <= k < map.segments.len(),
        map.segments[k].start <= b < map.segments[k].end,
        0 <= n <= map.segments.len(),
    ensures
        ({
            let all = mapped(map.segments, a, c, n);
            let left = mapped(map.segments, a, b, n);
            let right = mapped(map.segments, b, c, n);
            if n <= k {
                right.len() == 0 && all == left
            } else if map.segments[k].start == b {
                all == left + right
            } else {
                cut_in_two(all, left, right, b)
            }
        }),
    decreases n,
{
    if n > 0 {
        lemma_mapped_cut(map, a, b, c, k, n - 1);
        lemma_segment_holds(map, n - 1);
        let segment = map.segments[n - 1];
        let all0 = mapped(map.segments, a, c, n - 1);
        let left0 = mapped(map.segments, a, b, n - 1);
        let right0 = mapped(map.segments, b, c, n - 1);
        let all = mapped(map.segments, a, c, n);
        let left = mapped(map.segments, a, b, n);
        let right = mapped(map.segments, b, c, n);
        if n - 1 < k {
            lemma_segments_in_order(map, n - 1, k);
        } else if n - 1 == k {
            if segment.start == b {
                assert(all =~= left + right);
            } else {
                lemma_clipped_at_once(segment, a, b, c);
                assert(all == all0.push(clipped(segment, a, c)));
                let m = all0.len() as int;
                assert(all.take(m) =~= all0);
                assert(right =~= seq![clipped(segment, b, c)] + all.skip(m + 1));
            }
        } else {
            lemma_segments_in_order(map, k, n - 1);
            assert(left == left0);
            if segment.start < c {
                let part = clipped(segment, b, c);
                assert(part == clipped(segment, a, c));
                assert(right == right0.push(part));
                assert(all == all0.push(part));
                if map.segments[k].start == b {
                    assert(all =~= left + right);
                } else {
                    let m = left.len() - 1;
                    assert(all.take(m) =~= all0.take(m));
                    assert(all.skip(m + 1) =~= all0.skip(m + 1).push(part));
                    assert(right =~= seq![clipped(all[m], b, all[m].end)] + all.skip(m + 1));
                }
            }
        }
    }
}

/// A query can be cut: the answers for `a..b` followed by those for `b..c` are the
/// answers for `a..c`; where `b` lies inside a segment, the one part that holds it
/// is cut in two there.
pub proof fn law_query_can_be_cut(map: MapModel, a: usize, b: usize, c: usize)
    requires
        map.valid(),
        a <= b <= c <= map.prepared.len(),
    ensures
        if a < b < c && inside_segment(map, b) {
            cut_in_two(map.parts(a, c), map.parts(a, b), map.parts(b, c), b)
        } else {
            map.parts(a, c) == map.parts(a, b) + map.parts(b, c)
        },
{
    let count = map.segments.len() as int;
    if a < b < c {
        lemma_segments_hold(map.prepared, map.sources, map.segments, 0);
        let k = lemma_segment_at(map, b, count);
        lemma_mapped_cut(map, a, b, c, k, count);
        if map.segments[k].start == b && inside_segment(map, b) {
            let i = choose|i: int|
                0 <= i < count && (#[trigger] map.segments[i]).start < b < map.segments[i].end;
            if i < k {
                lemma_segments_in_order(map, i, k);
            } else if k < i {
                lemma_segments_in_order(map, k, i);
            }
        }
    } else {
        assert(map.parts(a, c) =~= map.parts(a, b) + map.parts(b, c));
    }
}

/// Every answered part is the clipped part of a segment that meets the query.
proof fn lemma_mapped_from(segments: Seq<SegmentModel>, start: usize, end: usize, n: int, i: int)
    requires
        0 <= n <= segments.len(),
        0 <= i < mapped(segments, start, end, n).len(),
    ensures
        exists|k: int|
            0 <= k < n && (#[trigger] segments[k]).end > start && segments[k].start < end
                && mapped(segments, start, end, n)[i] == clipped(segments[k], start, end),
    decreases n,
{
    if n > 0 {
        let before = mapped(segments, start, end, n - 1);
        if i < before.len() {
            lemma_mapped_from(segments, start, end, n - 1, i);
            let k = choose|k: int|
                0 <= k < n - 1 && (#[trigger] segments[k]).end > start && segments[k].start < end
                    && before[i] == clipped(segments[k], start, end);
            assert(0 <= k < n && segments[k].end > start && segments[k].start < end && mapped(
                segments,
                start,
                end,
                n,
            )[i] == clipped(segments[k], start, end));
        } else {
            assert(segments[n - 1].end > start && segments[n - 1].start < end && mapped(
                segments,
                start,
                end,
                n,
            )[i] == clipped(segments[n - 1], start, end));
        }
    }
}

proof fn lemma_mask_holds(
    prepared: Seq<u8>,
    original: Seq<u8>,
    prepared_range: Range<usize>,
    original_range: Range<usize>,
    offset: int,
)
    requires
        0 <= offset,
        mask_error(prepared, original, prepared_range, original_range, offset) is None,
    ensures
        forall|k: int|
            offset <= k < prepared_range.end - prepared_range.start ==> masks(
                #[trigger] prepared[prepared_range.start + k],
                original[original_range.start + k],
            ),
    decreases prepared_range.end - prepared_range.start - offset,
{
    if offset < prepared_range.end - prepared_range.start {
        lemma_mask_holds(prepared, original, prepared_range, original_range, offset + 1);
    }
}

/// Whether a part of a map agrees with the bytes it names: its origin lies in a
/// supplied source and has the same length; copied bytes are the origin's,
/// masked bytes mask them, and only synthetic bytes have no origin.
pub open spec fn faithful(map: MapModel, part: SegmentModel) -> bool {
    match part.original {
        None => part.kind == SourceSegmentKind::Synthetic,
        Some(original) => match source_index(
            map.sources,
            original.source_id,
            map.sources.len() as int,
        ) {
            None => false,
            Some(k) => {
                let bytes = map.sources[k].bytes;
                &&& original.start <= original.end <= bytes.len()
                &&& original.end - original.start == part.end - part.start
                &&& part.kind != SourceSegmentKind::Synthetic
                &&& part.kind == SourceSegmentKind::Copied ==> map.prepared.subrange(
                    part.start as int,
                    part.end as int,
                ) == bytes.subrange(original.start as int, original.end as int)
                &&& part.kind == SourceSegmentKind::Masked ==> forall|j: int|
                    0 <= j < part.end - part.start ==> masks(
                        #[trigger] map.prepared[part.start + j],
                        bytes[original.start + j],
                    )
            },
        },
    }
}

/// What a query answers agrees with the bytes: reading the named original range
/// gives back the copied bytes of the query, and masked bytes keep the line
/// breaks of the range they hide.
pub proof fn law_answers_are_faithful(map: MapModel, start: usize, end: usize, i: int)
    requires
        map.valid(),
        start < end <= map.prepared.len(),
        0 <= i < mapped(map.segments, start, end, map.segments.len() as int).len(),
    ensures
        faithful(map, mapped(map.segments, start, end, map.segments.len() as int)[i]),
{
    let n = map.segments.len() as int;
    lemma_mapped_from(map.segments, start, end, n, i);
    let k = choose|k: int|
        0 <= k < n && (#[trigger] map.segments[k]).end > start && map.segments[k].start < end
            && mapped(map.segments, start, end, n)[i] == clipped(map.segments[k], start, end);
    lemma_segment_holds(map, k);
    let segment = map.segments[k];
    let part = clipped(segment, start, end);
    if let Some(original) = segment.original {
        let s = source_index(map.sources, original.source_id, map.sources.len() as int)->0;
        let bytes = map.sources[s].bytes;
        let span = part.original->0;
        let shift = part.start - segment.start;
        assert(span.start == original.start + shift);
        assert(span.end == span.start + (part.end - part.start));
        if part.kind == SourceSegmentKind::Copied {
            let whole = map.prepared.subrange(segment.start as int, segment.end as int);
            let origin = bytes.subrange(original.start as int, original.end as int);
            assert(whole == origin);
            let shown = map.prepared.subrange(part.start as int, part.end as int);
            let read = bytes.subrange(span.start as int, span.end as int);
            assert forall|j: int| 0 <= j < shown.len() implies shown[j] == read[j] by {
                assert(shown[j] == whole[shift + j]);
                assert(read[j] == origin[shift + j]);
            }
            assert(shown =~= read);
        }
        if part.kind == SourceSegmentKind::Masked {
            lemma_mask_holds(map.prepared, bytes, segment.range(), original.range(), 0);
            assert forall|j: int| 0 <= j < part.end - part.start implies masks(
                #[trigger] map.prepared[part.start + j],
                bytes[span.start + j],
            ) by {
                assert(map.prepared[part.start + j] == map.prepared[segment.start + (shift + j)]);
                assert(bytes[span.start + j] == bytes[original.start + (shift + j)]);
            }
        }
    }
}

/// A source mapped onto itself answers each range with that same range.
pub proof fn law_identity_answers_itself(source: SnapshotModel, start: usize, end: usize)
    requires
        source.bytes.len() <= usize::MAX,
        start < end <= source.bytes.len(),
    ensures
        mapped(
            identity_map(source).segments,
            start,
            end,
            identity_map(source).segments.len() as int,
        ) == seq![
            SegmentModel {
                start,
                end,
                original: Some(SpanModel { source_id: source.source_id, start, end }),
                expansion_id: "root"@,
                kind: SourceSegmentKind::Copied,
            },
        ],
{
    let segments = identity_map(source).segments;
    assert(mapped(segments, start, end, 0) =~= Seq::<SegmentModel>::empty());
    assert(mapped(segments, start, end, 1) =~= seq![clipped(segments[0], start, end)]);
}

proof fn lemma_expansion_holds(
    segments: Seq<SegmentModel>,
    expansion_id: Seq<char>,
    original: SpanModel,
    j: int,
    n: int,
    k: int,
)
    requires
        0 <= j <= k < n <= segments.len(),
        expansion_error(segments, expansion_id, original, j, n) is None,
        segments[k].expansion_id == expansion_id,
        segments[k].original is Some,
    ensures
        segments[k].original->0.source_id == original.source_id,
        segments[k].original->0.end <= original.start || original.end
            <= segments[k].original->0.start,
    decreases k - j,
{
    if j < k {
        lemma_expansion_holds(segments, expansion_id, original, j + 1, n, k);
    }
}

/// The segments of one expansion come from one source and use none of its bytes
/// twice.
pub proof fn law_expansion_has_one_origin(map: MapModel, i: int, k: int)
    requires
        map.valid(),
        0 <= i < map.segments.len(),
        0 <= k < map.segments.len(),
        i != k,
        map.segments[i].expansion_id == map.segments[k].expansion_id,
        map.segments[i].original is Some,
        map.segments[k].original is Some,
    ensures
        ({
            let a = map.segments[i].original->0;
            let b = map.segments[k].original->0;
            a.source_id == b.source_id && (a.end <= b.start || b.end <= a.start)
        }),
{
    lemma_segment_holds(map, i);
    lemma_segment_holds(map, k);
    let (first, second) = if i < k {
        (i, k)
    } else {
        (k, i)
    };
    lemma_expansion_holds(
        map.segments,
        map.segments[second].expansion_id,
        map.segments[second].original->0,
        0,
        second,
        first,
    );
}

} // verus!
