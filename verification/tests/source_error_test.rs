use std::ops::Range;

use cfg_pascal::{
    ExpansionId, PreparationFidelity, PreparationProvenance, PreparedSource, PreparedSourceError,
    ProjectSourceId, SourceMap, SourceMapError, SourceMapSegment, SourceSegmentKind,
    SourceSnapshot, SourceSnapshotError, SourceSpan, SyntaxNode, SyntaxTree,
};

const PROGRAM: &[u8] = b"program P; begin Work; end.";

fn id(value: &str) -> ProjectSourceId {
    ProjectSourceId::new(value)
}

fn source(name: &str, bytes: &[u8]) -> SourceSnapshot {
    SourceSnapshot::new(id(name), bytes)
}

fn copied(prepared: Range<usize>, name: &str, original: Range<usize>) -> SourceMapSegment {
    SourceMapSegment::copied(prepared, id(name), original, ExpansionId::root())
}

fn masked(prepared: Range<usize>, name: &str, original: Range<usize>) -> SourceMapSegment {
    SourceMapSegment::masked(prepared, id(name), original, ExpansionId::root())
}

fn refusal(
    prepared: &[u8],
    sources: Vec<SourceSnapshot>,
    segments: Vec<SourceMapSegment>,
) -> SourceMapError {
    SourceMap::new(prepared, sources, segments).expect_err("map must be refused")
}

fn assert_refused(error: SourceMapError, expected: SourceMapError, message: &str) {
    assert_eq!(error, expected);
    assert_eq!(error.message(), message);
    assert_eq!(error.clone(), expected);
}

#[test]
fn snapshot_needs_an_identity() {
    let error = SourceSnapshot::try_new(id(""), b"x").expect_err("empty identity");
    assert_eq!(error, SourceSnapshotError::EmptySourceId);
    assert_eq!(error.message(), "source snapshot ID must not be empty");

    let snapshot = SourceSnapshot::try_new(id("a"), b"xyz").expect("snapshot");
    assert_eq!(snapshot.source_id().as_str(), "a");
    assert_eq!(snapshot.bytes(), b"xyz");
    assert_eq!(snapshot.len(), 3);
    assert!(!snapshot.is_empty());
    assert!(source("e", b"").is_empty());
}

#[test]
fn map_refuses_bad_origins() {
    assert_refused(
        refusal(b"", vec![source("", b"x")], vec![]),
        SourceMapError::EmptySourceId(id("")),
        "source map source ID ProjectSourceId(\"\") is empty",
    );
    assert_refused(
        refusal(b"", vec![source("a", b"x"), source("a", b"x")], vec![]),
        SourceMapError::DuplicateSourceId(id("a")),
        "source map source ID ProjectSourceId(\"a\") was supplied twice",
    );
    assert_refused(
        refusal(b"", vec![source("a", b"x"), source("a", b"y")], vec![]),
        SourceMapError::ConflictingSourceId(id("a")),
        "source map source ID ProjectSourceId(\"a\") was supplied with conflicting bytes",
    );
    assert_refused(
        refusal(b"x", vec![], vec![copied(0..1, "a\"b", 0..1)]),
        SourceMapError::UnknownSourceId(id("a\"b")),
        "source map source ID ProjectSourceId(\"a\\\"b\") was not supplied",
    );
}

#[test]
fn map_refuses_bad_prepared_ranges() {
    let sources = || vec![source("a", b"abcdef")];
    assert_refused(
        refusal(
            b"x",
            sources(),
            vec![SourceMapSegment::synthetic(0..1, ExpansionId::new(""))],
        ),
        SourceMapError::EmptyExpansionId,
        "source map expansion ID must not be empty",
    );
    assert_refused(
        refusal(b"abc", sources(), vec![copied(2..1, "a", 0..1)]),
        SourceMapError::InvalidRange { range: 2..1, space: "prepared" },
        "invalid prepared range 2..1",
    );
    assert_refused(
        refusal(b"abc", sources(), vec![copied(0..0, "a", 0..0)]),
        SourceMapError::EmptySegment { range: 0..0 },
        "source map segment 0..0 must not be empty",
    );
    assert_refused(
        refusal(b"abc", sources(), vec![copied(0..4, "a", 0..4)]),
        SourceMapError::PreparedRangeOutOfBounds { range: 0..4, prepared_len: 3 },
        "prepared range 0..4 exceeds prepared length 3",
    );
    assert_refused(
        refusal(b"abcdef", sources(), vec![copied(0..2, "a", 0..2), copied(3..6, "a", 3..6)]),
        SourceMapError::IncompleteCoverage { expected_start: 2, actual_start: 3, prepared_len: 6 },
        "source map coverage expected byte 2, found 3; prepared length 6",
    );
    assert_refused(
        refusal(b"abcdef", sources(), vec![copied(0..4, "a", 0..4), copied(3..6, "a", 3..6)]),
        SourceMapError::OverlappingSegments { previous: 0..4, next: 3..6 },
        "source map ranges 0..4 and 3..6 overlap",
    );
    assert_refused(
        refusal(b"abcdef", sources(), vec![copied(0..4, "a", 0..4)]),
        SourceMapError::IncompleteCoverage { expected_start: 4, actual_start: 4, prepared_len: 6 },
        "source map coverage expected byte 4, found 4; prepared length 6",
    );
}

#[test]
fn map_refuses_bad_original_ranges() {
    let sources = || vec![source("a", b"abc")];
    assert_refused(
        refusal(b"x", sources(), vec![copied(0..1, "a", 2..1)]),
        SourceMapError::InvalidRange { range: 2..1, space: "original" },
        "invalid original range 2..1",
    );
    assert_refused(
        refusal(b"x", sources(), vec![copied(0..1, "a", 3..4)]),
        SourceMapError::OriginalRangeOutOfBounds {
            source_id: id("a"),
            range: 3..4,
            source_len: 3,
        },
        "original range 3..4 for source ProjectSourceId(\"a\") exceeds source length 3",
    );
    assert_refused(
        refusal(b"ab", sources(), vec![copied(0..2, "a", 0..1)]),
        SourceMapError::LengthMismatch { prepared_range: 0..2, original_range: 0..1 },
        "prepared range 0..2 and original range 0..1 have different lengths",
    );
    assert_refused(
        refusal(b"xb", sources(), vec![copied(0..2, "a", 0..2)]),
        SourceMapError::CopiedBytesMismatch {
            source_id: id("a"),
            prepared_range: 0..2,
            original_range: 0..2,
        },
        "copied prepared range 0..2 differs from source ProjectSourceId(\"a\") range 0..2",
    );
}

#[test]
fn map_refuses_origins_that_do_not_fit_the_kind() {
    let segment = |kind: SourceSegmentKind, original: Option<SourceSpan>| SourceMapSegment {
        prepared_range: 0..1,
        original,
        expansion_id: ExpansionId::root(),
        kind,
    };
    for (kind, name) in [
        (SourceSegmentKind::Copied, "Copied"),
        (SourceSegmentKind::Masked, "Masked"),
    ] {
        assert_refused(
            refusal(b" ", vec![source("a", b" ")], vec![segment(kind, None)]),
            SourceMapError::MissingOrigin { prepared_range: 0..1, kind },
            &format!("{name} segment 0..1 is missing its original origin"),
        );
    }
    assert_refused(
        refusal(
            b" ",
            vec![source("a", b" ")],
            vec![segment(SourceSegmentKind::Synthetic, Some(SourceSpan::new(id("a"), 0..1)))],
        ),
        SourceMapError::SyntheticHasOrigin { prepared_range: 0..1 },
        "synthetic segment 0..1 must not claim an original origin",
    );
}

#[test]
fn map_refuses_bad_masks() {
    assert_refused(
        refusal(b" \xC3 ", vec![source("a", b"abc")], vec![masked(0..3, "a", 0..3)]),
        SourceMapError::MaskedBytesNotWhitespace { prepared_range: 0..3, offset: 1, byte: 0xC3 },
        "masked range 0..3 contains byte 0xc3 at offset 1",
    );
    assert_refused(
        refusal(b"   ", vec![source("a", b"a\nc")], vec![masked(0..3, "a", 0..3)]),
        SourceMapError::MaskedLineBreakMismatch {
            prepared_range: 0..3,
            original_range: 0..3,
            offset: 1,
        },
        "masked range 0..3 does not preserve the line break at offset 1 from 0..3",
    );
    assert!(SourceMap::new(b" \n ", vec![source("a", b"a\nc")], vec![masked(0..3, "a", 0..3)])
        .is_ok());
}

#[test]
fn one_expansion_has_one_source_and_uses_its_bytes_once() {
    let sources = || vec![source("a", b"ab"), source("b", b"ab")];
    assert_refused(
        refusal(b"ab", sources(), vec![copied(0..1, "a", 0..1), copied(1..2, "b", 1..2)]),
        SourceMapError::ExpansionSourceConflict {
            expansion_id: ExpansionId::root(),
            expected: id("a"),
            found: id("b"),
        },
        "expansion ExpansionId(\"root\") uses source ProjectSourceId(\"b\"), \
         expected ProjectSourceId(\"a\")",
    );
    assert_refused(
        refusal(b"aab", sources(), vec![copied(0..1, "a", 0..1), copied(1..3, "a", 0..2)]),
        SourceMapError::ExpansionRangeOverlap {
            expansion_id: ExpansionId::root(),
            previous: 0..1,
            next: 0..2,
        },
        "expansion ExpansionId(\"root\") uses original ranges 0..1 and 0..2, which overlap",
    );
    let again = SourceMapSegment::copied(1..3, id("a"), 0..2, ExpansionId::new("again"));
    assert!(SourceMap::new(b"aab", sources(), vec![copied(0..1, "a", 0..1), again]).is_ok());
}

#[test]
fn queries_are_tiled_and_bounded() {
    let map = SourceMap::new(
        b"ab  !",
        vec![source("a", b"abcd")],
        vec![
            copied(0..2, "a", 0..2),
            masked(2..4, "a", 2..4),
            SourceMapSegment::synthetic(4..5, ExpansionId::new("glue")),
        ],
    )
    .expect("map");
    assert_eq!(map.prepared_len(), 5);

    let spans = map.map_range(1..5).expect("query");
    let kinds: Vec<SourceSegmentKind> = spans.iter().map(|span| span.kind()).collect();
    assert_eq!(
        kinds,
        vec![SourceSegmentKind::Copied, SourceSegmentKind::Masked, SourceSegmentKind::Synthetic]
    );
    assert_eq!(spans[0].original(), Some(&SourceSpan::new(id("a"), 1..2)));
    assert_eq!(spans[1].original(), Some(&SourceSpan::new(id("a"), 2..4)));
    assert_eq!(spans[2].original(), None);
    assert_eq!(spans[2].expansion_id().as_str(), "glue");
    assert_eq!(map.map_range(3..3).expect("empty query"), vec![]);

    let error = map.map_range(4..6).expect_err("beyond the buffer");
    assert_refused(
        error,
        SourceMapError::MapRangeOutOfBounds { range: 4..6, prepared_len: 5 },
        "mapping range 4..6 exceeds prepared length 5",
    );
    let error = map.map_range(Range { start: 3, end: 2 }).expect_err("reversed");
    assert_refused(
        error,
        SourceMapError::InvalidRange { range: Range { start: 3, end: 2 }, space: "mapping" },
        "invalid mapping range 3..2",
    );
}

#[test]
fn identity_map_answers_with_the_query() {
    let map = SourceMap::identity_for(id("a"), b"abcdef").expect("map");
    let spans = map.map_range(2..5).expect("query");
    assert_eq!(spans.len(), 1);
    assert_eq!(spans[0].original(), Some(&SourceSpan::new(id("a"), 2..5)));
    assert_eq!(spans[0].expansion_id(), &ExpansionId::root());

    let empty = SourceMap::identity(source("a", b"")).expect("empty map");
    assert!(empty.segments().is_empty());
    assert_eq!(
        SourceMap::identity_for(id(""), b"x").expect_err("no identity"),
        SourceMapError::EmptySourceId(id(""))
    );
}

fn prepare(
    name: &str,
    bytes: &[u8],
    map: SourceMap,
    configuration: &str,
    fidelity: PreparationFidelity,
) -> Result<PreparedSource, PreparedSourceError> {
    PreparedSource::new(
        id(name),
        bytes,
        map,
        configuration,
        fidelity,
        PreparationProvenance::Configured,
    )
}

fn identity_map(bytes: &[u8]) -> SourceMap {
    SourceMap::identity_for(id("origin"), bytes).expect("map")
}

#[test]
fn preparation_refuses_what_it_cannot_vouch_for() {
    let complete = PreparationFidelity::EXPLICIT_COMPLETE;

    let error = prepare("", PROGRAM, identity_map(PROGRAM), "cfg", complete).expect_err("identity");
    assert_eq!(error, PreparedSourceError::EmptySourceId(id("")));
    assert_eq!(error.message(), "prepared source ID ProjectSourceId(\"\") must not be empty");

    let error = prepare("p", PROGRAM, identity_map(PROGRAM), "", complete).expect_err("empty");
    assert_eq!(error, PreparedSourceError::EmptyConfigurationId);
    assert_eq!(error.message(), "prepared source configuration ID must not be empty");

    let partial = PreparationFidelity::Incomplete;
    let error = prepare("p", PROGRAM, identity_map(PROGRAM), "cfg", partial).expect_err("partial");
    assert_eq!(error, PreparedSourceError::RejectedFidelity(partial));
    assert_eq!(
        error.message(),
        "prepared source requires an explicit complete projection, got Incomplete"
    );

    let error = prepare("p", PROGRAM, identity_map(b"x"), "cfg", complete).expect_err("length");
    assert_eq!(
        error,
        PreparedSourceError::PreparedLengthMismatch { map_len: 1, prepared_len: PROGRAM.len() }
    );
    assert_eq!(
        error.message(),
        "source map prepared length 1 does not match prepared length 27"
    );

    let other = b"program Q; begin Work; end.";
    let error = prepare("p", PROGRAM, identity_map(other), "cfg", complete).expect_err("bytes");
    assert_eq!(error, PreparedSourceError::PreparedBytesMismatch);
    assert_eq!(
        error.message(),
        "source map was validated against different prepared bytes of the same length"
    );
    assert!(error.source().is_none());
}

#[test]
fn preparation_passes_on_what_the_map_reports() {
    let error = PreparedSource::from_segments(
        id("p"),
        PROGRAM,
        vec![source("a", PROGRAM)],
        vec![],
        "cfg",
        PreparationFidelity::Complete,
        PreparationProvenance::Configured,
    )
    .expect_err("nothing is covered");
    let cause = SourceMapError::IncompleteCoverage {
        expected_start: 0,
        actual_start: 0,
        prepared_len: PROGRAM.len(),
    };
    assert_eq!(error.source(), Some(&cause));
    assert_eq!(
        error.message(),
        "invalid prepared source map: source map coverage expected byte 0, found 0; \
         prepared length 27"
    );
    assert_eq!(error, PreparedSourceError::from(cause));
}

#[test]
fn preparation_wants_a_clean_parse() {
    let broken = b"program P; begin if end.";
    let error = PreparedSource::identity(id("p"), broken, "cfg").expect_err("syntax error");
    assert_eq!(error, PreparedSourceError::ParserErrors { range: 0..broken.len() });
    assert_eq!(
        error.message(),
        "prepared Pascal source contains parser errors in 0..24"
    );

    let error = PreparedSource::identity_from_parsed(id("p"), PROGRAM, None, "cfg")
        .expect_err("no tree");
    assert_eq!(error, PreparedSourceError::ParserReturnedNoTree);
    assert_eq!(error.message(), "Pascal parser returned no tree");
}

#[test]
fn preparation_wants_resolved_directives() {
    let text = b"program P; begin {$I body.inc} end.";
    let error = PreparedSource::identity(id("p"), text, "cfg").expect_err("directive");
    match &error {
        PreparedSourceError::UnresolvedPreprocessor { range, node_kind } => {
            assert_eq!(&text[range.clone()], b"{$I body.inc}");
            assert_eq!(
                error.message(),
                format!(
                    "raw identity preparation cannot claim completeness for {node_kind:?} in \
                     {range:?}"
                )
            );
        }
        other => panic!("unexpected error {other:?}"),
    }
}

#[test]
fn prepared_identity_keeps_its_text() {
    let prepared = PreparedSource::identity(id("p"), PROGRAM, "release").expect("prepared");
    assert_eq!(prepared.source_id().as_str(), "p");
    assert_eq!(prepared.bytes(), PROGRAM);
    assert_eq!(prepared.tree().root.kind, "root");
    assert_eq!(prepared.configuration_id(), "release");
    assert_eq!(prepared.fidelity(), PreparationFidelity::Complete);
    assert_eq!(prepared.provenance(), PreparationProvenance::RAW_IDENTITY);
    assert_eq!(prepared.original_sources().len(), 1);
    assert_eq!(prepared.source_map().prepared_bytes(), PROGRAM);
    let spans = prepared.map_range(17..21).expect("query");
    assert_eq!(spans[0].original(), Some(&SourceSpan::new(id("p"), 17..21)));
}

#[test]
fn parsing_gives_kinds_ranges_and_fields() {
    let tree = SyntaxTree::parse(b"program P; begin x := 1; end.").expect("tree");
    fn find<'a>(node: &'a SyntaxNode, kind: &str) -> Option<&'a SyntaxNode> {
        if node.kind == kind {
            return Some(node);
        }
        node.children.iter().find_map(|child| find(child, kind))
    }
    let assignment = find(&tree.root, "assignment").expect("assignment");
    assert_eq!((assignment.start, assignment.end), (17, 23));
    assert!(assignment.named && !assignment.error && !assignment.extra);
    assert_eq!(assignment.children[0].field.as_deref(), Some("lhs"));
    assert_eq!(assignment.children[0].node_text(b"program P; begin x := 1; end."), "x");
    assert_eq!(assignment.children[1].kind, "kAssign");
}

#[test]
fn a_query_can_be_cut() {
    let map = SourceMap::new(
        b"abcdef",
        vec![source("a", b"abc"), source("b", b"xxdef")],
        vec![
            copied(0..3, "a", 0..3),
            SourceMapSegment::copied(3..6, id("b"), 2..5, ExpansionId::new("inner")),
        ],
    )
    .expect("map");
    let shown = |range: Range<usize>| -> Vec<(Range<usize>, String, Range<usize>)> {
        map.map_range(range)
            .expect("answers")
            .iter()
            .map(|span| {
                let original = span.original().expect("origin");
                (
                    span.prepared_range.clone(),
                    original.source_id().as_str().to_string(),
                    original.byte_range(),
                )
            })
            .collect()
    };
    let whole = shown(1..6);
    assert_eq!(whole, vec![(1..3, "a".to_string(), 1..3), (3..6, "b".to_string(), 2..5)]);
    let at = |cut: usize| -> Vec<(Range<usize>, String, Range<usize>)> {
        let mut parts = shown(1..cut);
        parts.extend(shown(cut..6));
        parts
    };
    assert_eq!(at(1), whole);
    assert_eq!(at(3), whole);
    assert_eq!(at(6), whole);
    assert_eq!(
        at(5),
        vec![
            (1..3, "a".to_string(), 1..3),
            (3..5, "b".to_string(), 2..4),
            (5..6, "b".to_string(), 4..5),
        ]
    );
}
