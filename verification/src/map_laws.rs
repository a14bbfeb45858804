//! What a source map answers of a single byte, and which maps are in order.

use vstd::prelude::*;
use crate::source_map::{
    clipped, expansion_error, lemma_segment_holds, mapped, mask_error, masks,
    segment_error, segments_error, source_error, source_index, sources_error, MapModel,
    SegmentModel, SnapshotModel, SourceSegmentKind, SpanModel,
};

verus! {

/// A query for bytes of one segment is answered by one part: it has the kind and the
/// expansion of the segment, and its origin lies as far behind the start of the
/// segment's origin as the query lies behind the start of the segment.
pub proof fn law_query_inside_a_segment(map: MapModel, k: int, start: usize, end: usize)
    requires
        map.valid(),
        0 <= k < map.segments.len(),
        map.segments[k].start <= start < end <= map.segments[k].end,
    ensures
        ({
            let parts = mapped(map.segments, start, end, map.segments.len() as int);
            let segment = map.segments[k];
            &&& parts.len() == 1
            &&& parts[0].start == start && parts[0].end == end
            &&& parts[0].kind == segment.kind
            &&& parts[0].expansion_id == segment.expansion_id
            &&& match segment.original {
                Some(whole) => parts[0].original matches Some(part) && part.source_id
                    == whole.source_id && part.start - whole.start == start - segment.start
                    && part.end - whole.start == end - segment.start,
                None => parts[0].original is None,
            }
        }),
{
    let segments = map.segments;
    let n = segments.len() as int;
    lemma_segment_holds(map, k);
    lemma_one_part(map, k, start, end, n);
    let part = clipped(segments[k], start, end);
    assert(mapped(segments, start, end, n) =~= seq![part]);
}

proof fn lemma_one_part(map: MapModel, k: int, start: usize, end: usize, n: int)
    requires
        map.valid(),
        0 <= k < map.segments.len(),
        0 <= n <= map.segments.len(),
        map.segments[k].start <= start < end <= map.segments[k].end,
    ensures
        mapped(map.segments, start, end, n) =~= (if k < n {
            seq![clipped(map.segments[k], start, end)]
        } else {
            Seq::empty()
        }),
    decreases n,
{
    if n > 0 {
        lemma_one_part(map, k, start, end, n - 1);
        lemma_apart(map, n - 1, k);
        lemma_apart(map, k, n - 1);
    }
}

proof fn lemma_apart(map: MapModel, a: int, b: int)
    requires
        map.valid(),
        0 <= a < map.segments.len(),
        0 <= b < map.segments.len(),
    ensures
        a < b ==> map.segments[a].end <= map.segments[b].start,
    decreases b - a,
{
    if a < b {
        lemma_segment_holds(map, b);
        if a < b - 1 {
            lemma_apart(map, a, b - 1);
            lemma_segment_holds(map, b - 1);
        }
    }
}

/// Whether two segments that belong to the same expansion agree: they come from one
/// source and share none of its bytes.
pub open spec fn agree(a: SegmentModel, b: SegmentModel) -> bool {
    a.expansion_id == b.expansion_id && a.original is Some && b.original is Some ==> {
        let p = a.original->0;
        let q = b.original->0;
        p.source_id == q.source_id && (p.end <= q.start || q.end <= p.start)
    }
}

/// Whether a segment names where its bytes come from: synthetic bytes have no origin;
/// the others have one of the same length in a source, whose bytes they repeat or
/// hide.
pub open spec fn well_founded(map: MapModel, segment: SegmentModel) -> bool {
    match segment.original {
        None => segment.kind == SourceSegmentKind::Synthetic,
        Some(p) => segment.kind != SourceSegmentKind::Synthetic && exists|s: int|
            {
                &&& 0 <= s < map.sources.len()
                &&& (#[trigger] map.sources[s]).source_id == p.source_id
                &&& p.start <= p.end <= map.sources[s].bytes.len()
                &&& p.end - p.start == segment.end - segment.start
                &&& segment.kind == SourceSegmentKind::Copied ==> map.prepared.subrange(
                    segment.start as int,
                    segment.end as int,
                ) == map.sources[s].bytes.subrange(p.start as int, p.end as int)
                &&& segment.kind == SourceSegmentKind::Masked ==> forall|j: int|
                    0 <= j < segment.end - segment.start ==> masks(
                        #[trigger] map.prepared[segment.start + j],
                        map.sources[s].bytes[p.start + j],
                    )
            },
    }
}

/// Whether segment `i` has a name, starts where the one before it ends, lies in the
/// buffer and is not empty, and says where its bytes come from.
pub open spec fn in_place(map: MapModel, i: int) -> bool {
    let segment = map.segments[i];
    &&& segment.expansion_id.len() > 0
    &&& segment.start == (if i == 0 {
        0
    } else {
        map.segments[i - 1].end
    })
    &&& segment.start < segment.end <= map.prepared.len()
    &&& well_founded(map, segment)
}

/// A map is accepted where its sources have names of their own, its segments cover the
/// buffer one behind the other, each says where its bytes come from, and those of one
/// expansion agree.
pub proof fn law_orderly_map_is_accepted(map: MapModel)
    requires
        map.prepared.len() <= usize::MAX,
        forall|i: int|
            0 <= i < map.sources.len() ==> (#[trigger] map.sources[i]).source_id.len() > 0,
        forall|i: int, j: int|
            0 <= i < j < map.sources.len() ==> (#[trigger] map.sources[i]).source_id != (
            #[trigger] map.sources[j]).source_id,
        forall|i: int| 0 <= i < map.segments.len() ==> #[trigger] in_place(map, i),
        (if map.segments.len() == 0 {
            0
        } else {
            map.segments.last().end
        }) == map.prepared.len(),
        forall|i: int, j: int|
            0 <= i < j < map.segments.len() ==> agree(
                #[trigger] map.segments[i],
                #[trigger] map.segments[j],
            ),
    ensures
        map.valid(),
{
    lemma_sources_accepted(map.sources, 0);
    lemma_segments_accepted(map, 0);
}

proof fn lemma_sources_accepted(sources: Seq<SnapshotModel>, i: int)
    requires
        0 <= i <= sources.len(),
        forall|i: int| 0 <= i < sources.len() ==> (#[trigger] sources[i]).source_id.len() > 0,
        forall|i: int, j: int|
            0 <= i < j < sources.len() ==> (#[trigger] sources[i]).source_id != (
            #[trigger] sources[j]).source_id,
    ensures
        sources_error(sources, i) is None,
    decreases sources.len() - i,
{
    if i < sources.len() {
        lemma_sources_accepted(sources, i + 1);
        crate::include_laws::law_source_is_found(sources, sources[i].source_id, i);
        assert(source_error(sources, i) is None);
    }
}

proof fn lemma_mask_accepted(
    prepared: Seq<u8>,
    original: Seq<u8>,
    segment: SegmentModel,
    p: SpanModel,
    offset: int,
)
    requires
        0 <= offset,
        forall|j: int|
            0 <= j < segment.end - segment.start ==> masks(
                #[trigger] prepared[segment.start + j],
                original[p.start + j],
            ),
    ensures
        mask_error(prepared, original, segment.range(), p.range(), offset) is None,
    decreases segment.end - segment.start - offset,
{
    if offset < segment.end - segment.start {
        assert(masks(prepared[segment.start + offset], original[p.start + offset]));
        lemma_mask_accepted(prepared, original, segment, p, offset + 1);
    }
}

proof fn lemma_expansion_accepted(
    segments: Seq<SegmentModel>,
    p: SpanModel,
    j: int,
    n: int,
)
    requires
        0 <= j <= n < segments.len(),
        segments[n].original == Some(p),
        forall|i: int|
            0 <= i < n ==> agree(#[trigger] segments[i], segments[n]),
        p.start < p.end,
    ensures
        expansion_error(segments, segments[n].expansion_id, p, j, n) is None,
    decreases n - j,
{
    if j < n {
        assert(agree(segments[j], segments[n]));
        lemma_expansion_accepted(segments, p, j + 1, n);
    }
}

proof fn lemma_segments_accepted(map: MapModel, i: int)
    requires
        map.prepared.len() <= usize::MAX,
        forall|i: int, j: int|
            0 <= i < j < map.sources.len() ==> (#[trigger] map.sources[i]).source_id != (
            #[trigger] map.sources[j]).source_id,
        forall|i: int| 0 <= i < map.segments.len() ==> #[trigger] in_place(map, i),
        (if map.segments.len() == 0 {
            0
        } else {
            map.segments.last().end
        }) == map.prepared.len(),
        forall|i: int, j: int|
            0 <= i < j < map.segments.len() ==> agree(
                #[trigger] map.segments[i],
                #[trigger] map.segments[j],
            ),
        0 <= i <= map.segments.len(),
    ensures
        segments_error(map.prepared, map.sources, map.segments, i) is None,
    decreases map.segments.len() - i,
{
    if i < map.segments.len() {
        lemma_segments_accepted(map, i + 1);
        let segment = map.segments[i];
        assert(in_place(map, i));
        if let Some(p) = segment.original {
            let s = choose|s: int|
                {
                    &&& 0 <= s < map.sources.len()
                    &&& (#[trigger] map.sources[s]).source_id == p.source_id
                    &&& p.start <= p.end <= map.sources[s].bytes.len()
                    &&& p.end - p.start == segment.end - segment.start
                    &&& segment.kind == SourceSegmentKind::Copied ==> map.prepared.subrange(
                        segment.start as int,
                        segment.end as int,
                    ) == map.sources[s].bytes.subrange(p.start as int, p.end as int)
                    &&& segment.kind == SourceSegmentKind::Masked ==> forall|j: int|
                        0 <= j < segment.end - segment.start ==> masks(
                            #[trigger] map.prepared[segment.start + j],
                            map.sources[s].bytes[p.start + j],
                        )
                };
            crate::include_laws::law_source_is_found(
                map.sources,
                p.source_id,
                map.sources.len() as int,
            );
            assert(source_index(map.sources, p.source_id, map.sources.len() as int) == Some(s));
            if segment.kind == SourceSegmentKind::Masked {
                lemma_mask_accepted(map.prepared, map.sources[s].bytes, segment, p, 0);
            }
            lemma_expansion_accepted(map.segments, p, 0, i);
        }
        assert(segment_error(map.prepared, map.sources, map.segments, i) is None);
    }
}

} // verus!
