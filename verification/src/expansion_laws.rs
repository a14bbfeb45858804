//! What holds of every projection: its segments form a valid map, and a source
//! without directives is projected onto itself.

use vstd::prelude::*;
use crate::directives::{
    directive_at, lemma_directive_bounds, lemma_directive_closes, next_directive, DirectiveKind,
    DirectiveModel, Found,
};
use crate::expansion::{
    all_blank, begun, disputed, emitted, entered, expanded, include_index, includes_error, masked,
    occurrence, performed, projected, reached, separated, target_of, text_emitted, total_bytes,
    worked, JobModel, Place, ProgressModel, ProjectionModel,
};
use crate::preparation::PrepareErrorModel;
use crate::source_map::{
    blank, expansion_error, line_break, mask_error, origin_error, range_error, segment_error,
    segments_error, source_error, source_index, sources_error, MapModel,
    SegmentModel, SnapshotModel, SourceSegmentKind, SpanModel,
};
use crate::text::{decimal, digit};
use std::ops::Range;

verus! {

// Occurrences -------------------------------------------------------------------------------------

spec fn is_number(s: Seq<char>) -> bool {
    s.len() > 0 && forall|k: int| 0 <= k < s.len() ==> '0' <= #[trigger] s[k] <= '9'
}

proof fn lemma_digit(a: int, b: int)
    requires
        0 <= a < 10,
        0 <= b < 10,
    ensures
        '0' <= digit(a) <= '9',
        digit(a) == digit(b) ==> a == b,
{
}

proof fn lemma_decimal(n: nat)
    ensures
        is_number(decimal(n)),
        n >= 10 ==> decimal(n).len() > 1,
    decreases n,
{
    if n >= 10 {
        lemma_decimal(n / 10);
        lemma_digit((n % 10) as int, 0);
    } else {
        lemma_digit(n as int, 0);
    }
}

proof fn lemma_decimal_injective(a: nat, b: nat)
    requires
        decimal(a) == decimal(b),
    ensures
        a == b,
    decreases a,
{
    lemma_decimal(a);
    lemma_decimal(b);
    if a < 10 || b < 10 {
        assert(a < 10 && b < 10);
        assert(decimal(a)[0] == digit(a as int));
        assert(decimal(b)[0] == digit(b as int));
        lemma_digit(a as int, b as int);
    } else {
        let x = decimal(a / 10);
        let y = decimal(b / 10);
        assert(x =~= decimal(a).drop_last());
        assert(y =~= decimal(b).drop_last());
        assert(decimal(a).last() == digit((a % 10) as int));
        assert(decimal(b).last() == digit((b % 10) as int));
        lemma_digit((a % 10) as int, (b % 10) as int);
        lemma_decimal_injective(a / 10, b / 10);
    }
}

proof fn lemma_number_suffix(a: Seq<char>, x: Seq<char>, b: Seq<char>, y: Seq<char>)
    requires
        a.len() > 0,
        b.len() > 0,
        !('0' <= a.last() <= '9'),
        !('0' <= b.last() <= '9'),
        is_number(x),
        is_number(y),
        a + x == b + y,
    ensures
        x == y,
{
    let s = a + x;
    let p = a.len() - 1;
    let q = b.len() - 1;
    assert(s == b + y);
    assert(s.len() == a.len() + x.len());
    assert(s.len() == b.len() + y.len());
    assert((b + y)[q] == b.last());
    assert(s[p] == a.last());
    if a.len() < b.len() {
        assert((a + x)[q] == x[q - a.len()]);
    } else if b.len() < a.len() {
        assert((b + y)[p] == y[p - b.len()]);
    }
    assert(x =~= (a + x).subrange(a.len() as int, s.len() as int));
    assert(y =~= (b + y).subrange(b.len() as int, s.len() as int));
}

/// Two occurrences with the same identity have the same number.
proof fn lemma_occurrence_number(a: Seq<char>, m: usize, b: Seq<char>, n: usize)
    requires
        occurrence(a, m) == occurrence(b, n),
    ensures
        m == n,
{
    reveal_strlit("/include-");
    let link = "/include-"@;
    lemma_decimal(m as nat);
    lemma_decimal(n as nat);
    assert((a + link).last() == link[8]);
    assert((b + link).last() == link[8]);
    lemma_number_suffix(a + link, decimal(m as nat), b + link, decimal(n as nat));
    lemma_decimal_injective(m as nat, n as nat);
}

proof fn lemma_root_is_no_occurrence(outer: Seq<char>, n: usize)
    ensures
        occurrence(outer, n) != "root"@,
{
    reveal_strlit("root");
    lemma_decimal(n as nat);
    let s = occurrence(outer, n);
    assert(s.last() == decimal(n as nat).last());
}

/// Whether an identity is that of the root or of one of the first `n` occurrences.
spec fn known_id(id: Seq<char>, n: usize) -> bool {
    id == "root"@ || exists|outer: Seq<char>, k: usize|
        k <= n && id == #[trigger] occurrence(outer, k)
}

/// Whether an identity is that of an occurrence behind the first `n`.
spec fn newer_id(id: Seq<char>, n: usize) -> bool {
    exists|outer: Seq<char>, k: usize| k > n && id == #[trigger] occurrence(outer, k)
}

proof fn lemma_newer_is_not_known(id: Seq<char>, n: usize)
    requires
        newer_id(id, n),
    ensures
        !known_id(id, n),
{
    let (outer, k) = choose|outer: Seq<char>, k: usize|
        k > n && id == #[trigger] occurrence(outer, k);
    lemma_root_is_no_occurrence(outer, k);
    if known_id(id, n) {
        let (other, j) = choose|other: Seq<char>, j: usize|
            j <= n && id == #[trigger] occurrence(other, j);
        lemma_occurrence_number(outer, k, other, j);
    }
}

// The invariant -----------------------------------------------------------------------------------

/// Where the last segment ends.
spec fn covered(segments: Seq<SegmentModel>) -> usize {
    if segments.len() == 0 {
        0
    } else {
        segments.last().end
    }
}

/// Whether segment `i` is in order.
spec fn sound_at(job: JobModel, st: ProgressModel, i: int) -> bool {
    segment_error(st.bytes, job.sources, st.segments, i) is None
}

/// Whether what has been written so far is mapped.
spec fn sound(job: JobModel, st: ProgressModel) -> bool {
    &&& covered(st.segments) == st.bytes.len()
    &&& st.bytes.len() <= job.limits.max_output_bytes
    &&& forall|i: int| 0 <= i < st.segments.len() ==> #[trigger] sound_at(job, st, i)
    &&& forall|i: int|
        0 <= i < st.segments.len() ==> known_id(
            (#[trigger] st.segments[i]).expansion_id,
            st.occurrences,
        )
}

/// Whether the segments of an occurrence come from a source before `at`.
spec fn walked(job: JobModel, st: ProgressModel, source: usize, expansion: Seq<char>, at: usize) -> bool {
    forall|i: int|
        0 <= i < st.segments.len() && (#[trigger] st.segments[i]).expansion_id == expansion ==> (
        st.segments[i].original matches Some(original) ==> original.source_id == job.id(source)
            && original.end <= at)
}

/// Whether one state follows another, and everything added belongs to an occurrence
/// or to newer ones.
spec fn follows(before: ProgressModel, after: ProgressModel, expansion: Seq<char>) -> bool {
    &&& before.occurrences <= after.occurrences
    &&& before.segments.len() <= after.segments.len()
    &&& forall|i: int|
        0 <= i < before.segments.len() ==> #[trigger] after.segments[i] == before.segments[i]
    &&& forall|i: int|
        before.segments.len() <= i < after.segments.len() ==> (
        #[trigger] after.segments[i]).expansion_id == expansion || newer_id(
            after.segments[i].expansion_id,
            before.occurrences,
        )
}

/// Whether the sources can be told apart.
spec fn told_apart(job: JobModel) -> bool {
    sources_error(job.sources, 0) is None && job.sources.len() <= usize::MAX
}

proof fn lemma_each_source(sources: Seq<SnapshotModel>, i: int, k: int)
    requires
        0 <= i <= k < sources.len(),
        sources_error(sources, i) is None,
    ensures
        source_error(sources, k) is None,
    decreases k - i,
{
    if i < k {
        lemma_each_source(sources, i + 1, k);
    }
}

proof fn lemma_found_at(sources: Seq<SnapshotModel>, id: Seq<char>, i: int, n: int)
    requires
        0 <= i < n,
        source_index(sources, id, i) is None,
        sources[i].source_id == id,
    ensures
        source_index(sources, id, n) == Some(i),
    decreases n,
{
    if n > i + 1 {
        lemma_found_at(sources, id, i, n - 1);
    }
}

proof fn lemma_own_index(job: JobModel, source: usize)
    requires
        told_apart(job),
        source < job.sources.len(),
    ensures
        source_index(job.sources, job.id(source), job.sources.len() as int) == Some(source as int),
{
    lemma_each_source(job.sources, 0, source as int);
    lemma_found_at(job.sources, job.id(source), source as int, job.sources.len() as int);
}

// One more segment --------------------------------------------------------------------------------

proof fn lemma_mask_stable(
    prepared: Seq<u8>,
    more: Seq<u8>,
    original: Seq<u8>,
    prepared_range: Range<usize>,
    original_range: Range<usize>,
    offset: int,
)
    requires
        prepared_range.start <= prepared_range.end <= prepared.len(),
        0 <= offset,
    ensures
        mask_error(prepared + more, original, prepared_range, original_range, offset) == mask_error(
            prepared,
            original,
            prepared_range,
            original_range,
            offset,
        ),
    decreases prepared_range.end - prepared_range.start - offset,
{
    if offset < prepared_range.end - prepared_range.start {
        let k = prepared_range.start + offset;
        assert((prepared + more)[k] == prepared[k]);
        lemma_mask_stable(
            prepared,
            more,
            original,
            prepared_range,
            original_range,
            offset + 1,
        );
    }
}

proof fn lemma_expansion_stable(
    segments: Seq<SegmentModel>,
    segment: SegmentModel,
    expansion_id: Seq<char>,
    original: SpanModel,
    j: int,
    n: int,
)
    requires
        0 <= j,
        n <= segments.len(),
    ensures
        expansion_error(segments.push(segment), expansion_id, original, j, n) == expansion_error(
            segments,
            expansion_id,
            original,
            j,
            n,
        ),
    decreases n - j,
{
    if j < n {
        assert(segments.push(segment)[j] == segments[j]);
        lemma_expansion_stable(segments, segment, expansion_id, original, j + 1, n);
    }
}

/// A segment that is in order stays so when bytes and a segment are added.
proof fn lemma_segment_stable(
    prepared: Seq<u8>,
    more: Seq<u8>,
    sources: Seq<SnapshotModel>,
    segments: Seq<SegmentModel>,
    segment: SegmentModel,
    i: int,
)
    requires
        0 <= i < segments.len(),
        segment_error(prepared, sources, segments, i) is None,
    ensures
        segment_error(prepared + more, sources, segments.push(segment), i) is None,
{
    let all = segments.push(segment);
    let own = segments[i];
    assert(all[i] == own);
    if i > 0 {
        assert(all[i - 1] == segments[i - 1]);
    }
    assert(range_error(prepared.len(), segments, i) is None);
    assert(range_error((prepared + more).len(), all, i) is None);
    if let Some(original) = own.original {
        assert(origin_error(prepared, sources, own, original) is None);
        assert((prepared + more).subrange(own.start as int, own.end as int) =~= prepared.subrange(
            own.start as int,
            own.end as int,
        ));
        if let Some(k) = source_index(sources, original.source_id, sources.len() as int) {
            lemma_mask_stable(
                prepared,
                more,
                sources[k].bytes,
                own.range(),
                original.range(),
                0,
            );
        }
        lemma_expansion_stable(segments, segment, own.expansion_id, original, 0, i);
    }
}

proof fn lemma_no_conflict(
    segments: Seq<SegmentModel>,
    expansion: Seq<char>,
    original: SpanModel,
    j: int,
)
    requires
        0 <= j,
        forall|i: int|
            0 <= i < segments.len() && (#[trigger] segments[i]).expansion_id == expansion ==> (
            segments[i].original matches Some(earlier) ==> earlier.source_id == original.source_id
                && earlier.end <= original.start),
    ensures
        expansion_error(segments, expansion, original, j, segments.len() as int) is None,
    decreases segments.len() - j,
{
    if j < segments.len() {
        assert(segments[j].expansion_id == segments[j].expansion_id);
        lemma_no_conflict(segments, expansion, original, j + 1);
    }
}

proof fn lemma_no_conflict_grows(
    segments: Seq<SegmentModel>,
    segment: SegmentModel,
    expansion: Seq<char>,
    original: SpanModel,
)
    requires
        forall|i: int|
            0 <= i < segments.len() && (#[trigger] segments[i]).expansion_id == expansion ==> (
            segments[i].original matches Some(earlier) ==> earlier.source_id == original.source_id
                && earlier.end <= original.start),
    ensures
        expansion_error(segments.push(segment), expansion, original, 0, segments.len() as int)
            is None,
{
    lemma_no_conflict(segments, expansion, original, 0);
    lemma_expansion_stable(segments, segment, expansion, original, 0, segments.len() as int);
}

proof fn lemma_masked_fits(
    prepared: Seq<u8>,
    original: Seq<u8>,
    prepared_range: Range<usize>,
    original_range: Range<usize>,
    offset: int,
)
    requires
        0 <= offset,
        prepared_range.start <= prepared_range.end <= prepared.len(),
        original_range.start <= original_range.end <= original.len(),
        prepared_range.end - prepared_range.start == original_range.end - original_range.start,
        prepared.subrange(prepared_range.start as int, prepared_range.end as int) == masked(
            original.subrange(original_range.start as int, original_range.end as int),
        ),
    ensures
        mask_error(prepared, original, prepared_range, original_range, offset) is None,
    decreases prepared_range.end - prepared_range.start - offset,
{
    if offset < prepared_range.end - prepared_range.start {
        let p = prepared.subrange(prepared_range.start as int, prepared_range.end as int);
        let o = original.subrange(original_range.start as int, original_range.end as int);
        assert(p[offset] == prepared[prepared_range.start + offset]);
        assert(o[offset] == original[original_range.start + offset]);
        assert(p[offset] == masked(o)[offset]);
        lemma_masked_fits(prepared, original, prepared_range, original_range, offset + 1);
    }
}

/// Adding bytes with a segment that is in order keeps the map.
proof fn lemma_emitted(
    job: JobModel,
    st: ProgressModel,
    bytes: Seq<u8>,
    original: Option<SpanModel>,
    expansion: Seq<char>,
    kind: SourceSegmentKind,
)
    requires
        sound(job, st),
        expansion.len() > 0,
        known_id(expansion, st.occurrences),
        bytes.len() > 0,
        emitted(job, st, bytes, original, expansion, kind) matches Ok(next) ==> sound_at(
            job,
            next,
            st.segments.len() as int,
        ),
    ensures
        emitted(job, st, bytes, original, expansion, kind) matches Ok(next) ==> sound(job, next)
            && follows(st, next, expansion),
{
    let step = emitted(job, st, bytes, original, expansion, kind);
    if let Ok(next) = step {
        let segment = next.segments.last();
        assert(next.segments =~= st.segments.push(segment));
        assert(next.bytes == st.bytes + bytes);
        assert forall|i: int| 0 <= i < next.segments.len() implies #[trigger] sound_at(
            job,
            next,
            i,
        ) by {
            if i < st.segments.len() {
                assert(sound_at(job, st, i));
                lemma_segment_stable(st.bytes, bytes, job.sources, st.segments, segment, i);
            }
        }
        assert forall|i: int| 0 <= i < next.segments.len() implies known_id(
            (#[trigger] next.segments[i]).expansion_id,
            next.occurrences,
        ) by {
            if i < st.segments.len() {
                assert(next.segments[i] == st.segments[i]);
            }
        }
    }
}

/// Adding the text at a place that comes next in its occurrence keeps the map.
proof fn lemma_text_emitted(
    job: JobModel,
    st: ProgressModel,
    place: Place,
    expansion: Seq<char>,
    copied: bool,
)
    requires
        told_apart(job),
        sound(job, st),
        expansion.len() > 0,
        known_id(expansion, st.occurrences),
        place.source < job.sources.len(),
        place.start <= place.end <= job.bytes(place.source).len(),
        walked(job, st, place.source, expansion, place.start),
    ensures
        text_emitted(job, st, place, expansion, copied) matches Ok(next) ==> sound(job, next)
            && follows(st, next, expansion) && walked(job, next, place.source, expansion, place.end)
            && next.occurrences == st.occurrences && next.groups == st.groups,
{
    let text = job.bytes(place.source).subrange(place.start as int, place.end as int);
    let original = SpanModel {
        source_id: job.id(place.source),
        start: place.start,
        end: place.end,
    };
    let bytes = if copied {
        text
    } else {
        masked(text)
    };
    let kind = if copied {
        SourceSegmentKind::Copied
    } else {
        SourceSegmentKind::Masked
    };
    let step = emitted(job, st, bytes, Some(original), expansion, kind);
    assert(step == text_emitted(job, st, place, expansion, copied));
    if bytes.len() > 0 {
        if let Ok(next) = step {
            let n = st.segments.len() as int;
            let segment = next.segments[n];
            assert(next.segments =~= st.segments.push(segment));
            lemma_own_index(job, place.source);
            assert(next.bytes.subrange(segment.start as int, segment.end as int) =~= bytes);
            if !copied {
                lemma_masked_fits(
                    next.bytes,
                    job.bytes(place.source),
                    segment.range(),
                    original.range(),
                    0,
                );
            }
            assert(range_error(next.bytes.len(), next.segments, n) is None) by {
                if n > 0 {
                    assert(next.segments[n - 1] == st.segments[n - 1]);
                }
            }
            lemma_no_conflict_grows(st.segments, segment, expansion, original);
            assert(sound_at(job, next, n));
        }
        lemma_emitted(job, st, bytes, Some(original), expansion, kind);
    }
}

proof fn lemma_reached(
    job: JobModel,
    st: ProgressModel,
    at: usize,
    place: Place,
    expansion: Seq<char>,
)
    requires
        told_apart(job),
        sound(job, st),
        expansion.len() > 0,
        known_id(expansion, st.occurrences),
        place.source < job.sources.len(),
        at <= place.start <= place.end <= job.bytes(place.source).len(),
        walked(job, st, place.source, expansion, at),
    ensures
        reached(job, st, at, place, expansion) matches Ok(next) ==> sound(job, next) && follows(
            st,
            next,
            expansion,
        ) && walked(job, next, place.source, expansion, place.end) && next.occurrences
            == st.occurrences,
{
    let text = Place { source: place.source, start: at, end: place.start };
    lemma_text_emitted(job, st, text, expansion, st.active());
    if let Ok(before) = text_emitted(job, st, text, expansion, st.active()) {
        lemma_text_emitted(job, before, place, expansion, false);
        if let Ok(behind) = text_emitted(job, before, place, expansion, false) {
            lemma_follows(st, before, behind, expansion);
            let next = ProgressModel { directives: (behind.directives + 1) as usize, ..behind };
            lemma_same_output(job, behind, next);
        }
    }
}

proof fn lemma_follows(a: ProgressModel, b: ProgressModel, c: ProgressModel, expansion: Seq<char>)
    requires
        follows(a, b, expansion),
        follows(b, c, expansion),
    ensures
        follows(a, c, expansion),
{
    assert forall|i: int| 0 <= i < a.segments.len() implies #[trigger] c.segments[i]
        == a.segments[i] by {
        assert(b.segments[i] == a.segments[i]);
    }
    assert forall|i: int| a.segments.len() <= i < c.segments.len() implies (
    #[trigger] c.segments[i]).expansion_id == expansion || newer_id(
        c.segments[i].expansion_id,
        a.occurrences,
    ) by {
        if i < b.segments.len() {
            assert(c.segments[i] == b.segments[i]);
        } else if c.segments[i].expansion_id != expansion {
            lemma_newer_than_less(c.segments[i].expansion_id, a.occurrences, b.occurrences);
        }
    }
}

proof fn lemma_newer_than_less(id: Seq<char>, less: usize, n: usize)
    requires
        newer_id(id, n),
        less <= n,
    ensures
        newer_id(id, less),
{
    let (outer, k) = choose|outer: Seq<char>, k: usize|
        k > n && id == #[trigger] occurrence(outer, k);
    assert(k > less && id == occurrence(outer, k));
}

/// Nothing of the above depends on the symbols, the groups or the counters, but
/// for the number of occurrences.
proof fn lemma_same_output(job: JobModel, a: ProgressModel, b: ProgressModel)
    requires
        a.bytes == b.bytes,
        a.segments == b.segments,
        a.occurrences <= b.occurrences,
        sound(job, a),
    ensures
        sound(job, b),
{
    assert forall|i: int| 0 <= i < b.segments.len() implies #[trigger] sound_at(job, b, i) by {
        assert(sound_at(job, a, i));
    }
    assert forall|i: int| 0 <= i < b.segments.len() implies known_id(
        (#[trigger] b.segments[i]).expansion_id,
        b.occurrences,
    ) by {
        let id = a.segments[i].expansion_id;
        assert(known_id(id, a.occurrences));
        if id != "root"@ {
            let (outer, k) = choose|outer: Seq<char>, k: usize|
                k <= a.occurrences && id == #[trigger] occurrence(outer, k);
            assert(k <= b.occurrences && id == occurrence(outer, k));
        }
    }
}

proof fn lemma_known_grows(id: Seq<char>, m: usize, n: usize)
    requires
        known_id(id, m),
        m <= n,
    ensures
        known_id(id, n),
{
    if id != "root"@ {
        let (outer, k) = choose|outer: Seq<char>, k: usize|
            k <= m && id == #[trigger] occurrence(outer, k);
        assert(k <= n && id == occurrence(outer, k));
    }
}

proof fn lemma_performed(job: JobModel, st: ProgressModel, place: Place, d: DirectiveModel)
    ensures
        performed(job, st, place, d) matches Ok(next) ==> next.bytes == st.bytes && next.segments
            == st.segments && next.occurrences == st.occurrences,
{
}

proof fn lemma_separated(job: JobModel, st: ProgressModel, source: usize, expansion: Seq<char>)
    requires
        sound(job, st),
        expansion.len() > 0,
        known_id(expansion, st.occurrences),
    ensures
        separated(job, st, source, expansion) matches Ok(next) ==> sound(job, next) && follows(
            st,
            next,
            expansion,
        ) && next.occurrences == st.occurrences,
{
    let bytes = seq![0x0au8];
    if let Ok(next) = emitted(job, st, bytes, None, expansion, SourceSegmentKind::Synthetic) {
        let n = st.segments.len() as int;
        assert(next.segments =~= st.segments.push(next.segments[n]));
        assert(range_error(next.bytes.len(), next.segments, n) is None) by {
            if n > 0 {
                assert(next.segments[n - 1] == st.segments[n - 1]);
            }
        }
        assert(sound_at(job, next, n));
    }
    lemma_emitted(job, st, bytes, None, expansion, SourceSegmentKind::Synthetic);
}

/// What an included text added does not belong to the text around it.
proof fn lemma_walk_goes_on(
    job: JobModel,
    here: ProgressModel,
    inside: ProgressModel,
    next: ProgressModel,
    source: usize,
    expansion: Seq<char>,
    inner: Seq<char>,
    at: usize,
)
    requires
        walked(job, here, source, expansion, at),
        known_id(expansion, here.occurrences),
        inside.segments == here.segments,
        inside.occurrences == here.occurrences + 1,
        inner == occurrence(expansion, inside.occurrences),
        follows(inside, next, inner),
    ensures
        walked(job, next, source, expansion, at),
        follows(here, next, expansion),
{
    assert(newer_id(inner, here.occurrences)) by {
        assert(inside.occurrences > here.occurrences && inner == occurrence(
            expansion,
            inside.occurrences,
        ));
    }
    assert forall|i: int| here.segments.len() <= i < next.segments.len() implies newer_id(
        (#[trigger] next.segments[i]).expansion_id,
        here.occurrences,
    ) by {
        if next.segments[i].expansion_id != inner {
            lemma_newer_than_less(
                next.segments[i].expansion_id,
                here.occurrences,
                inside.occurrences,
            );
        }
    }
    assert forall|i: int|
        0 <= i < next.segments.len() && (#[trigger] next.segments[i]).expansion_id
            == expansion implies (next.segments[i].original matches Some(original)
        ==> original.source_id == job.id(source) && original.end <= at) by {
        if i < here.segments.len() {
            assert(next.segments[i] == here.segments[i]);
        } else {
            lemma_newer_is_not_known(expansion, here.occurrences);
        }
    }
    assert forall|i: int| 0 <= i < here.segments.len() implies #[trigger] next.segments[i]
        == here.segments[i] by {}
}

proof fn lemma_fresh_walk(job: JobModel, st: ProgressModel, before: usize, source: usize, inner: Seq<char>)
    requires
        forall|i: int|
            0 <= i < st.segments.len() ==> known_id(
                (#[trigger] st.segments[i]).expansion_id,
                before,
            ),
        newer_id(inner, before),
    ensures
        walked(job, st, source, inner, 0),
{
    lemma_newer_is_not_known(inner, before);
}

/// Going through a source keeps the map.
#[verifier::rlimit(30)]
proof fn lemma_expanded(
    job: JobModel,
    st: ProgressModel,
    chain: Seq<usize>,
    expansion: Seq<char>,
    at: usize,
)
    requires
        told_apart(job),
        sound(job, st),
        expansion.len() > 0,
        known_id(expansion, st.occurrences),
        chain.len() > 0,
        chain.last() < job.sources.len(),
        at <= job.bytes(chain.last()).len() <= usize::MAX,
        walked(job, st, chain.last(), expansion, at),
        forall|i: int|
            0 <= i < job.sources.len() ==> (#[trigger] job.sources[i]).bytes.len() <= usize::MAX,
    ensures
        expanded(job, st, chain, expansion, at) matches Ok(next) ==> sound(job, next) && follows(
            st,
            next,
            expansion,
        ),
    decreases
            job.limits.max_include_depth + 1 - chain.len(),
            job.bytes(chain.last()).len() - at,
{
    let source = chain.last();
    let text = job.bytes(source);
    lemma_directive_bounds(text, at as int);
    match next_directive(text, at as int) {
        Found::Unclosed { start } => {},
        Found::Nothing => {
            let rest = Place { source, start: at, end: text.len() as usize };
            lemma_text_emitted(job, st, rest, expansion, st.active());
        },
        Found::Directive { start, end } => {
            let place = Place { source, start, end };
            let d = directive_at(text, start, end);
            lemma_reached(job, st, at, place, expansion);
            if let Ok(here) = reached(job, st, at, place, expansion) {
                if here.active() && d.kind == DirectiveKind::Include {
                    if let Ok(target) = target_of(job, chain, place) {
                        if let Ok(inside) = entered(job, here, chain.len(), target) {
                            let inner = occurrence(expansion, inside.occurrences);
                            lemma_target(job, chain, place);
                            lemma_same_output(job, here, inside);
                            assert(newer_id(inner, here.occurrences)) by {
                                assert(inside.occurrences > here.occurrences && inner
                                    == occurrence(expansion, inside.occurrences));
                            }
                            lemma_fresh_walk(job, inside, here.occurrences, target, inner);
                            assert(known_id(inner, inside.occurrences)) by {
                                assert(inside.occurrences <= inside.occurrences && inner
                                    == occurrence(expansion, inside.occurrences));
                            }
                            lemma_expanded(job, inside, chain.push(target), inner, 0);
                            if let Ok(done) = expanded(job, inside, chain.push(target), inner, 0) {
                                lemma_known_grows(inner, inside.occurrences, done.occurrences);
                                lemma_separated(job, done, target, inner);
                                if let Ok(next) = separated(job, done, target, inner) {
                                    lemma_follows(inside, done, next, inner);
                                    lemma_walk_goes_on(
                                        job,
                                        here,
                                        inside,
                                        next,
                                        source,
                                        expansion,
                                        inner,
                                        end,
                                    );
                                    lemma_follows(st, here, next, expansion);
                                    lemma_known_grows(
                                        expansion,
                                        st.occurrences,
                                        next.occurrences,
                                    );
                                    lemma_expanded(job, next, chain, expansion, end);
                                    if let Ok(last) = expanded(job, next, chain, expansion, end) {
                                        lemma_follows(st, next, last, expansion);
                                    }
                                }
                            }
                        }
                    }
                } else {
                    lemma_performed(job, here, place, d);
                    if let Ok(next) = performed(job, here, place, d) {
                        lemma_same_output(job, here, next);
                        assert(follows(here, next, expansion));
                        lemma_follows(st, here, next, expansion);
                        assert(walked(job, next, source, expansion, end));
                        lemma_expanded(job, next, chain, expansion, end);
                        if let Ok(last) = expanded(job, next, chain, expansion, end) {
                            lemma_follows(st, next, last, expansion);
                        }
                    }
                }
            }
        },
    }
}

proof fn lemma_index_bound(sources: Seq<SnapshotModel>, id: Seq<char>, n: int)
    requires
        0 <= n <= sources.len(),
    ensures
        source_index(sources, id, n) matches Some(k) ==> 0 <= k < n,
    decreases n,
{
    if n > 0 {
        lemma_index_bound(sources, id, n - 1);
    }
}

proof fn lemma_target(job: JobModel, chain: Seq<usize>, place: Place)
    requires
        told_apart(job),
    ensures
        target_of(job, chain, place) matches Ok(target) ==> target
            < job.sources.len(),
{
    if let Some(k) = include_index(
        job.includes,
        job.id(place.source),
        place.start,
        place.end,
        job.includes.len() as int,
    ) {
        lemma_index_bound(job.sources, job.includes[k].target_id, job.sources.len() as int);
    }
}

proof fn lemma_segments_sound(job: JobModel, st: ProgressModel, i: int)
    requires
        sound(job, st),
        0 <= i <= st.segments.len(),
    ensures
        segments_error(st.bytes, job.sources, st.segments, i) is None,
    decreases st.segments.len() - i,
{
    if i < st.segments.len() {
        assert(sound_at(job, st, i));
        lemma_segments_sound(job, st, i + 1);
    }
}

/// The segments of a projection form a valid map of its bytes, where the sources
/// can be told apart. The bytes are no more than allowed, and not all white space.
pub proof fn law_projection_is_mapped(job: JobModel, root_id: Seq<char>)
    requires
        sources_error(job.sources, 0) is None,
        job.sources.len() <= usize::MAX,
        forall|i: int|
            0 <= i < job.sources.len() ==> (#[trigger] job.sources[i]).bytes.len() <= usize::MAX,
    ensures
        projected(job, root_id) matches Ok(text) ==> (MapModel {
            prepared: text.bytes,
            sources: job.sources,
            segments: text.segments,
        }).valid() && text.bytes.len() <= job.limits.max_output_bytes && !all_blank(text.bytes),
{
    reveal_strlit("root");
    if let Some(root) = source_index(job.sources, root_id, job.sources.len() as int) {
        lemma_index_bound(job.sources, root_id, job.sources.len() as int);
        if let Ok(start) = worked(job, begun(job), root as usize) {
            let chain = seq![root as usize];
            assert(sound(job, start));
            assert(job.sources[root].bytes.len() <= usize::MAX);
            lemma_expanded(job, start, chain, "root"@, 0);
            if let Ok(end) = expanded(job, start, chain, "root"@, 0) {
                lemma_segments_sound(job, end, 0);
            }
        }
    }
}

/// Where the text of a source ends with a line break, so does what is written when
/// it is gone through.
proof fn lemma_ends_with_line_break(
    job: JobModel,
    st: ProgressModel,
    chain: Seq<usize>,
    expansion: Seq<char>,
    at: usize,
)
    requires
        chain.len() > 0,
        at < job.bytes(chain.last()).len() <= usize::MAX,
        line_break(job.bytes(chain.last()).last()),
    ensures
        expanded(job, st, chain, expansion, at) matches Ok(next) ==> next.bytes.len() > 0
            && line_break(next.bytes.last()),
    decreases job.bytes(chain.last()).len() - at,
{
    let source = chain.last();
    let text = job.bytes(source);
    lemma_directive_bounds(text, at as int);
    lemma_directive_closes(text, at as int);
    match next_directive(text, at as int) {
        Found::Unclosed { start } => {},
        Found::Nothing => {
            let rest = text.subrange(at as int, text.len() as int);
            assert(rest.last() == text.last());
            assert(masked(rest).last() == rest.last());
            if let Ok(next) = expanded(job, st, chain, expansion, at) {
                assert(next.bytes == st.bytes + rest || next.bytes == st.bytes + masked(rest));
                assert((st.bytes + rest).last() == rest.last());
                assert((st.bytes + masked(rest)).last() == masked(rest).last());
            }
        },
        Found::Directive { start, end } => {
            let place = Place { source, start, end };
            let d = directive_at(text, start, end);
            assert(end < text.len());
            if let Ok(here) = reached(job, st, at, place, expansion) {
                if here.active() && d.kind == DirectiveKind::Include {
                    if let Ok(target) = target_of(job, chain, place) {
                        if let Ok(inside) = entered(job, here, chain.len(), target) {
                            let inner = occurrence(expansion, inside.occurrences);
                            if let Ok(done) = expanded(job, inside, chain.push(target), inner, 0) {
                                if let Ok(next) = separated(job, done, target, inner) {
                                    lemma_ends_with_line_break(job, next, chain, expansion, end);
                                }
                            }
                        }
                    }
                } else if let Ok(next) = performed(job, here, place, d) {
                    lemma_ends_with_line_break(job, next, chain, expansion, end);
                }
            }
        },
    }
}

/// What is written of an included text ends with a line break, so that nothing of
/// it runs into the text behind the include.
pub proof fn law_include_ends_its_line(
    job: JobModel,
    st: ProgressModel,
    chain: Seq<usize>,
    expansion: Seq<char>,
)
    requires
        chain.len() > 0,
        0 < job.bytes(chain.last()).len() <= usize::MAX,
    ensures
        expanded(job, st, chain, expansion, 0) matches Ok(done) ==> (separated(
            job,
            done,
            chain.last(),
            expansion,
        ) matches Ok(next) ==> next.bytes.len() > 0 && line_break(next.bytes.last())),
{
    if line_break(job.bytes(chain.last()).last()) {
        lemma_ends_with_line_break(job, st, chain, expansion, 0);
    } else if let Ok(done) = expanded(job, st, chain, expansion, 0) {
        assert((done.bytes + seq![0x0au8]).last() == 0x0a);
    }
}

/// A source without directives that is not blank is projected onto itself, as far
/// as the resources reach.
pub proof fn law_plain_source_is_kept(job: JobModel, root: int)
    requires
        0 <= root < job.sources.len() <= usize::MAX,
        source_index(job.sources, job.sources[root].source_id, job.sources.len() as int) == Some(
            root,
        ),
        job.includes.len() == 0,
        disputed(job, 0) is None,
        job.sources[root].bytes.len() <= usize::MAX,
        next_directive(job.sources[root].bytes, 0) == Found::Nothing,
        exists|k: int|
            0 <= k < job.sources[root].bytes.len() && !blank(#[trigger] job.sources[root].bytes[k]),
        total_bytes(job.sources, job.sources.len() as int) <= job.limits.max_source_bytes,
        job.sources[root].bytes.len() <= job.limits.max_work,
        job.sources[root].bytes.len() <= job.limits.max_output_bytes,
    ensures
        ({
            let source = job.sources[root];
            projected(job, source.source_id) == Ok::<ProjectionModel, PrepareErrorModel>(
                ProjectionModel {
                    bytes: source.bytes,
                    segments: seq![
                        SegmentModel {
                            start: 0,
                            end: source.bytes.len() as usize,
                            original: Some(
                                SpanModel {
                                    source_id: source.source_id,
                                    start: 0,
                                    end: source.bytes.len() as usize,
                                },
                            ),
                            expansion_id: "root"@,
                            kind: SourceSegmentKind::Copied,
                        },
                    ],
                },
            )
        }),
{
    let source = job.sources[root];
    let text = source.bytes;
    assert(includes_error(job, 0) is None);
    if let Ok(start) = worked(job, begun(job), root as usize) {
        let chain = seq![root as usize];
        assert(chain.last() == root);
        assert(text.subrange(0, text.len() as int) =~= text);
        if let Ok(end) = expanded(job, start, chain, "root"@, 0) {
            assert(end.bytes =~= text);
            assert(end.segments =~= seq![end.segments[0]]);
        }
    }
}

} // verus!
