//! The projection of a source under a configuration: which bytes remain, which are
//! masked, and where each of them comes from.

use vstd::prelude::*;
use crate::conditions::{
    condition_value, evaluate, look_up, only_word, single_word, symbol_models, symbol_truth,
    tokenize, tokens, SymbolEntry, SymbolModel, Truth,
};
use crate::directives::{
    directive_at, find_directive, include_at, is_include_at, lemma_directive_bounds,
    next_directive, read_directive, Directive, DirectiveKind, DirectiveModel, Found,
};
use crate::flow::{copy_ids, has_id};
use crate::preparation::{
    include_models, source_ids, IncludeBinding, IncludeModel, PreparationBudget,
    PreparationEnvironment, PreparationLimits, PrepareErrorModel, PrepareSourceError,
    PrepareSourceOptions,
};
use crate::project::ProjectSourceId;
use crate::source_map::{
    blank, find_source, line_break, segment_models, snapshot_models, source_index, ExpansionId,
    SegmentModel, SnapshotModel, SourceMapSegment, SourceSegmentKind, SourceSnapshot, SpanModel,
};
use crate::text::{decimal, lower_text, lowercase, push_decimal, same_text, texts};
use std::ops::Range;

verus! {

/// A range of one of the sources, which is named by its number.
#[derive(Debug, Clone, Copy, PartialEq, Eq, Structural)]
pub struct Place {
    pub source: usize,
    pub start: usize,
    pub end: usize,
}

/// A conditional group that is open.
#[derive(Debug, Clone, Copy, PartialEq, Eq, Structural)]
pub struct Group {
    /// Whether the text around the group takes effect.
    pub outer: bool,
    /// Whether one of its branches has been taken.
    pub taken: bool,
    /// Whether the text of the current branch takes effect.
    pub active: bool,
    /// Whether the current branch is the last one.
    pub last: bool,
    /// The directive that opened the group.
    pub place: Place,
}

/// What a projection is made from.
#[verifier::ext_equal]
pub struct JobModel {
    pub sources: Seq<SnapshotModel>,
    pub includes: Seq<IncludeModel>,
    pub defined: Seq<Seq<char>>,
    pub undefined: Seq<Seq<char>>,
    pub complete: bool,
    pub limits: PreparationLimits,
}

impl JobModel {
    /// What the arguments of a preparation say.
    pub open spec fn of(
        sources: Seq<SourceSnapshot>,
        includes: Seq<IncludeBinding>,
        options: PrepareSourceOptions,
    ) -> JobModel {
        JobModel {
            sources: snapshot_models(sources),
            includes: include_models(includes),
            defined: texts(options.initial_defined_symbols@),
            undefined: texts(options.initial_undefined_symbols@),
            complete: options.environment == PreparationEnvironment::Complete,
            limits: options.limits,
        }
    }

    /// The identity of a source.
    pub open spec fn id(self, source: usize) -> Seq<char> {
        self.sources[source as int].source_id
    }

    /// The bytes of a source.
    pub open spec fn bytes(self, source: usize) -> Seq<u8> {
        self.sources[source as int].bytes
    }
}

/// How far a projection has come: the symbols and open groups, the bytes and
/// segments so far, and what has been used of the resources.
#[verifier::ext_equal]
pub struct ProgressModel {
    pub symbols: Seq<SymbolModel>,
    pub groups: Seq<Group>,
    pub bytes: Seq<u8>,
    pub segments: Seq<SegmentModel>,
    pub directives: usize,
    pub occurrences: usize,
    pub work: usize,
}

/// A finished projection.
#[verifier::ext_equal]
pub struct ProjectionModel {
    pub bytes: Seq<u8>,
    pub segments: Seq<SegmentModel>,
}

/// A step of a projection: how far it has come, or why it cannot go on.
pub type Step = Result<ProgressModel, PrepareErrorModel>;

impl ProgressModel {
    /// Whether text takes effect.
    pub open spec fn active(self) -> bool {
        self.groups.len() == 0 || self.groups.last().active
    }
}

/// The error of a resource that is used up.
pub open spec fn used_up(budget: PreparationBudget, limit: usize) -> PrepareErrorModel {
    PrepareErrorModel::BudgetExceeded { budget, limit }
}

/// The range of a place.
pub open spec fn range_of(place: Place) -> Range<usize> {
    Range { start: place.start, end: place.end }
}

/// White space of the same length with the same line breaks.
pub open spec fn masked(bytes: Seq<u8>) -> Seq<u8> {
    bytes.map_values(
        |b: u8|
            if line_break(b) {
                b
            } else {
                0x20u8
            },
    )
}

// Output ------------------------------------------------------------------------------------------

/// Adds bytes and the segment that says where they come from.
pub open spec fn emitted(
    job: JobModel,
    st: ProgressModel,
    bytes: Seq<u8>,
    original: Option<SpanModel>,
    expansion: Seq<char>,
    kind: SourceSegmentKind,
) -> Step {
    if bytes.len() == 0 {
        Ok(st)
    } else if st.bytes.len() + bytes.len() > job.limits.max_output_bytes {
        Err(used_up(PreparationBudget::OutputBytes, job.limits.max_output_bytes))
    } else {
        Ok(
            ProgressModel {
                bytes: st.bytes + bytes,
                segments: st.segments.push(
                    SegmentModel {
                        start: st.bytes.len() as usize,
                        end: (st.bytes.len() + bytes.len()) as usize,
                        original,
                        expansion_id: expansion,
                        kind,
                    },
                ),
                ..st
            },
        )
    }
}

/// Adds the text at a place, as it is or masked.
pub open spec fn text_emitted(
    job: JobModel,
    st: ProgressModel,
    place: Place,
    expansion: Seq<char>,
    copied: bool,
) -> Step {
    let text = job.bytes(place.source).subrange(place.start as int, place.end as int);
    let original = Some(
        SpanModel { source_id: job.id(place.source), start: place.start, end: place.end },
    );
    if copied {
        emitted(job, st, text, original, expansion, SourceSegmentKind::Copied)
    } else {
        emitted(job, st, masked(text), original, expansion, SourceSegmentKind::Masked)
    }
}

/// Adds the text up to a directive, and the directive as white space.
pub open spec fn reached(
    job: JobModel,
    st: ProgressModel,
    at: usize,
    place: Place,
    expansion: Seq<char>,
) -> Step {
    match text_emitted(
        job,
        st,
        Place { source: place.source, start: at, end: place.start },
        expansion,
        st.active(),
    ) {
        Err(error) => Err(error),
        Ok(before) => match text_emitted(job, before, place, expansion, false) {
            Err(error) => Err(error),
            Ok(behind) => if behind.directives >= job.limits.max_directives {
                Err(used_up(PreparationBudget::Directives, job.limits.max_directives))
            } else {
                Ok(ProgressModel { directives: (behind.directives + 1) as usize, ..behind })
            },
        },
    }
}

/// Adds a line break behind an included text that does not end with one.
pub open spec fn separated(
    job: JobModel,
    st: ProgressModel,
    source: usize,
    expansion: Seq<char>,
) -> Step {
    let text = job.bytes(source);
    if text.len() > 0 && !line_break(text.last()) {
        emitted(job, st, seq![0x0au8], None, expansion, SourceSegmentKind::Synthetic)
    } else {
        Ok(st)
    }
}

// Conditions --------------------------------------------------------------------------------------

/// The number of bytes between the `$` of the directive at a place and its closing
/// bracket.
pub open spec fn body_bytes(job: JobModel, place: Place) -> int {
    if job.bytes(place.source)[place.start as int] == 0x28 {
        place.end - place.start - 5
    } else {
        place.end - place.start - 3
    }
}

/// The value of the condition that a directive states.
pub open spec fn stated(job: JobModel, st: ProgressModel, place: Place, d: DirectiveModel) -> Result<
    Truth,
    PrepareErrorModel,
> {
    let source_id = job.id(place.source);
    let invalid = PrepareErrorModel::InvalidDirective { source_id, range: range_of(place) };
    if d.kind == DirectiveKind::IfDef || d.kind == DirectiveKind::IfNDef {
        match only_word(d.argument) {
            None => Err(invalid),
            Some(name) => {
                let value = symbol_truth(st.symbols, job.complete, name);
                if d.kind == DirectiveKind::IfDef {
                    Ok(value)
                } else {
                    Ok(value.negated())
                }
            },
        }
    } else if d.kind == DirectiveKind::If || d.kind == DirectiveKind::ElseIf {
        if body_bytes(job, place) > job.limits.max_expression_bytes + d.keyword.len() {
            Err(used_up(PreparationBudget::ExpressionBytes, job.limits.max_expression_bytes))
        } else {
            match tokens(d.argument) {
                None => Err(invalid),
                Some(read) => if read.len() > job.limits.max_expression_tokens {
                    Err(
                        used_up(
                            PreparationBudget::ExpressionTokens,
                            job.limits.max_expression_tokens,
                        ),
                    )
                } else {
                    match condition_value(st.symbols, job.complete, read) {
                        None => Err(invalid),
                        Some(value) => Ok(value),
                    }
                },
            }
        }
    } else {
        Err(
            PrepareErrorModel::UnsupportedDirective {
                source_id,
                range: range_of(place),
                keyword: d.keyword,
            },
        )
    }
}

/// Whether the branch that a directive starts is taken, where that depends on its
/// condition.
pub open spec fn decided(
    job: JobModel,
    st: ProgressModel,
    place: Place,
    d: DirectiveModel,
) -> Result<bool, PrepareErrorModel> {
    match stated(job, st, place, d) {
        Err(error) => Err(error),
        Ok(Truth::True) => Ok(true),
        Ok(Truth::False) => Ok(false),
        Ok(Truth::Unknown) => Err(
            PrepareErrorModel::UnknownActiveCondition {
                source_id: job.id(place.source),
                range: range_of(place),
            },
        ),
    }
}

/// Opens a group. Where the text around it takes no effect, none of its branches
/// does, and its condition does not matter.
pub open spec fn opened(job: JobModel, st: ProgressModel, place: Place, d: DirectiveModel) -> Step {
    if st.groups.len() >= job.limits.max_conditional_depth {
        Err(used_up(PreparationBudget::ConditionalDepth, job.limits.max_conditional_depth))
    } else if !st.active() {
        Ok(
            ProgressModel {
                groups: st.groups.push(
                    Group { outer: false, taken: false, active: false, last: false, place },
                ),
                ..st
            },
        )
    } else {
        match decided(job, st, place, d) {
            Err(error) => Err(error),
            Ok(value) => Ok(
                ProgressModel {
                    groups: st.groups.push(
                        Group { outer: true, taken: value, active: value, last: false, place },
                    ),
                    ..st
                },
            ),
        }
    }
}

/// Goes on to the next branch of the innermost group.
pub open spec fn continued(job: JobModel, st: ProgressModel, place: Place, d: DirectiveModel) -> Step {
    if st.groups.len() == 0 || st.groups.last().last {
        Err(
            PrepareErrorModel::MalformedNesting {
                source_id: job.id(place.source),
                range: range_of(place),
            },
        )
    } else {
        let group = st.groups.last();
        let end = d.kind == DirectiveKind::Else;
        let choice = if !group.outer || group.taken {
            Ok(false)
        } else if end {
            Ok(true)
        } else {
            decided(job, st, place, d)
        };
        match choice {
            Err(error) => Err(error),
            Ok(value) => Ok(
                ProgressModel {
                    groups: st.groups.update(
                        st.groups.len() - 1,
                        Group {
                            outer: group.outer,
                            taken: group.taken || value,
                            active: value,
                            last: end,
                            place: group.place,
                        },
                    ),
                    ..st
                },
            ),
        }
    }
}

/// Closes the innermost group.
pub open spec fn closed(job: JobModel, st: ProgressModel, place: Place) -> Step {
    if st.groups.len() == 0 {
        Err(
            PrepareErrorModel::MalformedNesting {
                source_id: job.id(place.source),
                range: range_of(place),
            },
        )
    } else {
        Ok(ProgressModel { groups: st.groups.drop_last(), ..st })
    }
}

/// Defines or undefines a symbol.
pub open spec fn declared(
    job: JobModel,
    st: ProgressModel,
    place: Place,
    d: DirectiveModel,
) -> Step {
    match only_word(d.argument) {
        None => Err(
            PrepareErrorModel::InvalidDirective {
                source_id: job.id(place.source),
                range: range_of(place),
            },
        ),
        Some(name) => Ok(
            ProgressModel {
                symbols: st.symbols.push(
                    SymbolModel {
                        name: lower_text(name),
                        defined: d.kind == DirectiveKind::Define,
                    },
                ),
                ..st
            },
        ),
    }
}

/// What a directive does, other than an include that takes effect. One that is
/// neither supported nor part of a group is an error where text takes effect, and
/// does nothing elsewhere.
pub open spec fn performed(
    job: JobModel,
    st: ProgressModel,
    place: Place,
    d: DirectiveModel,
) -> Step {
    match d.kind {
        DirectiveKind::IfDef => opened(job, st, place, d),
        DirectiveKind::IfNDef => opened(job, st, place, d),
        DirectiveKind::If => opened(job, st, place, d),
        DirectiveKind::IfOther => opened(job, st, place, d),
        DirectiveKind::ElseIf => continued(job, st, place, d),
        DirectiveKind::Else => continued(job, st, place, d),
        DirectiveKind::EndIf => closed(job, st, place),
        _ => if !st.active() {
            Ok(st)
        } else if d.kind == DirectiveKind::Define || d.kind == DirectiveKind::Undef {
            declared(job, st, place, d)
        } else {
            Err(
                PrepareErrorModel::UnsupportedDirective {
                    source_id: job.id(place.source),
                    range: range_of(place),
                    keyword: d.keyword,
                },
            )
        },
    }
}

// Includes ----------------------------------------------------------------------------------------

/// The first of the first `n` bindings for a place.
pub open spec fn include_index(
    includes: Seq<IncludeModel>,
    source_id: Seq<char>,
    start: usize,
    end: usize,
    n: int,
) -> Option<int>
    decreases n,
{
    if n <= 0 {
        None
    } else {
        match include_index(includes, source_id, start, end, n - 1) {
            Some(i) => Some(i),
            None => if includes[n - 1].source_id == source_id && includes[n - 1].start == start
                && includes[n - 1].end == end {
                Some(n - 1)
            } else {
                None
            },
        }
    }
}

/// The source that the include at a place stands for.
pub open spec fn target_of(job: JobModel, chain: Seq<usize>, place: Place) -> Result<
    usize,
    PrepareErrorModel,
> {
    let source_id = job.id(place.source);
    let range = range_of(place);
    match include_index(
        job.includes,
        source_id,
        place.start,
        place.end,
        job.includes.len() as int,
    ) {
        None => Err(PrepareErrorModel::UnresolvedInclude { source_id, range }),
        Some(k) => {
            let target_id = job.includes[k].target_id;
            match source_index(job.sources, target_id, job.sources.len() as int) {
                None => Err(
                    PrepareErrorModel::IncludeTargetNotLoaded { source_id, range, target_id },
                ),
                Some(target) => if chain.contains(target as usize) {
                    Err(
                        PrepareErrorModel::IncludeCycle {
                            source_id,
                            range,
                            cycle: chain.push(target as usize).map_values(
                                |source: usize| job.id(source),
                            ),
                        },
                    )
                } else {
                    Ok(target as usize)
                },
            }
        },
    }
}

/// Counts one more expanded include.
pub open spec fn entered(job: JobModel, st: ProgressModel, depth: nat, target: usize) -> Step {
    if depth > job.limits.max_include_depth {
        Err(used_up(PreparationBudget::IncludeDepth, job.limits.max_include_depth))
    } else if st.occurrences >= job.limits.max_expanded_occurrences {
        Err(
            used_up(
                PreparationBudget::ExpandedOccurrences,
                job.limits.max_expanded_occurrences,
            ),
        )
    } else {
        worked(job, ProgressModel { occurrences: (st.occurrences + 1) as usize, ..st }, target)
    }
}

/// Counts the bytes of a source that is gone through.
pub open spec fn worked(job: JobModel, st: ProgressModel, source: usize) -> Step {
    if st.work + job.bytes(source).len() > job.limits.max_work {
        Err(used_up(PreparationBudget::Work, job.limits.max_work))
    } else {
        Ok(ProgressModel { work: (st.work + job.bytes(source).len()) as usize, ..st })
    }
}

/// The identity of an included occurrence, by that of the text around it and its
/// number.
pub open spec fn occurrence(outer: Seq<char>, number: usize) -> Seq<char> {
    outer + "/include-"@ + decimal(number as nat)
}

/// Goes through a source from `at` on. The chain holds the sources on the way to
/// it, itself included.
pub open spec fn expanded(
    job: JobModel,
    st: ProgressModel,
    chain: Seq<usize>,
    expansion: Seq<char>,
    at: usize,
) -> Step
    decreases
            job.limits.max_include_depth + 1 - chain.len(),
            job.bytes(chain.last()).len() - at,
{
    let source = chain.last();
    let text = job.bytes(source);
    if at > text.len() || text.len() > usize::MAX {
        Ok(st)
    } else {
        proof {
            lemma_directive_bounds(text, at as int);
        }
        match next_directive(text, at as int) {
            Found::Unclosed { start } => Err(
                PrepareErrorModel::InvalidDirective {
                    source_id: job.id(source),
                    range: Range { start, end: text.len() as usize },
                },
            ),
            Found::Nothing => text_emitted(
                job,
                st,
                Place { source, start: at, end: text.len() as usize },
                expansion,
                st.active(),
            ),
            Found::Directive { start, end } => {
                let place = Place { source, start, end };
                let d = directive_at(text, start, end);
                match reached(job, st, at, place, expansion) {
                    Err(error) => Err(error),
                    Ok(here) => if here.active() && d.kind == DirectiveKind::Include {
                        match target_of(job, chain, place) {
                            Err(error) => Err(error),
                            Ok(target) => match entered(job, here, chain.len(), target) {
                                Err(error) => Err(error),
                                Ok(inside) => {
                                    let inner = occurrence(expansion, inside.occurrences);
                                    match expanded(job, inside, chain.push(target), inner, 0) {
                                        Err(error) => Err(error),
                                        Ok(done) => match separated(job, done, target, inner) {
                                            Err(error) => Err(error),
                                            Ok(next) => expanded(job, next, chain, expansion, end),
                                        },
                                    }
                                },
                            },
                        }
                    } else {
                        match performed(job, here, place, d) {
                            Err(error) => Err(error),
                            Ok(next) => expanded(job, next, chain, expansion, end),
                        }
                    },
                }
            },
        }
    }
}

// Checks before the start -------------------------------------------------------------------------

/// The number of bytes of the first `n` sources.
pub open spec fn total_bytes(sources: Seq<SnapshotModel>, n: int) -> int
    decreases n,
{
    if n <= 0 {
        0
    } else {
        total_bytes(sources, n - 1) + sources[n - 1].bytes.len()
    }
}

/// Whether a symbol is one of a list. Names are compared without case.
pub open spec fn names_symbol(names: Seq<Seq<char>>, name: Seq<char>) -> bool {
    exists|k: int| 0 <= k < names.len() && lower_text(#[trigger] names[k]) == lower_text(name)
}

/// The first symbol, from `i` on, that is named both as defined and as undefined.
pub open spec fn disputed(job: JobModel, i: int) -> Option<Seq<char>>
    decreases job.defined.len() - i,
{
    if i < 0 || i >= job.defined.len() {
        None
    } else if names_symbol(job.undefined, job.defined[i]) {
        Some(job.defined[i])
    } else {
        disputed(job, i + 1)
    }
}

/// What is wrong with a binding, given that those before it are in order.
pub open spec fn include_error(job: JobModel, i: int) -> Option<PrepareErrorModel> {
    let binding = job.includes[i];
    let range = Range { start: binding.start, end: binding.end };
    match source_index(job.sources, binding.source_id, job.sources.len() as int) {
        None => Some(
            PrepareErrorModel::IncludeBindingSourceNotLoaded { source_id: binding.source_id },
        ),
        Some(k) => if !include_at(job.sources[k].bytes, binding.start, binding.end) {
            Some(
                PrepareErrorModel::IncludeBindingNotIncludeDirective {
                    source_id: binding.source_id,
                    range,
                },
            )
        } else if source_index(job.sources, binding.target_id, job.sources.len() as int) is None {
            Some(
                PrepareErrorModel::IncludeTargetNotLoaded {
                    source_id: binding.source_id,
                    range,
                    target_id: binding.target_id,
                },
            )
        } else if include_index(
            job.includes,
            binding.source_id,
            binding.start,
            binding.end,
            i,
        ) is Some {
            Some(
                PrepareErrorModel::DuplicateIncludeBinding { source_id: binding.source_id, range },
            )
        } else {
            None
        },
    }
}

/// What is wrong with the first binding, from `i` on, that is not in order.
pub open spec fn includes_error(job: JobModel, i: int) -> Option<PrepareErrorModel>
    decreases job.includes.len() - i,
{
    if i < 0 || i >= job.includes.len() {
        None
    } else {
        match include_error(job, i) {
            Some(error) => Some(error),
            None => includes_error(job, i + 1),
        }
    }
}

/// The symbols that are known at the start.
pub open spec fn initial_symbols(job: JobModel) -> Seq<SymbolModel> {
    job.undefined.map_values(
        |name: Seq<char>| SymbolModel { name: lower_text(name), defined: false },
    ) + job.defined.map_values(
        |name: Seq<char>| SymbolModel { name: lower_text(name), defined: true },
    )
}

/// The start of a projection.
pub open spec fn begun(job: JobModel) -> ProgressModel {
    ProgressModel {
        symbols: initial_symbols(job),
        groups: Seq::empty(),
        bytes: Seq::empty(),
        segments: Seq::empty(),
        directives: 0,
        occurrences: 0,
        work: 0,
    }
}

/// Whether bytes are nothing but white space.
pub open spec fn all_blank(bytes: Seq<u8>) -> bool {
    forall|k: int| 0 <= k < bytes.len() ==> blank(#[trigger] bytes[k])
}

/// What a finished walk through the root source gives: every group must be closed,
/// and something must be left.
pub open spec fn finished(job: JobModel, root: usize, st: ProgressModel) -> Result<
    ProjectionModel,
    PrepareErrorModel,
> {
    if st.groups.len() > 0 {
        let place = st.groups.last().place;
        Err(
            PrepareErrorModel::MalformedNesting {
                source_id: job.id(place.source),
                range: range_of(place),
            },
        )
    } else if all_blank(st.bytes) {
        Err(PrepareErrorModel::NoCompleteContent { source_id: job.id(root) })
    } else {
        Ok(ProjectionModel { bytes: st.bytes, segments: st.segments })
    }
}

/// The projection of a source, or the first reason why there is none.
pub open spec fn projected(job: JobModel, root_id: Seq<char>) -> Result<
    ProjectionModel,
    PrepareErrorModel,
> {
    if total_bytes(job.sources, job.sources.len() as int) > job.limits.max_source_bytes {
        Err(used_up(PreparationBudget::SourceBytes, job.limits.max_source_bytes))
    } else {
        match disputed(job, 0) {
            Some(name) => Err(PrepareErrorModel::ConflictingInitialSymbol { name }),
            None => match source_index(job.sources, root_id, job.sources.len() as int) {
                None => Err(PrepareErrorModel::SourceNotLoaded { source_id: root_id }),
                Some(root) => match includes_error(job, 0) {
                    Some(error) => Err(error),
                    None => match worked(job, begun(job), root as usize) {
                        Err(error) => Err(error),
                        Ok(start) => match expanded(
                            job,
                            start,
                            seq![root as usize],
                            "root"@,
                            0,
                        ) {
                            Err(error) => Err(error),
                            Ok(end) => finished(job, root as usize, end),
                        },
                    },
                },
            },
        }
    }
}

// Execution ---------------------------------------------------------------------------------------

/// A projection: its bytes, the sources that it was made from, and the segments
/// that say where the bytes come from.
#[derive(Debug)]
pub struct Projection {
    pub bytes: Vec<u8>,
    pub sources: Vec<SourceSnapshot>,
    pub segments: Vec<SourceMapSegment>,
}

struct Job<'a> {
    sources: Vec<SourceSnapshot>,
    includes: &'a [IncludeBinding],
    defined: &'a Vec<String>,
    undefined: &'a Vec<String>,
    complete: bool,
    limits: PreparationLimits,
}

impl<'a> View for Job<'a> {
    type V = JobModel;

    closed spec fn view(&self) -> JobModel {
        JobModel {
            sources: snapshot_models(self.sources@),
            includes: include_models(self.includes@),
            defined: texts(self.defined@),
            undefined: texts(self.undefined@),
            complete: self.complete,
            limits: self.limits,
        }
    }
}

struct Progress {
    symbols: Vec<SymbolEntry>,
    groups: Vec<Group>,
    bytes: Vec<u8>,
    segments: Vec<SourceMapSegment>,
    directives: usize,
    occurrences: usize,
    work: usize,
}

impl View for Progress {
    type V = ProgressModel;

    closed spec fn view(&self) -> ProgressModel {
        ProgressModel {
            symbols: symbol_models(self.symbols@),
            groups: self.groups@,
            bytes: self.bytes@,
            segments: segment_models(self.segments@),
            directives: self.directives,
            occurrences: self.occurrences,
            work: self.work,
        }
    }
}

/// The step that an executed step stands for.
spec fn step(r: Result<(), PrepareSourceError>, after: ProgressModel) -> Step {
    match r {
        Ok(_) => Ok(after),
        Err(error) => Err(error@),
    }
}

fn budget_error(budget: PreparationBudget, limit: usize) -> (r: PrepareSourceError)
    ensures
        r@ == used_up(budget, limit),
{
    PrepareSourceError::BudgetExceeded { budget, limit }
}

impl<'a> Job<'a> {
    spec fn holds(&self, place: Place) -> bool {
        place.source < self.sources@.len() && place.start <= place.end <= self@.bytes(
            place.source,
        ).len()
    }

    spec fn directive(&self, place: Place) -> bool {
        self.holds(place) && place.start + 3 <= place.end && (self@.bytes(
            place.source,
        )[place.start as int] == 0x28 ==> place.start + 5 <= place.end)
    }

    fn text(&self, source: usize) -> (r: &[u8])
        requires
            source < self.sources@.len(),
        ensures
            r@ == self@.bytes(source),
    {
        assert(self@.sources[source as int] == self.sources@[source as int]@);
        self.sources[source].bytes()
    }

    fn source_id(&self, source: usize) -> (r: ProjectSourceId)
        requires
            source < self.sources@.len(),
        ensures
            r@ == self@.id(source),
    {
        assert(self@.sources[source as int] == self.sources@[source as int]@);
        self.sources[source].source_id().clone()
    }

    fn invalid(&self, place: Place) -> (r: PrepareSourceError)
        requires
            place.source < self.sources@.len(),
        ensures
            r@ == (PrepareErrorModel::InvalidDirective {
                source_id: self@.id(place.source),
                range: range_of(place),
            }),
    {
        PrepareSourceError::InvalidDirective {
            source_id: self.source_id(place.source),
            range: place.start..place.end,
        }
    }

    fn malformed(&self, place: Place) -> (r: PrepareSourceError)
        requires
            place.source < self.sources@.len(),
        ensures
            r@ == (PrepareErrorModel::MalformedNesting {
                source_id: self@.id(place.source),
                range: range_of(place),
            }),
    {
        PrepareSourceError::MalformedNesting {
            source_id: self.source_id(place.source),
            range: place.start..place.end,
        }
    }

    fn unsupported(&self, place: Place, d: &Directive) -> (r: PrepareSourceError)
        requires
            place.source < self.sources@.len(),
        ensures
            r@ == (PrepareErrorModel::UnsupportedDirective {
                source_id: self@.id(place.source),
                range: range_of(place),
                keyword: d@.keyword,
            }),
    {
        PrepareSourceError::UnsupportedDirective {
            source_id: self.source_id(place.source),
            range: place.start..place.end,
            keyword: d.keyword.clone(),
        }
    }

    fn find_include(&self, source_id: &ProjectSourceId, start: usize, end: usize, n: usize) -> (r:
        Option<usize>)
        requires
            n <= self.includes@.len(),
        ensures
            match r {
                Some(k) => k < n && include_index(self@.includes, source_id@, start, end, n as int)
                    == Some(k as int),
                None => include_index(self@.includes, source_id@, start, end, n as int) is None,
            },
        decreases n,
    {
        if n == 0 {
            return None;
        }
        match self.find_include(source_id, start, end, n - 1) {
            Some(k) => Some(k),
            None => {
                let binding = &self.includes[n - 1];
                assert(self@.includes[n - 1] == binding@);
                let range = binding.byte_range();
                if binding.source_id().same(source_id) && range.start == start && range.end == end {
                    Some(n - 1)
                } else {
                    None
                }
            },
        }
    }

    fn source_number(&self, id: &ProjectSourceId) -> (r: Option<usize>)
        ensures
            match r {
                Some(k) => k < self.sources@.len() && source_index(
                    self@.sources,
                    id@,
                    self@.sources.len() as int,
                ) == Some(k as int),
                None => source_index(self@.sources, id@, self@.sources.len() as int) is None,
            },
    {
        assert(self@.sources.len() == self.sources@.len());
        find_source(&self.sources, id, self.sources.len())
    }

    fn chain_ids(&self, chain: &Vec<usize>, target: usize) -> (r: Vec<ProjectSourceId>)
        requires
            forall|k: int| 0 <= k < chain@.len() ==> (#[trigger] chain@[k]) < self.sources@.len(),
            target < self.sources@.len(),
        ensures
            source_ids(r@) == chain@.push(target).map_values(|source: usize| self@.id(source)),
    {
        let mut out: Vec<ProjectSourceId> = Vec::new();
        let mut i: usize = 0;
        while i < chain.len()
            invariant
                i <= chain@.len(),
                forall|k: int|
                    0 <= k < chain@.len() ==> (#[trigger] chain@[k]) < self.sources@.len(),
                out@.len() == i,
                forall|k: int| 0 <= k < i ==> (#[trigger] out@[k])@ == self@.id(chain@[k]),
            decreases chain@.len() - i,
        {
            out.push(self.source_id(chain[i]));
            i = i + 1;
        }
        out.push(self.source_id(target));
        assert(source_ids(out@) =~= chain@.push(target).map_values(
            |source: usize| self@.id(source),
        ));
        out
    }

    fn find_target(&self, chain: &Vec<usize>, place: Place) -> (r: Result<usize, PrepareSourceError>)
        requires
            place.source < self.sources@.len(),
            forall|k: int| 0 <= k < chain@.len() ==> (#[trigger] chain@[k]) < self.sources@.len(),
        ensures
            match r {
                Ok(target) => target < self.sources@.len() && target_of(self@, chain@, place) == Ok::<
                    usize,
                    PrepareErrorModel,
                >(target),
                Err(error) => target_of(self@, chain@, place) == Err::<usize, PrepareErrorModel>(
                    error@,
                ),
            },
    {
        let source_id = self.source_id(place.source);
        assert(self@.includes.len() == self.includes@.len());
        match self.find_include(&source_id, place.start, place.end, self.includes.len()) {
            None => Err(
                PrepareSourceError::UnresolvedInclude {
                    source_id,
                    range: place.start..place.end,
                },
            ),
            Some(k) => {
                assert(self@.includes[k as int] == self.includes@[k as int]@);
                let target_id = self.includes[k].target_id();
                match self.source_number(target_id) {
                    None => Err(
                        PrepareSourceError::IncludeTargetNotLoaded {
                            source_id,
                            range: place.start..place.end,
                            target_id: target_id.clone(),
                        },
                    ),
                    Some(target) => if has_id(chain, target) {
                        Err(
                            PrepareSourceError::IncludeCycle {
                                source_id,
                                range: place.start..place.end,
                                cycle: self.chain_ids(chain, target),
                            },
                        )
                    } else {
                        Ok(target)
                    },
                }
            },
        }
    }

    fn within_source_bytes(&self) -> (r: bool)
        ensures
            r == (total_bytes(self@.sources, self@.sources.len() as int)
                <= self.limits.max_source_bytes),
    {
        let ghost models = self@.sources;
        assert(models.len() == self.sources@.len());
        let mut total: usize = 0;
        let mut i: usize = 0;
        while i < self.sources.len()
            invariant
                i <= self.sources@.len(),
                models == self@.sources,
                models.len() == self.sources@.len(),
                total == total_bytes(models, i as int),
                total <= self.limits.max_source_bytes,
            decreases self.sources@.len() - i,
        {
            assert(models[i as int] == self.sources@[i as int]@);
            let len = self.sources[i].len();
            if len > self.limits.max_source_bytes - total {
                proof {
                    lemma_total_grows(models, i + 1, models.len() as int);
                }
                return false;
            }
            total = total + len;
            i = i + 1;
        }
        true
    }

    fn is_undefined(&self, name: &str) -> (r: bool)
        ensures
            r == names_symbol(self@.undefined, name@),
    {
        let key = lowercase(name);
        let mut i: usize = 0;
        while i < self.undefined.len()
            invariant
                i <= self.undefined@.len(),
                key@ == lower_text(name@),
                forall|k: int|
                    0 <= k < i ==> lower_text(#[trigger] self@.undefined[k]) != lower_text(name@),
            decreases self.undefined@.len() - i,
        {
            assert(self@.undefined[i as int] == self.undefined@[i as int]@);
            if same_text(lowercase(self.undefined[i].as_str()).as_str(), key.as_str()) {
                return true;
            }
            i = i + 1;
        }
        assert(self@.undefined.len() == self.undefined@.len());
        false
    }

    fn find_disputed(&self) -> (r: Option<String>)
        ensures
            match r {
                Some(name) => disputed(self@, 0) == Some(name@),
                None => disputed(self@, 0) is None,
            },
    {
        assert(self@.defined.len() == self.defined@.len());
        let mut i: usize = 0;
        while i < self.defined.len()
            invariant
                i <= self.defined@.len(),
                self@.defined.len() == self.defined@.len(),
                disputed(self@, 0) == disputed(self@, i as int),
            decreases self.defined@.len() - i,
        {
            assert(self@.defined[i as int] == self.defined@[i as int]@);
            if self.is_undefined(self.defined[i].as_str()) {
                return Some(self.defined[i].clone());
            }
            i = i + 1;
        }
        None
    }

    fn check_include(&self, i: usize) -> (r: Option<PrepareSourceError>)
        requires
            i < self.includes@.len(),
        ensures
            match r {
                Some(error) => include_error(self@, i as int) == Some(error@),
                None => include_error(self@, i as int) is None,
            },
    {
        let binding = &self.includes[i];
        assert(self@.includes[i as int] == binding@);
        let range = binding.byte_range();
        match self.source_number(binding.source_id()) {
            None => Some(
                PrepareSourceError::IncludeBindingSourceNotLoaded {
                    source_id: binding.source_id().clone(),
                },
            ),
            Some(k) => {
                if !is_include_at(self.text(k), range.start, range.end) {
                    return Some(
                        PrepareSourceError::IncludeBindingNotIncludeDirective {
                            source_id: binding.source_id().clone(),
                            range,
                        },
                    );
                }
                if self.source_number(binding.target_id()).is_none() {
                    return Some(
                        PrepareSourceError::IncludeTargetNotLoaded {
                            source_id: binding.source_id().clone(),
                            range,
                            target_id: binding.target_id().clone(),
                        },
                    );
                }
                match self.find_include(binding.source_id(), range.start, range.end, i) {
                    Some(_) => Some(
                        PrepareSourceError::DuplicateIncludeBinding {
                            source_id: binding.source_id().clone(),
                            range,
                        },
                    ),
                    None => None,
                }
            },
        }
    }

    fn check_includes(&self) -> (r: Option<PrepareSourceError>)
        ensures
            match r {
                Some(error) => includes_error(self@, 0) == Some(error@),
                None => includes_error(self@, 0) is None,
            },
    {
        assert(self@.includes.len() == self.includes@.len());
        let mut i: usize = 0;
        while i < self.includes.len()
            invariant
                i <= self.includes@.len(),
                self@.includes.len() == self.includes@.len(),
                includes_error(self@, 0) == includes_error(self@, i as int),
            decreases self.includes@.len() - i,
        {
            if let Some(error) = self.check_include(i) {
                return Some(error);
            }
            i = i + 1;
        }
        None
    }

    fn start_symbols(&self) -> (r: Vec<SymbolEntry>)
        ensures
            symbol_models(r@) == initial_symbols(self@),
    {
        let mut out: Vec<SymbolEntry> = Vec::new();
        let mut i: usize = 0;
        while i < self.undefined.len()
            invariant
                i <= self.undefined@.len(),
                out@.len() == i,
                forall|k: int|
                    0 <= k < i ==> (#[trigger] out@[k])@ == (SymbolModel {
                        name: lower_text(self.undefined@[k]@),
                        defined: false,
                    }),
            decreases self.undefined@.len() - i,
        {
            out.push(
                SymbolEntry { name: lowercase(self.undefined[i].as_str()), defined: false },
            );
            i = i + 1;
        }
        let ghost first = self.undefined@.len() as int;
        i = 0;
        while i < self.defined.len()
            invariant
                i <= self.defined@.len(),
                first == self.undefined@.len(),
                out@.len() == first + i,
                forall|k: int|
                    0 <= k < first ==> (#[trigger] out@[k])@ == (SymbolModel {
                        name: lower_text(self.undefined@[k]@),
                        defined: false,
                    }),
                forall|k: int|
                    first <= k < first + i ==> (#[trigger] out@[k])@ == (SymbolModel {
                        name: lower_text(self.defined@[k - first]@),
                        defined: true,
                    }),
            decreases self.defined@.len() - i,
        {
            out.push(SymbolEntry { name: lowercase(self.defined[i].as_str()), defined: true });
            i = i + 1;
        }
        assert(symbol_models(out@) =~= initial_symbols(self@));
        out
    }
}

proof fn lemma_total_grows(sources: Seq<SnapshotModel>, i: int, n: int)
    requires
        0 <= i <= n,
    ensures
        total_bytes(sources, i) <= total_bytes(sources, n),
    decreases n - i,
{
    if i < n {
        lemma_total_grows(sources, i, n - 1);
    }
}

/// Whether the directives of all open groups stand in known sources.
spec fn placed(groups: Seq<Group>, sources: nat) -> bool {
    forall|k: int| 0 <= k < groups.len() ==> (#[trigger] groups[k]).place.source < sources
}

proof fn lemma_performed_placed(
    job: JobModel,
    st: ProgressModel,
    place: Place,
    d: DirectiveModel,
    sources: nat,
)
    requires
        placed(st.groups, sources),
        place.source < sources,
    ensures
        performed(job, st, place, d) matches Ok(next) ==> placed(next.groups, sources),
{
}

impl Progress {
    fn is_active(&self) -> (r: bool)
        ensures
            r == self@.active(),
    {
        if self.groups.len() == 0 {
            true
        } else {
            self.groups[self.groups.len() - 1].active
        }
    }

    fn emit(
        &mut self,
        job: &Job,
        bytes: Vec<u8>,
        original: Option<(ProjectSourceId, usize, usize)>,
        expansion: &str,
        kind: SourceSegmentKind,
    ) -> (r: Result<(), PrepareSourceError>)
        ensures
            step(r, final(self)@) == emitted(
                job@,
                old(self)@,
                bytes@,
                match original {
                    Some((id, start, end)) => Some(SpanModel { source_id: id@, start, end }),
                    None => None,
                },
                expansion@,
                kind,
            ),
    {
        let len = bytes.len();
        if len == 0 {
            return Ok(());
        }
        let start = self.bytes.len();
        if start > job.limits.max_output_bytes || len > job.limits.max_output_bytes - start {
            return Err(
                budget_error(PreparationBudget::OutputBytes, job.limits.max_output_bytes),
            );
        }
        let ghost old_segments = self.segments@;
        let mut more = bytes;
        self.bytes.append(&mut more);
        let range = start..start + len;
        let segment = SourceMapSegment {
            prepared_range: range,
            original: match original {
                Some((source_id, from, to)) => Some(
                    crate::source_map::SourceSpan::new(source_id, from..to),
                ),
                None => None,
            },
            expansion_id: ExpansionId::new(expansion),
            kind,
        };
        let ghost model = segment@;
        self.segments.push(segment);
        assert(segment_models(self.segments@) =~= segment_models(old_segments).push(model));
        Ok(())
    }

    fn emit_text(&mut self, job: &Job, place: Place, expansion: &str, copied: bool) -> (r: Result<
        (),
        PrepareSourceError,
    >)
        requires
            job.holds(place),
        ensures
            step(r, final(self)@) == text_emitted(job@, old(self)@, place, expansion@, copied),
    {
        let text = job.text(place.source);
        let ghost wanted = text@.subrange(place.start as int, place.end as int);
        let mut bytes: Vec<u8> = Vec::new();
        let mut i: usize = place.start;
        while i < place.end
            invariant
                place.start <= i <= place.end <= text@.len(),
                bytes@.len() == i - place.start,
                wanted == text@.subrange(place.start as int, place.end as int),
                forall|k: int|
                    0 <= k < i - place.start ==> #[trigger] bytes@[k] == (if copied {
                        wanted[k]
                    } else {
                        masked(wanted)[k]
                    }),
            decreases place.end - i,
        {
            let b = text[i];
            assert(wanted[i - place.start] == b);
            if copied || b == 0x0a || b == 0x0d {
                bytes.push(b);
            } else {
                bytes.push(0x20);
            }
            i = i + 1;
        }
        let original = Some((job.source_id(place.source), place.start, place.end));
        if copied {
            assert(bytes@ =~= wanted);
            self.emit(job, bytes, original, expansion, SourceSegmentKind::Copied)
        } else {
            assert(bytes@ =~= masked(wanted));
            self.emit(job, bytes, original, expansion, SourceSegmentKind::Masked)
        }
    }

    fn reach(&mut self, job: &Job, at: usize, place: Place, expansion: &str) -> (r: Result<
        (),
        PrepareSourceError,
    >)
        requires
            job.holds(place),
            at <= place.start,
        ensures
            step(r, final(self)@) == reached(job@, old(self)@, at, place, expansion@),
    {
        let active = self.is_active();
        let before = Place { source: place.source, start: at, end: place.start };
        match self.emit_text(job, before, expansion, active) {
            Err(error) => {
                return Err(error);
            },
            Ok(_) => {},
        }
        match self.emit_text(job, place, expansion, false) {
            Err(error) => {
                return Err(error);
            },
            Ok(_) => {},
        }
        if self.directives >= job.limits.max_directives {
            return Err(budget_error(PreparationBudget::Directives, job.limits.max_directives));
        }
        self.directives = self.directives + 1;
        Ok(())
    }

    fn separate(&mut self, job: &Job, source: usize, expansion: &str) -> (r: Result<
        (),
        PrepareSourceError,
    >)
        requires
            source < job.sources@.len(),
        ensures
            step(r, final(self)@) == separated(job@, old(self)@, source, expansion@),
    {
        let text = job.text(source);
        if text.len() == 0 {
            return Ok(());
        }
        let last = text[text.len() - 1];
        if last == 0x0a || last == 0x0d {
            return Ok(());
        }
        let mut bytes: Vec<u8> = Vec::new();
        bytes.push(0x0a);
        assert(bytes@ =~= seq![0x0au8]);
        self.emit(job, bytes, None, expansion, SourceSegmentKind::Synthetic)
    }

    fn state_condition(&self, job: &Job, place: Place, d: &Directive) -> (r: Result<
        Truth,
        PrepareSourceError,
    >)
        requires
            job.directive(place),
        ensures
            match r {
                Ok(value) => stated(job@, self@, place, d@) == Ok::<Truth, PrepareErrorModel>(
                    value,
                ),
                Err(error) => stated(job@, self@, place, d@) == Err::<Truth, PrepareErrorModel>(
                    error@,
                ),
            },
    {
        match d.kind {
            DirectiveKind::IfDef => match single_word(d.argument.as_str()) {
                None => Err(job.invalid(place)),
                Some(name) => Ok(look_up(&self.symbols, job.complete, name.as_str())),
            },
            DirectiveKind::IfNDef => match single_word(d.argument.as_str()) {
                None => Err(job.invalid(place)),
                Some(name) => match look_up(&self.symbols, job.complete, name.as_str()) {
                    Truth::True => Ok(Truth::False),
                    Truth::False => Ok(Truth::True),
                    Truth::Unknown => Ok(Truth::Unknown),
                },
            },
            DirectiveKind::If | DirectiveKind::ElseIf => {
                let brackets: usize = if job.text(place.source)[place.start] == 0x28 {
                    5
                } else {
                    3
                };
                let body: usize = place.end - place.start - brackets;
                let limit = job.limits.max_expression_bytes;
                if body > limit && body - limit > d.keyword.as_str().unicode_len() {
                    return Err(budget_error(PreparationBudget::ExpressionBytes, limit));
                }
                match tokenize(d.argument.as_str()) {
                    None => Err(job.invalid(place)),
                    Some(read) => {
                        if read.len() > job.limits.max_expression_tokens {
                            return Err(
                                budget_error(
                                    PreparationBudget::ExpressionTokens,
                                    job.limits.max_expression_tokens,
                                ),
                            );
                        }
                        match evaluate(&self.symbols, job.complete, &read) {
                            None => Err(job.invalid(place)),
                            Some(value) => Ok(value),
                        }
                    },
                }
            },
            _ => Err(job.unsupported(place, d)),
        }
    }

    fn decide(&self, job: &Job, place: Place, d: &Directive) -> (r: Result<bool, PrepareSourceError>)
        requires
            job.directive(place),
        ensures
            match r {
                Ok(value) => decided(job@, self@, place, d@) == Ok::<bool, PrepareErrorModel>(
                    value,
                ),
                Err(error) => decided(job@, self@, place, d@) == Err::<bool, PrepareErrorModel>(
                    error@,
                ),
            },
    {
        match self.state_condition(job, place, d) {
            Err(error) => Err(error),
            Ok(Truth::True) => Ok(true),
            Ok(Truth::False) => Ok(false),
            Ok(Truth::Unknown) => Err(
                PrepareSourceError::UnknownActiveCondition {
                    source_id: job.source_id(place.source),
                    range: place.start..place.end,
                },
            ),
        }
    }

    fn open(&mut self, job: &Job, place: Place, d: &Directive) -> (r: Result<
        (),
        PrepareSourceError,
    >)
        requires
            job.directive(place),
        ensures
            step(r, final(self)@) == opened(job@, old(self)@, place, d@),
    {
        if self.groups.len() >= job.limits.max_conditional_depth {
            return Err(
                budget_error(
                    PreparationBudget::ConditionalDepth,
                    job.limits.max_conditional_depth,
                ),
            );
        }
        if !self.is_active() {
            self.groups.push(
                Group { outer: false, taken: false, active: false, last: false, place },
            );
            return Ok(());
        }
        match self.decide(job, place, d) {
            Err(error) => Err(error),
            Ok(value) => {
                self.groups.push(
                    Group { outer: true, taken: value, active: value, last: false, place },
                );
                Ok(())
            },
        }
    }

    fn go_on(&mut self, job: &Job, place: Place, d: &Directive) -> (r: Result<
        (),
        PrepareSourceError,
    >)
        requires
            job.directive(place),
        ensures
            step(r, final(self)@) == continued(job@, old(self)@, place, d@),
    {
        if self.groups.len() == 0 {
            return Err(job.malformed(place));
        }
        let top = self.groups.len() - 1;
        let group = self.groups[top];
        if group.last {
            return Err(job.malformed(place));
        }
        let end = match d.kind {
            DirectiveKind::Else => true,
            _ => false,
        };
        let value = if !group.outer || group.taken {
            false
        } else if end {
            true
        } else {
            match self.decide(job, place, d) {
                Err(error) => {
                    return Err(error);
                },
                Ok(value) => value,
            }
        };
        self.groups.set(
            top,
            Group {
                outer: group.outer,
                taken: group.taken || value,
                active: value,
                last: end,
                place: group.place,
            },
        );
        Ok(())
    }

    fn close(&mut self, job: &Job, place: Place) -> (r: Result<(), PrepareSourceError>)
        requires
            job.directive(place),
        ensures
            step(r, final(self)@) == closed(job@, old(self)@, place),
    {
        if self.groups.len() == 0 {
            return Err(job.malformed(place));
        }
        self.groups.pop();
        assert(self.groups@ =~= old(self).groups@.drop_last());
        Ok(())
    }

    fn declare(&mut self, job: &Job, place: Place, d: &Directive) -> (r: Result<
        (),
        PrepareSourceError,
    >)
        requires
            job.directive(place),
        ensures
            step(r, final(self)@) == declared(job@, old(self)@, place, d@),
    {
        match single_word(d.argument.as_str()) {
            None => Err(job.invalid(place)),
            Some(name) => {
                let entry = SymbolEntry {
                    name: lowercase(name.as_str()),
                    defined: match d.kind {
                        DirectiveKind::Define => true,
                        _ => false,
                    },
                };
                let ghost before = self.symbols@;
                let ghost model = entry@;
                self.symbols.push(entry);
                assert(symbol_models(self.symbols@) =~= symbol_models(before).push(model));
                Ok(())
            },
        }
    }

    fn perform(&mut self, job: &Job, place: Place, d: &Directive) -> (r: Result<
        (),
        PrepareSourceError,
    >)
        requires
            job.directive(place),
        ensures
            step(r, final(self)@) == performed(job@, old(self)@, place, d@),
    {
        match d.kind {
            DirectiveKind::IfDef | DirectiveKind::IfNDef | DirectiveKind::If
            | DirectiveKind::IfOther => self.open(job, place, d),
            DirectiveKind::ElseIf | DirectiveKind::Else => self.go_on(job, place, d),
            DirectiveKind::EndIf => self.close(job, place),
            DirectiveKind::Define | DirectiveKind::Undef => {
                if self.is_active() {
                    self.declare(job, place, d)
                } else {
                    Ok(())
                }
            },
            DirectiveKind::Include | DirectiveKind::Other => {
                if self.is_active() {
                    Err(job.unsupported(place, d))
                } else {
                    Ok(())
                }
            },
        }
    }

    fn count_work(&mut self, job: &Job, source: usize) -> (r: Result<(), PrepareSourceError>)
        requires
            source < job.sources@.len(),
        ensures
            step(r, final(self)@) == worked(job@, old(self)@, source),
    {
        let len = job.text(source).len();
        let limit = job.limits.max_work;
        if self.work > limit || len > limit - self.work {
            return Err(budget_error(PreparationBudget::Work, limit));
        }
        self.work = self.work + len;
        Ok(())
    }

    fn enter(&mut self, job: &Job, depth: usize, target: usize) -> (r: Result<
        (),
        PrepareSourceError,
    >)
        requires
            target < job.sources@.len(),
        ensures
            step(r, final(self)@) == entered(job@, old(self)@, depth as nat, target),
    {
        if depth > job.limits.max_include_depth {
            return Err(
                budget_error(PreparationBudget::IncludeDepth, job.limits.max_include_depth),
            );
        }
        if self.occurrences >= job.limits.max_expanded_occurrences {
            return Err(
                budget_error(
                    PreparationBudget::ExpandedOccurrences,
                    job.limits.max_expanded_occurrences,
                ),
            );
        }
        self.occurrences = self.occurrences + 1;
        self.count_work(job, target)
    }

    fn expand(&mut self, job: &Job, chain: &Vec<usize>, expansion: &str) -> (r: Result<
        (),
        PrepareSourceError,
    >)
        requires
            0 < chain@.len() <= job.limits.max_include_depth + 1,
            forall|k: int| 0 <= k < chain@.len() ==> (#[trigger] chain@[k]) < job.sources@.len(),
            placed(old(self)@.groups, job.sources@.len()),
        ensures
            r is Ok ==> placed(final(self)@.groups, job.sources@.len()),
            step(r, final(self)@) == expanded(job@, old(self)@, chain@, expansion@, 0),
        decreases job.limits.max_include_depth + 1 - chain@.len(),
    {
        let source = chain[chain.len() - 1];
        let text = job.text(source);
        let len: usize = text.len();
        let ghost whole = expanded(job@, self@, chain@, expansion@, 0);
        let mut at: usize = 0;
        loop
            invariant
                at <= len,
                len == text@.len(),
                source == chain@.last(),
                text@ == job@.bytes(source),
                source < job.sources@.len(),
                0 < chain@.len() <= job.limits.max_include_depth + 1,
                forall|k: int|
                    0 <= k < chain@.len() ==> (#[trigger] chain@[k]) < job.sources@.len(),
                placed(self@.groups, job.sources@.len()),
                whole == expanded(job@, old(self)@, chain@, expansion@, 0),
                expanded(job@, self@, chain@, expansion@, at) == whole,
            decreases len - at,
        {
            proof {
                lemma_directive_bounds(text@, at as int);
            }
            match find_directive(text, at) {
                Found::Unclosed { start } => {
                    return Err(job.invalid(Place { source, start, end: len }));
                },
                Found::Nothing => {
                    let active = self.is_active();
                    return self.emit_text(
                        job,
                        Place { source, start: at, end: len },
                        expansion,
                        active,
                    );
                },
                Found::Directive { start, end } => {
                    let place = Place { source, start, end };
                    let d = read_directive(text, start, end);
                    match self.reach(job, at, place, expansion) {
                        Err(error) => {
                            return Err(error);
                        },
                        Ok(_) => {},
                    }
                    let included = match d.kind {
                        DirectiveKind::Include => self.is_active(),
                        _ => false,
                    };
                    if included {
                        let target = match job.find_target(chain, place) {
                            Err(error) => {
                                return Err(error);
                            },
                            Ok(target) => target,
                        };
                        match self.enter(job, chain.len(), target) {
                            Err(error) => {
                                return Err(error);
                            },
                            Ok(_) => {},
                        }
                        let mut inner = expansion.to_owned();
                        inner.append("/include-");
                        push_decimal(&mut inner, self.occurrences);
                        let mut deeper = copy_ids(chain);
                        deeper.push(target);
                        match self.expand(job, &deeper, inner.as_str()) {
                            Err(error) => {
                                return Err(error);
                            },
                            Ok(_) => {},
                        }
                        match self.separate(job, target, inner.as_str()) {
                            Err(error) => {
                                return Err(error);
                            },
                            Ok(_) => {},
                        }
                    } else {
                        proof {
                            lemma_performed_placed(job@, self@, place, d@, job.sources@.len());
                        }
                        match self.perform(job, place, &d) {
                            Err(error) => {
                                return Err(error);
                            },
                            Ok(_) => {},
                        }
                    }
                    at = end;
                },
            }
        }
    }
}

fn is_all_blank(bytes: &Vec<u8>) -> (r: bool)
    ensures
        r == all_blank(bytes@),
{
    let mut i: usize = 0;
    while i < bytes.len()
        invariant
            i <= bytes@.len(),
            forall|k: int| 0 <= k < i ==> blank(#[trigger] bytes@[k]),
        decreases bytes@.len() - i,
    {
        let b = bytes[i];
        if !(b == 0x20 || b == 0x09 || b == 0x0a || b == 0x0c || b == 0x0d) {
            assert(!blank(bytes@[i as int]));
            return false;
        }
        i = i + 1;
    }
    true
}

fn copy_sources(sources: &[SourceSnapshot]) -> (r: Vec<SourceSnapshot>)
    ensures
        snapshot_models(r@) == snapshot_models(sources@),
{
    let mut out: Vec<SourceSnapshot> = Vec::new();
    let mut i: usize = 0;
    while i < sources.len()
        invariant
            i <= sources@.len(),
            out@.len() == i,
            forall|k: int| 0 <= k < i ==> (#[trigger] out@[k])@ == sources@[k]@,
        decreases sources@.len() - i,
    {
        out.push(sources[i].clone());
        i = i + 1;
    }
    assert(snapshot_models(out@) =~= snapshot_models(sources@));
    out
}

/// Projects a source under a configuration.
pub fn expand_source(
    root_id: &ProjectSourceId,
    sources: &[SourceSnapshot],
    includes: &[IncludeBinding],
    options: &PrepareSourceOptions,
) -> (r: Result<Projection, PrepareSourceError>)
    ensures
        ({
            let wanted = projected(JobModel::of(sources@, includes@, *options), root_id@);
            match r {
                Ok(projection) => snapshot_models(projection.sources@) == snapshot_models(sources@)
                    && wanted == Ok::<ProjectionModel, PrepareErrorModel>(
                    ProjectionModel {
                        bytes: projection.bytes@,
                        segments: segment_models(projection.segments@),
                    },
                ),
                Err(error) => wanted == Err::<ProjectionModel, PrepareErrorModel>(error@),
            }
        }),
{
    let job = Job {
        sources: copy_sources(sources),
        includes,
        defined: &options.initial_defined_symbols,
        undefined: &options.initial_undefined_symbols,
        complete: match options.environment {
            PreparationEnvironment::Complete => true,
            PreparationEnvironment::Partial => false,
        },
        limits: options.limits,
    };
    assert(job@ =~= JobModel::of(sources@, includes@, *options));
    if !job.within_source_bytes() {
        return Err(
            budget_error(PreparationBudget::SourceBytes, options.limits.max_source_bytes),
        );
    }
    if let Some(name) = job.find_disputed() {
        return Err(PrepareSourceError::ConflictingInitialSymbol { name });
    }
    let root = match job.source_number(root_id) {
        None => {
            return Err(PrepareSourceError::SourceNotLoaded { source_id: root_id.clone() });
        },
        Some(root) => root,
    };
    if let Some(error) = job.check_includes() {
        return Err(error);
    }
    let mut progress = Progress {
        symbols: job.start_symbols(),
        groups: Vec::new(),
        bytes: Vec::new(),
        segments: Vec::new(),
        directives: 0,
        occurrences: 0,
        work: 0,
    };
    assert(progress@ =~= begun(job@));
    match progress.count_work(&job, root) {
        Err(error) => {
            return Err(error);
        },
        Ok(_) => {},
    }
    let mut chain: Vec<usize> = Vec::new();
    chain.push(root);
    assert(chain@ =~= seq![root]);
    match progress.expand(&job, &chain, "root") {
        Err(error) => {
            return Err(error);
        },
        Ok(_) => {},
    }
    if progress.groups.len() > 0 {
        let place = progress.groups[progress.groups.len() - 1].place;
        return Err(job.malformed(place));
    }
    if is_all_blank(&progress.bytes) {
        return Err(PrepareSourceError::NoCompleteContent { source_id: job.source_id(root) });
    }
    Ok(
        Projection {
            bytes: progress.bytes,
            sources: job.sources,
            segments: progress.segments,
        },
    )
}

} // verus!
