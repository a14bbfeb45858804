//! Where the directives of a text stand, what they ask for, and how included sources
//! take the place of the directives that ask for them.

use vstd::prelude::*;
use crate::conditions::{condition_value, in_word, only_word, solid_from, tokens, word_stop, Truth};
use crate::directives::{
    brace_stop, directive_at, directive_kind, directive_of, line_stop, names_source, next_directive,
    star_stop, string_stop, DirectiveKind, DirectiveModel, Found,
};
use crate::expansion::{
    begun, disputed, entered, expanded, finished, include_error, include_index, includes_error,
    occurrence, performed, projected, reached, separated, stated, target_of, total_bytes, worked,
    JobModel, Place, ProgressModel,
};
use crate::labels::is_white;
use crate::preparation::{IncludeModel, PreparationBudget, PrepareErrorModel};
use crate::source_map::{source_index, SnapshotModel};
use crate::text::lower_text;

verus! {

// Where directives stand -------------------------------------------------------------------------

/// Whether a byte breaks a line.
pub open spec fn breaks_line(byte: u8) -> bool {
    byte == 0x0a || byte == 0x0d
}

/// Whether `*)` stands at an index.
pub open spec fn closes_star(b: Seq<u8>, i: int) -> bool {
    0 <= i && i + 1 < b.len() && b[i] == 0x2a && b[i + 1] == 0x29
}

proof fn lemma_string_stop_at(b: Seq<u8>, i: int, j: int)
    requires
        0 <= i <= j <= b.len(),
        forall|k: int| i <= k < j ==> !breaks_line(#[trigger] b[k]) && b[k] != 0x27,
        j == b.len() || breaks_line(b[j]) || b[j] == 0x27,
    ensures
        string_stop(b, i) == if j < b.len() && b[j] == 0x27 {
            j + 1
        } else {
            j
        },
    decreases j - i,
{
    if i < j {
        lemma_string_stop_at(b, i + 1, j);
    }
}

proof fn lemma_line_stop_at(b: Seq<u8>, i: int, j: int)
    requires
        0 <= i <= j <= b.len(),
        forall|k: int| i <= k < j ==> !breaks_line(#[trigger] b[k]),
        j == b.len() || breaks_line(b[j]),
    ensures
        line_stop(b, i) == j,
    decreases j - i,
{
    if i < j {
        lemma_line_stop_at(b, i + 1, j);
    }
}

proof fn lemma_brace_stop_at(b: Seq<u8>, i: int, j: int)
    requires
        0 <= i <= j <= b.len(),
        forall|k: int| i <= k < j ==> #[trigger] b[k] != 0x7d,
        j == b.len() || b[j] == 0x7d,
    ensures
        brace_stop(b, i) == if j < b.len() {
            Some(j + 1)
        } else {
            None
        },
    decreases j - i,
{
    if i < j {
        lemma_brace_stop_at(b, i + 1, j);
    }
}

proof fn lemma_star_stop_at(b: Seq<u8>, i: int, j: int)
    requires
        0 <= i <= j <= b.len(),
        forall|k: int| i <= k < j ==> !#[trigger] closes_star(b, k),
        j == b.len() || closes_star(b, j),
    ensures
        star_stop(b, i) == if j < b.len() {
            Some(j + 2)
        } else {
            None
        },
    decreases j - i,
{
    if i < j {
        assert(!closes_star(b, i));
        lemma_star_stop_at(b, i + 1, j);
    } else if i < b.len() {
        assert(closes_star(b, j));
    }
}

/// The search for directives passes over a string: up to the next quote, or to the end
/// of its line where there is none.
pub proof fn law_strings_hold_no_directive(b: Seq<u8>, i: int, j: int)
    requires
        0 <= i < j <= b.len(),
        b[i] == 0x27,
        forall|k: int| i < k < j ==> !breaks_line(#[trigger] b[k]) && b[k] != 0x27,
        j == b.len() || breaks_line(b[j]) || b[j] == 0x27,
    ensures
        next_directive(b, i) == next_directive(
            b,
            if j < b.len() && b[j] == 0x27 {
                j + 1
            } else {
                j
            },
        ),
{
    lemma_string_stop_at(b, i + 1, j);
}

/// It passes over a line comment, up to the end of its line.
pub proof fn law_line_comments_hold_no_directive(b: Seq<u8>, i: int, j: int)
    requires
        0 <= i,
        i + 2 <= j <= b.len(),
        b[i] == 0x2f,
        b[i + 1] == 0x2f,
        forall|k: int| i + 2 <= k < j ==> !breaks_line(#[trigger] b[k]),
        j == b.len() || breaks_line(b[j]),
    ensures
        next_directive(b, i) == next_directive(b, j),
{
    lemma_line_stop_at(b, i + 2, j);
}

/// A comment in braces goes up to the next closing brace. It is a directive where a
/// dollar sign follows the opening brace, and is passed over where none does. One that
/// nothing closes ends the search.
pub proof fn law_brace_comments(b: Seq<u8>, i: int, j: int)
    requires
        0 <= i < j <= b.len() <= usize::MAX,
        b[i] == 0x7b,
        forall|k: int| i < k < j ==> #[trigger] b[k] != 0x7d,
        j == b.len() || b[j] == 0x7d,
    ensures
        j == b.len() ==> next_directive(b, i) == (Found::Unclosed { start: i as usize }),
        j < b.len() && b[i + 1] == 0x24 ==> next_directive(b, i) == (Found::Directive {
            start: i as usize,
            end: (j + 1) as usize,
        }),
        j < b.len() && b[i + 1] != 0x24 ==> next_directive(b, i) == next_directive(b, j + 1),
{
    lemma_brace_stop_at(b, i + 1, j);
}

/// The same holds of a comment in the other brackets, which goes up to the next `*)`.
pub proof fn law_star_comments(b: Seq<u8>, i: int, j: int)
    requires
        0 <= i,
        i + 2 <= j <= b.len() <= usize::MAX,
        b[i] == 0x28,
        b[i + 1] == 0x2a,
        forall|k: int| i + 2 <= k < j ==> !#[trigger] closes_star(b, k),
        j == b.len() || closes_star(b, j),
    ensures
        j == b.len() ==> next_directive(b, i) == (Found::Unclosed { start: i as usize }),
        j < b.len() && b[i + 2] == 0x24 ==> next_directive(b, i) == (Found::Directive {
            start: i as usize,
            end: (j + 2) as usize,
        }),
        j < b.len() && b[i + 2] != 0x24 ==> next_directive(b, i) == next_directive(b, j + 2),
{
    lemma_star_stop_at(b, i + 2, j);
}

/// Every other byte is passed over, and behind the text there is nothing.
pub proof fn law_other_text_is_passed_over(b: Seq<u8>, i: int)
    requires
        0 <= i <= b.len(),
    ensures
        i == b.len() ==> next_directive(b, i) == Found::Nothing,
        i < b.len() && b[i] != 0x27 && b[i] != 0x7b && !(b[i] == 0x2f && i + 1 < b.len() && b[i + 1]
            == 0x2f) && !(b[i] == 0x28 && i + 1 < b.len() && b[i + 1] == 0x2a) ==> next_directive(
            b,
            i,
        ) == next_directive(b, i + 1),
{
}

// What directives ask for ------------------------------------------------------------------------

pub proof fn lemma_word_stop_at(s: Seq<char>, i: int, j: int)
    requires
        0 <= i <= j <= s.len(),
        forall|k: int| i <= k < j ==> in_word(#[trigger] s[k]),
        j == s.len() || !in_word(s[j]),
    ensures
        word_stop(s, i) == j,
    decreases j - i,
{
    if i < j {
        lemma_word_stop_at(s, i + 1, j);
    }
}

/// The first word behind the dollar sign is the keyword, in whatever case it is
/// written, and all that follows is the argument.
pub proof fn law_directive_is_keyword_and_argument(word: Seq<char>, rest: Seq<char>)
    requires
        forall|k: int| 0 <= k < word.len() ==> in_word(#[trigger] word[k]),
        rest.len() == 0 || !in_word(rest[0]),
    ensures
        directive_of(word + rest).keyword == lower_text(word),
        directive_of(word + rest).argument == rest,
        directive_of(word + rest).kind == directive_kind(lower_text(word), rest),
{
    let body = word + rest;
    let n = word.len() as int;
    assert forall|k: int| 0 <= k < n implies in_word(#[trigger] body[k]) by {
        assert(body[k] == word[k]);
    }
    if rest.len() > 0 {
        assert(body[n] == rest[0]);
    }
    lemma_word_stop_at(body, 0, n);
    assert(body.subrange(0, n) =~= word);
    assert(body.subrange(n, body.len() as int) =~= rest);
}

proof fn lemma_solid_from(s: Seq<char>, i: int)
    requires
        0 <= i <= s.len(),
    ensures
        solid_from(s, i) < s.len() <==> exists|k: int|
            i <= k < s.len() && !is_white(#[trigger] s[k]),
        solid_from(s, i) <= s.len(),
    decreases s.len() - i,
{
    if i < s.len() && is_white(s[i]) {
        lemma_solid_from(s, i + 1);
        if exists|k: int| i <= k < s.len() && !is_white(#[trigger] s[k]) {
            let k = choose|k: int| i <= k < s.len() && !is_white(#[trigger] s[k]);
            assert(i + 1 <= k);
        }
    }
}

/// Each keyword asks for what it says. An include keyword asks for a source only where
/// white space or a quote follows it and something else than white space; otherwise it
/// sets a switch.
pub proof fn law_keywords(argument: Seq<char>)
    ensures
        directive_kind("ifdef"@, argument) == DirectiveKind::IfDef,
        directive_kind("ifndef"@, argument) == DirectiveKind::IfNDef,
        directive_kind("if"@, argument) == DirectiveKind::If,
        directive_kind("elseif"@, argument) == DirectiveKind::ElseIf,
        directive_kind("else"@, argument) == DirectiveKind::Else,
        directive_kind("endif"@, argument) == DirectiveKind::EndIf,
        directive_kind("define"@, argument) == DirectiveKind::Define,
        directive_kind("undef"@, argument) == DirectiveKind::Undef,
        directive_kind("ifopt"@, argument) == DirectiveKind::IfOther,
        ({
            let names = argument.len() > 0 && (is_white(argument[0]) || argument[0] == '\'')
                && exists|k: int| 0 <= k < argument.len() && !is_white(#[trigger] argument[k]);
            let kind = if names {
                DirectiveKind::Include
            } else {
                DirectiveKind::Other
            };
            directive_kind("i"@, argument) == kind && directive_kind("include"@, argument) == kind
        }),
        forall|keyword: Seq<char>|
            !set![
                "ifdef"@,
                "ifndef"@,
                "if"@,
                "elseif"@,
                "else"@,
                "endif"@,
                "define"@,
                "undef"@,
                "ifopt"@,
                "i"@,
                "include"@,
            ].contains(keyword) ==> #[trigger] directive_kind(keyword, argument)
                == DirectiveKind::Other,
{
    reveal_strlit("ifdef");
    reveal_strlit("ifndef");
    reveal_strlit("if");
    reveal_strlit("elseif");
    reveal_strlit("else");
    reveal_strlit("endif");
    reveal_strlit("define");
    reveal_strlit("undef");
    reveal_strlit("ifopt");
    reveal_strlit("i");
    reveal_strlit("include");
    lemma_solid_from(argument, 0);
    assert("if"@.len() == 2 && "i"@.len() == 1 && "else"@.len() == 4 && "include"@.len() == 7);
    assert("ifdef"@.len() == 5 && "endif"@.len() == 5 && "undef"@.len() == 5);
    assert("ifndef"@.len() == 6 && "elseif"@.len() == 6 && "define"@.len() == 6);
    assert("ifopt"@.len() == 5 && "ifdef"@[0] == 'i' && "ifopt"@[0] == 'i');
    assert("ifdef"@[2] == 'd' && "ifopt"@[2] == 'o' && "undef"@[0] == 'u' && "endif"@[0] == 'e');
    assert("ifndef"@[0] == 'i' && "elseif"@[0] == 'e' && "define"@[0] == 'd');
    assert(names_source(argument) == (argument.len() > 0 && (is_white(argument[0]) || argument[0]
        == '\'') && solid_from(argument, 0) < argument.len()));
}

/// The argument of a definition is one word between white space.
pub proof fn law_single_word(before: Seq<char>, word: Seq<char>, after: Seq<char>)
    requires
        forall|k: int| 0 <= k < before.len() ==> is_white(#[trigger] before[k]),
        forall|k: int| 0 <= k < after.len() ==> is_white(#[trigger] after[k]),
        word.len() > 0,
        crate::conditions::starts_word(word[0]),
        forall|k: int| 0 <= k < word.len() ==> in_word(#[trigger] word[k]),
    ensures
        only_word(before + word + after) == Some(word),
{
    let s = before + word + after;
    let n = before.len() as int;
    let m = n + word.len();
    assert forall|k: int| 0 <= k < n implies is_white(#[trigger] s[k]) by {
        assert(s[k] == before[k]);
    }
    assert(s[n] == word[0]);
    assert forall|k: int| n <= k < m implies in_word(#[trigger] s[k]) by {
        assert(s[k] == word[k - n]);
    }
    assert forall|k: int| m <= k < s.len() implies is_white(#[trigger] s[k]) by {
        assert(s[k] == after[k - m]);
    }
    lemma_solid_at(s, 0, n);
    if m < s.len() {
        assert(is_white(s[m]));
    }
    lemma_word_stop_at(s, n, m);
    lemma_solid_at(s, m, s.len() as int);
    assert(s.subrange(n, m) =~= word);
}

proof fn lemma_solid_at(s: Seq<char>, i: int, j: int)
    requires
        0 <= i <= j <= s.len(),
        forall|k: int| i <= k < j ==> is_white(#[trigger] s[k]),
        j == s.len() || !is_white(s[j]),
    ensures
        solid_from(s, i) == j,
    decreases j - i,
{
    if i < j {
        lemma_solid_at(s, i + 1, j);
    }
}

/// In active text a directive that is not supported is refused.
pub proof fn law_unsupported_directive_is_refused(
    job: JobModel,
    st: ProgressModel,
    place: Place,
    d: DirectiveModel,
)
    requires
        st.active(),
        d.kind == DirectiveKind::Other,
    ensures
        performed(job, st, place, d) matches Err(PrepareErrorModel::UnsupportedDirective {
            source_id,
            range,
            keyword,
        }) && source_id == job.id(place.source) && range.start == place.start && range.end
            == place.end && keyword == d.keyword,
{
}

// Sources and bindings ---------------------------------------------------------------------------

/// A source is found by its identity, the first of several, and is missing only where
/// none has it.
pub proof fn law_source_is_found(sources: Seq<SnapshotModel>, id: Seq<char>, n: int)
    requires
        0 <= n <= sources.len(),
    ensures
        match source_index(sources, id, n) {
            Some(k) => 0 <= k < n && sources[k].source_id == id && forall|j: int|
                0 <= j < k ==> (#[trigger] sources[j]).source_id != id,
            None => forall|j: int| 0 <= j < n ==> (#[trigger] sources[j]).source_id != id,
        },
    decreases n,
{
    if n > 0 {
        law_source_is_found(sources, id, n - 1);
    }
}

/// Whether a binding is for an include directive at a place.
pub open spec fn binds(binding: IncludeModel, id: Seq<char>, start: usize, end: usize) -> bool {
    binding.source_id == id && binding.start == start && binding.end == end
}

proof fn lemma_include_index(
    includes: Seq<IncludeModel>,
    id: Seq<char>,
    start: usize,
    end: usize,
    n: int,
)
    requires
        0 <= n <= includes.len(),
    ensures
        match include_index(includes, id, start, end, n) {
            Some(k) => 0 <= k < n && binds(includes[k], id, start, end) && forall|j: int|
                0 <= j < k ==> !binds(#[trigger] includes[j], id, start, end),
            None => forall|j: int| 0 <= j < n ==> !binds(#[trigger] includes[j], id, start, end),
        },
    decreases n,
{
    if n > 0 {
        lemma_include_index(includes, id, start, end, n - 1);
    }
}

/// An include stands for the source that a binding for its exact place names. It is
/// refused where there is no such binding, where that source is not loaded, and where
/// it is being gone through already.
pub proof fn law_include_target(job: JobModel, chain: Seq<usize>, place: Place, k: int, t: int)
    requires
        job.sources.len() <= usize::MAX,
        0 <= k < job.includes.len(),
        binds(job.includes[k], job.id(place.source), place.start, place.end),
        forall|j: int|
            0 <= j < k ==> !binds(
                #[trigger] job.includes[j],
                job.id(place.source),
                place.start,
                place.end,
            ),
        0 <= t < job.sources.len(),
        forall|j: int|
            0 <= j < t ==> (#[trigger] job.sources[j]).source_id != job.includes[k].target_id,
    ensures
        job.sources[t].source_id == job.includes[k].target_id && !chain.contains(t as usize)
            ==> target_of(job, chain, place) == Ok::<usize, PrepareErrorModel>(t as usize),
        job.sources[t].source_id == job.includes[k].target_id && chain.contains(t as usize) ==> (
        target_of(job, chain, place) matches Err(e) && e is IncludeCycle),
        (forall|j: int|
            0 <= j < job.sources.len() ==> (#[trigger] job.sources[j]).source_id
                != job.includes[k].target_id) ==> (target_of(job, chain, place) matches Err(e)
            && e is IncludeTargetNotLoaded),
{
    let id = job.id(place.source);
    lemma_include_index(job.includes, id, place.start, place.end, job.includes.len() as int);
    law_source_is_found(job.sources, job.includes[k].target_id, job.sources.len() as int);
    let found = include_index(
        job.includes,
        id,
        place.start,
        place.end,
        job.includes.len() as int,
    );
    assert(found == Some(k)) by {
        if let Some(i) = found {
            assert(binds(job.includes[i], id, place.start, place.end));
            assert(!(i < k));
            assert(!(k < i));
        } else {
            assert(!binds(job.includes[k], id, place.start, place.end));
        }
    }
    if job.sources[t].source_id == job.includes[k].target_id {
        let at = source_index(job.sources, job.includes[k].target_id, job.sources.len() as int);
        assert(at == Some(t));
    }
}

/// An include without a binding for its place is refused.
pub proof fn law_unbound_include_is_refused(job: JobModel, chain: Seq<usize>, place: Place)
    requires
        forall|j: int|
            0 <= j < job.includes.len() ==> !binds(
                #[trigger] job.includes[j],
                job.id(place.source),
                place.start,
                place.end,
            ),
    ensures
        target_of(job, chain, place) matches Err(PrepareErrorModel::UnresolvedInclude {
            source_id,
            range,
        }) && source_id == job.id(place.source) && range.start == place.start && range.end
            == place.end,
{
    lemma_include_index(
        job.includes,
        job.id(place.source),
        place.start,
        place.end,
        job.includes.len() as int,
    );
}

/// A directive other than an active include is performed, and the text behind it is
/// gone through in the state that it leaves.
pub proof fn law_directives_take_effect_in_order(
    job: JobModel,
    st: ProgressModel,
    chain: Seq<usize>,
    expansion: Seq<char>,
    at: usize,
    start: usize,
    end: usize,
    here: ProgressModel,
    next: ProgressModel,
)
    requires
        chain.len() > 0,
        at <= job.bytes(chain.last()).len() <= usize::MAX,
        next_directive(job.bytes(chain.last()), at as int) == (Found::Directive { start, end }),
        reached(job, st, at, Place { source: chain.last(), start, end }, expansion) == Ok::<
            ProgressModel,
            PrepareErrorModel,
        >(here),
        !here.active() || directive_at(job.bytes(chain.last()), start, end).kind
            != DirectiveKind::Include,
        performed(
            job,
            here,
            Place { source: chain.last(), start, end },
            directive_at(job.bytes(chain.last()), start, end),
        ) == Ok::<ProgressModel, PrepareErrorModel>(next),
    ensures
        expanded(job, st, chain, expansion, at) == expanded(job, next, chain, expansion, end),
{
    crate::directives::lemma_directive_bounds(job.bytes(chain.last()), at as int);
}

/// An active include is replaced by its source: the source is gone through from its
/// start, under its own occurrence and with what is defined so far, and the text behind
/// the include goes on in the state at its end, with what it has defined. The include
/// counts as one occurrence more and its bytes as work.
///
/// The witness gives the state in which the included source begins.
pub proof fn law_include_is_replaced_by_its_source(
    job: JobModel,
    st: ProgressModel,
    chain: Seq<usize>,
    expansion: Seq<char>,
    at: usize,
    start: usize,
    end: usize,
    here: ProgressModel,
    target: usize,
) -> (inside: ProgressModel)
    requires
        chain.len() > 0,
        chain.len() <= job.limits.max_include_depth,
        at <= job.bytes(chain.last()).len() <= usize::MAX,
        next_directive(job.bytes(chain.last()), at as int) == (Found::Directive { start, end }),
        reached(job, st, at, Place { source: chain.last(), start, end }, expansion) == Ok::<
            ProgressModel,
            PrepareErrorModel,
        >(here),
        here.active(),
        directive_at(job.bytes(chain.last()), start, end).kind == DirectiveKind::Include,
        target_of(job, chain, Place { source: chain.last(), start, end }) == Ok::<
            usize,
            PrepareErrorModel,
        >(target),
        here.occurrences < job.limits.max_expanded_occurrences,
        here.work + job.bytes(target).len() <= job.limits.max_work,
    ensures
        inside.symbols == here.symbols && inside.groups == here.groups,
        inside.bytes == here.bytes && inside.segments == here.segments,
        inside.directives == here.directives,
        inside.occurrences == here.occurrences + 1,
        inside.work == here.work + job.bytes(target).len(),
        ({
            let inner = occurrence(expansion, inside.occurrences);
            let whole = expanded(job, st, chain, expansion, at);
            match expanded(job, inside, chain.push(target), inner, 0) {
                Ok(done) => match separated(job, done, target, inner) {
                    Ok(next) => whole == expanded(job, next, chain, expansion, end)
                        && next.symbols == done.symbols && next.groups == done.groups
                        && next.bytes.take(done.bytes.len() as int) == done.bytes,
                    Err(e) => whole matches Err(f) && f == e,
                },
                Err(e) => whole matches Err(f) && f == e,
            }
        }),
{
    crate::directives::lemma_directive_bounds(job.bytes(chain.last()), at as int);
    let inside = ProgressModel {
        occurrences: (here.occurrences + 1) as usize,
        work: (here.work + job.bytes(target).len()) as usize,
        ..here
    };
    assert(entered(job, here, chain.len(), target) == Ok::<ProgressModel, PrepareErrorModel>(
        inside,
    ));
    let inner = occurrence(expansion, inside.occurrences);
    if let Ok(done) = expanded(job, inside, chain.push(target), inner, 0) {
        if let Ok(next) = separated(job, done, target, inner) {
            assert(next.bytes.take(done.bytes.len() as int) =~= done.bytes);
        }
    }
    inside
}

/// Behind an included text one line break is written, traced to no source, exactly where
/// the text is not empty and does not end with a line break itself.
pub proof fn law_line_break_behind_an_include(
    job: JobModel,
    st: ProgressModel,
    source: usize,
    expansion: Seq<char>,
)
    ensures
        ({
            let text = job.bytes(source);
            let open_line = text.len() > 0 && !breaks_line(text.last());
            &&& !open_line ==> separated(job, st, source, expansion) == Ok::<
                ProgressModel,
                PrepareErrorModel,
            >(st)
            &&& open_line && st.bytes.len() < job.limits.max_output_bytes ==> (separated(
                job,
                st,
                source,
                expansion,
            ) matches Ok(next) && next.bytes == st.bytes.push(0x0a) && next.segments.len()
                == st.segments.len() + 1 && next.segments.last().original is None
                && next.segments.last().expansion_id == expansion && next.symbols == st.symbols
                && next.groups == st.groups)
            &&& open_line && st.bytes.len() >= job.limits.max_output_bytes ==> separated(
                job,
                st,
                source,
                expansion,
            ) is Err
        }),
{
    assert(st.bytes + seq![0x0au8] =~= st.bytes.push(0x0a));
}

/// Each included occurrence has an identity of its own: that of the text around it goes
/// on with the number of the occurrence, and different numbers give different ones.
pub proof fn law_occurrences_differ(outer: Seq<char>, n: usize, m: usize)
    ensures
        occurrence(outer, n) == occurrence(outer, m) ==> n == m,
        occurrence(outer, n).len() > outer.len(),
        occurrence(outer, n).take(outer.len() as int) == outer,
{
    let word = "/include-"@;
    let a = occurrence(outer, n);
    let b = occurrence(outer, m);
    let k = (outer + word).len() as int;
    let x = crate::text::decimal(n as nat);
    let y = crate::text::decimal(m as nat);
    crate::text_laws::law_decimal(n as nat);
    crate::text_laws::law_decimal(m as nat);
    assert(a.skip(k) =~= x);
    assert(b.skip(k) =~= y);
    assert(a.take(outer.len() as int) =~= outer);
    if a == b {
        assert(x == y);
    }
}

/// Behind the last directive, what is left of the text is written and nothing else is
/// done.
pub proof fn law_rest_of_the_text(
    job: JobModel,
    st: ProgressModel,
    chain: Seq<usize>,
    expansion: Seq<char>,
    at: usize,
)
    requires
        chain.len() > 0,
        at <= job.bytes(chain.last()).len() <= usize::MAX,
        next_directive(job.bytes(chain.last()), at as int) == Found::Nothing,
    ensures
        expanded(job, st, chain, expansion, at) matches Ok(next) ==> {
            let text = job.bytes(chain.last());
            let rest = text.skip(at as int);
            let n = st.bytes.len() as int;
            &&& next.symbols == st.symbols && next.groups == st.groups
            &&& next.bytes.take(n) == st.bytes
            &&& st.active() ==> next.bytes.skip(n) == rest
            &&& !st.active() ==> crate::directive_laws::blanked(next.bytes.skip(n), rest)
        },
{
    let source = chain.last();
    let text = job.bytes(source);
    let place = Place { source, start: at, end: text.len() as usize };
    crate::directive_laws::law_text_is_copied_or_blanked(
        job,
        st,
        place,
        expansion,
        st.active(),
    );
    assert(text.subrange(at as int, text.len() as int) =~= text.skip(at as int));
}

// Limits and checks ------------------------------------------------------------------------------

/// Each resource runs out exactly where one more use would go over its limit.
pub proof fn law_limits(job: JobModel, st: ProgressModel, depth: nat, target: usize)
    ensures
        entered(job, st, depth, target) is Ok <==> depth <= job.limits.max_include_depth
            && st.occurrences < job.limits.max_expanded_occurrences && st.work + job.bytes(
            target,
        ).len() <= job.limits.max_work,
        depth > job.limits.max_include_depth ==> entered(job, st, depth, target) == Err::<
            ProgressModel,
            PrepareErrorModel,
        >(
            PrepareErrorModel::BudgetExceeded {
                budget: PreparationBudget::IncludeDepth,
                limit: job.limits.max_include_depth,
            },
        ),
        depth <= job.limits.max_include_depth && st.occurrences
            >= job.limits.max_expanded_occurrences ==> entered(job, st, depth, target) == Err::<
            ProgressModel,
            PrepareErrorModel,
        >(
            PrepareErrorModel::BudgetExceeded {
                budget: PreparationBudget::ExpandedOccurrences,
                limit: job.limits.max_expanded_occurrences,
            },
        ),
        st.work + job.bytes(target).len() > job.limits.max_work ==> worked(job, st, target) == Err::<
            ProgressModel,
            PrepareErrorModel,
        >(
            PrepareErrorModel::BudgetExceeded {
                budget: PreparationBudget::Work,
                limit: job.limits.max_work,
            },
        ),
{
}

/// Writing goes over the limit of the output exactly where it would become longer than
/// that, and a directive over the limit of the directives exactly where as many have
/// been met already.
pub proof fn law_output_limits(
    job: JobModel,
    st: ProgressModel,
    at: usize,
    place: Place,
    expansion: Seq<char>,
)
    requires
        at <= place.start < place.end <= job.bytes(place.source).len(),
    ensures
        reached(job, st, at, place, expansion) is Ok <==> st.bytes.len() + (place.end - at)
            <= job.limits.max_output_bytes && st.directives < job.limits.max_directives,
        st.bytes.len() + (place.end - at) <= job.limits.max_output_bytes && st.directives
            >= job.limits.max_directives ==> reached(job, st, at, place, expansion) == Err::<
            ProgressModel,
            PrepareErrorModel,
        >(
            PrepareErrorModel::BudgetExceeded {
                budget: PreparationBudget::Directives,
                limit: job.limits.max_directives,
            },
        ),
        st.bytes.len() + (place.end - at) > job.limits.max_output_bytes ==> reached(
            job,
            st,
            at,
            place,
            expansion,
        ) == Err::<ProgressModel, PrepareErrorModel>(
            PrepareErrorModel::BudgetExceeded {
                budget: PreparationBudget::OutputBytes,
                limit: job.limits.max_output_bytes,
            },
        ),
        reached(job, st, at, place, expansion) matches Ok(next) ==> next.directives
            == st.directives + 1 && next.work == st.work && next.occurrences == st.occurrences,
{
}

/// A condition is too long exactly where what follows its keyword is longer than the
/// limit, and has too many tokens exactly where there are more than the limit.
pub proof fn law_expression_limits(
    job: JobModel,
    st: ProgressModel,
    place: Place,
    d: DirectiveModel,
)
    requires
        d.kind == DirectiveKind::If || d.kind == DirectiveKind::ElseIf,
    ensures
        ({
            let brackets: int = if job.bytes(place.source)[place.start as int] == 0x28 {
                5
            } else {
                3
            };
            let length = place.end - place.start - brackets - d.keyword.len();
            &&& length > job.limits.max_expression_bytes ==> (stated(
                job,
                st,
                place,
                d,
            ) matches Err(PrepareErrorModel::BudgetExceeded { budget, limit }) && budget
                == PreparationBudget::ExpressionBytes && limit == job.limits.max_expression_bytes)
            &&& length <= job.limits.max_expression_bytes ==> match tokens(d.argument) {
                None => stated(job, st, place, d) matches Err(
                    PrepareErrorModel::InvalidDirective { source_id, range },
                ) && source_id == job.id(place.source) && range.start == place.start && range.end
                    == place.end,
                Some(read) => if read.len() > job.limits.max_expression_tokens {
                    stated(job, st, place, d) matches Err(
                        PrepareErrorModel::BudgetExceeded { budget, limit },
                    ) && budget == PreparationBudget::ExpressionTokens && limit
                        == job.limits.max_expression_tokens
                } else {
                    match condition_value(st.symbols, job.complete, read) {
                        Some(value) => stated(job, st, place, d) == Ok::<Truth, PrepareErrorModel>(
                            value,
                        ),
                        None => stated(job, st, place, d) matches Err(e) && e is InvalidDirective,
                    }
                },
            }
        }),
{
}

/// A source can be prepared only where every conditional group is closed and something
/// but white space is left.
pub proof fn law_finished(job: JobModel, root: usize, st: ProgressModel)
    ensures
        finished(job, root, st) is Ok <==> st.groups.len() == 0 && exists|k: int|
            0 <= k < st.bytes.len() && !crate::source_map::blank(#[trigger] st.bytes[k]),
        finished(job, root, st) matches Ok(text) ==> text.bytes == st.bytes && text.segments
            == st.segments,
        st.groups.len() > 0 ==> (finished(job, root, st) matches Err(e) && e is MalformedNesting),
        st.groups.len() == 0 && finished(job, root, st) is Err ==> (finished(
            job,
            root,
            st,
        ) matches Err(PrepareErrorModel::NoCompleteContent { source_id }) && source_id == job.id(
            root,
        )),
{
}

/// The symbols given at the start contradict each other exactly where one of them is
/// named, without regard to case, as defined and as undefined.
pub proof fn law_conflicting_symbols(job: JobModel)
    ensures
        disputed(job, 0) is Some <==> exists|i: int, k: int|
            0 <= i < job.defined.len() && 0 <= k < job.undefined.len() && lower_text(
                #[trigger] job.defined[i],
            ) == lower_text(#[trigger] job.undefined[k]),
        disputed(job, 0) matches Some(name) ==> job.defined.contains(name),
{
    lemma_disputed(job, 0);
}

proof fn lemma_disputed(job: JobModel, i: int)
    requires
        0 <= i <= job.defined.len(),
    ensures
        disputed(job, i) is Some <==> exists|j: int, k: int|
            i <= j < job.defined.len() && 0 <= k < job.undefined.len() && lower_text(
                #[trigger] job.defined[j],
            ) == lower_text(#[trigger] job.undefined[k]),
        disputed(job, i) matches Some(name) ==> job.defined.contains(name),
    decreases job.defined.len() - i,
{
    if i < job.defined.len() {
        lemma_disputed(job, i + 1);
        let name = job.defined[i];
        if crate::expansion::names_symbol(job.undefined, name) {
            let k = choose|k: int|
                0 <= k < job.undefined.len() && lower_text(#[trigger] job.undefined[k])
                    == lower_text(name);
            assert(lower_text(job.defined[i]) == lower_text(job.undefined[k]));
        } else if exists|j: int, k: int|
            i <= j < job.defined.len() && 0 <= k < job.undefined.len() && lower_text(
                #[trigger] job.defined[j],
            ) == lower_text(#[trigger] job.undefined[k]) {
            let (j, k) = choose|j: int, k: int|
                i <= j < job.defined.len() && 0 <= k < job.undefined.len() && lower_text(
                    #[trigger] job.defined[j],
                ) == lower_text(#[trigger] job.undefined[k]);
            assert(j != i);
        }
    }
}

/// A binding for an include is in order exactly where its source is loaded and holds
/// an include directive at that place, its target is loaded, and no binding before it
/// is for the same place.
pub proof fn law_binding_is_in_order(job: JobModel, i: int, s: int)
    requires
        0 <= i < job.includes.len(),
        0 <= s < job.sources.len(),
        job.sources[s].source_id == job.includes[i].source_id,
        forall|j: int|
            0 <= j < s ==> (#[trigger] job.sources[j]).source_id != job.includes[i].source_id,
    ensures
        include_error(job, i) is None <==> {
            let binding = job.includes[i];
            &&& crate::directives::include_at(job.sources[s].bytes, binding.start, binding.end)
            &&& exists|t: int|
                0 <= t < job.sources.len() && (#[trigger] job.sources[t]).source_id
                    == binding.target_id
            &&& forall|j: int|
                0 <= j < i ==> !binds(
                    #[trigger] job.includes[j],
                    binding.source_id,
                    binding.start,
                    binding.end,
                )
        },
{
    let binding = job.includes[i];
    law_source_is_found(job.sources, binding.source_id, job.sources.len() as int);
    law_source_is_found(job.sources, binding.target_id, job.sources.len() as int);
    lemma_include_index(job.includes, binding.source_id, binding.start, binding.end, i);
    let at = source_index(job.sources, binding.source_id, job.sources.len() as int);
    assert(at == Some(s));
}

/// A source is prepared only where all bindings are in order, the symbols given at the
/// start do not contradict each other, all sources together are within their limit,
/// and the source itself is loaded.
pub proof fn law_checks_come_first(job: JobModel, root_id: Seq<char>)
    requires
        projected(job, root_id) is Ok,
    ensures
        total_bytes(job.sources, job.sources.len() as int) <= job.limits.max_source_bytes,
        forall|i: int, k: int|
            0 <= i < job.defined.len() && 0 <= k < job.undefined.len() ==> lower_text(
                #[trigger] job.defined[i],
            ) != lower_text(#[trigger] job.undefined[k]),
        exists|s: int|
            0 <= s < job.sources.len() && (#[trigger] job.sources[s]).source_id == root_id,
        forall|i: int|
            0 <= i < job.includes.len() ==> include_error(job, i) is None && #[trigger] known_binding(
                job,
                i,
            ),
{
    law_conflicting_symbols(job);
    law_source_is_found(job.sources, root_id, job.sources.len() as int);
    lemma_includes_error(job, 0);
    assert forall|i: int| 0 <= i < job.includes.len() implies include_error(job, i) is None
        && #[trigger] known_binding(job, i) by {
        law_source_is_found(
            job.sources,
            job.includes[i].source_id,
            job.sources.len() as int,
        );
        assert(include_error(job, i) is None);
    }
}

/// Whether the source of a binding is loaded.
pub open spec fn known_binding(job: JobModel, i: int) -> bool {
    exists|s: int|
        0 <= s < job.sources.len() && (#[trigger] job.sources[s]).source_id
            == job.includes[i].source_id
}

proof fn lemma_includes_error(job: JobModel, i: int)
    requires
        0 <= i <= job.includes.len(),
        includes_error(job, i) is None,
    ensures
        forall|k: int| i <= k < job.includes.len() ==> #[trigger] include_error(job, k) is None,
    decreases job.includes.len() - i,
{
    if i < job.includes.len() {
        lemma_includes_error(job, i + 1);
    }
}

/// A preparation starts with nothing written, no group open and nothing used.
pub proof fn law_preparation_starts_empty(job: JobModel)
    ensures
        begun(job).groups.len() == 0,
        begun(job).active(),
        begun(job).bytes.len() == 0,
        begun(job).segments.len() == 0,
        begun(job).directives == 0 && begun(job).occurrences == 0 && begun(job).work == 0,
{
}

} // verus!
