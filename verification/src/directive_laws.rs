//! What conditional directives mean: which symbols are defined, which conditions
//! hold, and which text is active.

use vstd::prelude::*;
use crate::conditions::{
    condition_value, defined, law_conditions_are_evaluated, only_word, symbol_truth, Expression,
    SymbolModel, TokenModel, Truth,
};
use crate::directives::{DirectiveKind, DirectiveModel};
use crate::expansion::{
    begun, decided, initial_symbols, performed, reached, stated, text_emitted, JobModel, Place,
    ProgressModel,
};
use crate::preparation::PrepareErrorModel;
use crate::source_map::SourceSegmentKind;
use crate::text::lower_text;

verus! {

// Symbols ----------------------------------------------------------------------------------------

/// Whether entry `k` is the last that names a symbol. Case does not matter.
pub open spec fn decides(symbols: Seq<SymbolModel>, name: Seq<char>, k: int) -> bool {
    &&& 0 <= k < symbols.len()
    &&& symbols[k].name == lower_text(name)
    &&& forall|j: int| k < j < symbols.len() ==> (#[trigger] symbols[j]).name != lower_text(name)
}

/// Whether no entry names a symbol.
pub open spec fn unnamed(symbols: Seq<SymbolModel>, name: Seq<char>) -> bool {
    forall|j: int| 0 <= j < symbols.len() ==> (#[trigger] symbols[j]).name != lower_text(name)
}

/// Whether a symbol is known to be defined: the last that was said of it says so.
pub open spec fn is_defined(symbols: Seq<SymbolModel>, name: Seq<char>) -> bool {
    exists|k: int| #[trigger] decides(symbols, name, k) && symbols[k].defined
}

/// Whether a symbol is known not to be defined: the last that was said of it says
/// so, or nothing was said of it and the environment is complete.
pub open spec fn is_undefined(symbols: Seq<SymbolModel>, complete: bool, name: Seq<char>) -> bool {
    ||| exists|k: int| #[trigger] decides(symbols, name, k) && !symbols[k].defined
    ||| complete && unnamed(symbols, name)
}

proof fn lemma_defined_from(symbols: Seq<SymbolModel>, complete: bool, name: Seq<char>, n: int)
    requires
        0 <= n <= symbols.len(),
        forall|j: int| n <= j < symbols.len() ==> (#[trigger] symbols[j]).name != lower_text(name),
    ensures
        ({
            let value = defined(symbols, complete, lower_text(name), n);
            &&& value == Truth::True <==> is_defined(symbols, name)
            &&& value == Truth::False <==> is_undefined(symbols, complete, name)
        }),
    decreases n,
{
    if n > 0 {
        if symbols[n - 1].name == lower_text(name) {
            assert(decides(symbols, name, n - 1));
            assert forall|k: int| #[trigger] decides(symbols, name, k) implies k == n - 1 by {
                if k < n - 1 {
                    assert(symbols[n - 1].name != lower_text(name));
                }
                if k >= n {
                    assert(symbols[k].name != lower_text(name));
                }
            }
            assert(symbols[n - 1].name == lower_text(name));
        } else {
            lemma_defined_from(symbols, complete, name, n - 1);
        }
    } else {
        assert forall|k: int| !#[trigger] decides(symbols, name, k) by {
            if 0 <= k < symbols.len() {
                assert(symbols[k].name != lower_text(name));
            }
        }
    }
}

/// The last that was said of a symbol decides; of a symbol of which nothing was
/// said, a complete environment knows that it is not defined.
pub proof fn law_last_word_on_a_symbol_decides(
    symbols: Seq<SymbolModel>,
    complete: bool,
    name: Seq<char>,
)
    ensures
        symbol_truth(symbols, complete, name) == Truth::True <==> is_defined(symbols, name),
        symbol_truth(symbols, complete, name) == Truth::False <==> is_undefined(
            symbols,
            complete,
            name,
        ),
{
    lemma_defined_from(symbols, complete, name, symbols.len() as int);
}

/// What a preparation starts with: the names given as defined are defined, those
/// given as undefined and not as defined are not.
pub proof fn law_initial_symbols(job: JobModel, name: Seq<char>)
    ensures
        (exists|k: int| 0 <= k < job.defined.len() && lower_text(#[trigger] job.defined[k])
            == lower_text(name)) ==> is_defined(begun(job).symbols, name),
        !(exists|k: int| 0 <= k < job.defined.len() && lower_text(#[trigger] job.defined[k])
            == lower_text(name)) && (exists|k: int|
            0 <= k < job.undefined.len() && lower_text(#[trigger] job.undefined[k]) == lower_text(
                name,
            )) ==> is_undefined(begun(job).symbols, false, name),
        !(exists|k: int| 0 <= k < job.defined.len() && lower_text(#[trigger] job.defined[k])
            == lower_text(name)) && !(exists|k: int|
            0 <= k < job.undefined.len() && lower_text(#[trigger] job.undefined[k]) == lower_text(
                name,
            )) ==> unnamed(begun(job).symbols, name),
{
    let symbols = initial_symbols(job);
    let n = job.undefined.len() as int;
    assert forall|k: int| 0 <= k < symbols.len() implies (#[trigger] symbols[k]).name == (if k < n {
        lower_text(job.undefined[k])
    } else {
        lower_text(job.defined[k - n])
    }) && symbols[k].defined == (k >= n) by {}
    lemma_last_named(symbols, name, symbols.len() as int);
    if exists|k: int|
        0 <= k < job.defined.len() && lower_text(#[trigger] job.defined[k]) == lower_text(name) {
        let k = choose|k: int|
            0 <= k < job.defined.len() && lower_text(#[trigger] job.defined[k]) == lower_text(name);
        assert(symbols[n + k].name == lower_text(name));
        let last = choose|i: int| #[trigger] decides(symbols, name, i);
        assert(last >= n + k);
    } else if exists|k: int|
        0 <= k < job.undefined.len() && lower_text(#[trigger] job.undefined[k]) == lower_text(
            name,
        ) {
        let k = choose|k: int|
            0 <= k < job.undefined.len() && lower_text(#[trigger] job.undefined[k]) == lower_text(
                name,
            );
        assert(symbols[k].name == lower_text(name));
        let last = choose|i: int| #[trigger] decides(symbols, name, i);
        if last >= n {
            assert(lower_text(job.defined[last - n]) == lower_text(name));
        }
    } else {
        assert forall|j: int| 0 <= j < symbols.len() implies (#[trigger] symbols[j]).name
            != lower_text(name) by {
            if j < n {
                assert(lower_text(job.undefined[j]) != lower_text(name));
            } else {
                assert(lower_text(job.defined[j - n]) != lower_text(name));
            }
        }
    }
}

proof fn lemma_last_named(symbols: Seq<SymbolModel>, name: Seq<char>, n: int)
    requires
        0 <= n <= symbols.len(),
        forall|j: int| n <= j < symbols.len() ==> (#[trigger] symbols[j]).name != lower_text(name),
    ensures
        unnamed(symbols, name) || exists|k: int| #[trigger] decides(symbols, name, k),
    decreases n,
{
    if n > 0 {
        if symbols[n - 1].name == lower_text(name) {
            assert(decides(symbols, name, n - 1));
        } else {
            lemma_last_named(symbols, name, n - 1);
        }
    }
}

/// `{$DEFINE X}` in active text makes X defined and `{$UNDEF X}` makes it undefined;
/// no other symbol changes, and nothing is written. In inactive text neither has an
/// effect.
pub proof fn law_define_and_undef(
    job: JobModel,
    st: ProgressModel,
    place: Place,
    d: DirectiveModel,
    name: Seq<char>,
    other: Seq<char>,
)
    requires
        d.kind == DirectiveKind::Define || d.kind == DirectiveKind::Undef,
        only_word(d.argument) == Some(name),
    ensures
        performed(job, st, place, d) matches Ok(next) && {
            &&& next.bytes == st.bytes && next.segments == st.segments && next.groups == st.groups
            &&& st.active() && d.kind == DirectiveKind::Define ==> is_defined(next.symbols, name)
            &&& st.active() && d.kind == DirectiveKind::Undef ==> is_undefined(
                next.symbols,
                job.complete,
                name,
            )
            &&& !st.active() || lower_text(other) != lower_text(name) ==> symbol_truth(
                next.symbols,
                job.complete,
                other,
            ) == symbol_truth(st.symbols, job.complete, other)
        },
{
    if st.active() {
        let next = performed(job, st, place, d)->Ok_0;
        let n = st.symbols.len() as int;
        assert(decides(next.symbols, name, n));
        if lower_text(other) != lower_text(name) {
            assert(next.symbols.drop_last() =~= st.symbols);
            lemma_pushed(st.symbols, next.symbols, job.complete, lower_text(other), n);
        }
    }
}

proof fn lemma_pushed(
    before: Seq<SymbolModel>,
    after: Seq<SymbolModel>,
    complete: bool,
    name: Seq<char>,
    n: int,
)
    requires
        0 <= n <= before.len(),
        after.len() == before.len() + 1,
        after.drop_last() == before,
    ensures
        defined(after, complete, name, n) == defined(before, complete, name, n),
    decreases n,
{
    if n > 0 {
        assert(after[n - 1] == after.drop_last()[n - 1]);
        lemma_pushed(before, after, complete, name, n - 1);
    }
}

// Conditions -------------------------------------------------------------------------------------

/// `{$IFDEF X}` is true where X is known to be defined, false where it is known not
/// to be, and else not known. `{$IFNDEF X}` is false, true and not known there.
pub proof fn law_ifdef_and_ifndef(
    job: JobModel,
    st: ProgressModel,
    place: Place,
    d: DirectiveModel,
    name: Seq<char>,
)
    requires
        d.kind == DirectiveKind::IfDef || d.kind == DirectiveKind::IfNDef,
        only_word(d.argument) == Some(name),
    ensures
        stated(job, st, place, d) matches Ok(value) && if d.kind == DirectiveKind::IfDef {
            &&& value == Truth::True <==> is_defined(st.symbols, name)
            &&& value == Truth::False <==> is_undefined(st.symbols, job.complete, name)
        } else {
            &&& value == Truth::False <==> is_defined(st.symbols, name)
            &&& value == Truth::True <==> is_undefined(st.symbols, job.complete, name)
        },
{
    law_last_word_on_a_symbol_decides(st.symbols, job.complete, name);
}

/// `{$IFDEF X}` has the value of `{$IF Defined(X)}`, and `{$IFNDEF X}` that of
/// `{$IF NOT Defined(X)}`, in every state of the symbols.
pub proof fn law_ifdef_is_if_defined(
    job: JobModel,
    st: ProgressModel,
    place: Place,
    d: DirectiveModel,
    name: Seq<char>,
)
    requires
        d.kind == DirectiveKind::IfDef || d.kind == DirectiveKind::IfNDef,
        only_word(d.argument) == Some(name),
    ensures
        ({
            let call = seq![
                TokenModel::Word("defined"@),
                TokenModel::Open,
                TokenModel::Word(lower_text(name)),
                TokenModel::Close,
            ];
            stated(job, st, place, d) matches Ok(value) && condition_value(
                st.symbols,
                job.complete,
                if d.kind == DirectiveKind::IfDef {
                    call
                } else {
                    seq![TokenModel::Word("not"@)] + call
                },
            ) == Some(value)
        }),
{
    let l = lower_text(name);
    let e = Expression::Defined(l);
    let n = Expression::Not(Box::new(e));
    law_conditions_are_evaluated(st.symbols, job.complete, e);
    law_conditions_are_evaluated(st.symbols, job.complete, n);
    assert(lower_text(l) =~= l) by {
        assert forall|k: int| 0 <= k < l.len() implies lower_text(l)[k] == l[k] by {
            assert(l[k] == crate::text::lower(name[k]));
        }
    }
    let call = seq![
        TokenModel::Word("defined"@),
        TokenModel::Open,
        TokenModel::Word(l),
        TokenModel::Close,
    ];
    assert(e.as_operand() == call);
    assert(e.as_condition() == call) by {
        assert(e.as_conjunction() == call);
    }
    assert(n.as_operand() == seq![TokenModel::Word("not"@)] + call);
    assert(n.as_condition() == n.as_operand()) by {
        assert(n.as_conjunction() == n.as_operand());
    }
    assert(n.value(st.symbols, job.complete) == e.value(st.symbols, job.complete).negated());
    assert(e.value(st.symbols, job.complete) == symbol_truth(st.symbols, job.complete, l));
    assert(symbol_truth(st.symbols, job.complete, l) == symbol_truth(
        st.symbols,
        job.complete,
        name,
    ));
}

/// Negation, conjunction and alternative of values that may not be known: a value is
/// known wherever the known operands decide it.
pub proof fn law_truth_tables(a: Truth, b: Truth)
    ensures
        a.negated() == Truth::True <==> a == Truth::False,
        a.negated() == Truth::False <==> a == Truth::True,
        a.and_also(b) == Truth::True <==> a == Truth::True && b == Truth::True,
        a.and_also(b) == Truth::False <==> a == Truth::False || b == Truth::False,
        a.or_else(b) == Truth::True <==> a == Truth::True || b == Truth::True,
        a.or_else(b) == Truth::False <==> a == Truth::False && b == Truth::False,
{
}

/// A condition is decided where its value is known; where it is not, that is an
/// error.
pub proof fn law_unknown_conditions_are_refused(
    job: JobModel,
    st: ProgressModel,
    place: Place,
    d: DirectiveModel,
)
    ensures
        decided(job, st, place, d) == Ok::<bool, PrepareErrorModel>(true) <==> stated(
            job,
            st,
            place,
            d,
        ) == Ok::<Truth, PrepareErrorModel>(Truth::True),
        decided(job, st, place, d) == Ok::<bool, PrepareErrorModel>(false) <==> stated(
            job,
            st,
            place,
            d,
        ) == Ok::<Truth, PrepareErrorModel>(Truth::False),
        stated(job, st, place, d) == Ok::<Truth, PrepareErrorModel>(Truth::Unknown) ==> (decided(
            job,
            st,
            place,
            d,
        ) matches Err(e) && e is UnknownActiveCondition),
{
}

// Branches ---------------------------------------------------------------------------------------

/// Whether a directive opens a conditional group.
pub open spec fn opens(kind: DirectiveKind) -> bool {
    kind == DirectiveKind::IfDef || kind == DirectiveKind::IfNDef || kind == DirectiveKind::If
        || kind == DirectiveKind::IfOther
}

/// A conditional group opens inside the one around it: its first branch is active
/// where the text around it is and its condition holds. In inactive text its
/// condition is not looked at.
pub proof fn law_group_opens(job: JobModel, st: ProgressModel, place: Place, d: DirectiveModel)
    requires
        opens(d.kind),
    ensures
        performed(job, st, place, d) matches Ok(next) ==> {
            &&& next.groups.len() == st.groups.len() + 1
            &&& next.groups.drop_last() == st.groups
            &&& next.groups.last().outer == st.active()
            &&& next.groups.last().taken == next.groups.last().active
            &&& !next.groups.last().last
            &&& next.active() <==> st.active() && stated(job, st, place, d) == Ok::<
                Truth,
                PrepareErrorModel,
            >(Truth::True)
            &&& next.symbols == st.symbols && next.bytes == st.bytes && next.segments == st.segments
        },
        !st.active() && st.groups.len() < job.limits.max_conditional_depth ==> performed(
            job,
            st,
            place,
            d,
        ) is Ok,
{
    if let Ok(next) = performed(job, st, place, d) {
        assert(next.groups.drop_last() =~= st.groups);
    }
}

/// At most one branch of a group is active: a further branch is active only where the
/// text around the group is and no branch before it was taken. `{$ELSE}` then is, and
/// `{$ELSEIF}` is where its condition holds; after `{$ELSE}` there is no other.
pub proof fn law_group_goes_on(job: JobModel, st: ProgressModel, place: Place, d: DirectiveModel)
    requires
        d.kind == DirectiveKind::ElseIf || d.kind == DirectiveKind::Else,
    ensures
        st.groups.len() == 0 || st.groups.last().last ==> (performed(job, st, place, d) matches Err(
            e,
        ) && e is MalformedNesting),
        performed(job, st, place, d) matches Ok(next) ==> {
            let before = st.groups.last();
            let after = next.groups.last();
            &&& st.groups.len() > 0 && next.groups.len() == st.groups.len()
            &&& next.groups.drop_last() == st.groups.drop_last()
            &&& after.outer == before.outer
            &&& after.active ==> before.outer && !before.taken
            &&& before.outer && !before.taken ==> (after.active <==> d.kind == DirectiveKind::Else
                || stated(job, st, place, d) == Ok::<Truth, PrepareErrorModel>(Truth::True))
            &&& after.taken <==> before.taken || after.active
            &&& after.last <==> d.kind == DirectiveKind::Else
            &&& next.active() == after.active
            &&& next.symbols == st.symbols && next.bytes == st.bytes && next.segments == st.segments
        },
{
    if let Ok(next) = performed(job, st, place, d) {
        assert(next.groups.drop_last() =~= st.groups.drop_last());
    }
}

/// `{$ENDIF}` closes the group that was opened last: what was active around it is so
/// again.
pub proof fn law_group_closes(
    job: JobModel,
    st: ProgressModel,
    place: Place,
    d: DirectiveModel,
    before: ProgressModel,
)
    requires
        d.kind == DirectiveKind::EndIf,
    ensures
        st.groups.len() == 0 ==> (performed(job, st, place, d) matches Err(e)
            && e is MalformedNesting),
        st.groups.len() > 0 && st.groups.drop_last() == before.groups ==> (performed(
            job,
            st,
            place,
            d,
        ) matches Ok(next) && next.groups == before.groups && next.active() == before.active()
            && next.symbols == st.symbols && next.bytes == st.bytes && next.segments
            == st.segments),
{
}

/// Nothing inside an inactive branch takes effect: no directive but those of the
/// groups themselves changes anything, and a group opened in it stays inactive.
pub proof fn law_inactive_directives_do_nothing(
    job: JobModel,
    st: ProgressModel,
    place: Place,
    d: DirectiveModel,
)
    requires
        !st.active(),
        !opens(d.kind),
        d.kind != DirectiveKind::ElseIf,
        d.kind != DirectiveKind::Else,
        d.kind != DirectiveKind::EndIf,
    ensures
        performed(job, st, place, d) == Ok::<ProgressModel, PrepareErrorModel>(st),
{
}

// Text -------------------------------------------------------------------------------------------

/// Whether bytes are blanked: line breaks stay, everything else is a space.
pub open spec fn blanked(bytes: Seq<u8>, original: Seq<u8>) -> bool {
    bytes.len() == original.len() && forall|k: int|
        0 <= k < original.len() ==> #[trigger] bytes[k] == (if original[k] == 0x0a || original[k]
            == 0x0d {
            original[k]
        } else {
            0x20u8
        })
}

/// Active text is written as it is and inactive text is blanked, byte for byte; what
/// was written before stays. The written bytes are traced to where they stand in their
/// source.
pub proof fn law_text_is_copied_or_blanked(
    job: JobModel,
    st: ProgressModel,
    place: Place,
    expansion: Seq<char>,
    copied: bool,
)
    requires
        place.start <= place.end <= job.bytes(place.source).len(),
    ensures
        text_emitted(job, st, place, expansion, copied) matches Ok(next) ==> {
            let text = job.bytes(place.source).subrange(place.start as int, place.end as int);
            let n = st.bytes.len() as int;
            &&& next.bytes.len() == n + text.len()
            &&& next.bytes.take(n) == st.bytes
            &&& copied ==> next.bytes.skip(n) == text
            &&& !copied ==> blanked(next.bytes.skip(n), text)
            &&& text.len() > 0 ==> next.segments.len() == st.segments.len() + 1
                && next.segments.last().kind == (if copied {
                SourceSegmentKind::Copied
            } else {
                SourceSegmentKind::Masked
            }) && next.segments.drop_last() == st.segments
            &&& text.len() > 0 && next.bytes.len() <= usize::MAX ==> {
                let written = next.segments.last();
                &&& written.start == n && written.end == next.bytes.len()
                &&& written.expansion_id == expansion
                &&& written.original matches Some(span) && span.source_id == job.id(place.source)
                    && span.start == place.start && span.end == place.end
            }
            &&& text.len() == 0 ==> next.segments == st.segments
            &&& next.symbols == st.symbols && next.groups == st.groups
        },
{
    let text = job.bytes(place.source).subrange(place.start as int, place.end as int);
    if let Ok(next) = text_emitted(job, st, place, expansion, copied) {
        let n = st.bytes.len() as int;
        assert(next.bytes.take(n) =~= st.bytes);
        if text.len() > 0 {
            assert(next.segments.drop_last() =~= st.segments);
        }
        if copied {
            assert(next.bytes.skip(n) =~= text);
        } else {
            let hidden = crate::expansion::masked(text);
            assert(next.bytes.skip(n) =~= hidden);
        }
    }
}

/// Up to a directive, text is copied where it is active and else blanked; the
/// directive itself is blanked.
pub proof fn law_text_before_a_directive(
    job: JobModel,
    st: ProgressModel,
    at: usize,
    place: Place,
    expansion: Seq<char>,
)
    requires
        at <= place.start <= place.end <= job.bytes(place.source).len(),
    ensures
        reached(job, st, at, place, expansion) matches Ok(next) ==> {
            let text = job.bytes(place.source);
            let n = st.bytes.len() as int;
            let m = n + (place.start - at);
            &&& next.bytes.len() == m + (place.end - place.start)
            &&& next.bytes.take(n) == st.bytes
            &&& st.active() ==> next.bytes.subrange(n, m) == text.subrange(
                at as int,
                place.start as int,
            )
            &&& !st.active() ==> blanked(
                next.bytes.subrange(n, m),
                text.subrange(at as int, place.start as int),
            )
            &&& blanked(
                next.bytes.skip(m),
                text.subrange(place.start as int, place.end as int),
            )
            &&& next.symbols == st.symbols && next.groups == st.groups
        },
{
    let before = Place { source: place.source, start: at, end: place.start };
    law_text_is_copied_or_blanked(job, st, before, expansion, st.active());
    if let Ok(mid) = text_emitted(job, st, before, expansion, st.active()) {
        law_text_is_copied_or_blanked(job, mid, place, expansion, false);
        if let Ok(next) = reached(job, st, at, place, expansion) {
            let n = st.bytes.len() as int;
            let m = n + (place.start - at);
            assert(mid.bytes.len() == m);
            assert(next.bytes.take(m) == mid.bytes);
            assert(next.bytes.take(n) =~= mid.bytes.take(n));
            assert(next.bytes.subrange(n, m) =~= mid.bytes.skip(n));
        }
    }
}

} // verus!
