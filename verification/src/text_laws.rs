//! What the order of texts, their pieces, numbers and tokens are.

use vstd::prelude::*;
use crate::conditions::{in_word, starts_word, tokens, tokens_from, TokenModel};
use crate::labels::{is_white, number_of};
use crate::text::{decimal, digit, lower_text, split_from, split_text, text_before};

verus! {

// Order ------------------------------------------------------------------------------------------

/// A text comes before another exactly where they first differ in a smaller character,
/// or where the other goes on behind it.
pub proof fn law_text_order(a: Seq<char>, b: Seq<char>, k: int)
    requires
        0 <= k <= a.len(),
        k <= b.len(),
        forall|i: int| 0 <= i < k ==> #[trigger] a[i] == b[i],
    ensures
        k < a.len() && k < b.len() && a[k] < b[k] ==> text_before(a, b),
        k < a.len() && k < b.len() && a[k] > b[k] ==> !text_before(a, b),
        k == a.len() && k < b.len() ==> text_before(a, b),
        k == b.len() ==> !text_before(a, b),
    decreases k,
{
    if k > 0 {
        let x = a.drop_first();
        let y = b.drop_first();
        assert(a[0] == b[0]);
        assert forall|i: int| 0 <= i < k - 1 implies #[trigger] x[i] == y[i] by {
            assert(a[i + 1] == b[i + 1]);
        }
        law_text_order(x, y, k - 1);
        if k < a.len() {
            assert(x[k - 1] == a[k]);
        }
        if k < b.len() {
            assert(y[k - 1] == b[k]);
        }
    }
}

// Pieces -----------------------------------------------------------------------------------------

/// Pieces put together again, with the separator between them.
pub open spec fn put_together(parts: Seq<Seq<char>>, sep: char) -> Seq<char>
    decreases parts.len(),
{
    if parts.len() == 0 {
        Seq::empty()
    } else if parts.len() == 1 {
        parts[0]
    } else {
        parts[0] + seq![sep] + put_together(parts.drop_first(), sep)
    }
}

/// Splitting a text loses nothing and leaves no separator: the pieces put together with
/// the separator are the text, and none of them holds it.
pub proof fn law_split(s: Seq<char>, sep: char)
    ensures
        put_together(split_text(s, sep), sep) == s,
        split_text(s, sep).len() > 0,
        forall|p: int|
            0 <= p < split_text(s, sep).len() ==> !(#[trigger] split_text(s, sep)[p]).contains(sep),
{
    lemma_split(s, sep, 0, 0);
    assert(s.subrange(0, s.len() as int) =~= s);
}

proof fn lemma_split(s: Seq<char>, sep: char, start: int, i: int)
    requires
        0 <= start <= i <= s.len(),
        forall|k: int| start <= k < i ==> #[trigger] s[k] != sep,
    ensures
        put_together(split_from(s, sep, start, i), sep) == s.subrange(start, s.len() as int),
        split_from(s, sep, start, i).len() > 0,
        forall|p: int|
            0 <= p < split_from(s, sep, start, i).len() ==> !(#[trigger] split_from(
                s,
                sep,
                start,
                i,
            )[p]).contains(sep),
    decreases s.len() - i,
{
    let parts = split_from(s, sep, start, i);
    if i >= s.len() {
        assert(parts =~= seq![s.subrange(start, i)]);
        assert(!s.subrange(start, i).contains(sep));
    } else if s[i] == sep {
        lemma_split(s, sep, i + 1, i + 1);
        let rest = split_from(s, sep, i + 1, i + 1);
        assert(parts.drop_first() =~= rest);
        assert(parts[0] == s.subrange(start, i));
        assert(!s.subrange(start, i).contains(sep));
        assert(s.subrange(start, i) + seq![sep] + s.subrange(i + 1, s.len() as int) =~= s.subrange(
            start,
            s.len() as int,
        ));
        assert forall|p: int| 0 <= p < parts.len() implies !(#[trigger] parts[p]).contains(
            sep,
        ) by {
            if p > 0 {
                assert(parts[p] == rest[p - 1]);
            }
        }
    } else {
        lemma_split(s, sep, start, i + 1);
    }
}

// Numbers ----------------------------------------------------------------------------------------

/// A number is written in decimal digits: reading them gives the number back, and none
/// of several is a leading zero.
pub proof fn law_decimal(n: nat)
    ensures
        number_of(decimal(n)) == n,
        decimal(n).len() > 0,
        forall|k: int| 0 <= k < decimal(n).len() ==> '0' <= #[trigger] decimal(n)[k] <= '9',
        decimal(n).len() > 1 ==> decimal(n)[0] != '0',
    decreases n,
{
    let s = decimal(n);
    if n < 10 {
        assert(s =~= seq![digit(n as int)]);
        assert(s.drop_last() =~= Seq::<char>::empty());
        assert(s.last() as int == 48 + n);
        assert(number_of(s.drop_last()) == 0);
    } else {
        let before = decimal(n / 10);
        law_decimal(n / 10);
        assert(s.drop_last() =~= before);
        assert(s.last() == digit((n % 10) as int));
        assert(s.last() as int == 48 + n % 10);
        assert(s[0] == before[0]);
        if before.len() == 1 {
            assert(n / 10 < 10) by {
                if n / 10 >= 10 {
                    law_decimal(n / 100);
                    assert(decimal(n / 10).len() == decimal((n / 10) / 10).len() + 1);
                    law_decimal((n / 10) / 10);
                }
            }
            assert(before[0] as int == 48 + n / 10);
        }
        assert forall|k: int| 0 <= k < s.len() implies '0' <= #[trigger] s[k] <= '9' by {
            if k < before.len() {
                assert(s[k] == before[k]);
            }
        }
    }
}

// Tokens -----------------------------------------------------------------------------------------

/// The tokens of a condition one behind the other: white space separates and is none,
/// brackets are tokens of their own, and a word is one token in lower case, up to the
/// first character that cannot stand in a word. Nothing else is accepted.
pub proof fn law_tokens(s: Seq<char>, i: int, j: int, before: Seq<TokenModel>)
    requires
        0 <= i < s.len(),
        i < j <= s.len(),
        forall|k: int| i <= k < j ==> in_word(#[trigger] s[k]),
        j == s.len() || !in_word(s[j]),
    ensures
        starts_word(s[i]) ==> tokens_from(s, i, before) == tokens_from(
            s,
            j,
            before.push(TokenModel::Word(lower_text(s.subrange(i, j)))),
        ),
        !starts_word(s[i]) ==> tokens_from(s, i, before) is None,
{
    crate::include_laws::lemma_word_stop_at(s, i, j);
    assert(in_word(s[i]));
}

/// What stands between words in a condition.
pub proof fn law_tokens_between_words(s: Seq<char>, i: int, before: Seq<TokenModel>)
    requires
        0 <= i < s.len(),
        !in_word(s[i]),
    ensures
        is_white(s[i]) ==> tokens_from(s, i, before) == tokens_from(s, i + 1, before),
        s[i] == '(' ==> tokens_from(s, i, before) == tokens_from(
            s,
            i + 1,
            before.push(TokenModel::Open),
        ),
        s[i] == ')' ==> tokens_from(s, i, before) == tokens_from(
            s,
            i + 1,
            before.push(TokenModel::Close),
        ),
        !is_white(s[i]) && s[i] != '(' && s[i] != ')' ==> tokens_from(s, i, before) is None,
{
}

/// Reading a condition starts with no token and ends with its text.
pub proof fn law_tokens_start_and_end(s: Seq<char>, read: Seq<TokenModel>)
    ensures
        tokens(s) == tokens_from(s, 0, Seq::empty()),
        tokens_from(s, s.len() as int, read) == Some(read),
{
}

/// The characters of words: letters, digits and the underscore, but no digit first.
pub proof fn law_word_characters(c: char)
    ensures
        in_word(c) <==> 'a' <= c <= 'z' || 'A' <= c <= 'Z' || '0' <= c <= '9' || c == '_',
        starts_word(c) <==> in_word(c) && !('0' <= c <= '9'),
        in_word(c) ==> !is_white(c),
        is_white(' ') && is_white('\u{9}') && is_white('\u{a}') && is_white('\u{d}'),
{
}

} // verus!
