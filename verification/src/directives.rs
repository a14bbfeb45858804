//! Compiler directives in Pascal text: where they stand and what they ask for.
//!
//! A directive is a comment of either bracketed form whose text starts with `$`.
//! What stands in a string, in a line comment or in another comment is none.

use vstd::prelude::*;
use crate::conditions::{find_solid, find_word_stop, solid_from, word_stop};
use crate::labels::{is_white, white};
use crate::source_map::line_break;
use crate::syntax::{range_text, text_at};
use crate::text::{chars_of, lower_text, lowercase, same_text, text_of};

verus! {

/// What a search for the next directive finds.
#[derive(Debug, Clone, Copy, PartialEq, Eq, Structural)]
pub enum Found {
    /// No further directive.
    Nothing,
    /// A directive and its range.
    Directive { start: usize, end: usize },
    /// A comment that is never closed.
    Unclosed { start: usize },
}

/// The first index at or behind `i` at which a line breaks.
pub open spec fn line_stop(b: Seq<u8>, i: int) -> int
    decreases b.len() - i,
{
    if i < 0 || i >= b.len() || line_break(b[i]) {
        i
    } else {
        line_stop(b, i + 1)
    }
}

/// The index behind the string that goes on at `i`. A string ends with its line at
/// the latest.
pub open spec fn string_stop(b: Seq<u8>, i: int) -> int
    decreases b.len() - i,
{
    if i < 0 || i >= b.len() || line_break(b[i]) {
        i
    } else if b[i] == 0x27 {
        i + 1
    } else {
        string_stop(b, i + 1)
    }
}

/// The index behind the first `}` at or behind `i`.
pub open spec fn brace_stop(b: Seq<u8>, i: int) -> Option<int>
    decreases b.len() - i,
{
    if i < 0 || i >= b.len() {
        None
    } else if b[i] == 0x7d {
        Some(i + 1)
    } else {
        brace_stop(b, i + 1)
    }
}

/// The index behind the first `*)` at or behind `i`.
pub open spec fn star_stop(b: Seq<u8>, i: int) -> Option<int>
    decreases b.len() - i,
{
    if i < 0 || i + 1 >= b.len() {
        None
    } else if b[i] == 0x2a && b[i + 1] == 0x29 {
        Some(i + 2)
    } else {
        star_stop(b, i + 1)
    }
}

/// A line does not end before it starts, nor behind the text.
pub proof fn lemma_line_stop(b: Seq<u8>, i: int)
    requires
        0 <= i <= b.len(),
    ensures
        i <= line_stop(b, i) <= b.len(),
    decreases b.len() - i,
{
    if i < b.len() && !line_break(b[i]) {
        lemma_line_stop(b, i + 1);
    }
}

/// A string does not end before it starts, nor behind the text.
pub proof fn lemma_string_stop(b: Seq<u8>, i: int)
    requires
        0 <= i <= b.len(),
    ensures
        i <= string_stop(b, i) <= b.len(),
    decreases b.len() - i,
{
    if i < b.len() && !line_break(b[i]) && b[i] != 0x27 {
        lemma_string_stop(b, i + 1);
    }
}

/// A comment ends behind its start and in the text.
pub proof fn lemma_brace_stop(b: Seq<u8>, i: int)
    requires
        0 <= i,
    ensures
        brace_stop(b, i) matches Some(e) ==> i < e <= b.len(),
    decreases b.len() - i,
{
    if i < b.len() && b[i] != 0x7d {
        lemma_brace_stop(b, i + 1);
    }
}

/// A comment ends behind its start and in the text.
pub proof fn lemma_star_stop(b: Seq<u8>, i: int)
    requires
        0 <= i,
    ensures
        star_stop(b, i) matches Some(e) ==> i + 2 <= e <= b.len(),
    decreases b.len() - i,
{
    if i + 1 < b.len() && !(b[i] == 0x2a && b[i + 1] == 0x29) {
        lemma_star_stop(b, i + 1);
    }
}

/// The next directive at or behind `i`, where no string or comment is open.
pub open spec fn next_directive(b: Seq<u8>, i: int) -> Found
    decreases b.len() - i,
{
    if i < 0 || i >= b.len() {
        Found::Nothing
    } else if b[i] == 0x27 {
        proof {
            lemma_string_stop(b, i + 1);
        }
        next_directive(b, string_stop(b, i + 1))
    } else if b[i] == 0x2f && i + 1 < b.len() && b[i + 1] == 0x2f {
        proof {
            lemma_line_stop(b, i + 2);
        }
        next_directive(b, line_stop(b, i + 2))
    } else if b[i] == 0x7b {
        proof {
            lemma_brace_stop(b, i + 1);
        }
        match brace_stop(b, i + 1) {
            None => Found::Unclosed { start: i as usize },
            Some(e) => if b[i + 1] == 0x24 {
                Found::Directive { start: i as usize, end: e as usize }
            } else {
                next_directive(b, e)
            },
        }
    } else if b[i] == 0x28 && i + 1 < b.len() && b[i + 1] == 0x2a {
        proof {
            lemma_star_stop(b, i + 2);
        }
        match star_stop(b, i + 2) {
            None => Found::Unclosed { start: i as usize },
            Some(e) => if b[i + 2] == 0x24 {
                Found::Directive { start: i as usize, end: e as usize }
            } else {
                next_directive(b, e)
            },
        }
    } else {
        next_directive(b, i + 1)
    }
}

/// A directive lies behind the start of the search and in the text.
pub proof fn lemma_directive_bounds(b: Seq<u8>, i: int)
    requires
        0 <= i <= b.len() <= usize::MAX,
    ensures
        match next_directive(b, i) {
            Found::Nothing => true,
            Found::Directive { start, end } => i <= start && start + 3 <= end <= b.len() && (
            b[start as int] == 0x28 ==> start + 5 <= end),
            Found::Unclosed { start } => i <= start < b.len(),
        },
    decreases b.len() - i,
{
    if i < b.len() {
        if b[i] == 0x27 {
            lemma_string_stop(b, i + 1);
            lemma_directive_bounds(b, string_stop(b, i + 1));
        } else if b[i] == 0x2f && i + 1 < b.len() && b[i + 1] == 0x2f {
            lemma_line_stop(b, i + 2);
            lemma_directive_bounds(b, line_stop(b, i + 2));
        } else if b[i] == 0x7b {
            lemma_brace_stop(b, i + 1);
            if let Some(e) = brace_stop(b, i + 1) {
                if b[i + 1] == 0x24 {
                    lemma_brace_stop(b, i + 2);
                } else {
                    lemma_directive_bounds(b, e);
                }
            }
        } else if b[i] == 0x28 && i + 1 < b.len() && b[i + 1] == 0x2a {
            lemma_star_stop(b, i + 2);
            if let Some(e) = star_stop(b, i + 2) {
                if b[i + 2] == 0x24 {
                    lemma_star_stop(b, i + 3);
                } else {
                    lemma_directive_bounds(b, e);
                }
            }
        } else {
            lemma_directive_bounds(b, i + 1);
        }
    }
}

/// A directive ends with its closing bracket.
pub proof fn lemma_directive_closes(b: Seq<u8>, i: int)
    requires
        0 <= i <= b.len() <= usize::MAX,
    ensures
        next_directive(b, i) matches Found::Directive { start, end } ==> 0 < end <= b.len() && (
        b[end - 1] == 0x7d || b[end - 1] == 0x29),
    decreases b.len() - i,
{
    if i < b.len() {
        if b[i] == 0x27 {
            lemma_string_stop(b, i + 1);
            lemma_directive_closes(b, string_stop(b, i + 1));
        } else if b[i] == 0x2f && i + 1 < b.len() && b[i + 1] == 0x2f {
            lemma_line_stop(b, i + 2);
            lemma_directive_closes(b, line_stop(b, i + 2));
        } else if b[i] == 0x7b {
            lemma_brace_stop(b, i + 1);
            lemma_brace_closes(b, i + 1);
            if let Some(e) = brace_stop(b, i + 1) {
                if b[i + 1] != 0x24 {
                    lemma_directive_closes(b, e);
                }
            }
        } else if b[i] == 0x28 && i + 1 < b.len() && b[i + 1] == 0x2a {
            lemma_star_stop(b, i + 2);
            lemma_star_closes(b, i + 2);
            if let Some(e) = star_stop(b, i + 2) {
                if b[i + 2] != 0x24 {
                    lemma_directive_closes(b, e);
                }
            }
        } else {
            lemma_directive_closes(b, i + 1);
        }
    }
}

proof fn lemma_brace_closes(b: Seq<u8>, i: int)
    requires
        0 <= i,
    ensures
        brace_stop(b, i) matches Some(e) ==> b[e - 1] == 0x7d,
    decreases b.len() - i,
{
    if i < b.len() && b[i] != 0x7d {
        lemma_brace_closes(b, i + 1);
    }
}

proof fn lemma_star_closes(b: Seq<u8>, i: int)
    requires
        0 <= i,
    ensures
        star_stop(b, i) matches Some(e) ==> b[e - 1] == 0x29,
    decreases b.len() - i,
{
    if i + 1 < b.len() && !(b[i] == 0x2a && b[i + 1] == 0x29) {
        lemma_star_closes(b, i + 1);
    }
}

fn find_line_stop(b: &[u8], i: usize) -> (r: usize)
    requires
        i <= b@.len(),
    ensures
        r == line_stop(b@, i as int),
        i <= r <= b@.len(),
{
    let mut k: usize = i;
    while k < b.len() && b[k] != 0x0a && b[k] != 0x0d
        invariant
            i <= k <= b@.len(),
            line_stop(b@, i as int) == line_stop(b@, k as int),
        decreases b@.len() - k,
    {
        k = k + 1;
    }
    k
}

fn find_string_stop(b: &[u8], i: usize) -> (r: usize)
    requires
        i <= b@.len(),
    ensures
        r == string_stop(b@, i as int),
        i <= r <= b@.len(),
{
    let mut k: usize = i;
    while k < b.len() && b[k] != 0x0a && b[k] != 0x0d
        invariant
            i <= k <= b@.len(),
            string_stop(b@, i as int) == string_stop(b@, k as int),
        decreases b@.len() - k,
    {
        if b[k] == 0x27 {
            return k + 1;
        }
        k = k + 1;
    }
    k
}

fn find_brace_stop(b: &[u8], i: usize) -> (r: Option<usize>)
    requires
        i <= b@.len(),
    ensures
        match r {
            Some(e) => brace_stop(b@, i as int) == Some(e as int) && i < e <= b@.len(),
            None => brace_stop(b@, i as int) is None,
        },
{
    let mut k: usize = i;
    while k < b.len()
        invariant
            i <= k <= b@.len(),
            brace_stop(b@, i as int) == brace_stop(b@, k as int),
        decreases b@.len() - k,
    {
        if b[k] == 0x7d {
            return Some(k + 1);
        }
        k = k + 1;
    }
    None
}

fn find_star_stop(b: &[u8], i: usize) -> (r: Option<usize>)
    requires
        i <= b@.len(),
    ensures
        match r {
            Some(e) => star_stop(b@, i as int) == Some(e as int) && i + 2 <= e <= b@.len(),
            None => star_stop(b@, i as int) is None,
        },
{
    let mut k: usize = i;
    while k < b.len() && b.len() - k > 1
        invariant
            i <= k <= b@.len(),
            star_stop(b@, i as int) == star_stop(b@, k as int),
        decreases b@.len() - k,
    {
        if b[k] == 0x2a && b[k + 1] == 0x29 {
            return Some(k + 2);
        }
        k = k + 1;
    }
    None
}

/// Finds the next directive at or behind `i`, where no string or comment is open.
pub fn find_directive(b: &[u8], i: usize) -> (r: Found)
    requires
        i <= b@.len(),
    ensures
        r == next_directive(b@, i as int),
{
    let mut k: usize = i;
    while k < b.len()
        invariant
            i <= k <= b@.len(),
            next_directive(b@, i as int) == next_directive(b@, k as int),
        decreases b@.len() - k,
    {
        if b[k] == 0x27 {
            k = find_string_stop(b, k + 1);
        } else if b[k] == 0x2f && b.len() - k > 1 && b[k + 1] == 0x2f {
            k = find_line_stop(b, k + 2);
        } else if b[k] == 0x7b {
            match find_brace_stop(b, k + 1) {
                None => {
                    return Found::Unclosed { start: k };
                },
                Some(e) => {
                    if b[k + 1] == 0x24 {
                        return Found::Directive { start: k, end: e };
                    }
                    k = e;
                },
            }
        } else if b[k] == 0x28 && b.len() - k > 1 && b[k + 1] == 0x2a {
            match find_star_stop(b, k + 2) {
                None => {
                    return Found::Unclosed { start: k };
                },
                Some(e) => {
                    if b[k + 2] == 0x24 {
                        return Found::Directive { start: k, end: e };
                    }
                    k = e;
                },
            }
        } else {
            k = k + 1;
        }
    }
    Found::Nothing
}

// What a directive asks for -----------------------------------------------------------------------

/// What a directive asks for.
#[derive(Debug, Clone, Copy, PartialEq, Eq, Structural)]
pub enum DirectiveKind {
    IfDef,
    IfNDef,
    If,
    ElseIf,
    Else,
    EndIf,
    Define,
    Undef,
    /// Asks for the text of another source.
    Include,
    /// Opens a conditional group in a way that is not supported.
    IfOther,
    /// Anything else.
    Other,
}

/// A directive: its keyword in lower case, what follows it, and what it asks for.
#[derive(Debug)]
pub struct Directive {
    pub kind: DirectiveKind,
    pub keyword: String,
    pub argument: String,
}

/// The mathematical value of a [`Directive`].
#[verifier::ext_equal]
pub struct DirectiveModel {
    pub kind: DirectiveKind,
    pub keyword: Seq<char>,
    pub argument: Seq<char>,
}

impl View for Directive {
    type V = DirectiveModel;

    open spec fn view(&self) -> DirectiveModel {
        DirectiveModel {
            kind: self.kind,
            keyword: self.keyword@,
            argument: self.argument@,
        }
    }
}

/// The text between the `$` of the directive in a range and its closing bracket.
pub open spec fn directive_body(b: Seq<u8>, start: usize, end: usize) -> Seq<char> {
    if b[start as int] == 0x28 {
        text_at(b, (start + 3) as usize, (end - 2) as usize)
    } else {
        text_at(b, (start + 2) as usize, (end - 1) as usize)
    }
}

/// Whether what follows an include keyword names something to include, rather than
/// setting a switch.
pub open spec fn names_source(argument: Seq<char>) -> bool {
    solid_from(argument, 0) < argument.len() && (is_white(argument[0]) || argument[0] == '\'')
}

/// What a directive with the given keyword and argument asks for.
pub open spec fn directive_kind(keyword: Seq<char>, argument: Seq<char>) -> DirectiveKind {
    if keyword == "ifdef"@ {
        DirectiveKind::IfDef
    } else if keyword == "ifndef"@ {
        DirectiveKind::IfNDef
    } else if keyword == "if"@ {
        DirectiveKind::If
    } else if keyword == "elseif"@ {
        DirectiveKind::ElseIf
    } else if keyword == "else"@ {
        DirectiveKind::Else
    } else if keyword == "endif"@ {
        DirectiveKind::EndIf
    } else if keyword == "define"@ {
        DirectiveKind::Define
    } else if keyword == "undef"@ {
        DirectiveKind::Undef
    } else if keyword == "ifopt"@ {
        DirectiveKind::IfOther
    } else if (keyword == "i"@ || keyword == "include"@) && names_source(argument) {
        DirectiveKind::Include
    } else {
        DirectiveKind::Other
    }
}

/// The directive with the given text behind its `$`.
pub open spec fn directive_of(body: Seq<char>) -> DirectiveModel {
    let stop = word_stop(body, 0);
    let keyword = lower_text(body.subrange(0, stop));
    let argument = body.subrange(stop, body.len() as int);
    DirectiveModel { kind: directive_kind(keyword, argument), keyword, argument }
}

/// The directive in a range.
pub open spec fn directive_at(b: Seq<u8>, start: usize, end: usize) -> DirectiveModel {
    directive_of(directive_body(b, start, end))
}

fn is_source_name(argument: &str) -> (r: bool)
    ensures
        r == names_source(argument@),
{
    let chars = chars_of(argument);
    chars.len() > 0 && find_solid(&chars, 0) < chars.len() && (white(chars[0]) || chars[0] == '\'')
}

fn kind_of(keyword: &str, argument: &str) -> (r: DirectiveKind)
    ensures
        r == directive_kind(keyword@, argument@),
{
    if same_text(keyword, "ifdef") {
        DirectiveKind::IfDef
    } else if same_text(keyword, "ifndef") {
        DirectiveKind::IfNDef
    } else if same_text(keyword, "if") {
        DirectiveKind::If
    } else if same_text(keyword, "elseif") {
        DirectiveKind::ElseIf
    } else if same_text(keyword, "else") {
        DirectiveKind::Else
    } else if same_text(keyword, "endif") {
        DirectiveKind::EndIf
    } else if same_text(keyword, "define") {
        DirectiveKind::Define
    } else if same_text(keyword, "undef") {
        DirectiveKind::Undef
    } else if same_text(keyword, "ifopt") {
        DirectiveKind::IfOther
    } else if (same_text(keyword, "i") || same_text(keyword, "include")) && is_source_name(
        argument,
    ) {
        DirectiveKind::Include
    } else {
        DirectiveKind::Other
    }
}

/// Reads the directive in a range.
pub fn read_directive(b: &[u8], start: usize, end: usize) -> (r: Directive)
    requires
        start + 3 <= end <= b@.len(),
        b@[start as int] == 0x28 ==> start + 5 <= end,
    ensures
        r@ == directive_at(b@, start, end),
{
    let body = if b[start] == 0x28 {
        range_text(b, start + 3, end - 2)
    } else {
        range_text(b, start + 2, end - 1)
    };
    let chars = chars_of(body.as_str());
    let stop = find_word_stop(&chars, 0);
    let keyword = lowercase(text_of(&chars, 0, stop).as_str());
    let argument = text_of(&chars, stop, chars.len());
    let kind = kind_of(keyword.as_str(), argument.as_str());
    Directive { kind, keyword, argument }
}

/// Whether the directive in a range, found by going on at `i`, asks for another
/// source.
pub open spec fn include_from(b: Seq<u8>, i: int, start: usize, end: usize) -> bool
    decreases b.len() - i,
{
    if i < 0 || i > b.len() || b.len() > usize::MAX {
        false
    } else {
        proof {
            lemma_directive_bounds(b, i);
        }
        match next_directive(b, i) {
            Found::Directive { start: s, end: e } => if s == start && e == end {
                directive_at(b, s, e).kind == DirectiveKind::Include
            } else {
                include_from(b, e as int, start, end)
            },
            _ => false,
        }
    }
}

/// Whether a range is that of a directive that asks for another source.
pub open spec fn include_at(b: Seq<u8>, start: usize, end: usize) -> bool {
    include_from(b, 0, start, end)
}

/// Whether a range is that of a directive that asks for another source.
pub fn is_include_at(b: &[u8], start: usize, end: usize) -> (r: bool)
    ensures
        r == include_at(b@, start, end),
{
    let len: usize = b.len();
    let mut i: usize = 0;
    while i <= len
        invariant
            i <= len,
            len == b@.len(),
            include_at(b@, start, end) == include_from(b@, i as int, start, end),
        decreases b@.len() - i,
    {
        proof {
            lemma_directive_bounds(b@, i as int);
        }
        match find_directive(b, i) {
            Found::Directive { start: s, end: e } => {
                if s == start && e == end {
                    return match read_directive(b, s, e).kind {
                        DirectiveKind::Include => true,
                        _ => false,
                    };
                }
                i = e;
            },
            _ => {
                return false;
            },
        }
    }
    false
}

} // verus!
