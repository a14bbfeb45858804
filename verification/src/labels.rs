//! Labels, cleanup scopes and the alternatives of conditional compilation, as far
//! as they are fixed before the graph of a scope is built.

use vstd::prelude::*;
use crate::flow::copy_ids;
use crate::graph::BlockId;
use crate::syntax::{any_kind, field_kind, hit, any_field, SyntaxNode};
use crate::text::{chars_of, lower_text, lowercase, same_text, text_of};

verus! {

broadcast use crate::syntax::lemma_find_bounds;

// Label names -----------------------------------------------------------------------------

/// Whether a character is a decimal digit.
pub open spec fn is_digit(c: char) -> bool {
    '0' <= c && c <= '9'
}

/// The index of the first character at or behind `i` that is not a zero.
pub open spec fn zeros_end(s: Seq<char>, i: int) -> int
    decreases s.len() - i,
{
    if i < 0 || i >= s.len() || s[i] != '0' {
        i
    } else {
        zeros_end(s, i + 1)
    }
}

/// The canonical name of a label. Names are compared without case, and numbers
/// without leading zeros.
pub open spec fn label_name(s: Seq<char>) -> Seq<char> {
    let l = lower_text(s);
    if forall|k: int| 0 <= k < l.len() ==> is_digit(#[trigger] l[k]) {
        if zeros_end(l, 0) >= l.len() {
            seq!['0']
        } else {
            l.subrange(zeros_end(l, 0), l.len() as int)
        }
    } else {
        l
    }
}

proof fn lemma_zeros_end(s: Seq<char>, i: int)
    requires
        0 <= i <= s.len(),
    ensures
        i <= zeros_end(s, i) <= s.len(),
        zeros_end(s, i) < s.len() ==> s[zeros_end(s, i)] != '0',
    decreases s.len() - i,
{
    if i < s.len() && s[i] == '0' {
        lemma_zeros_end(s, i + 1);
    }
}

/// The canonical name of a label.
pub fn normalize_label_name(name: &str) -> (r: String)
    ensures
        r@ == label_name(name@),
{
    let lower = lowercase(name);
    let chars = chars_of(lower.as_str());
    let mut i: usize = 0;
    while i < chars.len()
        invariant
            i <= chars@.len(),
            chars@ == lower@,
            lower@ == lower_text(name@),
            forall|k: int| 0 <= k < i ==> is_digit(#[trigger] chars@[k]),
        decreases chars@.len() - i,
    {
        if !('0' <= chars[i] && chars[i] <= '9') {
            assert(!is_digit(chars@[i as int]));
            return lower;
        }
        i = i + 1;
    }
    let mut z: usize = 0;
    while z < chars.len() && chars[z] == '0'
        invariant
            z <= chars@.len(),
            zeros_end(chars@, 0) == zeros_end(chars@, z as int),
        decreases chars@.len() - z,
    {
        z = z + 1;
    }
    if z >= chars.len() {
        let mut zero = String::new();
        zero.push('0');
        assert(zero@ =~= seq!['0']);
        zero
    } else {
        text_of(&chars, z, chars.len())
    }
}

/// Two spellings of a label that differ only in case have the same name.
pub proof fn law_label_case(a: Seq<char>, b: Seq<char>)
    requires
        lower_text(a) == lower_text(b),
    ensures
        label_name(a) == label_name(b),
{
}

/// Writing zeros before a number does not change the label.
pub proof fn law_label_leading_zero(number: Seq<char>)
    requires
        number.len() > 0,
        forall|k: int| 0 <= k < number.len() ==> is_digit(#[trigger] number[k]),
    ensures
        label_name(seq!['0'] + number) == label_name(number),
{
    let padded = seq!['0'] + number;
    assert(lower_text(number) =~= number);
    assert(lower_text(padded) =~= padded);
    assert forall|k: int| 0 <= k < padded.len() implies is_digit(#[trigger] padded[k]) by {
        if k > 0 {
            assert(padded[k] == number[k - 1]);
        }
    }
    lemma_zeros_shift(number, 0);
    lemma_zeros_end(number, 0);
    assert(zeros_end(padded, 0) == zeros_end(padded, 1));
    assert(padded.subrange(zeros_end(number, 0) + 1, padded.len() as int) =~= number.subrange(
        zeros_end(number, 0),
        number.len() as int,
    ));
}

proof fn lemma_zeros_shift(s: Seq<char>, i: int)
    requires
        0 <= i <= s.len(),
    ensures
        zeros_end(seq!['0'] + s, i + 1) == zeros_end(s, i) + 1,
    decreases s.len() - i,
{
    let padded = seq!['0'] + s;
    if i < s.len() {
        assert(padded[i + 1] == s[i]);
        if s[i] == '0' {
            lemma_zeros_shift(s, i + 1);
        }
    }
}

/// Taking the canonical name twice changes nothing.
pub proof fn law_label_name_stable(s: Seq<char>)
    ensures
        label_name(label_name(s)) == label_name(s),
{
    let l = lower_text(s);
    assert(lower_text(l) =~= l) by {
        assert forall|k: int| 0 <= k < l.len() implies lower_text(l)[k] == l[k] by {
            assert(l[k] == crate::text::lower(s[k]));
        }
    }
    if forall|k: int| 0 <= k < l.len() ==> is_digit(#[trigger] l[k]) {
        lemma_zeros_end(l, 0);
        let n = label_name(s);
        assert(forall|k: int| 0 <= k < n.len() ==> is_digit(#[trigger] n[k]));
        assert(lower_text(n) =~= n);
        if zeros_end(l, 0) < l.len() {
            assert(n[0] == l[zeros_end(l, 0)]);
            assert(zeros_end(n, 0) == 0);
            assert(n.subrange(0, n.len() as int) =~= n);
        } else {
            assert(n =~= seq!['0']);
            assert(zeros_end(n, 0) == zeros_end(n, 1));
        }
    }
}

/// Whether a text is all digits.
pub open spec fn all_digits(s: Seq<char>) -> bool {
    forall|k: int| 0 <= k < s.len() ==> is_digit(#[trigger] s[k])
}

/// The number that digits stand for. No digits stand for zero.
pub open spec fn number_of(s: Seq<char>) -> int
    decreases s.len(),
{
    if s.len() == 0 {
        0
    } else {
        10 * number_of(s.drop_last()) + (s.last() as int - '0' as int)
    }
}

proof fn lemma_number_is_natural(s: Seq<char>)
    requires
        all_digits(s),
    ensures
        number_of(s) >= 0,
        s.len() > 0 && s[0] != '0' ==> number_of(s) > 0,
    decreases s.len(),
{
    if s.len() > 0 {
        assert(is_digit(s.last()));
        assert(all_digits(s.drop_last()));
        lemma_number_is_natural(s.drop_last());
        if s.len() > 1 {
            assert(s.drop_last()[0] == s[0]);
        }
    }
}

/// Digits that do not start with a zero are fixed by their number.
proof fn lemma_number_fixes_digits(a: Seq<char>, b: Seq<char>)
    requires
        all_digits(a),
        all_digits(b),
        a.len() > 0 ==> a[0] != '0',
        b.len() > 0 ==> b[0] != '0',
        number_of(a) == number_of(b),
    ensures
        a == b,
    decreases a.len(),
{
    lemma_number_is_natural(a);
    lemma_number_is_natural(b);
    if a.len() > 0 && b.len() > 0 {
        let p = a.drop_last();
        let q = b.drop_last();
        assert(is_digit(a.last()) && is_digit(b.last()));
        assert(all_digits(p) && all_digits(q));
        assert(number_of(p) == number_of(q) && a.last() as int == b.last() as int);
        lemma_number_is_natural(p);
        lemma_number_is_natural(q);
        if p.len() > 0 {
            assert(p[0] == a[0]);
        }
        if q.len() > 0 {
            assert(q[0] == b[0]);
        }
        lemma_number_fixes_digits(p, q);
        assert(a =~= p.push(a.last()));
        assert(b =~= q.push(b.last()));
    }
    assert(a =~= b);
}

/// Zeros in front do not change a number.
proof fn lemma_zeros_add_nothing(s: Seq<char>, i: int, n: int)
    requires
        0 <= i <= n <= s.len(),
        forall|k: int| 0 <= k < i ==> s[k] == '0',
    ensures
        number_of(s.take(n)) == number_of(s.subrange(i, n)),
    decreases n,
{
    if i < n {
        lemma_zeros_add_nothing(s, i, n - 1);
        assert(s.take(n).drop_last() =~= s.take(n - 1));
        assert(s.subrange(i, n).drop_last() =~= s.subrange(i, n - 1));
    } else if n > 0 {
        lemma_zeros_add_nothing(s, i - 1, n - 1);
        assert(s.take(n).drop_last() =~= s.take(n - 1));
        assert(s.subrange(i, n).len() == 0);
        assert(s.subrange(i - 1, n - 1).len() == 0);
        assert(s.take(n).last() == '0');
    }
}

proof fn lemma_zeros_are_zeros(s: Seq<char>, i: int)
    requires
        0 <= i <= s.len(),
    ensures
        forall|k: int| i <= k < zeros_end(s, i) ==> s[k] == '0',
    decreases s.len() - i,
{
    if i < s.len() && s[i] == '0' {
        lemma_zeros_are_zeros(s, i + 1);
    }
}

/// Lower case keeps digits and makes no other.
proof fn lemma_lower_keeps_digits(s: Seq<char>)
    ensures
        all_digits(lower_text(s)) == all_digits(s),
        all_digits(s) ==> lower_text(s) == s,
{
    let l = lower_text(s);
    assert forall|k: int| 0 <= k < s.len() implies is_digit(#[trigger] l[k]) == is_digit(s[k]) by {
        assert(l[k] == crate::text::lower(s[k]));
    }
    if all_digits(l) {
        assert forall|k: int| 0 <= k < s.len() implies is_digit(#[trigger] s[k]) by {
            assert(is_digit(l[k]));
        }
    }
    if all_digits(s) {
        assert forall|k: int| 0 <= k < l.len() implies is_digit(#[trigger] l[k]) by {
            assert(is_digit(s[k]));
        }
        assert forall|k: int| 0 <= k < l.len() implies l[k] == s[k] by {
            assert(is_digit(s[k]));
        }
        assert(l =~= s);
    }
}

/// What is left of digits without the zeros in front.
spec fn stripped(s: Seq<char>) -> Seq<char> {
    s.subrange(zeros_end(s, 0), s.len() as int)
}

proof fn lemma_digits_name(s: Seq<char>)
    requires
        all_digits(s),
    ensures
        label_name(s) == (if stripped(s).len() == 0 {
            seq!['0']
        } else {
            stripped(s)
        }),
        all_digits(stripped(s)),
        all_digits(label_name(s)),
        stripped(s).len() > 0 ==> stripped(s)[0] != '0',
        number_of(stripped(s)) == number_of(s),
{
    lemma_lower_keeps_digits(s);
    lemma_zeros_end(s, 0);
    lemma_zeros_are_zeros(s, 0);
    lemma_zeros_add_nothing(s, zeros_end(s, 0), s.len() as int);
    assert(s.take(s.len() as int) =~= s);
    assert forall|k: int| 0 <= k < stripped(s).len() implies is_digit(
        #[trigger] stripped(s)[k],
    ) by {
        assert(is_digit(s[zeros_end(s, 0) + k]));
    }
}

/// Two spellings name one label exactly where they are equal but for the case of
/// ASCII letters, or are both all digits and the same number. A spelling without
/// characters counts as the number zero.
pub proof fn law_labels_agree(a: Seq<char>, b: Seq<char>)
    ensures
        label_name(a) == label_name(b) <==> lower_text(a) == lower_text(b) || (all_digits(a)
            && all_digits(b) && number_of(a) == number_of(b)),
{
    lemma_lower_keeps_digits(a);
    lemma_lower_keeps_digits(b);
    if all_digits(a) {
        lemma_digits_name(a);
    } else {
        assert(label_name(a) == lower_text(a));
    }
    if all_digits(b) {
        lemma_digits_name(b);
    } else {
        assert(label_name(b) == lower_text(b));
    }
    if all_digits(a) && all_digits(b) {
        let p = stripped(a);
        let q = stripped(b);
        if number_of(a) == number_of(b) {
            lemma_number_fixes_digits(p, q);
        }
        if label_name(a) == label_name(b) {
            if p.len() == 0 && q.len() > 0 {
                assert(q[0] == label_name(a)[0]);
            }
            if q.len() == 0 && p.len() > 0 {
                assert(p[0] == label_name(b)[0]);
            }
            assert(p =~= q);
        }
    }
}

/// The index of the child that names a label: an identifier, else a number.
pub open spec fn label_index(node: SyntaxNode) -> Option<int> {
    match node.find(any_kind("identifier"@)) {
        Some(k) => Some(k),
        None => node.find(any_kind("labelNumber"@)),
    }
}

/// The canonical name that a label or `goto` writes.
pub open spec fn label_of(node: SyntaxNode, source: Seq<u8>) -> Option<Seq<char>> {
    match label_index(node) {
        Some(k) => Some(label_name(node.children@[k].text(source))),
        None => None,
    }
}

/// The canonical name that a label or `goto` writes.
pub fn label_text(node: &SyntaxNode, source: &[u8]) -> (r: Option<String>)
    ensures
        crate::syntax::opt_text(r) == label_of(*node, source@),
{
    let found = match node.child_of_kind("identifier") {
        Some(k) => Some(k),
        None => node.child_of_kind("labelNumber"),
    };
    match found {
        Some(k) => Some(normalize_label_name(node.children[k].node_text(source).as_str())),
        None => None,
    }
}

// Conditional compilation ---------------------------------------------------------------------

/// Whether a character is white space, as Unicode defines it.
pub open spec fn is_white(c: char) -> bool {
    ('\u{9}' <= c && c <= '\u{d}') || c == ' ' || c == '\u{85}' || c == '\u{a0}' || c == '\u{1680}'
        || ('\u{2000}' <= c && c <= '\u{200a}') || c == '\u{2028}' || c == '\u{2029}' || c
        == '\u{202f}' || c == '\u{205f}' || c == '\u{3000}'
}

/// Whether a character is white space.
pub fn white(c: char) -> (r: bool)
    ensures
        r == is_white(c),
{
    ('\u{9}' <= c && c <= '\u{d}') || c == ' ' || c == '\u{85}' || c == '\u{a0}' || c == '\u{1680}'
        || ('\u{2000}' <= c && c <= '\u{200a}') || c == '\u{2028}' || c == '\u{2029}' || c
        == '\u{202f}' || c == '\u{205f}' || c == '\u{3000}'
}

/// The first index in `i..end` whose character is not white space, or `end`.
pub open spec fn skip_white(s: Seq<char>, i: int, end: int) -> int
    decreases end - i,
{
    if i < 0 || i >= end || end > s.len() || !is_white(s[i]) {
        i
    } else {
        skip_white(s, i + 1, end)
    }
}

/// The index behind the last character in `0..end` that is not white space.
pub open spec fn trim_white(s: Seq<char>, end: int) -> int
    decreases end,
{
    if end <= 0 || end > s.len() || !is_white(s[end - 1]) {
        end
    } else {
        trim_white(s, end - 1)
    }
}

/// The first index in `i..end` whose character is white space, or `end`.
pub open spec fn word_end(s: Seq<char>, i: int, end: int) -> int
    decreases end - i,
{
    if i < 0 || i >= end || end > s.len() || is_white(s[i]) {
        i
    } else {
        word_end(s, i + 1, end)
    }
}

/// The keyword of a directive: the first word between `{$` and `}`.
pub open spec fn directive_keyword(s: Seq<char>) -> Seq<char> {
    let end = trim_white(s, s.len() as int);
    let start = skip_white(s, 0, end);
    let inner = if end - start >= 2 && s[start] == '{' && s[start + 1] == '$' {
        start + 2
    } else {
        start
    };
    let last = if end > inner && s[end - 1] == '}' {
        end - 1
    } else {
        end
    };
    let word = skip_white(s, inner, last);
    s.subrange(word, word_end(s, word, last))
}

fn skip_white_at(chars: &Vec<char>, from: usize, end: usize) -> (r: usize)
    requires
        from <= end <= chars@.len(),
    ensures
        r == skip_white(chars@, from as int, end as int),
        from <= r <= end,
{
    let mut i: usize = from;
    while i < end && white(chars[i])
        invariant
            from <= i <= end <= chars@.len(),
            skip_white(chars@, from as int, end as int) == skip_white(
                chars@,
                i as int,
                end as int,
            ),
        decreases end - i,
    {
        i = i + 1;
    }
    i
}

fn keyword_of(text: &str) -> (r: String)
    ensures
        r@ == directive_keyword(text@),
{
    let chars = chars_of(text);
    let mut end: usize = chars.len();
    while end > 0 && white(chars[end - 1])
        invariant
            end <= chars@.len(),
            trim_white(chars@, chars@.len() as int) == trim_white(chars@, end as int),
        decreases end,
    {
        end = end - 1;
    }
    let start = skip_white_at(&chars, 0, end);
    let inner: usize = if end - start >= 2 && chars[start] == '{' && chars[start + 1] == '$' {
        start + 2
    } else {
        start
    };
    let last: usize = if end > inner && chars[end - 1] == '}' {
        end - 1
    } else {
        end
    };
    let word = skip_white_at(&chars, inner, last);
    let mut stop: usize = word;
    while stop < last && !white(chars[stop])
        invariant
            word <= stop <= last <= chars@.len(),
            word_end(chars@, word as int, last as int) == word_end(
                chars@,
                stop as int,
                last as int,
            ),
        decreases last - stop,
    {
        stop = stop + 1;
    }
    text_of(&chars, word, stop)
}

/// Whether a branch directive is a plain `else`.
pub open spec fn plain_else(node: SyntaxNode, source: Seq<u8>) -> bool {
    lower_text(directive_keyword(node.text(source))) == "else"@
}

fn is_unconditional_preprocessor_else(node: &SyntaxNode, source: &[u8]) -> (r: bool)
    ensures
        r == plain_else(*node, source@),
{
    let keyword = keyword_of(node.node_text(source).as_str());
    same_text(lowercase(keyword.as_str()).as_str(), "else")
}

/// Whether a child of a conditional block belongs to one of its branches.
pub open spec fn branch_content(kind: Seq<char>) -> bool {
    kind != "ppIf"@ && kind != "ppEndIf"@ && kind != "ppDirective"@ && kind != "ppText"@ && kind
        != "ppElse"@ && kind != ";"@ && kind != ","@
}

/// Whether a child of a conditional block belongs to one of its branches.
pub fn is_branch_content(node: &SyntaxNode) -> (r: bool)
    ensures
        r == branch_content(node.kind@),
{
    !(node.is_kind("ppIf") || node.is_kind("ppEndIf") || node.is_kind("ppDirective")
        || node.is_kind("ppText") || node.is_kind("ppElse") || node.is_kind(";") || node.is_kind(
        ",",
    ))
}

/// How many branch directives stand among the first `n` children: the number of
/// the branch that the next child belongs to.
pub open spec fn branch_at(node: SyntaxNode, n: int) -> int
    decreases n,
{
    if n <= 0 || n > node.children@.len() {
        0
    } else {
        branch_at(node, n - 1) + if node.children@[n - 1].kind@ == "ppElse"@ {
            1int
        } else {
            0int
        }
    }
}

/// The number of the last branch of a conditional block, counted from zero.
pub open spec fn last_branch(node: SyntaxNode) -> int {
    branch_at(node, node.children@.len() as int)
}

/// Whether one of the first `n` children is an unconditional `else`.
pub open spec fn else_among(node: SyntaxNode, source: Seq<u8>, n: int) -> bool
    decreases n,
{
    if n <= 0 || n > node.children@.len() {
        false
    } else {
        else_among(node, source, n - 1) || (node.children@[n - 1].kind@ == "ppElse"@ && plain_else(
            node.children@[n - 1],
            source,
        ))
    }
}

/// Whether some branch of a conditional block is always taken.
pub open spec fn has_else(node: SyntaxNode, source: Seq<u8>) -> bool {
    else_among(node, source, node.children@.len() as int)
}

/// Whether one of the first `n` children belongs to a branch.
pub open spec fn content_among(node: SyntaxNode, n: int) -> bool
    decreases n,
{
    if n <= 0 || n > node.children@.len() {
        false
    } else {
        content_among(node, n - 1) || branch_content(node.children@[n - 1].kind@)
    }
}

/// Whether a conditional block has no effect: its branches are empty and none is
/// always taken.
pub open spec fn hollow(node: SyntaxNode, source: Seq<u8>) -> bool {
    !content_among(node, node.children@.len() as int) && !has_else(node, source)
}

/// A conditional block's branches.
pub struct Branches {
    /// The number of the last branch, counted from zero.
    pub last: usize,
    pub has_else: bool,
    pub hollow: bool,
}

/// Reads the branches of a conditional block.
pub fn preprocessor_branches(node: &SyntaxNode, source: &[u8]) -> (r: Branches)
    ensures
        r.last == last_branch(*node),
        r.has_else == has_else(*node, source@),
        r.hollow == hollow(*node, source@),
{
    let mut last: usize = 0;
    let mut any_else: bool = false;
    let mut content: bool = false;
    let mut i: usize = 0;
    while i < node.children.len()
        invariant
            i <= node.children@.len(),
            last == branch_at(*node, i as int),
            last <= i,
            any_else == else_among(*node, source@, i as int),
            content == content_among(*node, i as int),
        decreases node.children@.len() - i,
    {
        let child = &node.children[i];
        if child.is_kind("ppElse") {
            last = last + 1;
            if is_unconditional_preprocessor_else(child, source) {
                any_else = true;
            }
        }
        if is_branch_content(child) {
            content = true;
        }
        i = i + 1;
    }
    Branches { last, has_else: any_else, hollow: !content && !any_else }
}

// The plan of a scope -----------------------------------------------------------------------------

/// A label, the namespace in which it is declared, and the cleanup scopes around
/// it.
#[derive(Debug)]
pub struct LabelEntry {
    pub binding: usize,
    pub name: String,
    pub scopes: Vec<usize>,
}

/// The mathematical value of a [`LabelEntry`].
#[verifier::ext_equal]
pub struct LabelModel {
    pub binding: usize,
    pub name: Seq<char>,
    pub scopes: Seq<usize>,
}

/// The namespace of a branch of a conditional block.
#[derive(Debug, Clone, Copy, PartialEq, Eq, Structural)]
pub struct BranchEntry {
    pub start: usize,
    pub end: usize,
    pub branch: usize,
    pub binding: usize,
}

/// What is fixed before the graph of a scope is built.
///
/// A cleanup scope is numbered by its place in `scope_ids`, a namespace by its
/// place in `parents`; the first namespace is that of the whole scope.
#[derive(Debug)]
pub struct Plan {
    pub scope_ids: Vec<(usize, usize)>,
    pub labels: Vec<LabelEntry>,
    pub branches: Vec<BranchEntry>,
    pub parents: Vec<Option<usize>>,
}

/// The mathematical value of a [`Plan`].
#[verifier::ext_equal]
pub struct PlanModel {
    pub scope_ids: Seq<(usize, usize)>,
    pub labels: Seq<LabelModel>,
    pub branches: Seq<BranchEntry>,
    pub parents: Seq<Option<usize>>,
}

impl View for LabelEntry {
    type V = LabelModel;

    open spec fn view(&self) -> LabelModel {
        LabelModel { binding: self.binding, name: self.name@, scopes: self.scopes@ }
    }
}

/// The mathematical values of several labels.
pub open spec fn label_models(v: Seq<LabelEntry>) -> Seq<LabelModel> {
    v.map_values(|l: LabelEntry| l@)
}

impl View for Plan {
    type V = PlanModel;

    open spec fn view(&self) -> PlanModel {
        PlanModel {
            scope_ids: self.scope_ids@,
            labels: label_models(self.labels@),
            branches: self.branches@,
            parents: self.parents@,
        }
    }
}

impl PlanModel {
    /// The plan with one more cleanup scope.
    pub open spec fn with_scope(self, start: usize, end: usize) -> PlanModel {
        PlanModel { scope_ids: self.scope_ids.push((start, end)), ..self }
    }

    /// The plan with one more label.
    pub open spec fn with_label(
        self,
        binding: usize,
        name: Seq<char>,
        scopes: Seq<usize>,
    ) -> PlanModel {
        PlanModel { labels: self.labels.push(LabelModel { binding, name, scopes }), ..self }
    }

    /// The plan with the namespace of one more branch.
    pub open spec fn with_branch(
        self,
        start: usize,
        end: usize,
        branch: usize,
        parent: usize,
    ) -> PlanModel {
        PlanModel {
            branches: self.branches.push(
                BranchEntry { start, end, branch, binding: self.parents.len() as usize },
            ),
            parents: self.parents.push(Some(parent)),
            ..self
        }
    }
}

/// Whether a `try` statement has a finalizer.
pub open spec fn finalized(node: SyntaxNode) -> bool {
    node.find(field_kind("finally"@, "kFinally"@)) is Some
}

/// Whether a `try` statement has a finalizer.
pub fn try_has_finally(node: &SyntaxNode) -> (r: bool)
    ensures
        r == finalized(*node),
{
    node.child_by_field_of_kind("finally", "kFinally").is_some()
}

/// Plans a node that lies in the given cleanup scopes and namespace. Nested
/// routines have plans of their own.
pub open spec fn planned(
    m: PlanModel,
    node: SyntaxNode,
    source: Seq<u8>,
    active: Seq<usize>,
    binding: usize,
) -> PlanModel
    decreases node, 3int, 0int,
{
    if node.kind@ == "defProc"@ {
        m
    } else if node.kind@ == "ppBlock"@ {
        if hollow(node, source) {
            m
        } else {
            planned_branches(m, node, source, active, binding, 0)
        }
    } else if node.kind@ == "label"@ {
        match label_of(node, source) {
            Some(name) => m.with_label(binding, name, active),
            None => m,
        }
    } else if node.kind@ == "try"@ && finalized(node) {
        let id = m.scope_ids.len() as usize;
        let m1 = planned_field(
            m.with_scope(node.start, node.end),
            node,
            source,
            active.push(id),
            binding,
            "try"@,
            0,
        );
        let m2 = planned_field(m1, node, source, active, binding, "except"@, 0);
        planned_field(m2, node, source, active, binding, "finally"@, 0)
    } else {
        planned_named(m, node, source, active, binding, 0)
    }
}

/// Plans the named children of a node from the child `i` on.
pub open spec fn planned_named(
    m: PlanModel,
    node: SyntaxNode,
    source: Seq<u8>,
    active: Seq<usize>,
    binding: usize,
    i: int,
) -> PlanModel
    decreases node, 1int, node.children@.len() - i,
{
    if i < 0 || i >= node.children@.len() {
        m
    } else {
        let m1 = if node.children@[i].named {
            planned(m, node.children@[i], source, active, binding)
        } else {
            m
        };
        planned_named(m1, node, source, active, binding, i + 1)
    }
}

/// Plans the children of a node under a field from the child `i` on.
pub open spec fn planned_field(
    m: PlanModel,
    node: SyntaxNode,
    source: Seq<u8>,
    active: Seq<usize>,
    binding: usize,
    field: Seq<char>,
    i: int,
) -> PlanModel
    decreases node, 1int, node.children@.len() - i,
{
    if i < 0 || i >= node.children@.len() {
        m
    } else {
        let m1 = if hit(any_field(field), node.children@[i]) {
            planned(m, node.children@[i], source, active, binding)
        } else {
            m
        };
        planned_field(m1, node, source, active, binding, field, i + 1)
    }
}

/// Plans the branches of a conditional block from branch `b` on, each in a
/// namespace of its own.
pub open spec fn planned_branches(
    m: PlanModel,
    node: SyntaxNode,
    source: Seq<u8>,
    active: Seq<usize>,
    binding: usize,
    b: int,
) -> PlanModel
    decreases node, 2int, last_branch(node) + 1 - b,
{
    if b < 0 || b > last_branch(node) {
        m
    } else {
        let own = m.parents.len() as usize;
        planned_branches(
            planned_branch(
                m.with_branch(node.start, node.end, b as usize, binding),
                node,
                source,
                active,
                own,
                b,
                0,
            ),
            node,
            source,
            active,
            binding,
            b + 1,
        )
    }
}

/// Plans the children of branch `b` from the child `i` on.
pub open spec fn planned_branch(
    m: PlanModel,
    node: SyntaxNode,
    source: Seq<u8>,
    active: Seq<usize>,
    binding: usize,
    b: int,
    i: int,
) -> PlanModel
    decreases node, 1int, node.children@.len() - i,
{
    if i < 0 || i >= node.children@.len() {
        m
    } else {
        let m1 = if branch_content(node.children@[i].kind@) && branch_at(node, i) == b {
            planned(m, node.children@[i], source, active, binding)
        } else {
            m
        };
        planned_branch(m1, node, source, active, binding, b, i + 1)
    }
}

/// The plan of a scope.
pub open spec fn plan_of(node: SyntaxNode, source: Seq<u8>) -> PlanModel {
    planned(
        PlanModel {
            scope_ids: Seq::empty(),
            labels: Seq::empty(),
            branches: Seq::empty(),
            parents: seq![None],
        },
        node,
        source,
        Seq::empty(),
        0,
    )
}

impl Plan {
    fn add_label(&mut self, binding: usize, name: String, scopes: &Vec<usize>)
        ensures
            final(self)@ == old(self)@.with_label(binding, name@, scopes@),
    {
        let entry = LabelEntry { binding, name, scopes: copy_ids(scopes) };
        self.labels.push(entry);
        assert(self@.labels =~= old(self)@.labels.push(entry@));
        assert(self@ =~= old(self)@.with_label(binding, name@, scopes@));
    }

    /// Plans a node: its cleanup scopes, labels and conditional branches.
    pub fn collect_label_scopes(
        &mut self,
        node: &SyntaxNode,
        source: &[u8],
        active: &Vec<usize>,
        binding: usize,
    )
        ensures
            final(self)@ == planned(old(self)@, *node, source@, active@, binding),
        decreases *node, 3int,
    {
        if node.is_kind("defProc") {
        } else if node.is_kind("ppBlock") {
            let branches = preprocessor_branches(node, source);
            if !branches.hollow {
                self.collect_branches(node, source, active, binding, branches.last);
            }
        } else if node.is_kind("label") {
            if let Some(name) = label_text(node, source) {
                self.add_label(binding, name, active);
            }
        } else if node.is_kind("try") && try_has_finally(node) {
            let id: usize = self.scope_ids.len();
            self.scope_ids.push((node.start, node.end));
            assert(self@ =~= old(self)@.with_scope(node.start, node.end));
            let mut inside = copy_ids(active);
            inside.push(id);
            self.collect_field(node, source, &inside, binding, "try");
            self.collect_field(node, source, active, binding, "except");
            self.collect_field(node, source, active, binding, "finally");
        } else {
            let mut i: usize = 0;
            while i < node.children.len()
                invariant
                    i <= node.children@.len(),
                    planned_named(self@, *node, source@, active@, binding, i as int)
                        == planned_named(old(self)@, *node, source@, active@, binding, 0),
                decreases node.children@.len() - i,
            {
                if node.children[i].named {
                    self.collect_label_scopes(&node.children[i], source, active, binding);
                }
                i = i + 1;
            }
        }
    }

    fn collect_field(
        &mut self,
        node: &SyntaxNode,
        source: &[u8],
        active: &Vec<usize>,
        binding: usize,
        field: &str,
    )
        ensures
            final(self)@ == planned_field(
                old(self)@,
                *node,
                source@,
                active@,
                binding,
                field@,
                0,
            ),
        decreases *node, 1int,
    {
        let mut i: usize = 0;
        while i < node.children.len()
            invariant
                i <= node.children@.len(),
                planned_field(self@, *node, source@, active@, binding, field@, i as int)
                    == planned_field(old(self)@, *node, source@, active@, binding, field@, 0),
            decreases node.children@.len() - i,
        {
            if node.children[i].is_field(field) {
                self.collect_label_scopes(&node.children[i], source, active, binding);
            }
            i = i + 1;
        }
    }

    fn collect_branches(
        &mut self,
        node: &SyntaxNode,
        source: &[u8],
        active: &Vec<usize>,
        binding: usize,
        last: usize,
    )
        requires
            last == last_branch(*node),
        ensures
            final(self)@ == planned_branches(old(self)@, *node, source@, active@, binding, 0),
        decreases *node, 2int,
    {
        let mut b: usize = 0;
        let mut done: bool = false;
        while !done
            invariant
                b <= last,
                last == last_branch(*node),
                !done ==> planned_branches(self@, *node, source@, active@, binding, b as int)
                    == planned_branches(old(self)@, *node, source@, active@, binding, 0),
                done ==> self@ == planned_branches(
                    old(self)@,
                    *node,
                    source@,
                    active@,
                    binding,
                    0,
                ),
            decreases last - b + if done { 0int } else { 1int },
        {
            let own: usize = self.parents.len();
            let ghost before = self@;
            self.branches.push(
                BranchEntry { start: node.start, end: node.end, branch: b, binding: own },
            );
            self.parents.push(Some(binding));
            assert(self@ =~= before.with_branch(node.start, node.end, b, binding));
            self.collect_branch(node, source, active, own, b);
            if b == last {
                assert(planned_branches(self@, *node, source@, active@, binding, b + 1) == self@);
                done = true;
            } else {
                b = b + 1;
            }
        }
    }

    fn collect_branch(
        &mut self,
        node: &SyntaxNode,
        source: &[u8],
        active: &Vec<usize>,
        binding: usize,
        b: usize,
    )
        ensures
            final(self)@ == planned_branch(
                old(self)@,
                *node,
                source@,
                active@,
                binding,
                b as int,
                0,
            ),
        decreases *node, 1int,
    {
        let mut at: usize = 0;
        let mut i: usize = 0;
        while i < node.children.len()
            invariant
                at <= i <= node.children@.len(),
                at == branch_at(*node, i as int),
                planned_branch(self@, *node, source@, active@, binding, b as int, i as int)
                    == planned_branch(old(self)@, *node, source@, active@, binding, b as int, 0),
            decreases node.children@.len() - i,
        {
            let child = &node.children[i];
            if is_branch_content(child) && at == b {
                self.collect_label_scopes(child, source, active, binding);
            }
            if child.is_kind("ppElse") {
                at = at + 1;
            }
            i = i + 1;
        }
    }

    /// Plans a scope.
    pub fn build(node: &SyntaxNode, source: &[u8]) -> (r: Plan)
        ensures
            r@ == plan_of(*node, source@),
    {
        let mut parents: Vec<Option<usize>> = Vec::new();
        parents.push(None);
        let mut plan = Plan {
            scope_ids: Vec::new(),
            labels: Vec::new(),
            branches: Vec::new(),
            parents,
        };
        assert(plan@ =~= PlanModel {
            scope_ids: Seq::empty(),
            labels: Seq::empty(),
            branches: Seq::empty(),
            parents: seq![None],
        });
        let active: Vec<usize> = Vec::new();
        plan.collect_label_scopes(node, source, &active, 0);
        plan
    }
}

// Looking labels up ---------------------------------------------------------------------------

/// The cleanup scopes of a label declared in a namespace, among the first `n`
/// entries. The last declaration counts.
pub open spec fn label_scopes(
    labels: Seq<LabelModel>,
    binding: usize,
    name: Seq<char>,
    n: int,
) -> Option<Seq<usize>>
    decreases n,
{
    if n <= 0 || n > labels.len() {
        None
    } else if labels[n - 1].binding == binding && labels[n - 1].name == name {
        Some(labels[n - 1].scopes)
    } else {
        label_scopes(labels, binding, name, n - 1)
    }
}

fn find_label(labels: &Vec<LabelEntry>, binding: usize, name: &str) -> (r: Option<Vec<usize>>)
    ensures
        opt_ids(r) == label_scopes(
            label_models(labels@),
            binding,
            name@,
            labels@.len() as int,
        ),
{
    let mut n: usize = labels.len();
    while n > 0
        invariant
            n <= labels@.len(),
            label_models(labels@).len() == labels@.len(),
            label_scopes(label_models(labels@), binding, name@, labels@.len() as int)
                == label_scopes(label_models(labels@), binding, name@, n as int),
        decreases n,
    {
        let entry = &labels[n - 1];
        assert(label_models(labels@)[n - 1] == entry@);
        if entry.binding == binding && same_text(entry.name.as_str(), name) {
            return Some(copy_ids(&entry.scopes));
        }
        n = n - 1;
    }
    None
}

/// The value of an optional list of numbers.
pub open spec fn opt_ids(v: Option<Vec<usize>>) -> Option<Seq<usize>> {
    match v {
        Some(ids) => Some(ids@),
        None => None,
    }
}

/// The namespace that encloses another. Namespaces are numbered from the
/// outermost inwards.
pub open spec fn parent_binding(parents: Seq<Option<usize>>, binding: usize) -> Option<usize> {
    if binding < parents.len() {
        match parents[binding as int] {
            Some(p) => if p < binding {
                Some(p)
            } else {
                None
            },
            None => None,
        }
    } else {
        None
    }
}

/// The namespace that encloses another.
pub fn parent_label_binding(parents: &Vec<Option<usize>>, binding: usize) -> (r: Option<usize>)
    ensures
        r == parent_binding(parents@, binding),
        r matches Some(p) ==> p < binding,
{
    if binding < parents.len() {
        match parents[binding] {
            Some(p) => if p < binding {
                Some(p)
            } else {
                None
            },
            None => None,
        }
    } else {
        None
    }
}

/// The innermost enclosing namespace that declares a label, with its scopes.
pub open spec fn nearest_label(
    labels: Seq<LabelModel>,
    parents: Seq<Option<usize>>,
    binding: usize,
    name: Seq<char>,
) -> Option<(usize, Seq<usize>)>
    decreases binding,
{
    match label_scopes(labels, binding, name, labels.len() as int) {
        Some(scopes) => Some((binding, scopes)),
        None => match parent_binding(parents, binding) {
            Some(p) => nearest_label(labels, parents, p, name),
            None => None,
        },
    }
}

/// A namespace in which a `goto` may find its label, with the label's scopes.
#[derive(Debug)]
pub struct LabelBinding {
    pub binding: usize,
    pub scopes: Vec<usize>,
}

impl View for LabelBinding {
    type V = (usize, Seq<usize>);

    open spec fn view(&self) -> (usize, Seq<usize>) {
        (self.binding, self.scopes@)
    }
}

/// The values of several label bindings.
pub open spec fn binding_models(v: Seq<LabelBinding>) -> Seq<(usize, Seq<usize>)> {
    v.map_values(|b: LabelBinding| b@)
}

fn nearest_label_scopes(
    labels: &Vec<LabelEntry>,
    parents: &Vec<Option<usize>>,
    start: usize,
    name: &str,
) -> (r: Option<LabelBinding>)
    ensures
        (match r {
            Some(b) => Some(b@),
            None => None,
        }) == nearest_label(label_models(labels@), parents@, start, name@),
    decreases start,
{
    match find_label(labels, start, name) {
        Some(scopes) => {
            assert(label_models(labels@).len() == labels@.len());
            Some(LabelBinding { binding: start, scopes })
        },
        None => {
            assert(label_models(labels@).len() == labels@.len());
            match parent_label_binding(parents, start) {
                Some(p) => nearest_label_scopes(labels, parents, p, name),
                None => None,
            }
        },
    }
}

/// Whether a namespace is that of a branch of a conditional block.
pub open spec fn is_branch(branches: Seq<BranchEntry>, binding: usize) -> bool {
    exists|k: int| 0 <= k < branches.len() && (#[trigger] branches[k]).binding == binding
}

fn is_preprocessor_binding(branches: &Vec<BranchEntry>, binding: usize) -> (r: bool)
    ensures
        r == is_branch(branches@, binding),
{
    let mut i: usize = 0;
    while i < branches.len()
        invariant
            i <= branches@.len(),
            forall|k: int| 0 <= k < i ==> (#[trigger] branches@[k]).binding != binding,
        decreases branches@.len() - i,
    {
        if branches[i].binding == binding {
            assert(branches@[i as int].binding == binding);
            return true;
        }
        i = i + 1;
    }
    false
}

/// Whether a namespace lies inside another.
pub open spec fn inside(parents: Seq<Option<usize>>, binding: usize, outer: usize) -> bool
    decreases binding,
{
    match parent_binding(parents, binding) {
        Some(p) => p == outer || inside(parents, p, outer),
        None => false,
    }
}

fn is_descendant_label_binding(parents: &Vec<Option<usize>>, binding: usize, outer: usize) -> (r:
    bool)
    ensures
        r == inside(parents@, binding, outer),
    decreases binding,
{
    match parent_label_binding(parents, binding) {
        Some(p) => p == outer || is_descendant_label_binding(parents, p, outer),
        None => false,
    }
}

/// The conditional branches inside a namespace that declare a label, among the
/// first `n` namespaces.
pub open spec fn branch_labels(
    labels: Seq<LabelModel>,
    branches: Seq<BranchEntry>,
    parents: Seq<Option<usize>>,
    start: usize,
    name: Seq<char>,
    n: int,
) -> Seq<(usize, Seq<usize>)>
    decreases n,
{
    if n <= 0 || n > parents.len() {
        Seq::empty()
    } else {
        let before = branch_labels(labels, branches, parents, start, name, n - 1);
        let b = (n - 1) as usize;
        match label_scopes(labels, b, name, labels.len() as int) {
            Some(scopes) => if is_branch(branches, b) && inside(parents, b, start) {
                before.push((b, scopes))
            } else {
                before
            },
            None => before,
        }
    }
}

/// Where a `goto` in a namespace may find its label: in the nearest enclosing
/// namespace that declares it, else in any conditional branch inside.
pub open spec fn labels_from(
    labels: Seq<LabelModel>,
    branches: Seq<BranchEntry>,
    parents: Seq<Option<usize>>,
    start: usize,
    name: Seq<char>,
) -> Seq<(usize, Seq<usize>)> {
    match nearest_label(labels, parents, start, name) {
        Some(found) => seq![found],
        None => branch_labels(labels, branches, parents, start, name, parents.len() as int),
    }
}

/// Where a `goto` may find its label. The namespace of a repeated finalizer body
/// stands for the namespaces around it.
pub open spec fn goto_bindings(
    labels: Seq<LabelModel>,
    branches: Seq<BranchEntry>,
    parents: Seq<Option<usize>>,
    current: usize,
    name: Seq<char>,
) -> Seq<(usize, Seq<usize>)> {
    if current != 0 && !is_branch(branches, current) {
        match nearest_label(labels, parents, current, name) {
            Some((_declaring, scopes)) => seq![(current, scopes)],
            None => match parent_binding(parents, current) {
                Some(p) => labels_from(labels, branches, parents, p, name),
                None => labels_from(labels, branches, parents, current, name),
            },
        }
    } else {
        labels_from(labels, branches, parents, current, name)
    }
}

fn label_target_bindings_from_namespace(
    labels: &Vec<LabelEntry>,
    branches: &Vec<BranchEntry>,
    parents: &Vec<Option<usize>>,
    start: usize,
    name: &str,
) -> (r: Vec<LabelBinding>)
    ensures
        binding_models(r@) == labels_from(
            label_models(labels@),
            branches@,
            parents@,
            start,
            name@,
        ),
{
    let ghost models = label_models(labels@);
    let mut out: Vec<LabelBinding> = Vec::new();
    if let Some(found) = nearest_label_scopes(labels, parents, start, name) {
        out.push(found);
        assert(binding_models(out@) =~= seq![found@]);
        return out;
    }
    let mut b: usize = 0;
    assert(binding_models(out@) =~= branch_labels(models, branches@, parents@, start, name@, 0));
    while b < parents.len()
        invariant
            b <= parents@.len(),
            models == label_models(labels@),
            models.len() == labels@.len(),
            binding_models(out@) == branch_labels(
                models,
                branches@,
                parents@,
                start,
                name@,
                b as int,
            ),
        decreases parents@.len() - b,
    {
        let ghost before = out@;
        if let Some(scopes) = find_label(labels, b, name) {
            if is_preprocessor_binding(branches, b) && is_descendant_label_binding(
                parents,
                b,
                start,
            ) {
                let entry = LabelBinding { binding: b, scopes };
                out.push(entry);
                assert(binding_models(out@) =~= binding_models(before).push(entry@));
            }
        }
        b = b + 1;
    }
    out
}

/// Where a `goto` may find its label.
pub fn label_target_bindings(
    labels: &Vec<LabelEntry>,
    branches: &Vec<BranchEntry>,
    parents: &Vec<Option<usize>>,
    current: usize,
    name: &str,
) -> (r: Vec<LabelBinding>)
    ensures
        binding_models(r@) == goto_bindings(
            label_models(labels@),
            branches@,
            parents@,
            current,
            name@,
        ),
{
    if current != 0 && !is_preprocessor_binding(branches, current) {
        if let Some(found) = nearest_label_scopes(labels, parents, current, name) {
            let mut out: Vec<LabelBinding> = Vec::new();
            out.push(LabelBinding { binding: current, scopes: found.scopes });
            assert(binding_models(out@) =~= seq![(current, found.scopes@)]);
            return out;
        }
        if let Some(p) = parent_label_binding(parents, current) {
            return label_target_bindings_from_namespace(labels, branches, parents, p, name);
        }
    }
    label_target_bindings_from_namespace(labels, branches, parents, current, name)
}

/// A label that a walk has placed.
#[derive(Debug)]
pub struct LabelTarget {
    pub binding: usize,
    pub name: String,
    pub block: BlockId,
}

/// The mathematical value of a [`LabelTarget`].
pub struct TargetModel {
    pub binding: usize,
    pub name: Seq<char>,
    pub block: BlockId,
}

impl View for LabelTarget {
    type V = TargetModel;

    open spec fn view(&self) -> TargetModel {
        TargetModel { binding: self.binding, name: self.name@, block: self.block }
    }
}

/// The mathematical values of several placed labels.
pub open spec fn target_models(v: Seq<LabelTarget>) -> Seq<TargetModel> {
    v.map_values(|t: LabelTarget| t@)
}

/// The block of a label placed in a namespace, among the first `n` placed. The
/// last one counts.
pub open spec fn placed(
    targets: Seq<TargetModel>,
    binding: usize,
    name: Seq<char>,
    n: int,
) -> Option<BlockId>
    decreases n,
{
    if n <= 0 || n > targets.len() {
        None
    } else if targets[n - 1].binding == binding && targets[n - 1].name == name {
        Some(targets[n - 1].block)
    } else {
        placed(targets, binding, name, n - 1)
    }
}

/// The block that a `goto` finds, in its namespace or the nearest around it.
pub open spec fn goto_target(
    targets: Seq<TargetModel>,
    parents: Seq<Option<usize>>,
    binding: usize,
    name: Seq<char>,
) -> Option<BlockId>
    decreases binding,
{
    match placed(targets, binding, name, targets.len() as int) {
        Some(block) => Some(block),
        None => match parent_binding(parents, binding) {
            Some(p) => goto_target(targets, parents, p, name),
            None => None,
        },
    }
}

fn find_placed(targets: &Vec<LabelTarget>, binding: usize, name: &str) -> (r: Option<BlockId>)
    ensures
        r == placed(target_models(targets@), binding, name@, targets@.len() as int),
{
    let mut n: usize = targets.len();
    while n > 0
        invariant
            n <= targets@.len(),
            target_models(targets@).len() == targets@.len(),
            placed(target_models(targets@), binding, name@, targets@.len() as int) == placed(
                target_models(targets@),
                binding,
                name@,
                n as int,
            ),
        decreases n,
    {
        let target = &targets[n - 1];
        assert(target_models(targets@)[n - 1] == target@);
        if target.binding == binding && same_text(target.name.as_str(), name) {
            return Some(target.block);
        }
        n = n - 1;
    }
    None
}

/// The block that a `goto` finds.
pub fn resolve_label_target(
    targets: &Vec<LabelTarget>,
    parents: &Vec<Option<usize>>,
    binding: usize,
    name: &str,
) -> (r: Option<BlockId>)
    ensures
        r == goto_target(target_models(targets@), parents@, binding, name@),
    decreases binding,
{
    assert(target_models(targets@).len() == targets@.len());
    match find_placed(targets, binding, name) {
        Some(block) => Some(block),
        None => match parent_label_binding(parents, binding) {
            Some(p) => resolve_label_target(targets, parents, p, name),
            None => None,
        },
    }
}

} // verus!
