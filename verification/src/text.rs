//! Text primitives shared by the analyses: comparison, ASCII case folding,
//! splitting, ordering and number formatting, each stated over `Seq<char>`.

use vstd::prelude::*;
use vstd::utf8::*;

verus! {

/// The ASCII lower-case form of one character; every other character is kept.
pub open spec fn lower(c: char) -> char {
    if 'A' <= c && c <= 'Z' {
        ((c as u8) + 32) as char
    } else {
        c
    }
}

/// The ASCII lower-case form of a text.
pub open spec fn lower_text(s: Seq<char>) -> Seq<char> {
    s.map_values(|c: char| lower(c))
}

/// Appending one character to a `String`, as `String::push` documents it.
pub assume_specification[ String::push ](s: &mut String, c: char)
    ensures
        final(s)@ == old(s)@.push(c),
;

/// `std::str::from_utf8`, with the accepted bytes copied into a `String`.
///
/// The contract says that exactly the valid UTF-8 byte strings are accepted and
/// that the text is their decoding.
#[verifier::external_body]
pub(crate) fn decode_text(bytes: &[u8]) -> (r: Option<String>)
    ensures
        match r {
            Some(text) => valid_utf8(bytes@) && text@ == decode_utf8(bytes@),
            None => !valid_utf8(bytes@),
        },
{
    match std::str::from_utf8(bytes) {
        Ok(text) => Some(String::from(text)),
        Err(_) => None,
    }
}

/// Whether two byte slices hold the same bytes.
pub fn same_bytes(a: &[u8], b: &[u8]) -> (r: bool)
    ensures
        r == (a@ == b@),
{
    if a.len() != b.len() {
        return false;
    }
    let mut i: usize = 0;
    while i < a.len()
        invariant
            a@.len() == b@.len(),
            i <= a@.len(),
            forall|k: int| 0 <= k < i ==> a@[k] == b@[k],
        decreases a@.len() - i,
    {
        if a[i] != b[i] {
            return false;
        }
        i = i + 1;
    }
    assert(a@ =~= b@);
    true
}

/// Whether two texts are equal.
pub fn same_text(a: &str, b: &str) -> (r: bool)
    ensures
        r == (a@ == b@),
{
    let r = same_bytes(a.as_bytes(), b.as_bytes());
    proof {
        encode_utf8_decode_utf8(a@);
        encode_utf8_decode_utf8(b@);
    }
    r
}

/// The characters of a text.
pub fn chars_of(s: &str) -> (r: Vec<char>)
    ensures
        r@ == s@,
{
    let mut out: Vec<char> = Vec::new();
    for c in it: s.chars()
        invariant
            it.seq() == s@,
            out@ == s@.take(it.index() as int),
    {
        out.push(c);
        assert(s@.take(it.index() as int + 1) =~= s@.take(it.index() as int).push(c));
    }
    assert(s@.take(s@.len() as int) =~= s@);
    out
}

/// The text made of `chars[from..to]`.
pub fn text_of(chars: &Vec<char>, from: usize, to: usize) -> (r: String)
    requires
        from <= to <= chars@.len(),
    ensures
        r@ == chars@.subrange(from as int, to as int),
{
    let mut out = String::new();
    let mut i: usize = from;
    while i < to
        invariant
            from <= i <= to <= chars@.len(),
            out@ == chars@.subrange(from as int, i as int),
        decreases to - i,
    {
        out.push(chars[i]);
        i = i + 1;
        assert(chars@.subrange(from as int, i as int) =~= chars@.subrange(
            from as int,
            i as int - 1,
        ).push(chars@[i as int - 1]));
    }
    out
}

/// The ASCII lower-case form of one character.
pub fn lower_char(c: char) -> (r: char)
    ensures
        r == lower(c),
{
    if 'A' <= c && c <= 'Z' {
        ((c as u8) + 32) as char
    } else {
        c
    }
}

/// The ASCII lower-case form of a text.
pub fn lowercase(s: &str) -> (r: String)
    ensures
        r@ == lower_text(s@),
{
    let mut out = String::new();
    for c in it: s.chars()
        invariant
            it.seq() == s@,
            out@ == lower_text(s@.take(it.index() as int)),
    {
        out.push(lower_char(c));
        assert(lower_text(s@.take(it.index() as int + 1)) =~= lower_text(
            s@.take(it.index() as int),
        ).push(lower(c)));
    }
    assert(s@.take(s@.len() as int) =~= s@);
    out
}

/// The texts of several strings.
pub open spec fn texts(v: Seq<String>) -> Seq<Seq<char>> {
    v.map_values(|s: String| s@)
}

/// The texts of an optional list of strings.
pub open spec fn opt_texts(v: Option<Vec<String>>) -> Option<Seq<Seq<char>>> {
    match v {
        Some(parts) => Some(texts(parts@)),
        None => None,
    }
}

/// The pieces of `s` between separators, the current piece having started at
/// `start` and the scan standing at `i`.
pub open spec fn split_from(s: Seq<char>, sep: char, start: int, i: int) -> Seq<Seq<char>>
    decreases s.len() - i,
{
    if i >= s.len() {
        seq![s.subrange(start, s.len() as int)]
    } else if s[i] == sep {
        seq![s.subrange(start, i)] + split_from(s, sep, i + 1, i + 1)
    } else {
        split_from(s, sep, start, i + 1)
    }
}

/// The pieces of a text between separators.
pub open spec fn split_text(s: Seq<char>, sep: char) -> Seq<Seq<char>> {
    split_from(s, sep, 0, 0)
}

/// Splits a text at every separator.
pub fn split(s: &str, sep: char) -> (r: Vec<String>)
    ensures
        texts(r@) == split_text(s@, sep),
{
    let chars = chars_of(s);
    let mut out: Vec<String> = Vec::new();
    let mut start: usize = 0;
    let mut i: usize = 0;
    assert(texts(out@) + split_from(s@, sep, 0, 0) =~= split_text(s@, sep));
    while i < chars.len()
        invariant
            chars@ == s@,
            start <= i <= chars@.len(),
            texts(out@) + split_from(s@, sep, start as int, i as int) == split_text(s@, sep),
        decreases chars@.len() - i,
    {
        if chars[i] == sep {
            let piece = text_of(&chars, start, i);
            let ghost before = out@;
            out.push(piece);
            assert(texts(out@) =~= texts(before).push(piece@));
            assert(texts(out@) + split_from(s@, sep, i as int + 1, i as int + 1) =~= texts(before)
                + (seq![piece@] + split_from(s@, sep, i as int + 1, i as int + 1)));
            start = i + 1;
        }
        i = i + 1;
    }
    let piece = text_of(&chars, start, i);
    let ghost before = out@;
    out.push(piece);
    assert(texts(out@) =~= texts(before) + seq![piece@]);
    out
}

/// A copy of a list of strings.
pub fn copy_texts(v: &Vec<String>) -> (r: Vec<String>)
    ensures
        texts(r@) == texts(v@),
{
    let mut out: Vec<String> = Vec::new();
    let mut i: usize = 0;
    while i < v.len()
        invariant
            i <= v@.len(),
            texts(out@) == texts(v@).take(i as int),
        decreases v@.len() - i,
    {
        let ghost before = out@;
        let copy = v[i].clone();
        out.push(copy);
        assert(texts(out@) =~= texts(before).push(v@[i as int]@));
        i = i + 1;
        assert(texts(out@) =~= texts(v@).take(i as int));
    }
    assert(texts(v@).take(i as int) =~= texts(v@));
    out
}

/// The decimal digit of a number below ten.
pub open spec fn digit(n: int) -> char {
    (48 + n) as u8 as char
}

/// A number in decimal digits.
pub open spec fn decimal(n: nat) -> Seq<char>
    decreases n,
{
    if n < 10 {
        seq![digit(n as int)]
    } else {
        decimal(n / 10).push(digit((n % 10) as int))
    }
}

/// Appends a number in decimal digits.
pub fn push_decimal(to: &mut String, n: usize)
    ensures
        final(to)@ == old(to)@ + decimal(n as nat),
    decreases n,
{
    if n < 10 {
        to.push((48u8 + n as u8) as char);
        assert(to@ =~= old(to)@ + decimal(n as nat));
    } else {
        push_decimal(to, n / 10);
        to.push((48u8 + (n % 10) as u8) as char);
        assert(to@ =~= old(to)@ + decimal(n as nat));
    }
}

/// The lower-case hexadecimal digit of a number below sixteen.
pub open spec fn hex_digit(n: int) -> char {
    if n < 10 {
        (48 + n) as u8 as char
    } else {
        (87 + n) as u8 as char
    }
}

/// Appends a byte as two lower-case hexadecimal digits.
pub fn push_hex(to: &mut String, byte: u8)
    ensures
        final(to)@ == old(to)@ + seq![hex_digit(byte as int / 16), hex_digit(byte as int % 16)],
{
    let high: u8 = byte / 16;
    let low: u8 = byte % 16;
    to.push(
        if high < 10 {
            (48u8 + high) as char
        } else {
            (87u8 + high) as char
        },
    );
    to.push(
        if low < 10 {
            (48u8 + low) as char
        } else {
            (87u8 + low) as char
        },
    );
    assert(to@ =~= old(to)@ + seq![hex_digit(byte as int / 16), hex_digit(byte as int % 16)]);
}

/// A half-open range as `start..end`.
pub open spec fn shown_range(start: usize, end: usize) -> Seq<char> {
    decimal(start as nat) + ".."@ + decimal(end as nat)
}

/// Appends a half-open range as `start..end`.
pub fn push_range(to: &mut String, start: usize, end: usize)
    ensures
        final(to)@ == old(to)@ + shown_range(start, end),
{
    push_decimal(to, start);
    to.append("..");
    push_decimal(to, end);
    assert(to@ =~= old(to)@ + shown_range(start, end));
}

/// The quoted and escaped form of a text, as `std::fmt::Debug` for `str` gives it.
pub uninterp spec fn quoted(s: Seq<char>) -> Seq<char>;

/// `format!` with `{:?}` on a `str`: the text quoted and escaped.
#[verifier::external_body]
pub(crate) fn debug_text(s: &str) -> (r: String)
    ensures
        r@ == quoted(s@),
{
    format!("{:?}", s)
}

/// Whether a text comes before another in the order of code points, character by
/// character.
pub open spec fn text_before(a: Seq<char>, b: Seq<char>) -> bool
    decreases a.len(),
{
    if b.len() == 0 {
        false
    } else if a.len() == 0 {
        true
    } else if a[0] != b[0] {
        a[0] < b[0]
    } else {
        text_before(a.drop_first(), b.drop_first())
    }
}

/// Whether a text comes before another in the order of code points.
pub fn is_before(a: &str, b: &str) -> (r: bool)
    ensures
        r == text_before(a@, b@),
{
    let x = chars_of(a);
    let y = chars_of(b);
    let mut i: usize = 0;
    assert(x@.skip(0) =~= x@);
    assert(y@.skip(0) =~= y@);
    while i < x.len() && i < y.len() && x[i] == y[i]
        invariant
            i <= x@.len(),
            i <= y@.len(),
            text_before(x@, y@) == text_before(x@.skip(i as int), y@.skip(i as int)),
        decreases x@.len() - i,
    {
        assert(x@.skip(i as int).drop_first() =~= x@.skip(i as int + 1));
        assert(y@.skip(i as int).drop_first() =~= y@.skip(i as int + 1));
        i = i + 1;
    }
    if i >= y.len() {
        false
    } else if i >= x.len() {
        true
    } else {
        x[i] < y[i]
    }
}

/// The order of texts is strict: no text comes before itself, and of two
/// different texts exactly one comes before the other.
pub proof fn law_text_order_is_total(a: Seq<char>, b: Seq<char>)
    ensures
        !(text_before(a, b) && text_before(b, a)),
        a == b || text_before(a, b) || text_before(b, a),
        a == b ==> !text_before(a, b),
    decreases a.len(),
{
    if a.len() > 0 && b.len() > 0 && a[0] == b[0] {
        law_text_order_is_total(a.drop_first(), b.drop_first());
        if a.drop_first() == b.drop_first() {
            assert(a =~= seq![a[0]] + a.drop_first());
            assert(b =~= seq![b[0]] + b.drop_first());
        }
    } else if a.len() == 0 && b.len() == 0 {
        assert(a =~= b);
    }
}

/// The order of texts is transitive.
pub proof fn law_text_order_is_transitive(a: Seq<char>, b: Seq<char>, c: Seq<char>)
    requires
        text_before(a, b),
        text_before(b, c),
    ensures
        text_before(a, c),
    decreases a.len(),
{
    if a.len() > 0 && b.len() > 0 && c.len() > 0 && a[0] == b[0] && b[0] == c[0] {
        law_text_order_is_transitive(a.drop_first(), b.drop_first(), c.drop_first());
    }
}

} // verus!
