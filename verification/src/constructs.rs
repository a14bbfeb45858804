//! Statement classification, and the pending control transfers that a statement
//! leaves behind.

use vstd::prelude::*;
use crate::exception_types::constructor_call;

use crate::syntax::{any_field, opt_text, SyntaxNode};
use crate::text::{lower_text, lowercase, same_text, texts};

verus! {

broadcast use crate::syntax::lemma_find_bounds;

// Statements ----------------------------------------------------------------------

/// Whether a node writes a word, in any case. The word is in lower case.
pub open spec fn writes(node: SyntaxNode, source: Seq<u8>, word: Seq<char>) -> bool {
    lower_text(node.text(source)) == word
}

fn writes_word(node: &SyntaxNode, source: &[u8], word: &str) -> (r: bool)
    ensures
        r == writes(*node, source@, word@),
{
    same_text(lowercase(node.node_text(source).as_str()).as_str(), word)
}

/// Whether a statement or expression is a call of the named standard procedure:
/// the bare name, or the name applied to arguments.
pub open spec fn calls(node: SyntaxNode, source: Seq<u8>, word: Seq<char>) -> bool
    decreases node, 1int, 0int,
{
    if node.kind@ == "statement"@ {
        child_calls(node, source, word, 0)
    } else if node.kind@ == "identifier"@ {
        writes(node, source, word)
    } else if node.kind@ == "exprCall"@ {
        match node.find(any_field("entity"@)) {
            Some(k) => node.children@[k].kind@ == "identifier"@ && writes(
                node.children@[k],
                source,
                word,
            ),
            None => false,
        }
    } else {
        false
    }
}

/// Whether a child at or behind `i` is such a call.
pub open spec fn child_calls(node: SyntaxNode, source: Seq<u8>, word: Seq<char>, i: int) -> bool
    decreases node, 0int, node.children@.len() - i,
{
    if i < 0 || i >= node.children@.len() {
        false
    } else {
        calls(node.children@[i], source, word) || child_calls(node, source, word, i + 1)
    }
}

fn is_call_to(node: &SyntaxNode, source: &[u8], word: &str) -> (r: bool)
    ensures
        r == calls(*node, source@, word@),
    decreases *node,
{
    if node.is_kind("statement") {
        let mut i: usize = 0;
        while i < node.children.len()
            invariant
                i <= node.children@.len(),
                node.kind@ == "statement"@,
                child_calls(*node, source@, word@, 0) == child_calls(
                    *node,
                    source@,
                    word@,
                    i as int,
                ),
            decreases node.children@.len() - i,
        {
            if is_call_to(&node.children[i], source, word) {
                assert(child_calls(*node, source@, word@, i as int));
                return true;
            }
            i = i + 1;
        }
        false
    } else if node.is_kind("identifier") {
        writes_word(node, source, word)
    } else if node.is_kind("exprCall") {
        match node.child_by_field("entity") {
            Some(k) => node.children[k].is_kind("identifier") && writes_word(
                &node.children[k],
                source,
                word,
            ),
            None => false,
        }
    } else {
        false
    }
}

/// Whether a node is a call of `Exit`.
pub fn is_exit_call(node: &SyntaxNode, source: &[u8]) -> (r: bool)
    ensures
        r == calls(*node, source@, "exit"@),
{
    is_call_to(node, source, "exit")
}

/// Whether an expression is a call of the named loop procedure: the bare name, or
/// the name with empty brackets.
pub open spec fn names_jump(node: SyntaxNode, source: Seq<u8>, word: Seq<char>) -> bool {
    if node.kind@ == "exprCall"@ {
        calls(node, source, word) && node.find(any_field("args"@)) is None
    } else {
        node.kind@ == "identifier"@ && writes(node, source, word)
    }
}

/// Whether a statement or expression is a call of the named loop procedure. A call
/// with arguments is one of something else.
pub open spec fn jumps(node: SyntaxNode, source: Seq<u8>, word: Seq<char>) -> bool {
    if node.kind@ == "statement"@ {
        exists|k: int|
            0 <= k < node.children@.len() && names_jump(#[trigger] node.children@[k], source, word)
    } else {
        names_jump(node, source, word)
    }
}

fn is_jump_name(node: &SyntaxNode, source: &[u8], word: &str) -> (r: bool)
    ensures
        r == names_jump(*node, source@, word@),
{
    if node.is_kind("exprCall") {
        is_call_to(node, source, word) && node.child_by_field("args").is_none()
    } else {
        node.is_kind("identifier") && writes_word(node, source, word)
    }
}

fn is_jump(node: &SyntaxNode, source: &[u8], word: &str) -> (r: bool)
    ensures
        r == jumps(*node, source@, word@),
{
    if !node.is_kind("statement") {
        return is_jump_name(node, source, word);
    }
    let mut i: usize = 0;
    while i < node.children.len()
        invariant
            i <= node.children@.len(),
            node.kind@ == "statement"@,
            forall|k: int| 0 <= k < i ==> !names_jump(#[trigger] node.children@[k], source@, word@),
        decreases node.children@.len() - i,
    {
        if is_jump_name(&node.children[i], source, word) {
            assert(names_jump(node.children@[i as int], source@, word@));
            return true;
        }
        i = i + 1;
    }
    false
}

/// Whether a node is a call of `Break`.
pub fn is_break_call(node: &SyntaxNode, source: &[u8]) -> (r: bool)
    ensures
        r == jumps(*node, source@, "break"@),
{
    is_jump(node, source, "break")
}

/// Whether a node is a call of `Continue`.
pub fn is_continue_call(node: &SyntaxNode, source: &[u8]) -> (r: bool)
    ensures
        r == jumps(*node, source@, "continue"@),
{
    is_jump(node, source, "continue")
}

/// Whether a call of `Exit` evaluates an argument first.
pub open spec fn exit_argument(node: SyntaxNode, source: Seq<u8>) -> bool
    decreases node, 1int, 0int,
{
    if node.kind@ == "statement"@ {
        child_exit_argument(node, source, 0)
    } else if node.kind@ == "exprCall"@ {
        calls(node, source, "exit"@) && node.find(any_field("args"@)) is Some
    } else {
        false
    }
}

/// Whether a child at or behind `i` is a call of `Exit` with an argument.
pub open spec fn child_exit_argument(node: SyntaxNode, source: Seq<u8>, i: int) -> bool
    decreases node, 0int, node.children@.len() - i,
{
    if i < 0 || i >= node.children@.len() {
        false
    } else {
        exit_argument(node.children@[i], source) || child_exit_argument(node, source, i + 1)
    }
}

/// Whether a call of `Exit` evaluates an argument first.
pub fn exit_has_argument(node: &SyntaxNode, source: &[u8]) -> (r: bool)
    ensures
        r == exit_argument(*node, source@),
    decreases *node,
{
    if node.is_kind("statement") {
        let mut i: usize = 0;
        while i < node.children.len()
            invariant
                i <= node.children@.len(),
                node.kind@ == "statement"@,
                child_exit_argument(*node, source@, 0) == child_exit_argument(
                    *node,
                    source@,
                    i as int,
                ),
            decreases node.children@.len() - i,
        {
            if exit_has_argument(&node.children[i], source) {
                assert(child_exit_argument(*node, source@, i as int));
                return true;
            }
            i = i + 1;
        }
        false
    } else if node.is_kind("exprCall") {
        is_exit_call(node, source) && node.child_by_field("args").is_some()
    } else {
        false
    }
}

/// Whether evaluating an expression runs code of its own: a call, a constructor
/// named without arguments, or one of these in parentheses.
pub open spec fn evaluates(node: SyntaxNode, source: Seq<u8>) -> bool
    decreases node, 1int, 0int,
{
    if node.kind@ == "exprCall"@ {
        true
    } else if node.kind@ == "exprParens"@ {
        child_evaluates(node, source, 0)
    } else {
        constructor_call(node, source) is Some
    }
}

/// Whether a named child at or behind `i` runs code of its own.
pub open spec fn child_evaluates(node: SyntaxNode, source: Seq<u8>, i: int) -> bool
    decreases node, 0int, node.children@.len() - i,
{
    if i < 0 || i >= node.children@.len() {
        false
    } else {
        (node.children@[i].named && evaluates(node.children@[i], source)) || child_evaluates(
            node,
            source,
            i + 1,
        )
    }
}

fn expression_may_throw(node: &SyntaxNode, source: &[u8]) -> (r: bool)
    ensures
        r == evaluates(*node, source@),
    decreases *node,
{
    if node.is_kind("exprCall") {
        true
    } else if node.is_kind("exprParens") {
        let mut i: usize = 0;
        while i < node.children.len()
            invariant
                i <= node.children@.len(),
                node.kind@ == "exprParens"@,
                node.kind@ != "exprCall"@,
                child_evaluates(*node, source@, 0) == child_evaluates(*node, source@, i as int),
            decreases node.children@.len() - i,
        {
            if node.children[i].named && expression_may_throw(&node.children[i], source) {
                assert(child_evaluates(*node, source@, i as int));
                return true;
            }
            i = i + 1;
        }
        false
    } else {
        crate::exception_types::constructor_call_parts(node, source).is_some()
    }
}

/// Whether the expression of a `raise` can itself raise another exception.
pub open spec fn raise_evaluates(raise: SyntaxNode, source: Seq<u8>) -> bool {
    match raise.find(any_field("exception"@)) {
        Some(k) => evaluates(raise.children@[k], source),
        None => false,
    }
}

/// Whether the expression of a `raise` can itself raise another exception.
pub fn raise_may_throw_during_evaluation(raise: &SyntaxNode, source: &[u8]) -> (r: bool)
    ensures
        r == raise_evaluates(*raise, source@),
{
    match raise.child_by_field("exception") {
        Some(k) => expression_may_throw(&raise.children[k], source),
        None => false,
    }
}

// Written constructor names -----------------------------------------------------------

/// The parts of a qualified name as written, looking through parentheses.
pub open spec fn written_parts(node: SyntaxNode, source: Seq<u8>) -> Option<Seq<Seq<char>>>
    decreases node,
{
    if node.kind@ == "identifier"@ {
        Some(seq![node.text(source)])
    } else if node.kind@ == "exprDot"@ {
        match (node.find(any_field("lhs"@)), node.find(any_field("rhs"@))) {
            (Some(l), Some(r)) => match (
                written_parts(node.children@[l], source),
                written_parts(node.children@[r], source),
            ) {
                (Some(left), Some(right)) => Some(left + right),
                _ => None,
            },
            _ => None,
        }
    } else if node.kind@ == "exprParens"@ {
        match node.find(crate::unit_types::any_named()) {
            Some(k) => written_parts(node.children@[k], source),
            None => None,
        }
    } else {
        None
    }
}

fn qualified_parts(node: &SyntaxNode, source: &[u8]) -> (r: Option<Vec<String>>)
    ensures
        crate::text::opt_texts(r) == written_parts(*node, source@),
    decreases *node,
{
    if node.is_kind("identifier") {
        let mut parts: Vec<String> = Vec::new();
        parts.push(node.node_text(source));
        assert(texts(parts@) =~= seq![node.text(source@)]);
        Some(parts)
    } else if node.is_kind("exprDot") {
        match (node.child_by_field("lhs"), node.child_by_field("rhs")) {
            (Some(l), Some(r)) => {
                match (
                    qualified_parts(&node.children[l], source),
                    qualified_parts(&node.children[r], source),
                ) {
                    (Some(left), Some(right)) => {
                        let mut parts = left;
                        let mut rest = right;
                        parts.append(&mut rest);
                        assert(texts(parts@) =~= texts(left@) + texts(right@));
                        Some(parts)
                    },
                    _ => None,
                }
            },
            _ => None,
        }
    } else if node.is_kind("exprParens") {
        match node.first_named() {
            Some(k) => qualified_parts(&node.children[k], source),
            None => None,
        }
    } else {
        None
    }
}

/// The texts joined by dots, up to the `n`th.
pub open spec fn joined(parts: Seq<Seq<char>>, n: int) -> Seq<char>
    decreases n,
{
    if n <= 0 || n > parts.len() {
        Seq::empty()
    } else if n == 1 {
        parts[0]
    } else {
        joined(parts, n - 1) + seq!['.'] + parts[n - 1]
    }
}

fn join(parts: &Vec<String>, n: usize) -> (r: String)
    requires
        n <= parts@.len(),
    ensures
        r@ == joined(texts(parts@), n as int),
{
    let mut out = String::new();
    let mut i: usize = 0;
    assert(out@ =~= joined(texts(parts@), 0));
    while i < n
        invariant
            i <= n <= parts@.len(),
            out@ == joined(texts(parts@), i as int),
        decreases n - i,
    {
        assert(texts(parts@).len() == parts@.len());
        assert(texts(parts@)[i as int] == parts@[i as int]@);
        if i > 0 {
            out.push('.');
            assert(out@ =~= joined(texts(parts@), i as int) + seq!['.']);
        }
        let ghost before = out@;
        out.append(parts[i].as_str());
        if i == 0 {
            assert(before =~= Seq::<char>::empty());
            assert(out@ =~= parts@[0]@);
        }
        i = i + 1;
    }
    out
}

/// The class written before `.Create` in a call, if any.
pub open spec fn written_constructor(call: SyntaxNode, source: Seq<u8>) -> Option<Seq<char>> {
    match call.find(any_field("entity"@)) {
        Some(k) => match written_parts(call.children@[k], source) {
            Some(parts) => if parts.len() > 0 && lower_text(parts[parts.len() - 1]) == "create"@
                && joined(parts, parts.len() - 1).len() > 0 {
                Some(joined(parts, parts.len() - 1))
            } else {
                None
            },
            None => None,
        },
        None => None,
    }
}

fn constructor_type(call: &SyntaxNode, source: &[u8]) -> (r: Option<String>)
    ensures
        opt_text(r) == written_constructor(*call, source@),
{
    match call.child_by_field("entity") {
        Some(k) => match qualified_parts(&call.children[k], source) {
            Some(parts) => {
                let count: usize = parts.len();
                assert(texts(parts@).len() == count);
                if count == 0 {
                    return None;
                }
                assert(texts(parts@)[count - 1] == parts@[count - 1]@);
                if !same_text(lowercase(parts[count - 1].as_str()).as_str(), "create") {
                    return None;
                }
                let name = join(&parts, count - 1);
                if name.as_str().is_empty() {
                    None
                } else {
                    Some(name)
                }
            },
            None => None,
        },
        None => None,
    }
}

/// The class written in `raise TException.Create(...)`, as a label of the
/// exceptional path. It says nothing of the class that is meant.
pub open spec fn written_exception(raise: SyntaxNode, source: Seq<u8>) -> Option<Seq<char>> {
    match raise.find(any_field("exception"@)) {
        Some(k) => {
            let exception = raise.children@[k];
            if exception.kind@ == "exprCall"@ {
                written_constructor(exception, source)
            } else if exception.kind@ == "exprParens"@ {
                match exception.find(crate::syntax::named_kind("exprCall"@)) {
                    Some(c) => written_constructor(exception.children@[c], source),
                    None => None,
                }
            } else {
                None
            }
        },
        None => None,
    }
}

/// The class written in `raise TException.Create(...)`.
pub fn raised_exception_type(raise: &SyntaxNode, source: &[u8]) -> (r: Option<String>)
    ensures
        opt_text(r) == written_exception(*raise, source@),
{
    match raise.child_by_field("exception") {
        Some(k) => {
            let exception = &raise.children[k];
            if exception.is_kind("exprCall") {
                constructor_type(exception, source)
            } else if exception.is_kind("exprParens") {
                match exception.named_child_of_kind("exprCall") {
                    Some(c) => constructor_type(&exception.children[c], source),
                    None => None,
                }
            } else {
                None
            }
        },
        None => None,
    }
}

} // verus!
