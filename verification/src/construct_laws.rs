//! Which statements are calls and jumps, and which names expressions write.

use vstd::prelude::*;
use crate::constructs::{
    calls, child_calls, child_exit_argument, evaluates, exit_argument, jumps, names_jump,
    raise_evaluates, written_parts,
};
use crate::exception_types::{constructor_call, constructor_of};
use crate::scope_laws::law_first_that_fits;
use crate::syntax::{any_field, hit, opt_text, SyntaxNode};
use crate::text::{lower, lower_text};
use crate::unit_types::{name_of, name_parts_of, type_parts_of};

verus! {

broadcast use crate::syntax::lemma_find_bounds;

// Words ------------------------------------------------------------------------------------------

/// Whether two characters are the same but for the case of a letter of the alphabet.
pub open spec fn same_but_case(a: char, b: char) -> bool {
    a == b || ('A' <= a <= 'Z' && b as int == a as int + 32) || ('A' <= b <= 'Z' && a as int == b
        as int + 32)
}

/// Names are compared without regard to the case of their letters, and with regard to
/// everything else.
pub proof fn law_names_have_no_case(a: Seq<char>, b: Seq<char>)
    ensures
        lower_text(a) == lower_text(b) <==> a.len() == b.len() && forall|k: int|
            0 <= k < a.len() ==> same_but_case(#[trigger] a[k], b[k]),
{
    if lower_text(a) == lower_text(b) {
        assert(lower_text(a).len() == a.len());
        assert forall|k: int| 0 <= k < a.len() implies same_but_case(#[trigger] a[k], b[k]) by {
            assert(lower_text(a)[k] == lower(a[k]));
            assert(lower_text(b)[k] == lower(b[k]));
        }
    }
    if a.len() == b.len() && forall|k: int|
        0 <= k < a.len() ==> same_but_case(#[trigger] a[k], b[k]) {
        assert forall|k: int| 0 <= k < a.len() implies lower_text(a)[k] == lower_text(b)[k] by {
            assert(same_but_case(a[k], b[k]));
        }
        assert(lower_text(a) =~= lower_text(b));
    }
}

/// Whether a node is an identifier that writes a word.
pub open spec fn is_word(node: SyntaxNode, source: Seq<u8>, word: Seq<char>) -> bool {
    node.kind@ == "identifier"@ && lower_text(node.text(source)) == word
}

/// Whether a node calls a routine by its bare name, `k` being the child that names it.
pub open spec fn is_call(node: SyntaxNode, source: Seq<u8>, word: Seq<char>, k: int) -> bool {
    &&& node.kind@ == "exprCall"@
    &&& 0 <= k < node.children@.len()
    &&& opt_text(node.children@[k].field) == Some("entity"@)
    &&& forall|j: int|
        0 <= j < k ==> opt_text((#[trigger] node.children@[j]).field) != Some("entity"@)
    &&& is_word(node.children@[k], source, word)
}

/// Whether a call has arguments.
pub open spec fn has_arguments(node: SyntaxNode) -> bool {
    exists|j: int|
        0 <= j < node.children@.len() && opt_text((#[trigger] node.children@[j]).field) == Some(
            "args"@,
        )
}

proof fn lemma_words()
    ensures
        "statement"@ != "identifier"@,
        "statement"@ != "exprCall"@,
        "identifier"@ != "exprCall"@,
        "exprDot"@ != "exprCall"@,
        "exprParens"@ != "exprCall"@,
        "exprDot"@ != "exprParens"@,
        "identifier"@ != "exprDot"@,
        "identifier"@ != "exprParens"@,
        "identifier"@ != "genericDot"@,
        "identifier"@ != "typeref"@,
        "identifier"@ != "type"@,
        "identifier"@ != "typerefDot"@,
        "typerefDot"@ != "typeref"@,
        "typerefDot"@ != "type"@,
{
    reveal_strlit("statement");
    reveal_strlit("identifier");
    reveal_strlit("exprCall");
    reveal_strlit("exprDot");
    reveal_strlit("exprParens");
    reveal_strlit("genericDot");
    reveal_strlit("typeref");
    reveal_strlit("type");
    reveal_strlit("typerefDot");
    assert("statement"@.len() == 9 && "identifier"@.len() == 10 && "exprCall"@.len() == 8);
    assert("exprDot"@.len() == 7 && "exprParens"@.len() == 10 && "genericDot"@.len() == 10);
    assert("identifier"@[0] == 'i' && "exprParens"@[0] == 'e' && "genericDot"@[0] == 'g');
    assert("typeref"@.len() == 7 && "type"@.len() == 4 && "typerefDot"@.len() == 10);
    assert("typerefDot"@[0] == 't');
}

proof fn lemma_call(node: SyntaxNode, source: Seq<u8>, word: Seq<char>)
    ensures
        node.kind@ == "exprCall"@ ==> (calls(node, source, word) <==> exists|k: int|
            is_call(node, source, word, k)),
        node.kind@ == "identifier"@ ==> (calls(node, source, word) <==> is_word(
            node,
            source,
            word,
        )),
{
    lemma_words();
    if node.kind@ == "exprCall"@ {
        law_first_that_fits(node.children@, any_field("entity"@), 0);
        let found = node.find(any_field("entity"@));
        if calls(node, source, word) {
            assert(is_call(node, source, word, found->0));
        }
        if exists|k: int| is_call(node, source, word, k) {
            let k = choose|k: int| is_call(node, source, word, k);
            assert(hit(any_field("entity"@), node.children@[k]));
            assert(found == Some(k));
        }
    }
}

proof fn lemma_child_calls(node: SyntaxNode, source: Seq<u8>, word: Seq<char>, i: int)
    requires
        0 <= i <= node.children@.len(),
    ensures
        child_calls(node, source, word, i) <==> exists|k: int|
            i <= k < node.children@.len() && calls(#[trigger] node.children@[k], source, word),
    decreases node.children@.len() - i,
{
    if i < node.children@.len() {
        lemma_child_calls(node, source, word, i + 1);
        if exists|k: int|
            i <= k < node.children@.len() && calls(#[trigger] node.children@[k], source, word) {
            let k = choose|k: int|
                i <= k < node.children@.len() && calls(#[trigger] node.children@[k], source, word);
            assert(k == i || i + 1 <= k);
        }
    }
}

/// A statement that holds no other calls a routine exactly where one of its parts is
/// the bare name of the routine or a call by that name.
pub proof fn law_call_statement(node: SyntaxNode, source: Seq<u8>, word: Seq<char>)
    requires
        node.kind@ == "statement"@,
        forall|k: int|
            0 <= k < node.children@.len() ==> (#[trigger] node.children@[k]).kind@ != "statement"@,
    ensures
        calls(node, source, word) <==> exists|k: int|
            0 <= k < node.children@.len() && (is_word(#[trigger] node.children@[k], source, word)
                || exists|j: int| is_call(node.children@[k], source, word, j)),
{
    lemma_words();
    lemma_child_calls(node, source, word, 0);
    assert forall|k: int| 0 <= k < node.children@.len() implies (calls(
        #[trigger] node.children@[k],
        source,
        word,
    ) <==> is_word(node.children@[k], source, word) || exists|j: int|
        is_call(node.children@[k], source, word, j)) by {
        lemma_call(node.children@[k], source, word);
    }
}

/// A statement is a jump exactly where one of its parts is the word itself or a call of
/// it without arguments.
pub proof fn law_jump_statement(node: SyntaxNode, source: Seq<u8>, word: Seq<char>)
    requires
        node.kind@ == "statement"@,
    ensures
        jumps(node, source, word) <==> exists|k: int|
            0 <= k < node.children@.len() && (is_word(#[trigger] node.children@[k], source, word)
                || (!has_arguments(node.children@[k]) && exists|j: int|
                is_call(node.children@[k], source, word, j))),
{
    lemma_words();
    assert forall|k: int| 0 <= k < node.children@.len() implies (names_jump(
        #[trigger] node.children@[k],
        source,
        word,
    ) <==> is_word(node.children@[k], source, word) || (!has_arguments(node.children@[k])
        && exists|j: int| is_call(node.children@[k], source, word, j))) by {
        let child = node.children@[k];
        lemma_call(child, source, word);
        law_first_that_fits(child.children@, any_field("args"@), 0);
        if has_arguments(child) {
            let j = choose|j: int|
                0 <= j < child.children@.len() && opt_text((#[trigger] child.children@[j]).field)
                    == Some("args"@);
            assert(hit(any_field("args"@), child.children@[j]));
        }
    }
    if jumps(node, source, word) {
        let k = choose|k: int|
            0 <= k < node.children@.len() && names_jump(#[trigger] node.children@[k], source, word);
        assert(is_word(node.children@[k], source, word) || (!has_arguments(node.children@[k])
            && exists|j: int| is_call(node.children@[k], source, word, j)));
    }
    if exists|k: int|
        0 <= k < node.children@.len() && (is_word(#[trigger] node.children@[k], source, word) || (
        !has_arguments(node.children@[k]) && exists|j: int|
            is_call(node.children@[k], source, word, j))) {
        let k = choose|k: int|
            0 <= k < node.children@.len() && (is_word(#[trigger] node.children@[k], source, word)
                || (!has_arguments(node.children@[k]) && exists|j: int|
                is_call(node.children@[k], source, word, j)));
        assert(names_jump(node.children@[k], source, word));
    }
}

proof fn lemma_child_exit_argument(node: SyntaxNode, source: Seq<u8>, i: int)
    requires
        0 <= i <= node.children@.len(),
    ensures
        child_exit_argument(node, source, i) <==> exists|k: int|
            i <= k < node.children@.len() && exit_argument(#[trigger] node.children@[k], source),
    decreases node.children@.len() - i,
{
    if i < node.children@.len() {
        lemma_child_exit_argument(node, source, i + 1);
        if exists|k: int|
            i <= k < node.children@.len() && exit_argument(#[trigger] node.children@[k], source) {
            let k = choose|k: int|
                i <= k < node.children@.len() && exit_argument(
                    #[trigger] node.children@[k],
                    source,
                );
            assert(k == i || i + 1 <= k);
        }
    }
}

/// An `Exit` statement that holds no other has a value to evaluate exactly where one of
/// its parts is a call of `Exit` with arguments.
pub proof fn law_exit_value(node: SyntaxNode, source: Seq<u8>)
    requires
        node.kind@ == "statement"@,
        forall|k: int|
            0 <= k < node.children@.len() ==> (#[trigger] node.children@[k]).kind@ != "statement"@,
    ensures
        exit_argument(node, source) <==> exists|k: int|
            0 <= k < node.children@.len() && has_arguments(#[trigger] node.children@[k]) && exists|
                j: int,
            |
                is_call(node.children@[k], source, "exit"@, j),
{
    lemma_words();
    lemma_child_exit_argument(node, source, 0);
    assert forall|k: int| 0 <= k < node.children@.len() implies (exit_argument(
        #[trigger] node.children@[k],
        source,
    ) <==> has_arguments(node.children@[k]) && exists|j: int|
        is_call(node.children@[k], source, "exit"@, j)) by {
        let child = node.children@[k];
        lemma_call(child, source, "exit"@);
        law_first_that_fits(child.children@, any_field("args"@), 0);
        if has_arguments(child) {
            let j = choose|j: int|
                0 <= j < child.children@.len() && opt_text((#[trigger] child.children@[j]).field)
                    == Some("args"@);
            assert(hit(any_field("args"@), child.children@[j]));
        }
    }
}

// Names ------------------------------------------------------------------------------------------

/// Whether a node joins two others by a dot: the first children under the two fields.
pub open spec fn joins_by_dot(node: SyntaxNode, l: int, r: int) -> bool {
    &&& 0 <= l < node.children@.len() && 0 <= r < node.children@.len()
    &&& opt_text(node.children@[l].field) == Some("lhs"@)
    &&& forall|j: int|
        0 <= j < l ==> opt_text((#[trigger] node.children@[j]).field) != Some("lhs"@)
    &&& opt_text(node.children@[r].field) == Some("rhs"@)
    &&& forall|j: int|
        0 <= j < r ==> opt_text((#[trigger] node.children@[j]).field) != Some("rhs"@)
}

/// An identifier is a name of one part. A dotted name has the parts of what stands
/// before the dot and behind it, in that order, and none where either is no name.
pub proof fn law_dotted_names(node: SyntaxNode, source: Seq<u8>, l: int, r: int)
    ensures
        node.kind@ == "identifier"@ ==> name_parts_of(node, source) == Some(
            seq![lower_text(node.text(source))],
        ) && written_parts(node, source) == Some(seq![node.text(source)]) && type_parts_of(
            node,
            source,
        ) == Some(seq![lower_text(node.text(source))]),
        node.kind@ == "exprDot"@ && joins_by_dot(node, l, r) ==> {
            let a = name_parts_of(node.children@[l], source);
            let b = name_parts_of(node.children@[r], source);
            let c = written_parts(node.children@[l], source);
            let d = written_parts(node.children@[r], source);
            &&& a is Some && b is Some ==> name_parts_of(node, source) == Some(a->0 + b->0)
            &&& a is None || b is None ==> name_parts_of(node, source) is None
            &&& c is Some && d is Some ==> written_parts(node, source) == Some(c->0 + d->0)
            &&& c is None || d is None ==> written_parts(node, source) is None
        },
        node.kind@ == "typerefDot"@ && joins_by_dot(node, l, r) ==> {
            let a = type_parts_of(node.children@[l], source);
            let b = type_parts_of(node.children@[r], source);
            &&& a is Some && b is Some ==> type_parts_of(node, source) == Some(a->0 + b->0)
            &&& a is None || b is None ==> type_parts_of(node, source) is None
        },
{
    lemma_words();
    if joins_by_dot(node, l, r) {
        law_first_that_fits(node.children@, any_field("lhs"@), 0);
        law_first_that_fits(node.children@, any_field("rhs"@), 0);
        assert(hit(any_field("lhs"@), node.children@[l]));
        assert(hit(any_field("rhs"@), node.children@[r]));
        assert(node.find(any_field("lhs"@)) == Some(l));
        assert(node.find(any_field("rhs"@)) == Some(r));
    }
    assert(name_of(node, source) == lower_text(node.text(source)));
}

/// An expression constructs an object of a class where it names the class and then
/// `Create`, with or without arguments; otherwise no class is known.
pub proof fn law_constructor_calls(
    node: SyntaxNode,
    source: Seq<u8>,
    class: Seq<Seq<char>>,
    k: int,
)
    requires
        0 <= k < node.children@.len(),
        opt_text(node.children@[k].field) == Some("entity"@),
        forall|j: int|
            0 <= j < k ==> opt_text((#[trigger] node.children@[j]).field) != Some("entity"@),
    ensures
        name_parts_of(node, source) == Some(class.push("create"@)) && node.kind@ == "exprDot"@
            ==> constructor_call(node, source) == Some(class),
        name_parts_of(node.children@[k], source) == Some(class.push("create"@)) && node.kind@
            == "exprCall"@ ==> constructor_call(node, source) == Some(class),
        name_parts_of(node.children@[k], source) matches Some(parts) && parts.last() != "create"@
            && node.kind@ == "exprCall"@ ==> constructor_call(node, source) is None,
{
    lemma_words();
    law_first_that_fits(node.children@, any_field("entity"@), 0);
    assert(hit(any_field("entity"@), node.children@[k]));
    assert(node.find(any_field("entity"@)) == Some(k));
    let whole = class.push("create"@);
    assert(whole.subrange(0, whole.len() - 1) =~= class);
}

/// A `raise` evaluates something first where its expression is a call or constructs an
/// object, and not where it only names an exception.
pub proof fn law_raise_evaluates(raise: SyntaxNode, source: Seq<u8>, k: int)
    requires
        0 <= k < raise.children@.len(),
        opt_text(raise.children@[k].field) == Some("exception"@),
        forall|j: int|
            0 <= j < k ==> opt_text((#[trigger] raise.children@[j]).field) != Some("exception"@),
    ensures
        raise.children@[k].kind@ == "exprCall"@ ==> raise_evaluates(raise, source),
        raise.children@[k].kind@ == "identifier"@ ==> !raise_evaluates(raise, source),
        raise.children@[k].kind@ == "exprDot"@ ==> (raise_evaluates(raise, source)
            <==> constructor_of(raise.children@[k], source) is Some),
{
    lemma_words();
    law_first_that_fits(raise.children@, any_field("exception"@), 0);
    assert(hit(any_field("exception"@), raise.children@[k]));
    assert(raise.find(any_field("exception"@)) == Some(k));
    assert(raise_evaluates(raise, source) == evaluates(raise.children@[k], source));
}

} // verus!
