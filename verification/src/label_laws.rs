//! Which labels, cleanup scopes and namespaces the plan of a scope holds, and where a
//! jump looks for its label.

use vstd::prelude::*;
use crate::choice_laws::{branch_of, lemma_branch_of};
use crate::labels::{
    branch_content, branch_labels, finalized, goto_bindings, hollow, inside, is_branch, label_of,
    label_scopes, labels_from, last_branch, nearest_label, parent_binding, plan_of, planned,
    planned_branch, planned_branches, planned_field, planned_named, BranchEntry, LabelModel,
    PlanModel,
};
use crate::syntax::{any_field, hit, opt_text, SyntaxNode};

verus! {

broadcast use crate::syntax::lemma_find_bounds;

// The plan ---------------------------------------------------------------------------------------

/// Whether a list begins with the entries of another.
pub open spec fn kept<T>(before: Seq<T>, after: Seq<T>) -> bool {
    before.len() <= after.len() && forall|k: int|
        0 <= k < before.len() ==> #[trigger] after[k] == before[k]
}

/// Whether a plan holds all that another holds, in the same places.
pub open spec fn adds_to(m: PlanModel, after: PlanModel) -> bool {
    &&& kept(m.scope_ids, after.scope_ids)
    &&& kept(m.labels, after.labels)
    &&& kept(m.branches, after.branches)
    &&& kept(m.parents, after.parents)
}

proof fn lemma_planned(
    m: PlanModel,
    node: SyntaxNode,
    source: Seq<u8>,
    active: Seq<usize>,
    binding: usize,
)
    ensures
        adds_to(m, planned(m, node, source, active, binding)),
    decreases node, 3int, 0int,
{
    if node.kind@ == "defProc"@ {
    } else if node.kind@ == "ppBlock"@ {
        if !hollow(node, source) {
            lemma_planned_branches(m, node, source, active, binding, 0);
        }
    } else if node.kind@ == "label"@ {
    } else if node.kind@ == "try"@ && finalized(node) {
        let id = m.scope_ids.len() as usize;
        let m0 = m.with_scope(node.start, node.end);
        lemma_planned_field(m0, node, source, active.push(id), binding, "try"@, 0);
        let m1 = planned_field(m0, node, source, active.push(id), binding, "try"@, 0);
        lemma_planned_field(m1, node, source, active, binding, "except"@, 0);
        let m2 = planned_field(m1, node, source, active, binding, "except"@, 0);
        lemma_planned_field(m2, node, source, active, binding, "finally"@, 0);
    } else {
        lemma_planned_named(m, node, source, active, binding, 0);
    }
}

proof fn lemma_planned_named(
    m: PlanModel,
    node: SyntaxNode,
    source: Seq<u8>,
    active: Seq<usize>,
    binding: usize,
    i: int,
)
    ensures
        adds_to(m, planned_named(m, node, source, active, binding, i)),
    decreases node, 1int, node.children@.len() - i,
{
    if 0 <= i < node.children@.len() {
        let child = node.children@[i];
        let m1 = if child.named {
            planned(m, child, source, active, binding)
        } else {
            m
        };
        if child.named {
            lemma_planned(m, child, source, active, binding);
        }
        lemma_planned_named(m1, node, source, active, binding, i + 1);
    }
}

proof fn lemma_planned_field(
    m: PlanModel,
    node: SyntaxNode,
    source: Seq<u8>,
    active: Seq<usize>,
    binding: usize,
    field: Seq<char>,
    i: int,
)
    ensures
        adds_to(m, planned_field(m, node, source, active, binding, field, i)),
    decreases node, 1int, node.children@.len() - i,
{
    if 0 <= i < node.children@.len() {
        let child = node.children@[i];
        let m1 = if hit(any_field(field), child) {
            planned(m, child, source, active, binding)
        } else {
            m
        };
        if hit(any_field(field), child) {
            lemma_planned(m, child, source, active, binding);
        }
        lemma_planned_field(m1, node, source, active, binding, field, i + 1);
    }
}

proof fn lemma_planned_branches(
    m: PlanModel,
    node: SyntaxNode,
    source: Seq<u8>,
    active: Seq<usize>,
    binding: usize,
    b: int,
)
    ensures
        adds_to(m, planned_branches(m, node, source, active, binding, b)),
    decreases node, 2int, last_branch(node) + 1 - b,
{
    if 0 <= b <= last_branch(node) {
        let own = m.parents.len() as usize;
        let m0 = m.with_branch(node.start, node.end, b as usize, binding);
        lemma_planned_branch(m0, node, source, active, own, b, 0);
        let m1 = planned_branch(m0, node, source, active, own, b, 0);
        lemma_planned_branches(m1, node, source, active, binding, b + 1);
    }
}

proof fn lemma_planned_branch(
    m: PlanModel,
    node: SyntaxNode,
    source: Seq<u8>,
    active: Seq<usize>,
    binding: usize,
    b: int,
    i: int,
)
    ensures
        adds_to(m, planned_branch(m, node, source, active, binding, b, i)),
    decreases node, 1int, node.children@.len() - i,
{
    if 0 <= i < node.children@.len() {
        let child = node.children@[i];
        let here = branch_content(child.kind@) && crate::labels::branch_at(node, i) == b;
        let m1 = if here {
            planned(m, child, source, active, binding)
        } else {
            m
        };
        if here {
            lemma_planned(m, child, source, active, binding);
        }
        lemma_planned_branch(m1, node, source, active, binding, b, i + 1);
    }
}

/// A scope starts with no cleanup scope, no label and one namespace, that of the whole
/// scope; what is planned is never taken back.
pub proof fn law_plan_starts_with_one_namespace(node: SyntaxNode, source: Seq<u8>)
    ensures
        plan_of(node, source).parents.len() > 0,
        plan_of(node, source).parents[0] is None,
        node.kind@ == "defProc"@ ==> plan_of(node, source).labels.len() == 0,
{
    let start = PlanModel {
        scope_ids: Seq::empty(),
        labels: Seq::empty(),
        branches: Seq::empty(),
        parents: seq![None],
    };
    lemma_planned(start, node, source, Seq::empty(), 0);
    assert(start.parents[0] is None);
}

/// A label is entered under its name in the namespace and the cleanup scopes that it
/// stands in; a routine inside the scope has a plan of its own and adds nothing.
pub proof fn law_label_is_planned(
    m: PlanModel,
    node: SyntaxNode,
    source: Seq<u8>,
    active: Seq<usize>,
    binding: usize,
)
    ensures
        node.kind@ == "label"@ ==> match label_of(node, source) {
            Some(name) => planned(m, node, source, active, binding).labels == m.labels.push(
                LabelModel { binding, name, scopes: active },
            ),
            None => planned(m, node, source, active, binding) == m,
        },
        node.kind@ == "defProc"@ ==> planned(m, node, source, active, binding) == m,
{
    lemma_label_kinds();
}

proof fn lemma_label_kinds()
    ensures
        "label"@ != "defProc"@,
        "label"@ != "ppBlock"@,
        "try"@ != "defProc"@,
        "try"@ != "ppBlock"@,
        "try"@ != "label"@,
        "ppBlock"@ != "defProc"@,
        "try"@ != "except"@,
        "try"@ != "finally"@,
        "except"@ != "finally"@,
{
    reveal_strlit("label");
    reveal_strlit("defProc");
    reveal_strlit("ppBlock");
    reveal_strlit("try");
    reveal_strlit("except");
    reveal_strlit("finally");
    assert("label"@.len() == 5 && "try"@.len() == 3 && "except"@.len() == 6);
    assert("ppBlock"@[0] == 'p' && "defProc"@[0] == 'd' && "finally"@.len() == 7);
}

/// What stands in the protected statements of a `try..finally` lies in its cleanup
/// scope besides those around it, and its finalizer only in those around it. The scope
/// is recorded with the range of the statement.
///
/// The witness gives the plan in which child `i` is planned.
pub proof fn law_try_finally_is_a_cleanup_scope(
    m: PlanModel,
    node: SyntaxNode,
    source: Seq<u8>,
    active: Seq<usize>,
    binding: usize,
    i: int,
) -> (at: PlanModel)
    requires
        node.kind@ == "try"@,
        finalized(node),
        0 <= i < node.children@.len(),
        m.scope_ids.len() < usize::MAX,
    ensures
        ({
            let id = m.scope_ids.len() as usize;
            let after = planned(m, node, source, active, binding);
            let child = node.children@[i];
            &&& id < after.scope_ids.len() && after.scope_ids[id as int] == (node.start, node.end)
            &&& adds_to(m, at)
            &&& opt_text(child.field) == Some("try"@) ==> adds_to(
                planned(at, child, source, active.push(id), binding),
                after,
            )
            &&& opt_text(child.field) == Some("finally"@) ==> adds_to(
                planned(at, child, source, active, binding),
                after,
            )
        }),
{
    lemma_label_kinds();
    let id = m.scope_ids.len() as usize;
    let m0 = m.with_scope(node.start, node.end);
    let inner = active.push(id);
    lemma_planned_field(m0, node, source, inner, binding, "try"@, 0);
    let m1 = planned_field(m0, node, source, inner, binding, "try"@, 0);
    lemma_planned_field(m1, node, source, active, binding, "except"@, 0);
    let m2 = planned_field(m1, node, source, active, binding, "except"@, 0);
    lemma_planned_field(m2, node, source, active, binding, "finally"@, 0);
    let after = planned(m, node, source, active, binding);
    assert(adds_to(m0, after));
    assert(m0.scope_ids[id as int] == (node.start, node.end));
    let child = node.children@[i];
    if opt_text(child.field) == Some("try"@) {
        let at = lemma_in_field(m0, node, source, inner, binding, "try"@, 0, i);
        assert(adds_to(m, m0));
        at
    } else if opt_text(child.field) == Some("finally"@) {
        let at = lemma_in_field(m2, node, source, active, binding, "finally"@, 0, i);
        assert(adds_to(m, m2));
        at
    } else {
        m
    }
}

proof fn lemma_in_field(
    m: PlanModel,
    node: SyntaxNode,
    source: Seq<u8>,
    active: Seq<usize>,
    binding: usize,
    field: Seq<char>,
    from: int,
    i: int,
) -> (at: PlanModel)
    requires
        0 <= from <= i < node.children@.len(),
        opt_text(node.children@[i].field) == Some(field),
    ensures
        adds_to(m, at),
        adds_to(
            planned(at, node.children@[i], source, active, binding),
            planned_field(m, node, source, active, binding, field, from),
        ),
    decreases i - from,
{
    let child = node.children@[from];
    let m1 = if hit(any_field(field), child) {
        planned(m, child, source, active, binding)
    } else {
        m
    };
    if hit(any_field(field), child) {
        lemma_planned(m, child, source, active, binding);
    }
    if from == i {
        lemma_planned_field(m1, node, source, active, binding, field, from + 1);
        m
    } else {
        let at = lemma_in_field(m1, node, source, active, binding, field, from + 1, i);
        at
    }
}

/// Every named part of another node is planned in the cleanup scopes and the namespace
/// of the node.
///
/// The witness gives the plan in which child `i` is planned.
pub proof fn law_parts_are_planned(
    m: PlanModel,
    node: SyntaxNode,
    source: Seq<u8>,
    active: Seq<usize>,
    binding: usize,
    i: int,
) -> (at: PlanModel)
    requires
        !set!["defProc"@, "ppBlock"@, "label"@].contains(node.kind@),
        node.kind@ == "try"@ ==> !finalized(node),
        0 <= i < node.children@.len(),
        node.children@[i].named,
    ensures
        adds_to(m, at),
        adds_to(
            planned(at, node.children@[i], source, active, binding),
            planned(m, node, source, active, binding),
        ),
{
    assert(set!["defProc"@, "ppBlock"@, "label"@].contains("defProc"@));
    assert(set!["defProc"@, "ppBlock"@, "label"@].contains("ppBlock"@));
    assert(set!["defProc"@, "ppBlock"@, "label"@].contains("label"@));
    lemma_in_named(m, node, source, active, binding, 0, i)
}

proof fn lemma_in_named(
    m: PlanModel,
    node: SyntaxNode,
    source: Seq<u8>,
    active: Seq<usize>,
    binding: usize,
    from: int,
    i: int,
) -> (at: PlanModel)
    requires
        0 <= from <= i < node.children@.len(),
        node.children@[i].named,
    ensures
        adds_to(m, at),
        adds_to(
            planned(at, node.children@[i], source, active, binding),
            planned_named(m, node, source, active, binding, from),
        ),
    decreases i - from,
{
    let child = node.children@[from];
    let m1 = if child.named {
        planned(m, child, source, active, binding)
    } else {
        m
    };
    if child.named {
        lemma_planned(m, child, source, active, binding);
    }
    if from == i {
        lemma_planned_named(m1, node, source, active, binding, from + 1);
        m
    } else {
        let at = lemma_in_named(m1, node, source, active, binding, from + 1, i);
        at
    }
}

/// Each branch of conditional compilation has a new namespace inside that of the
/// block, in which its content is planned.
///
/// The witness gives the namespace, and the plan in which child `i` is planned.
pub proof fn law_branch_is_a_namespace(
    m: PlanModel,
    node: SyntaxNode,
    source: Seq<u8>,
    active: Seq<usize>,
    binding: usize,
    i: int,
) -> (r: (usize, PlanModel))
    requires
        node.kind@ == "ppBlock"@,
        !hollow(node, source),
        0 <= i < node.children@.len(),
        branch_content(node.children@[i].kind@),
        planned(m, node, source, active, binding).parents.len() <= usize::MAX,
    ensures
        ({
            let (own, at) = r;
            let after = planned(m, node, source, active, binding);
            &&& m.parents.len() <= own < after.parents.len()
            &&& after.parents[own as int] == Some(binding)
            &&& after.branches.contains(
                BranchEntry {
                    start: node.start,
                    end: node.end,
                    branch: branch_of(node, i) as usize,
                    binding: own,
                },
            )
            &&& adds_to(m, at)
            &&& adds_to(planned(at, node.children@[i], source, active, own), after)
        }),
{
    lemma_label_kinds();
    lemma_branch_of(node, i);
    lemma_branch_bound(node, i, node.children@.len() as int);
    lemma_in_branches(m, node, source, active, binding, 0, i)
}

proof fn lemma_branch_bound(node: SyntaxNode, i: int, n: int)
    requires
        0 <= i <= n <= node.children@.len(),
    ensures
        0 <= crate::labels::branch_at(node, i) <= crate::labels::branch_at(node, n),
    decreases n,
{
    if i < n {
        lemma_branch_bound(node, i, n - 1);
    } else if n > 0 {
        lemma_branch_bound(node, 0, 0);
        if i > 0 {
            lemma_branch_bound(node, i - 1, n - 1);
        }
    }
}

proof fn lemma_in_branches(
    m: PlanModel,
    node: SyntaxNode,
    source: Seq<u8>,
    active: Seq<usize>,
    binding: usize,
    b: int,
    i: int,
) -> (r: (usize, PlanModel))
    requires
        0 <= i < node.children@.len(),
        branch_content(node.children@[i].kind@),
        0 <= b <= crate::labels::branch_at(node, i) <= last_branch(node),
        planned_branches(m, node, source, active, binding, b).parents.len() <= usize::MAX,
    ensures
        ({
            let (own, at) = r;
            let after = planned_branches(m, node, source, active, binding, b);
            &&& m.parents.len() <= own < after.parents.len()
            &&& after.parents[own as int] == Some(binding)
            &&& after.branches.contains(
                BranchEntry {
                    start: node.start,
                    end: node.end,
                    branch: crate::labels::branch_at(node, i) as usize,
                    binding: own,
                },
            )
            &&& adds_to(m, at)
            &&& adds_to(planned(at, node.children@[i], source, active, own), after)
        }),
    decreases last_branch(node) - b,
{
    let own = m.parents.len() as usize;
    let m0 = m.with_branch(node.start, node.end, b as usize, binding);
    lemma_planned_branch(m0, node, source, active, own, b, 0);
    let m1 = planned_branch(m0, node, source, active, own, b, 0);
    lemma_planned_branches(m1, node, source, active, binding, b + 1);
    let after = planned_branches(m, node, source, active, binding, b);
    assert(after == planned_branches(m1, node, source, active, binding, b + 1));
    assert(adds_to(m0, after));
    assert(m0.parents.len() == m.parents.len() + 1);
    if b == crate::labels::branch_at(node, i) {
        let at = lemma_in_branch(m0, node, source, active, own, b, 0, i);
        assert(m0.parents[own as int] == Some(binding));
        let entry = BranchEntry {
            start: node.start,
            end: node.end,
            branch: b as usize,
            binding: own,
        };
        assert(m0.branches[m.branches.len() as int] == entry);
        assert(after.branches[m.branches.len() as int] == entry);
        assert(adds_to(m, m0));
        (own, at)
    } else {
        assert(adds_to(m, m1));
        let r = lemma_in_branches(m1, node, source, active, binding, b + 1, i);
        r
    }
}

proof fn lemma_in_branch(
    m: PlanModel,
    node: SyntaxNode,
    source: Seq<u8>,
    active: Seq<usize>,
    binding: usize,
    b: int,
    from: int,
    i: int,
) -> (at: PlanModel)
    requires
        0 <= from <= i < node.children@.len(),
        branch_content(node.children@[i].kind@),
        crate::labels::branch_at(node, i) == b,
    ensures
        adds_to(m, at),
        adds_to(
            planned(at, node.children@[i], source, active, binding),
            planned_branch(m, node, source, active, binding, b, from),
        ),
    decreases i - from,
{
    let child = node.children@[from];
    let here = branch_content(child.kind@) && crate::labels::branch_at(node, from) == b;
    let m1 = if here {
        planned(m, child, source, active, binding)
    } else {
        m
    };
    if here {
        lemma_planned(m, child, source, active, binding);
    }
    if from == i {
        lemma_planned_branch(m1, node, source, active, binding, b, from + 1);
        m
    } else {
        let at = lemma_in_branch(m1, node, source, active, binding, b, from + 1, i);
        at
    }
}

// Looking labels up ------------------------------------------------------------------------------

/// Whether a namespace declares a label.
pub open spec fn declared_in(labels: Seq<LabelModel>, binding: usize, name: Seq<char>) -> bool {
    exists|k: int|
        0 <= k < labels.len() && (#[trigger] labels[k]).binding == binding && labels[k].name == name
}

proof fn lemma_label_scopes(labels: Seq<LabelModel>, binding: usize, name: Seq<char>, n: int)
    requires
        0 <= n <= labels.len(),
    ensures
        match label_scopes(labels, binding, name, n) {
            Some(scopes) => exists|k: int|
                0 <= k < n && (#[trigger] labels[k]).binding == binding && labels[k].name == name
                    && labels[k].scopes == scopes,
            None => forall|k: int|
                0 <= k < n ==> !((#[trigger] labels[k]).binding == binding && labels[k].name
                    == name),
        },
    decreases n,
{
    if n > 0 {
        lemma_label_scopes(labels, binding, name, n - 1);
        if labels[n - 1].binding == binding && labels[n - 1].name == name {
            assert(labels[n - 1].scopes == label_scopes(labels, binding, name, n)->0);
        }
    }
}

/// A jump in the namespace of the whole scope or of a branch finds its label where its
/// own namespace declares it, and there alone, with the cleanup scopes of a declaration.
pub proof fn law_goto_finds_its_own_label(
    labels: Seq<LabelModel>,
    branches: Seq<BranchEntry>,
    parents: Seq<Option<usize>>,
    current: usize,
    name: Seq<char>,
)
    requires
        current == 0 || is_branch(branches, current),
        declared_in(labels, current, name),
    ensures
        goto_bindings(labels, branches, parents, current, name).len() == 1,
        exists|k: int|
            0 <= k < labels.len() && (#[trigger] labels[k]).binding == current && labels[k].name
                == name && goto_bindings(labels, branches, parents, current, name)[0] == (
                current,
                labels[k].scopes,
            ),
{
    lemma_label_scopes(labels, current, name, labels.len() as int);
}

/// Where its own namespace does not declare the label, the namespace around it is
/// asked: what it or one around it declares is found.
pub proof fn law_goto_looks_outward(
    labels: Seq<LabelModel>,
    branches: Seq<BranchEntry>,
    parents: Seq<Option<usize>>,
    current: usize,
    outer: usize,
    name: Seq<char>,
)
    requires
        is_branch(branches, current),
        !declared_in(labels, current, name),
        current < parents.len(),
        parents[current as int] == Some(outer),
        outer < current,
        declared_in(labels, outer, name),
    ensures
        goto_bindings(labels, branches, parents, current, name).len() == 1,
        exists|k: int|
            0 <= k < labels.len() && (#[trigger] labels[k]).binding == outer && labels[k].name
                == name && goto_bindings(labels, branches, parents, current, name)[0] == (
                outer,
                labels[k].scopes,
            ),
{
    lemma_label_scopes(labels, current, name, labels.len() as int);
    lemma_label_scopes(labels, outer, name, labels.len() as int);
    assert(parent_binding(parents, current) == Some(outer));
    let found = label_scopes(labels, outer, name, labels.len() as int)->0;
    assert(nearest_label(labels, parents, outer, name) == Some((outer, found)));
    assert(nearest_label(labels, parents, current, name) == Some((outer, found)));
}

/// Where neither its namespace nor one around it declares the label, a jump may go to
/// each branch inside its namespace that does: any of them can be the one compiled.
pub proof fn law_goto_may_enter_branches(
    labels: Seq<LabelModel>,
    branches: Seq<BranchEntry>,
    parents: Seq<Option<usize>>,
    name: Seq<char>,
    b: usize,
)
    requires
        parents.len() > 0,
        parents.len() <= usize::MAX,
        parents[0] is None,
        !declared_in(labels, 0, name),
        b < parents.len(),
    ensures
        ({
            let found = goto_bindings(labels, branches, parents, 0, name);
            (exists|k: int| 0 <= k < found.len() && (#[trigger] found[k]).0 == b) <==> is_branch(
                branches,
                b,
            ) && inside(parents, b, 0) && declared_in(labels, b, name)
        }),
{
    lemma_label_scopes(labels, 0, name, labels.len() as int);
    assert(parent_binding(parents, 0) is None);
    assert(nearest_label(labels, parents, 0, name) is None);
    lemma_branch_labels(labels, branches, parents, 0, name, parents.len() as int, b);
    assert(goto_bindings(labels, branches, parents, 0, name) == labels_from(
        labels,
        branches,
        parents,
        0,
        name,
    ));
}

proof fn lemma_branch_labels(
    labels: Seq<LabelModel>,
    branches: Seq<BranchEntry>,
    parents: Seq<Option<usize>>,
    start: usize,
    name: Seq<char>,
    n: int,
    b: usize,
)
    requires
        0 <= n <= parents.len() <= usize::MAX,
    ensures
        ({
            let found = branch_labels(labels, branches, parents, start, name, n);
            (exists|k: int| 0 <= k < found.len() && (#[trigger] found[k]).0 == b) <==> b < n
                && is_branch(branches, b) && inside(parents, b, start) && declared_in(
                labels,
                b,
                name,
            )
        }),
    decreases n,
{
    let found = branch_labels(labels, branches, parents, start, name, n);
    if n > 0 {
        lemma_branch_labels(labels, branches, parents, start, name, n - 1, b);
        let before = branch_labels(labels, branches, parents, start, name, n - 1);
        let last = (n - 1) as usize;
        lemma_label_scopes(labels, last, name, labels.len() as int);
        if found.len() > before.len() {
            assert(found[before.len() as int].0 == last);
            assert forall|k: int| 0 <= k < before.len() implies found[k] == before[k] by {}
            if exists|k: int| 0 <= k < before.len() && (#[trigger] before[k]).0 == b {
                let k = choose|k: int| 0 <= k < before.len() && (#[trigger] before[k]).0 == b;
                assert(found[k].0 == b);
            }
            if exists|k: int| 0 <= k < found.len() && (#[trigger] found[k]).0 == b {
                let k = choose|k: int| 0 <= k < found.len() && (#[trigger] found[k]).0 == b;
                if k < before.len() {
                    assert(before[k].0 == b);
                }
            }
        }
    }
}

} // verus!
