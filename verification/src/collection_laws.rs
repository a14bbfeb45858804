//! What the declarations of a unit are: which names its scopes bind, which classes and
//! aliases it declares, and which members those have.

use vstd::prelude::*;
use crate::label_laws::kept;
use crate::scope_laws::law_first_that_fits;
use crate::syntax::{any_field, count_hits, hit, named_field, named_kind, opt_text, SyntaxNode};
use crate::unit_types::{
    collect, collect_handler_of, collect_inside, collect_lambda_of, collect_locals, collect_members,
    collect_named, collect_routine_of, collect_type, collect_types, define, directive_in,
    first_name, generic_syntax, merged, name_of, name_parts_of, parent_of_class, proc_create_member,
    routine_header, section_visibility, sole_named, type_create_member, type_parts_of, unit_types,
    with_argument_list, with_arguments, with_proc_binding, with_routine_names, with_value_names,
    with_value_section, BindingKind, BindingModel, CreateMember, DefinitionModel, OwnerModel,
    ParentModel, ReferenceModel, ScopeModel, TypeId, UnitModel, Visibility,
};

verus! {

broadcast use crate::syntax::lemma_find_bounds;

// What a step keeps ------------------------------------------------------------------------------

/// Whether a scope is another one in which more may be bound.
pub open spec fn scope_kept(before: ScopeModel, after: ScopeModel) -> bool {
    &&& after.parent == before.parent
    &&& after.start == before.start
    &&& after.end == before.end
    &&& after.owner_type == before.owner_type
    &&& after.unresolved_owner == before.unresolved_owner
    &&& kept(before.bindings, after.bindings)
}

/// Whether a unit holds all that it held before: the scopes with what is bound in them,
/// the types, but for one that is being defined, and the recorded places.
pub open spec fn grows_but(u: UnitModel, v: UnitModel, open_type: int) -> bool {
    &&& v.unit_index == u.unit_index
    &&& v.module_name == u.module_name
    &&& v.interface_range == u.interface_range
    &&& v.parser_incomplete == u.parser_incomplete
    &&& u.has_preprocessor_barrier ==> v.has_preprocessor_barrier
    &&& u.scopes.len() <= v.scopes.len()
    &&& forall|k: int|
        0 <= k < u.scopes.len() ==> scope_kept(u.scopes[k], #[trigger] v.scopes[k])
    &&& u.types.len() <= v.types.len()
    &&& v.types.len() <= usize::MAX ==> forall|k: int|
        0 <= k < u.types.len() && k != open_type ==> #[trigger] v.types[k] == u.types[k]
    &&& kept(u.with_ranges, v.with_ranges)
    &&& kept(u.unsupported_ranges, v.unsupported_ranges)
    &&& kept(u.pending_method_owners, v.pending_method_owners)
}

/// Whether a unit holds all that it held before.
pub open spec fn grows(u: UnitModel, v: UnitModel) -> bool {
    grows_but(u, v, -1)
}

proof fn lemma_then(u: UnitModel, v: UnitModel, w: UnitModel)
    requires
        grows(u, v),
        grows(v, w),
    ensures
        grows(u, w),
{
    assert forall|k: int| 0 <= k < u.scopes.len() implies scope_kept(
        u.scopes[k],
        #[trigger] w.scopes[k],
    ) by {
        assert(scope_kept(u.scopes[k], v.scopes[k]));
        assert(scope_kept(v.scopes[k], w.scopes[k]));
        assert forall|j: int| 0 <= j < u.scopes[k].bindings.len() implies #[trigger]
            w.scopes[k].bindings[j] == u.scopes[k].bindings[j] by {
            assert(v.scopes[k].bindings[j] == u.scopes[k].bindings[j]);
        }
    }
    if w.types.len() <= usize::MAX {
        assert forall|k: int| 0 <= k < u.types.len() implies #[trigger] w.types[k]
            == u.types[k] by {
            assert(v.types[k] == u.types[k]);
        }
    }
    assert forall|k: int| 0 <= k < u.with_ranges.len() implies #[trigger] w.with_ranges[k]
        == u.with_ranges[k] by {
        assert(v.with_ranges[k] == u.with_ranges[k]);
    }
    assert forall|k: int|
        0 <= k < u.unsupported_ranges.len() implies #[trigger] w.unsupported_ranges[k]
        == u.unsupported_ranges[k] by {
        assert(v.unsupported_ranges[k] == u.unsupported_ranges[k]);
    }
    assert forall|k: int|
        0 <= k < u.pending_method_owners.len() implies #[trigger] w.pending_method_owners[k]
        == u.pending_method_owners[k] by {
        assert(v.pending_method_owners[k] == u.pending_method_owners[k]);
    }
}

/// Whether a scope binds a name.
pub open spec fn bound(
    u: UnitModel,
    scope: usize,
    name: Seq<char>,
    start: usize,
    kind: BindingKind,
    visibility: Visibility,
) -> bool {
    scope < u.scopes.len() && u.scopes[scope as int].bindings.contains(
        BindingModel { name, start, kind, visibility },
    )
}

proof fn lemma_bound_still(
    u: UnitModel,
    v: UnitModel,
    scope: usize,
    name: Seq<char>,
    start: usize,
    kind: BindingKind,
    visibility: Visibility,
)
    requires
        grows(u, v),
        bound(u, scope, name, start, kind, visibility),
    ensures
        bound(v, scope, name, start, kind, visibility),
{
    let b = BindingModel { name, start, kind, visibility };
    let before = u.scopes[scope as int].bindings;
    let j = choose|j: int| 0 <= j < before.len() && before[j] == b;
    assert(scope_kept(u.scopes[scope as int], v.scopes[scope as int]));
    assert(v.scopes[scope as int].bindings[j] == b);
}

proof fn lemma_binding(
    u: UnitModel,
    scope: usize,
    name: Seq<char>,
    start: usize,
    kind: BindingKind,
    visibility: Visibility,
)
    ensures
        grows(u, u.with_binding(scope, name, start, kind, visibility)),
        name.len() > 0 && scope < u.scopes.len() ==> bound(
            u.with_binding(scope, name, start, kind, visibility),
            scope,
            name,
            start,
            kind,
            visibility,
        ),
{
    let v = u.with_binding(scope, name, start, kind, visibility);
    if name.len() > 0 && scope < u.scopes.len() {
        let n = u.scopes[scope as int].bindings.len() as int;
        assert(v.scopes[scope as int].bindings[n] == (BindingModel {
            name,
            start,
            kind,
            visibility,
        }));
    }
}

proof fn lemma_scope(u: UnitModel, parent: Option<usize>, start: usize, end: usize)
    ensures
        grows(u, u.with_scope(parent, start, end)),
{
}

proof fn lemma_value_names(
    u: UnitModel,
    declaration: SyntaxNode,
    scope: usize,
    source: Seq<u8>,
    visibility: Visibility,
    create: CreateMember,
    i: int,
)
    ensures
        grows(u, with_value_names(u, declaration, scope, source, visibility, create, i).0),
    decreases declaration.children@.len() - i,
{
    if 0 <= i < declaration.children@.len() {
        let child = declaration.children@[i];
        if hit(named_field("name"@), child) {
            let name = name_of(child, source);
            lemma_binding(u, scope, name, child.start, BindingKind::Value, visibility);
            let u1 = u.with_binding(scope, name, child.start, BindingKind::Value, visibility);
            let create1 = if name == "create"@ {
                merged(create, CreateMember::NonConstructor(visibility))
            } else {
                create
            };
            lemma_value_names(u1, declaration, scope, source, visibility, create1, i + 1);
            let v = with_value_names(u1, declaration, scope, source, visibility, create1, i + 1).0;
            lemma_then(u, u1, v);
        } else {
            lemma_value_names(u, declaration, scope, source, visibility, create, i + 1);
        }
    }
}

proof fn lemma_value_section(
    u: UnitModel,
    node: SyntaxNode,
    scope: usize,
    source: Seq<u8>,
    visibility: Visibility,
    create: CreateMember,
    i: int,
)
    ensures
        grows(u, with_value_section(u, node, scope, source, visibility, create, i).0),
    decreases node.children@.len() - i,
{
    if 0 <= i < node.children@.len() {
        let child = node.children@[i];
        if child.named && child.kind@ == "ppBlock"@ {
            let create1 = merged(create, CreateMember::Unknown);
            lemma_value_section(u, node, scope, source, visibility, create1, i + 1);
        } else if child.named && (child.kind@ == "declVar"@ || child.kind@ == "declConst"@) {
            lemma_value_names(u, child, scope, source, visibility, create, 0);
            let (u1, create1) = with_value_names(u, child, scope, source, visibility, create, 0);
            lemma_value_section(u1, node, scope, source, visibility, create1, i + 1);
            let v = with_value_section(u1, node, scope, source, visibility, create1, i + 1).0;
            lemma_then(u, u1, v);
        } else {
            lemma_value_section(u, node, scope, source, visibility, create, i + 1);
        }
    }
}

proof fn lemma_arguments(
    u: UnitModel,
    args: SyntaxNode,
    scope: usize,
    source: Seq<u8>,
    i: int,
)
    ensures
        grows(u, with_arguments(u, args, scope, source, i)),
    decreases args.children@.len() - i,
{
    if 0 <= i < args.children@.len() {
        let child = args.children@[i];
        let default = Visibility::Default;
        let absent = CreateMember::Absent;
        lemma_value_names(u, child, scope, source, default, absent, 0);
        let u1 = if child.named && child.kind@ == "declArg"@ {
            with_value_names(u, child, scope, source, default, absent, 0).0
        } else {
            u
        };
        lemma_arguments(u1, args, scope, source, i + 1);
        lemma_then(u, u1, with_arguments(u1, args, scope, source, i + 1));
    }
}

proof fn lemma_argument_list(u: UnitModel, header: SyntaxNode, scope: usize, source: Seq<u8>)
    ensures
        grows(u, with_argument_list(u, header, scope, source)),
{
    if let Some(k) = header.find(named_field("args"@)) {
        lemma_arguments(u, header.children@[k], scope, source, 0);
    }
}

proof fn lemma_proc_binding(
    u: UnitModel,
    declaration: SyntaxNode,
    scope: usize,
    source: Seq<u8>,
    unsupported: bool,
    visibility: Visibility,
)
    ensures
        grows(u, with_proc_binding(u, declaration, scope, source, unsupported, visibility)),
{
}

proof fn lemma_routine_names(
    u: UnitModel,
    routine: SyntaxNode,
    header: SyntaxNode,
    name: SyntaxNode,
    scope: usize,
    enclosing: usize,
    source: Seq<u8>,
)
    ensures
        grows(u, with_routine_names(u, routine, header, name, scope, enclosing, source)),
{
    let value = BindingKind::Value;
    let default = Visibility::Default;
    let parts = name_parts_of(name, source);
    let owner = match parts {
        Some(p) => if p.len() > 1 {
            Some(p.subrange(0, p.len() - 1))
        } else {
            None
        },
        None => None,
    };
    let entry = OwnerModel {
        routine_scope: scope,
        owner_parts: owner,
        enclosing_scope: enclosing,
        offset: routine.start,
    };
    let w = u.with_owner(entry);
    assert(grows(u, w));
    let m = w.with_binding(scope, "self"@, routine.start, value, default);
    lemma_binding(w, scope, "self"@, routine.start, value, default);
    lemma_then(u, w, m);
    let u1 = if owner is Some || (name.kind@ == "genericDot"@ && parts is None) {
        m
    } else {
        u
    };
    assert(grows(u, u1));
    let u2 = u1.with_binding(scope, "result"@, routine.start, value, default);
    lemma_binding(u1, scope, "result"@, routine.start, value, default);
    lemma_then(u, u1, u2);
    if let Some(p) = parts {
        if p.len() > 0 {
            let last = p[p.len() - 1];
            let u3 = u2.with_binding(scope, last, routine.start, value, default);
            lemma_binding(u2, scope, last, routine.start, value, default);
            lemma_then(u, u2, u3);
        }
    }
}

proof fn lemma_collect(
    u: UnitModel,
    node: SyntaxNode,
    scope: usize,
    source: Seq<u8>,
    conditional: bool,
)
    ensures
        grows(u, collect(u, node, scope, source, conditional)),
    decreases node, 3int, 0int,
{
    let u2 = begun(u, node, source);
    let c = conditional || node.preprocessor(source);
    assert(grows(u, u2));
    let after = collect(u, node, scope, source, conditional);
    let default = Visibility::Default;
    let absent = CreateMember::Absent;
    if node.kind@ == "defProc"@ {
        lemma_routine(u2, node, scope, source, c);
    } else if node.kind@ == "lambda"@ {
        lemma_lambda(u2, node, scope, source, c);
    } else if node.kind@ == "for"@ || node.kind@ == "foreach"@ {
        let u3 = u2.with_scope(Some(scope), node.start, node.end);
        lemma_scope(u2, Some(scope), node.start, node.end);
        lemma_named(u3, node, u2.next_scope(), source, c, 0);
        lemma_then(u2, u3, after);
    } else if node.kind@ == "declTypes"@ {
        lemma_types(u2, node, scope, source, c, default, absent, 0);
    } else if node.kind@ == "declVars"@ || node.kind@ == "declConsts"@ {
        lemma_value_section(u2, node, scope, source, default, absent, 0);
    } else if node.kind@ == "varDef"@ || node.kind@ == "varAssignDef"@ {
        assert(grows(u2, after));
    } else if node.kind@ == "declProc"@ {
        lemma_proc_binding(u2, node, scope, source, c, default);
    } else if node.kind@ == "exceptionHandler"@ {
        lemma_handler(u2, node, scope, source, c);
    } else {
        lemma_named(u2, node, scope, source, c, 0);
    }
    lemma_then(u, u2, after);
}

/// The unit with what the node itself records.
spec fn begun(u: UnitModel, node: SyntaxNode, source: Seq<u8>) -> UnitModel {
    let u1 = if node.preprocessor(source) {
        u.with_directive(node.start, node.end)
    } else {
        u
    };
    if node.kind@ == "with"@ {
        u1.with_with(node.start, node.end)
    } else {
        u1
    }
}

proof fn lemma_named(
    u: UnitModel,
    node: SyntaxNode,
    scope: usize,
    source: Seq<u8>,
    conditional: bool,
    i: int,
)
    ensures
        grows(u, collect_named(u, node, scope, source, conditional, i)),
    decreases node, 1int, node.children@.len() - i,
{
    if 0 <= i < node.children@.len() {
        let u1 = if node.children@[i].named {
            collect(u, node.children@[i], scope, source, conditional)
        } else {
            u
        };
        if node.children@[i].named {
            lemma_collect(u, node.children@[i], scope, source, conditional);
        }
        lemma_named(u1, node, scope, source, conditional, i + 1);
        lemma_then(u, u1, collect_named(u1, node, scope, source, conditional, i + 1));
    }
}

proof fn lemma_locals(
    u: UnitModel,
    node: SyntaxNode,
    scope: usize,
    source: Seq<u8>,
    conditional: bool,
    i: int,
)
    ensures
        grows(u, collect_locals(u, node, scope, source, conditional, i)),
    decreases node, 1int, node.children@.len() - i,
{
    if 0 <= i < node.children@.len() {
        let here = hit(named_field("local"@), node.children@[i]);
        let u1 = if here {
            collect(u, node.children@[i], scope, source, conditional)
        } else {
            u
        };
        if here {
            lemma_collect(u, node.children@[i], scope, source, conditional);
        }
        lemma_locals(u1, node, scope, source, conditional, i + 1);
        lemma_then(u, u1, collect_locals(u1, node, scope, source, conditional, i + 1));
    }
}

proof fn lemma_inside(
    u: UnitModel,
    node: SyntaxNode,
    scope: usize,
    source: Seq<u8>,
    conditional: bool,
)
    ensures
        grows(u, collect_inside(u, node, scope, source, conditional)),
    decreases node, 2int, 0int,
{
    lemma_locals(u, node, scope, source, conditional, 0);
    let u1 = collect_locals(u, node, scope, source, conditional, 0);
    if let Some(k) = node.find(any_field("body"@)) {
        lemma_collect(u1, node.children@[k], scope, source, conditional);
        lemma_then(u, u1, collect(u1, node.children@[k], scope, source, conditional));
    }
}

proof fn lemma_routine(
    u: UnitModel,
    routine: SyntaxNode,
    enclosing: usize,
    source: Seq<u8>,
    conditional: bool,
)
    ensures
        grows(u, collect_routine_of(u, routine, enclosing, source, conditional)),
    decreases routine, 2int, 1int,
{
    if let Some(h) = routine_header(routine) {
        let header = routine.children@[h];
        let default = Visibility::Default;
        let u1 = with_proc_binding(u, header, enclosing, source, conditional, default);
        lemma_proc_binding(u, header, enclosing, source, conditional, default);
        let scope = u1.next_scope();
        let s = u1.with_scope(Some(enclosing), routine.start, routine.end);
        lemma_scope(u1, Some(enclosing), routine.start, routine.end);
        lemma_then(u, u1, s);
        let u2 = with_argument_list(s, header, scope, source);
        lemma_argument_list(s, header, scope, source);
        lemma_then(u, s, u2);
        if let Some(k) = header.find(any_field("name"@)) {
            let name = header.children@[k];
            let u3 = with_routine_names(u2, routine, header, name, scope, enclosing, source);
            lemma_routine_names(u2, routine, header, name, scope, enclosing, source);
            lemma_then(u, u2, u3);
            lemma_inside(u3, routine, scope, source, conditional);
            lemma_then(u, u3, collect_inside(u3, routine, scope, source, conditional));
        }
    }
}

proof fn lemma_lambda(
    u: UnitModel,
    lambda: SyntaxNode,
    enclosing: usize,
    source: Seq<u8>,
    conditional: bool,
)
    ensures
        grows(u, collect_lambda_of(u, lambda, enclosing, source, conditional)),
    decreases lambda, 2int, 1int,
{
    let scope = u.next_scope();
    let s = u.with_scope(Some(enclosing), lambda.start, lambda.end);
    lemma_scope(u, Some(enclosing), lambda.start, lambda.end);
    let u1 = with_argument_list(s, lambda, scope, source);
    lemma_argument_list(s, lambda, scope, source);
    lemma_then(u, s, u1);
    lemma_inside(u1, lambda, scope, source, conditional);
    lemma_then(u, u1, collect_inside(u1, lambda, scope, source, conditional));
}

proof fn lemma_handler(
    u: UnitModel,
    handler: SyntaxNode,
    enclosing: usize,
    source: Seq<u8>,
    conditional: bool,
)
    ensures
        grows(u, collect_handler_of(u, handler, enclosing, source, conditional)),
    decreases handler, 2int, 1int,
{
    if let Some(b) = handler.find(any_field("body"@)) {
        let body = handler.children@[b];
        let scope = u.next_scope();
        let u1 = u.with_scope(Some(enclosing), body.start, handler.end);
        lemma_scope(u, Some(enclosing), body.start, handler.end);
        let u2 = handler_bound(u, handler, body, enclosing, source, conditional);
        assert(grows(u1, u2));
        lemma_then(u, u1, u2);
        lemma_named(u2, body, scope, source, conditional, 0);
        lemma_then(u, u2, collect_named(u2, body, scope, source, conditional, 0));
    }
}

/// The unit with the scope of a handler, in which its variable is bound.
spec fn handler_bound(
    u: UnitModel,
    handler: SyntaxNode,
    body: SyntaxNode,
    enclosing: usize,
    source: Seq<u8>,
    conditional: bool,
) -> UnitModel {
    let u1 = u.with_scope(Some(enclosing), body.start, handler.end);
    match handler.find(any_field("variable"@)) {
        Some(v) => if handler.children@[v].kind@ == "identifier"@ {
            u1.with_binding(
                u.next_scope(),
                name_of(handler.children@[v], source),
                body.start,
                if conditional {
                    BindingKind::Unsupported
                } else {
                    BindingKind::Value
                },
                Visibility::Default,
            )
        } else {
            u1
        },
        None => u1,
    }
}

proof fn lemma_types(
    u: UnitModel,
    node: SyntaxNode,
    scope: usize,
    source: Seq<u8>,
    conditional: bool,
    visibility: Visibility,
    create: CreateMember,
    i: int,
)
    ensures
        grows(u, collect_types(u, node, scope, source, conditional, visibility, create, i).0),
    decreases node, 1int, node.children@.len() - i,
{
    if 0 <= i < node.children@.len() {
        let child = node.children@[i];
        let n = i + 1;
        if child.named && child.kind@ == "declType"@ {
            let u1 = collect_type(u, child, scope, source, conditional, visibility);
            lemma_type(u, child, scope, source, conditional, visibility);
            let own = type_create_member(child, source, conditional, visibility);
            let create1 = merged(create, own);
            lemma_types(u1, node, scope, source, conditional, visibility, create1, n);
            let v = collect_types(u1, node, scope, source, conditional, visibility, create1, n).0;
            lemma_then(u, u1, v);
        } else {
            let create1 = if child.named && child.kind@ == "ppBlock"@ {
                merged(create, CreateMember::Unknown)
            } else {
                create
            };
            lemma_types(u, node, scope, source, conditional, visibility, create1, n);
        }
    }
}

/// The unit with the name of a type declaration bound to a new type.
spec fn type_bound(
    u: UnitModel,
    declaration: SyntaxNode,
    name: SyntaxNode,
    scope: usize,
    source: Seq<u8>,
    conditional: bool,
    visibility: Visibility,
) -> UnitModel {
    u.with_type().with_binding(
        scope,
        match first_name(name, source) {
            Some(text) => text,
            None => Seq::empty(),
        },
        declaration.start,
        if conditional || name.kind@ != "identifier"@ {
            BindingKind::Unsupported
        } else {
            BindingKind::Type(u.next_type())
        },
        visibility,
    )
}

proof fn lemma_type(
    u: UnitModel,
    declaration: SyntaxNode,
    scope: usize,
    source: Seq<u8>,
    conditional: bool,
    visibility: Visibility,
)
    ensures
        grows(u, collect_type(u, declaration, scope, source, conditional, visibility)),
    decreases declaration, 2int, 0int,
{
    if let Some(n) = declaration.find(any_field("name"@)) {
        let name = declaration.children@[n];
        let id = u.next_type();
        let u1 = type_bound(u, declaration, name, scope, source, conditional, visibility);
        assert(grows(u, u1));
        assert(u1.types.len() == u.types.len() + 1);
        let after = collect_type(u, declaration, scope, source, conditional, visibility);
        if !(conditional || name.kind@ != "identifier"@ || generic_syntax(declaration)) {
            if let Some(t) = declaration.find(named_field("type"@)) {
                let described = declaration.children@[t];
                if described.kind@ == "type"@ {
                    if let Some(k) = sole_named(described) {
                        lemma_define(u1, described.children@[k], id.local, scope, source);
                        lemma_defined(u, u1, after, id.local);
                    }
                } else {
                    lemma_define(u1, described, id.local, scope, source);
                    lemma_defined(u, u1, after, id.local);
                }
            }
        }
    }
}

/// Defining the type that a declaration has added changes none before it.
proof fn lemma_defined(u: UnitModel, u1: UnitModel, v: UnitModel, local: usize)
    requires
        grows(u, u1),
        grows_but(u1, v, local as int),
        local == u.next_type().local,
        u1.types.len() == u.types.len() + 1,
    ensures
        grows(u, v),
{
    let mid = UnitModel { types: u1.types, ..v };
    assert(grows(u1, mid));
    lemma_then(u, u1, mid);
    if v.types.len() <= usize::MAX {
        assert forall|k: int| 0 <= k < u.types.len() implies #[trigger] v.types[k]
            == u.types[k] by {
            assert(u1.types[k] == u.types[k]);
        }
    }
}

proof fn lemma_define(
    u: UnitModel,
    node: SyntaxNode,
    local: usize,
    scope: usize,
    source: Seq<u8>,
)
    ensures
        grows_but(u, define(u, node, local, scope, source), local as int),
    decreases node, 2int, 0int,
{
    if node.kind@ == "declClass"@ && node.find(named_kind("kClass"@)) is Some {
        let default = Visibility::Default;
        let absent = CreateMember::Absent;
        let u0 = u.with_scope(Some(scope), node.start, node.end);
        lemma_scope(u, Some(scope), node.start, node.end);
        lemma_members(u0, node, u.next_scope(), source, default, absent, 0);
        let u1 = collect_members(u0, node, u.next_scope(), source, default, absent, 0).0;
        lemma_then(u, u0, u1);
    }
}

proof fn lemma_members(
    u: UnitModel,
    node: SyntaxNode,
    scope: usize,
    source: Seq<u8>,
    visibility: Visibility,
    create: CreateMember,
    i: int,
)
    ensures
        grows(u, collect_members(u, node, scope, source, visibility, create, i).0),
    decreases node, 1int, node.children@.len() - i,
{
    if 0 <= i < node.children@.len() {
        let child = node.children@[i];
        lemma_member(u, child, scope, source, visibility, create);
        let (u1, create1) = member_step(u, child, scope, source, visibility, create);
        lemma_members(u1, node, scope, source, visibility, create1, i + 1);
        let v = collect_members(u1, node, scope, source, visibility, create1, i + 1).0;
        lemma_then(u, u1, v);
        assert(v == collect_members(u, node, scope, source, visibility, create, i).0);
    }
}

proof fn lemma_member(
    u: UnitModel,
    child: SyntaxNode,
    scope: usize,
    source: Seq<u8>,
    visibility: Visibility,
    create: CreateMember,
)
    ensures
        grows(u, member_step(u, child, scope, source, visibility, create).0),
    decreases child, 2int, 0int,
{
    let absent = CreateMember::Absent;
    if !child.named {
    } else if child.kind@ == "declTypes"@ {
        lemma_types(u, child, scope, source, false, visibility, absent, 0);
    } else if child.kind@ == "declVars"@ || child.kind@ == "declConsts"@ {
        lemma_value_section(u, child, scope, source, visibility, absent, 0);
    } else if child.kind@ == "declField"@ || child.kind@ == "declProp"@ {
        lemma_value_names(u, child, scope, source, visibility, create, 0);
    } else if child.kind@ == "declProc"@ {
        lemma_proc_binding(u, child, scope, source, false, visibility);
    } else if child.kind@ == "declSection"@ {
        let own = section_visibility(child, false, 0);
        lemma_members(u, child, scope, source, own, absent, 0);
    }
}

/// The unit with what one child of a class or class section declares, and what it
/// declares as `Create`.
spec fn member_step(
    u: UnitModel,
    child: SyntaxNode,
    scope: usize,
    source: Seq<u8>,
    visibility: Visibility,
    create: CreateMember,
) -> (UnitModel, CreateMember) {
    let absent = CreateMember::Absent;
    if !child.named {
        (u, create)
    } else if child.kind@ == "declTypes"@ {
        let (v, nested) = collect_types(u, child, scope, source, false, visibility, absent, 0);
        (v, merged(create, nested))
    } else if child.kind@ == "declVars"@ || child.kind@ == "declConsts"@ {
        let (v, nested) = with_value_section(u, child, scope, source, visibility, absent, 0);
        (v, merged(create, nested))
    } else if child.kind@ == "declField"@ || child.kind@ == "declProp"@ {
        with_value_names(u, child, scope, source, visibility, create, 0)
    } else if child.kind@ == "declProc"@ {
        (
            with_proc_binding(u, child, scope, source, false, visibility),
            merged(create, proc_create_member(child, source, visibility)),
        )
    } else if child.kind@ == "declSection"@ {
        let own = section_visibility(child, false, 0);
        let (v, nested) = collect_members(u, child, scope, source, own, absent, 0);
        (v, merged(create, nested))
    } else if child.kind@ == "ppBlock"@ || child.kind@ == "ppDeclSection"@ {
        (u, merged(create, CreateMember::Unknown))
    } else {
        (u, create)
    }
}

// Types ------------------------------------------------------------------------------------------

proof fn lemma_words()
    ensures
        "type"@ != "identifier"@,
        "declClass"@ != "typeref"@,
        "declClass"@ != "typerefDot"@,
        "declClass"@ != "type"@,
        "typeref"@ != "type"@,
        "typerefDot"@ != "type"@,
{
    reveal_strlit("type");
    reveal_strlit("identifier");
    reveal_strlit("declClass");
    reveal_strlit("typeref");
    reveal_strlit("typerefDot");
    assert("type"@.len() == 4 && "identifier"@.len() == 10 && "declClass"@.len() == 9);
    assert("typeref"@.len() == 7 && "typerefDot"@.len() == 10);
}

/// Whether a type declaration gives a plain name, at child `n`, and describes its type
/// by the node at child `t`, without generics.
pub open spec fn declares_type(declaration: SyntaxNode, n: int, t: int) -> bool {
    &&& 0 <= n < declaration.children@.len() && 0 <= t < declaration.children@.len()
    &&& opt_text(declaration.children@[n].field) == Some("name"@)
    &&& forall|j: int|
        0 <= j < n ==> opt_text((#[trigger] declaration.children@[j]).field) != Some("name"@)
    &&& declaration.children@[n].kind@ == "identifier"@
    &&& opt_text(declaration.children@[t].field) == Some("type"@) && declaration.children@[t].named
    &&& forall|j: int|
        0 <= j < t ==> !(opt_text((#[trigger] declaration.children@[j]).field) == Some("type"@)
            && declaration.children@[j].named)
    &&& !generic_syntax(declaration)
}

proof fn lemma_declares_type(
    u: UnitModel,
    declaration: SyntaxNode,
    n: int,
    t: int,
    scope: usize,
    source: Seq<u8>,
    visibility: Visibility,
)
    requires
        declares_type(declaration, n, t),
        declaration.children@[t].kind@ != "type"@,
    ensures
        collect_type(u, declaration, scope, source, false, visibility) == define(
            u.with_type().with_binding(
                scope,
                name_of(declaration.children@[n], source),
                declaration.start,
                BindingKind::Type(u.next_type()),
                visibility,
            ),
            declaration.children@[t],
            u.next_type().local,
            scope,
            source,
        ),
{
    law_first_that_fits(declaration.children@, any_field("name"@), 0);
    law_first_that_fits(declaration.children@, named_field("type"@), 0);
    assert(declaration.find(any_field("name"@)) == Some(n));
    assert(declaration.find(named_field("type"@)) == Some(t));
}

/// A class declaration binds its name, from where it starts, to a new class; the class
/// has a new scope for its members inside the scope that it stands in, and the ancestor
/// that the declaration names. It is incomplete exactly where no `end` closes it.
///
/// The witness gives the scope of the members.
pub proof fn law_class_declaration(
    u: UnitModel,
    declaration: SyntaxNode,
    n: int,
    t: int,
    scope: usize,
    source: Seq<u8>,
    visibility: Visibility,
) -> (class_scope: usize)
    requires
        declares_type(declaration, n, t),
        declaration.children@[t].kind@ == "declClass"@,
        exists|j: int|
            0 <= j < declaration.children@[t].children@.len() && (
            #[trigger] declaration.children@[t].children@[j]).kind@ == "kClass"@
                && declaration.children@[t].children@[j].named,
        name_of(declaration.children@[n], source).len() > 0,
        scope < u.scopes.len() < usize::MAX,
        collect_type(u, declaration, scope, source, false, visibility).types.len() <= usize::MAX,
    ensures
        ({
            let after = collect_type(u, declaration, scope, source, false, visibility);
            let class = declaration.children@[t];
            let local = u.types.len() as int;
            &&& grows(u, after)
            &&& bound(
                after,
                scope,
                name_of(declaration.children@[n], source),
                declaration.start,
                BindingKind::Type(TypeId { unit: u.unit_index, local: local as usize }),
                visibility,
            )
            &&& u.scopes.len() <= class_scope < after.scopes.len()
            &&& after.scopes[class_scope as int].parent == Some(scope)
            &&& after.scopes[class_scope as int].start == class.start
            &&& after.scopes[class_scope as int].end == class.end
            &&& local < after.types.len()
            &&& after.types[local] matches DefinitionModel::Class {
                class_scope: own,
                parent,
                incomplete,
                ..
            } && own == class_scope && (parent is Absent <==> (forall|j: int|
                0 <= j < class.children@.len() ==> !(opt_text(
                    (#[trigger] class.children@[j]).field,
                ) == Some("parent"@) && class.children@[j].named))) && (incomplete <==> (forall|
                j: int,
            |
                0 <= j < class.children@.len() ==> !((#[trigger] class.children@[j]).kind@
                    == "kEnd"@ && class.children@[j].named)))
        }),
{
    lemma_words();
    lemma_declares_type(u, declaration, n, t, scope, source, visibility);
    lemma_type(u, declaration, scope, source, false, visibility);
    let class = declaration.children@[t];
    let name = name_of(declaration.children@[n], source);
    let id = u.next_type();
    let kind = BindingKind::Type(id);
    let u1 = u.with_type().with_binding(scope, name, declaration.start, kind, visibility);
    lemma_binding(u.with_type(), scope, name, declaration.start, kind, visibility);
    let default = Visibility::Default;
    let absent = CreateMember::Absent;
    let own = u1.next_scope();
    let u2 = u1.with_scope(Some(scope), class.start, class.end);
    lemma_scope(u1, Some(scope), class.start, class.end);
    let u3 = collect_members(u2, class, own, source, default, absent, 0).0;
    lemma_members(u2, class, own, source, default, absent, 0);
    lemma_then(u1, u2, u3);
    lemma_bound_still(u1, u3, scope, name, declaration.start, kind, visibility);
    law_first_that_fits(class.children@, named_kind("kClass"@), 0);
    law_first_that_fits(class.children@, named_kind("kEnd"@), 0);
    law_first_that_fits(class.children@, named_field("parent"@), 0);
    assert(class.find(named_kind("kClass"@)) is Some);
    let after = collect_type(u, declaration, scope, source, false, visibility);
    assert(after == define(u1, class, id.local, scope, source));
    assert(after.scopes == u3.scopes);
    assert(u2.scopes[own as int].parent == Some(scope));
    assert(scope_kept(u2.scopes[own as int], u3.scopes[own as int]));
    own
}

/// The ancestor that a class declares is the name that it writes, read where the class
/// itself stands. With more than one, or in another form, it is not known.
pub proof fn law_declared_ancestor(class: SyntaxNode, scope: usize, source: Seq<u8>, k: int)
    requires
        0 <= k < class.children@.len(),
        opt_text(class.children@[k].field) == Some("parent"@),
        class.children@[k].named,
        forall|j: int|
            0 <= j < class.children@.len() && j != k ==> !(opt_text(
                (#[trigger] class.children@[j]).field,
            ) == Some("parent"@) && class.children@[j].named),
    ensures
        match type_parts_of(class.children@[k], source) {
            Some(parts) => parent_of_class(class, scope, source) == ParentModel::Reference(
                ReferenceModel { parts, scope, offset: class.children@[k].start },
            ),
            None => parent_of_class(class, scope, source) is Unsupported,
        },
{
    law_first_that_fits(class.children@, named_field("parent"@), 0);
    assert(class.find(named_field("parent"@)) == Some(k));
    lemma_one_hit(class.children@, named_field("parent"@), k, class.children@.len() as int);
}

proof fn lemma_one_hit(nodes: Seq<SyntaxNode>, q: crate::syntax::Query, k: int, n: int)
    requires
        0 <= k < nodes.len(),
        0 <= n <= nodes.len(),
        forall|j: int| 0 <= j < nodes.len() && j != k ==> !hit(q, #[trigger] nodes[j]),
    ensures
        count_hits(nodes, q, n) <= (if k < n {
            1nat
        } else {
            0nat
        }),
    decreases n,
{
    if n > 0 {
        lemma_one_hit(nodes, q, k, n - 1);
    }
}

/// A declaration by the name of another type is an alias of what that name stands for
/// where the alias is declared.
pub proof fn law_alias_declaration(
    u: UnitModel,
    declaration: SyntaxNode,
    n: int,
    t: int,
    scope: usize,
    source: Seq<u8>,
    visibility: Visibility,
)
    requires
        declares_type(declaration, n, t),
        declaration.children@[t].kind@ == "typeref"@ || declaration.children@[t].kind@
            == "typerefDot"@,
        name_of(declaration.children@[n], source).len() > 0,
        scope < u.scopes.len(),
        u.types.len() < usize::MAX,
    ensures
        ({
            let after = collect_type(u, declaration, scope, source, false, visibility);
            let local = u.types.len() as int;
            let target = declaration.children@[t];
            &&& grows(u, after)
            &&& bound(
                after,
                scope,
                name_of(declaration.children@[n], source),
                declaration.start,
                BindingKind::Type(TypeId { unit: u.unit_index, local: local as usize }),
                visibility,
            )
            &&& local < after.types.len()
            &&& match type_parts_of(target, source) {
                Some(parts) => after.types[local] == DefinitionModel::Alias(
                    Some(ReferenceModel { parts, scope, offset: target.start }),
                ),
                None => after.types[local] == DefinitionModel::Alias(None),
            }
        }),
{
    lemma_words();
    lemma_declares_type(u, declaration, n, t, scope, source, visibility);
    lemma_type(u, declaration, scope, source, false, visibility);
    let name = name_of(declaration.children@[n], source);
    let kind = BindingKind::Type(u.next_type());
    lemma_binding(u.with_type(), scope, name, declaration.start, kind, visibility);
}

/// A type that is declared in a conditional branch is bound, but as something that is
/// not supported.
pub proof fn law_conditional_types_are_not_relied_on(
    u: UnitModel,
    declaration: SyntaxNode,
    n: int,
    scope: usize,
    source: Seq<u8>,
    visibility: Visibility,
)
    requires
        0 <= n < declaration.children@.len(),
        opt_text(declaration.children@[n].field) == Some("name"@),
        forall|j: int|
            0 <= j < n ==> opt_text((#[trigger] declaration.children@[j]).field) != Some("name"@),
        declaration.children@[n].kind@ == "identifier"@,
        name_of(declaration.children@[n], source).len() > 0,
        scope < u.scopes.len(),
    ensures
        bound(
            collect_type(u, declaration, scope, source, true, visibility),
            scope,
            name_of(declaration.children@[n], source),
            declaration.start,
            BindingKind::Unsupported,
            visibility,
        ),
{
    law_first_that_fits(declaration.children@, any_field("name"@), 0);
    assert(declaration.find(any_field("name"@)) == Some(n));
    let name = name_of(declaration.children@[n], source);
    let kind = BindingKind::Unsupported;
    lemma_binding(u.with_type(), scope, name, declaration.start, kind, visibility);
}

/// Each declaration of a section of types is collected, in order, in the scope of the
/// section.
///
/// The witness gives the unit before declaration `i`.
pub proof fn law_section_of_types(
    u: UnitModel,
    node: SyntaxNode,
    scope: usize,
    source: Seq<u8>,
    conditional: bool,
    visibility: Visibility,
    create: CreateMember,
    from: int,
    i: int,
) -> (at: UnitModel)
    requires
        0 <= from <= i < node.children@.len(),
        node.children@[i].named,
        node.children@[i].kind@ == "declType"@,
    ensures
        grows(u, at),
        grows(
            collect_type(at, node.children@[i], scope, source, conditional, visibility),
            collect_types(u, node, scope, source, conditional, visibility, create, from).0,
        ),
    decreases i - from,
{
    let child = node.children@[from];
    let next = from + 1;
    if child.named && child.kind@ == "declType"@ {
        let u1 = collect_type(u, child, scope, source, conditional, visibility);
        lemma_type(u, child, scope, source, conditional, visibility);
        let own = type_create_member(child, source, conditional, visibility);
        let create1 = merged(create, own);
        if from == i {
            lemma_types(u1, node, scope, source, conditional, visibility, create1, next);
            u
        } else {
            let at = law_section_of_types(
                u1,
                node,
                scope,
                source,
                conditional,
                visibility,
                create1,
                next,
                i,
            );
            lemma_then(u, u1, at);
            at
        }
    } else {
        let create1 = if child.named && child.kind@ == "ppBlock"@ {
            merged(create, CreateMember::Unknown)
        } else {
            create
        };
        law_section_of_types(u, node, scope, source, conditional, visibility, create1, next, i)
    }
}

// Values -----------------------------------------------------------------------------------------

/// Each name of a declaration of values is bound as a value, from where the name stands,
/// under the visibility of the section.
pub proof fn law_value_names(
    u: UnitModel,
    declaration: SyntaxNode,
    scope: usize,
    source: Seq<u8>,
    visibility: Visibility,
    create: CreateMember,
    from: int,
    i: int,
)
    requires
        0 <= from <= i < declaration.children@.len(),
        opt_text(declaration.children@[i].field) == Some("name"@),
        declaration.children@[i].named,
        name_of(declaration.children@[i], source).len() > 0,
        scope < u.scopes.len(),
    ensures
        bound(
            with_value_names(u, declaration, scope, source, visibility, create, from).0,
            scope,
            name_of(declaration.children@[i], source),
            declaration.children@[i].start,
            BindingKind::Value,
            visibility,
        ),
    decreases i - from,
{
    let child = declaration.children@[from];
    let value = BindingKind::Value;
    if hit(named_field("name"@), child) {
        let name = name_of(child, source);
        let u1 = u.with_binding(scope, name, child.start, value, visibility);
        lemma_binding(u, scope, name, child.start, value, visibility);
        let create1 = if name == "create"@ {
            merged(create, CreateMember::NonConstructor(visibility))
        } else {
            create
        };
        if from == i {
            lemma_value_names(u1, declaration, scope, source, visibility, create1, from + 1);
            let v = with_value_names(
                u1,
                declaration,
                scope,
                source,
                visibility,
                create1,
                from + 1,
            ).0;
            lemma_bound_still(u1, v, scope, name, child.start, value, visibility);
        } else {
            law_value_names(u1, declaration, scope, source, visibility, create1, from + 1, i);
        }
    } else {
        law_value_names(u, declaration, scope, source, visibility, create, from + 1, i);
    }
}

/// The names of every variable and constant of a section are bound.
pub proof fn law_section_of_values(
    u: UnitModel,
    node: SyntaxNode,
    scope: usize,
    source: Seq<u8>,
    visibility: Visibility,
    create: CreateMember,
    from: int,
    i: int,
    j: int,
)
    requires
        0 <= from <= i < node.children@.len(),
        node.children@[i].named,
        node.children@[i].kind@ == "declVar"@ || node.children@[i].kind@ == "declConst"@,
        0 <= j < node.children@[i].children@.len(),
        opt_text(node.children@[i].children@[j].field) == Some("name"@),
        node.children@[i].children@[j].named,
        name_of(node.children@[i].children@[j], source).len() > 0,
        scope < u.scopes.len(),
    ensures
        bound(
            with_value_section(u, node, scope, source, visibility, create, from).0,
            scope,
            name_of(node.children@[i].children@[j], source),
            node.children@[i].children@[j].start,
            BindingKind::Value,
            visibility,
        ),
    decreases i - from,
{
    let child = node.children@[from];
    let next = from + 1;
    reveal_strlit("ppBlock");
    reveal_strlit("declVar");
    reveal_strlit("declConst");
    assert("ppBlock"@[0] == 'p' && "declVar"@[0] == 'd' && "declConst"@[0] == 'd');
    if child.named && child.kind@ == "ppBlock"@ {
        let create1 = merged(create, CreateMember::Unknown);
        law_section_of_values(u, node, scope, source, visibility, create1, next, i, j);
    } else if child.named && (child.kind@ == "declVar"@ || child.kind@ == "declConst"@) {
        lemma_value_names(u, child, scope, source, visibility, create, 0);
        let (u1, create1) = with_value_names(u, child, scope, source, visibility, create, 0);
        if from == i {
            law_value_names(u, child, scope, source, visibility, create, 0, j);
            lemma_value_section(u1, node, scope, source, visibility, create1, next);
            let v = with_value_section(u1, node, scope, source, visibility, create1, next).0;
            let name = child.children@[j];
            let text = name_of(name, source);
            lemma_bound_still(u1, v, scope, text, name.start, BindingKind::Value, visibility);
        } else {
            law_section_of_values(u1, node, scope, source, visibility, create1, next, i, j);
        }
    } else {
        law_section_of_values(u, node, scope, source, visibility, create, next, i, j);
    }
}

// Members ----------------------------------------------------------------------------------------

/// The visibility of a class section is that of its first visibility keyword, and the
/// strict form where `strict` stands before it.
pub proof fn law_section_visibility(node: SyntaxNode, strict: bool, from: int, i: int)
    requires
        0 <= from <= i < node.children@.len(),
        node.children@[i].named,
        forall|j: int|
            from <= j < i ==> !(#[trigger] node.children@[j]).named || !set![
                "kStrict"@,
                "kPrivate"@,
                "kProtected"@,
                "kPublic"@,
                "kPublished"@,
            ].contains(node.children@[j].kind@),
    ensures
        node.children@[i].kind@ == "kPrivate"@ ==> section_visibility(node, strict, from) == (
        if strict {
            Visibility::StrictPrivate
        } else {
            Visibility::Private
        }),
        node.children@[i].kind@ == "kProtected"@ ==> section_visibility(node, strict, from) == (
        if strict {
            Visibility::StrictProtected
        } else {
            Visibility::Protected
        }),
        node.children@[i].kind@ == "kPublic"@ ==> section_visibility(node, strict, from)
            == Visibility::Public,
        node.children@[i].kind@ == "kPublished"@ ==> section_visibility(node, strict, from)
            == Visibility::Published,
        node.children@[i].kind@ == "kStrict"@ ==> section_visibility(node, strict, from)
            == section_visibility(node, true, i + 1),
    decreases i - from,
{
    lemma_visibility_words();
    if from < i {
        let words = set!["kStrict"@, "kPrivate"@, "kProtected"@, "kPublic"@, "kPublished"@];
        let kind = node.children@[from].kind@;
        assert(words.contains("kStrict"@) && words.contains("kPrivate"@));
        assert(words.contains("kProtected"@) && words.contains("kPublic"@));
        assert(words.contains("kPublished"@));
        law_section_visibility(node, strict, from + 1, i);
    }
}

proof fn lemma_visibility_words()
    ensures
        "kStrict"@ != "kPrivate"@,
        "kStrict"@ != "kProtected"@,
        "kStrict"@ != "kPublic"@,
        "kStrict"@ != "kPublished"@,
        "kPrivate"@ != "kProtected"@,
        "kPrivate"@ != "kPublic"@,
        "kPrivate"@ != "kPublished"@,
        "kProtected"@ != "kPublic"@,
        "kProtected"@ != "kPublished"@,
        "kPublic"@ != "kPublished"@,
{
    reveal_strlit("kStrict");
    reveal_strlit("kPrivate");
    reveal_strlit("kProtected");
    reveal_strlit("kPublic");
    reveal_strlit("kPublished");
    assert("kStrict"@[1] == 'S' && "kPrivate"@.len() == 8 && "kProtected"@.len() == 10);
    assert("kPublic"@.len() == 7 && "kPublished"@.len() == 10 && "kPublic"@[1] == 'P');
    assert("kProtected"@[2] == 'r' && "kPublished"@[2] == 'u');
}

/// Each member of a class is collected, in order, in the scope of the class: a section
/// of members with the visibility that it declares, and every other member with that
/// of the place it stands in.
///
/// The witness gives the unit before member `i`, and what is known of `Create` there.
pub proof fn law_members(
    u: UnitModel,
    node: SyntaxNode,
    scope: usize,
    source: Seq<u8>,
    visibility: Visibility,
    create: CreateMember,
    from: int,
    i: int,
) -> (r: (UnitModel, CreateMember))
    requires
        0 <= from <= i < node.children@.len(),
        node.children@[i].named,
    ensures
        ({
            let (at, known) = r;
            let child = node.children@[i];
            let after = collect_members(u, node, scope, source, visibility, create, from).0;
            &&& grows(u, at)
            &&& child.kind@ == "declField"@ || child.kind@ == "declProp"@ ==> grows(
                with_value_names(at, child, scope, source, visibility, known, 0).0,
                after,
            )
            &&& child.kind@ == "declProc"@ ==> grows(
                with_proc_binding(at, child, scope, source, false, visibility),
                after,
            )
            &&& child.kind@ == "declTypes"@ ==> grows(
                collect_types(
                    at,
                    child,
                    scope,
                    source,
                    false,
                    visibility,
                    CreateMember::Absent,
                    0,
                ).0,
                after,
            )
            &&& child.kind@ == "declSection"@ ==> grows(
                collect_members(
                    at,
                    child,
                    scope,
                    source,
                    section_visibility(child, false, 0),
                    CreateMember::Absent,
                    0,
                ).0,
                after,
            )
        }),
    decreases i - from,
{
    lemma_member_words();
    let child = node.children@[from];
    lemma_member(u, child, scope, source, visibility, create);
    let (u1, create1) = member_step(u, child, scope, source, visibility, create);
    let next = from + 1;
    assert(collect_members(u, node, scope, source, visibility, create, from) == collect_members(
        u1,
        node,
        scope,
        source,
        visibility,
        create1,
        next,
    ));
    if from == i {
        lemma_members(u1, node, scope, source, visibility, create1, next);
        (u, create)
    } else {
        let r = law_members(u1, node, scope, source, visibility, create1, next, i);
        lemma_then(u, u1, r.0);
        r
    }
}

proof fn lemma_member_words()
    ensures
        "declField"@ != "declTypes"@,
        "declField"@ != "declVars"@,
        "declField"@ != "declConsts"@,
        "declProp"@ != "declTypes"@,
        "declProp"@ != "declVars"@,
        "declProp"@ != "declConsts"@,
        "declProc"@ != "declTypes"@,
        "declProc"@ != "declVars"@,
        "declProc"@ != "declConsts"@,
        "declProc"@ != "declField"@,
        "declProc"@ != "declProp"@,
        "declSection"@ != "declTypes"@,
        "declSection"@ != "declVars"@,
        "declSection"@ != "declConsts"@,
        "declSection"@ != "declField"@,
        "declSection"@ != "declProp"@,
        "declSection"@ != "declProc"@,
{
    reveal_strlit("declField");
    reveal_strlit("declTypes");
    reveal_strlit("declVars");
    reveal_strlit("declConsts");
    reveal_strlit("declProp");
    reveal_strlit("declProc");
    reveal_strlit("declSection");
    assert("declField"@[4] == 'F' && "declTypes"@[4] == 'T' && "declVars"@[4] == 'V');
    assert("declConsts"@[4] == 'C' && "declProp"@[4] == 'P' && "declProc"@[4] == 'P');
    assert("declSection"@[4] == 'S' && "declProp"@[7] == 'p' && "declProc"@[7] == 'c');
}

/// A routine that is declared under an unqualified name is bound as a value from where
/// its declaration starts.
pub proof fn law_routine_name(
    u: UnitModel,
    declaration: SyntaxNode,
    scope: usize,
    source: Seq<u8>,
    visibility: Visibility,
    k: int,
)
    requires
        0 <= k < declaration.children@.len(),
        opt_text(declaration.children@[k].field) == Some("name"@),
        forall|j: int|
            0 <= j < k ==> opt_text((#[trigger] declaration.children@[j]).field) != Some("name"@),
        declaration.children@[k].kind@ == "identifier"@,
        name_of(declaration.children@[k], source).len() > 0,
        scope < u.scopes.len(),
    ensures
        bound(
            with_proc_binding(u, declaration, scope, source, false, visibility),
            scope,
            name_of(declaration.children@[k], source),
            declaration.start,
            BindingKind::Value,
            visibility,
        ),
{
    law_first_that_fits(declaration.children@, any_field("name"@), 0);
    assert(declaration.find(any_field("name"@)) == Some(k));
    let name = name_of(declaration.children@[k], source);
    lemma_binding(u, scope, name, declaration.start, BindingKind::Value, visibility);
}

/// A routine member is the constructor `Create` exactly where it has that name and is
/// declared as a constructor; under another name it says nothing of `Create`.
pub proof fn law_create_member(
    declaration: SyntaxNode,
    source: Seq<u8>,
    visibility: Visibility,
    k: int,
)
    requires
        0 <= k < declaration.children@.len(),
        opt_text(declaration.children@[k].field) == Some("name"@),
        forall|j: int|
            0 <= j < k ==> opt_text((#[trigger] declaration.children@[j]).field) != Some("name"@),
        declaration.children@[k].kind@ == "identifier"@,
    ensures
        ({
            let found = proc_create_member(declaration, source, visibility);
            let constructs = exists|j: int|
                0 <= j < declaration.children@.len() && (#[trigger] declaration.children@[j]).kind@
                    == "kConstructor"@ && declaration.children@[j].named;
            if name_of(declaration.children@[k], source) == "create"@ {
                if constructs {
                    found == CreateMember::Constructor(visibility)
                } else {
                    found == CreateMember::NonConstructor(visibility)
                }
            } else {
                found == CreateMember::Absent
            }
        }),
{
    law_first_that_fits(declaration.children@, any_field("name"@), 0);
    law_first_that_fits(declaration.children@, named_kind("kConstructor"@), 0);
    assert(declaration.find(any_field("name"@)) == Some(k));
}

/// What a routine member says of `Create` is combined into what the class says.
pub proof fn law_members_combine(
    u: UnitModel,
    node: SyntaxNode,
    scope: usize,
    source: Seq<u8>,
    visibility: Visibility,
    create: CreateMember,
    i: int,
)
    requires
        0 <= i < node.children@.len(),
        node.children@[i].named,
        node.children@[i].kind@ == "declProc"@,
    ensures
        collect_members(u, node, scope, source, visibility, create, i).1 == collect_members(
            with_proc_binding(u, node.children@[i], scope, source, false, visibility),
            node,
            scope,
            source,
            visibility,
            merged(create, proc_create_member(node.children@[i], source, visibility)),
            i + 1,
        ).1,
{
    lemma_member_words();
}

// Scopes -----------------------------------------------------------------------------------------

/// The named parts of a node that declares nothing itself are collected, in order, in
/// the scope that the node stands in.
///
/// The witness gives the unit before part `i`.
pub proof fn law_parts_are_collected(
    u: UnitModel,
    node: SyntaxNode,
    scope: usize,
    source: Seq<u8>,
    conditional: bool,
    i: int,
) -> (at: UnitModel)
    requires
        !set![
            "defProc"@,
            "lambda"@,
            "for"@,
            "foreach"@,
            "declTypes"@,
            "declVars"@,
            "declConsts"@,
            "varDef"@,
            "varAssignDef"@,
            "declProc"@,
            "exceptionHandler"@,
        ].contains(node.kind@),
        !node.preprocessor(source),
        0 <= i < node.children@.len(),
        node.children@[i].named,
    ensures
        grows(u, at),
        grows(
            collect(at, node.children@[i], scope, source, conditional),
            collect(u, node, scope, source, conditional),
        ),
{
    let words = set![
        "defProc"@,
        "lambda"@,
        "for"@,
        "foreach"@,
        "declTypes"@,
        "declVars"@,
        "declConsts"@,
        "varDef"@,
        "varAssignDef"@,
        "declProc"@,
        "exceptionHandler"@,
    ];
    assert(words.contains("defProc"@) && words.contains("lambda"@) && words.contains("for"@));
    assert(words.contains("foreach"@) && words.contains("declTypes"@));
    assert(words.contains("declVars"@) && words.contains("declConsts"@));
    assert(words.contains("varDef"@) && words.contains("varAssignDef"@));
    assert(words.contains("declProc"@) && words.contains("exceptionHandler"@));
    let u2 = begun(u, node, source);
    let at = lemma_part(u2, node, scope, source, conditional, 0, i);
    lemma_then(u, u2, at);
    at
}

proof fn lemma_part(
    u: UnitModel,
    node: SyntaxNode,
    scope: usize,
    source: Seq<u8>,
    conditional: bool,
    from: int,
    i: int,
) -> (at: UnitModel)
    requires
        0 <= from <= i < node.children@.len(),
        node.children@[i].named,
    ensures
        grows(u, at),
        grows(
            collect(at, node.children@[i], scope, source, conditional),
            collect_named(u, node, scope, source, conditional, from),
        ),
    decreases i - from,
{
    let u1 = if node.children@[from].named {
        collect(u, node.children@[from], scope, source, conditional)
    } else {
        u
    };
    if node.children@[from].named {
        lemma_collect(u, node.children@[from], scope, source, conditional);
    }
    if from == i {
        lemma_named(u1, node, scope, source, conditional, from + 1);
        u
    } else {
        let at = lemma_part(u1, node, scope, source, conditional, from + 1, i);
        lemma_then(u, u1, at);
        at
    }
}

/// The range of a `with` statement is recorded, and a preprocessor directive makes the
/// whole unit uncertain.
pub proof fn law_places_are_recorded(
    u: UnitModel,
    node: SyntaxNode,
    scope: usize,
    source: Seq<u8>,
    conditional: bool,
)
    ensures
        ({
            let after = collect(u, node, scope, source, conditional);
            &&& grows(u, after)
            &&& node.kind@ == "with"@ ==> after.with_ranges.contains((node.start, node.end))
            &&& node.preprocessor(source) ==> after.has_preprocessor_barrier
                && after.unsupported_ranges.contains((node.start, node.end))
        }),
{
    lemma_collect(u, node, scope, source, conditional);
    let u2 = begun(u, node, source);
    lemma_collected_from(u, node, scope, source, conditional);
    let after = collect(u, node, scope, source, conditional);
    if node.kind@ == "with"@ {
        let n = u.with_ranges.len() as int;
        assert(u2.with_ranges[n] == (node.start, node.end));
        assert(after.with_ranges[n] == (node.start, node.end));
    }
    if node.preprocessor(source) {
        let n = u.unsupported_ranges.len() as int;
        assert(u2.unsupported_ranges[n] == (node.start, node.end));
        assert(after.unsupported_ranges[n] == (node.start, node.end));
    }
}

proof fn lemma_collected_from(
    u: UnitModel,
    node: SyntaxNode,
    scope: usize,
    source: Seq<u8>,
    conditional: bool,
)
    ensures
        grows(begun(u, node, source), collect(u, node, scope, source, conditional)),
{
    let u2 = begun(u, node, source);
    let c = conditional || node.preprocessor(source);
    let after = collect(u, node, scope, source, conditional);
    let default = Visibility::Default;
    let absent = CreateMember::Absent;
    if node.kind@ == "defProc"@ {
        lemma_routine(u2, node, scope, source, c);
    } else if node.kind@ == "lambda"@ {
        lemma_lambda(u2, node, scope, source, c);
    } else if node.kind@ == "for"@ || node.kind@ == "foreach"@ {
        let u3 = u2.with_scope(Some(scope), node.start, node.end);
        lemma_scope(u2, Some(scope), node.start, node.end);
        lemma_named(u3, node, u2.next_scope(), source, c, 0);
        lemma_then(u2, u3, after);
    } else if node.kind@ == "declTypes"@ {
        lemma_types(u2, node, scope, source, c, default, absent, 0);
    } else if node.kind@ == "declVars"@ || node.kind@ == "declConsts"@ {
        lemma_value_section(u2, node, scope, source, default, absent, 0);
    } else if node.kind@ == "varDef"@ || node.kind@ == "varAssignDef"@ {
    } else if node.kind@ == "declProc"@ {
        lemma_proc_binding(u2, node, scope, source, c, default);
    } else if node.kind@ == "exceptionHandler"@ {
        lemma_handler(u2, node, scope, source, c);
    } else {
        lemma_named(u2, node, scope, source, c, 0);
    }
}

/// The variable of a typed handler is bound as a value in a scope of its own, which
/// goes from the start of the body to the end of the handler; the statements of the
/// body are collected in that scope.
pub proof fn law_handler_variable(
    u: UnitModel,
    handler: SyntaxNode,
    enclosing: usize,
    source: Seq<u8>,
    v: int,
    b: int,
)
    requires
        u.scopes.len() < usize::MAX,
        0 <= b < handler.children@.len(),
        opt_text(handler.children@[b].field) == Some("body"@),
        forall|j: int|
            0 <= j < b ==> opt_text((#[trigger] handler.children@[j]).field) != Some("body"@),
        0 <= v < handler.children@.len(),
        opt_text(handler.children@[v].field) == Some("variable"@),
        forall|j: int|
            0 <= j < v ==> opt_text((#[trigger] handler.children@[j]).field) != Some("variable"@),
        handler.children@[v].kind@ == "identifier"@,
        name_of(handler.children@[v], source).len() > 0,
    ensures
        ({
            let after = collect_handler_of(u, handler, enclosing, source, false);
            let own = u.scopes.len() as usize;
            let body = handler.children@[b];
            &&& grows(u, after)
            &&& own < after.scopes.len()
            &&& after.scopes[own as int].parent == Some(enclosing)
            &&& after.scopes[own as int].start == body.start
            &&& after.scopes[own as int].end == handler.end
            &&& bound(
                after,
                own,
                name_of(handler.children@[v], source),
                body.start,
                BindingKind::Value,
                Visibility::Default,
            )
        }),
{
    law_first_that_fits(handler.children@, any_field("body"@), 0);
    law_first_that_fits(handler.children@, any_field("variable"@), 0);
    assert(handler.find(any_field("body"@)) == Some(b));
    assert(handler.find(any_field("variable"@)) == Some(v));
    lemma_handler(u, handler, enclosing, source, false);
    let body = handler.children@[b];
    let own = u.next_scope();
    let name = name_of(handler.children@[v], source);
    let value = BindingKind::Value;
    let default = Visibility::Default;
    let u1 = u.with_scope(Some(enclosing), body.start, handler.end);
    let u2 = handler_bound(u, handler, body, enclosing, source, false);
    lemma_binding(u1, own, name, body.start, value, default);
    lemma_named(u2, body, own, source, false, 0);
    let after = collect_named(u2, body, own, source, false, 0);
    lemma_bound_still(u2, after, own, name, body.start, value, default);
    assert(scope_kept(u2.scopes[own as int], after.scopes[own as int]));
}

/// A routine has a scope of its own inside the one that it stands in, over its whole
/// text. In the scope of a method, `Self` is a value and the class is looked up by the
/// parts of its name before the last; in that of a function, `Result` is a value. The
/// body of the routine is collected in its scope.
///
/// The witness gives the unit before the body.
pub proof fn law_routine_scope(
    u: UnitModel,
    routine: SyntaxNode,
    enclosing: usize,
    source: Seq<u8>,
    h: int,
    k: int,
    b: int,
) -> (at: UnitModel)
    requires
        u.scopes.len() < usize::MAX,
        0 <= h < routine.children@.len(),
        opt_text(routine.children@[h].field) == Some("header"@),
        forall|j: int|
            0 <= j < h ==> opt_text((#[trigger] routine.children@[j]).field) != Some("header"@),
        0 <= k < routine.children@[h].children@.len(),
        opt_text(routine.children@[h].children@[k].field) == Some("name"@),
        forall|j: int|
            0 <= j < k ==> opt_text((#[trigger] routine.children@[h].children@[j]).field) != Some(
                "name"@,
            ),
        0 <= b < routine.children@.len(),
        opt_text(routine.children@[b].field) == Some("body"@),
        forall|j: int|
            0 <= j < b ==> opt_text((#[trigger] routine.children@[j]).field) != Some("body"@),
    ensures
        ({
            let header = routine.children@[h];
            let parts = name_parts_of(header.children@[k], source);
            let after = collect_routine_of(u, routine, enclosing, source, false);
            let own = u.scopes.len() as usize;
            &&& grows(u, at)
            &&& after == collect(at, routine.children@[b], own, source, false)
            &&& own < at.scopes.len()
            &&& at.scopes[own as int].parent == Some(enclosing)
            &&& at.scopes[own as int].start == routine.start
            &&& at.scopes[own as int].end == routine.end
            &&& parts is Some && parts->0.len() > 1 ==> {
                &&& bound(
                    at,
                    own,
                    "self"@,
                    routine.start,
                    BindingKind::Value,
                    Visibility::Default,
                )
                &&& at.pending_method_owners.contains(
                    OwnerModel {
                        routine_scope: own,
                        owner_parts: Some(parts->0.drop_last()),
                        enclosing_scope: enclosing,
                        offset: routine.start,
                    },
                )
            }
            &&& (exists|j: int|
                0 <= j < header.children@.len() && (#[trigger] header.children@[j]).kind@
                    == "kFunction"@ && header.children@[j].named) ==> bound(
                at,
                own,
                "result"@,
                routine.start,
                BindingKind::Value,
                Visibility::Default,
            )
        }),
{
    let header = routine.children@[h];
    law_first_that_fits(routine.children@, any_field("header"@), 0);
    law_first_that_fits(routine.children@, any_field("body"@), 0);
    law_first_that_fits(header.children@, any_field("name"@), 0);
    law_first_that_fits(header.children@, named_kind("kFunction"@), 0);
    assert(routine.find(any_field("header"@)) == Some(h));
    assert(routine.find(any_field("body"@)) == Some(b));
    assert(header.find(any_field("name"@)) == Some(k));
    let default = Visibility::Default;
    let value = BindingKind::Value;
    let u1 = with_proc_binding(u, header, enclosing, source, false, default);
    lemma_proc_binding(u, header, enclosing, source, false, default);
    let own = u1.next_scope();
    assert(u1.scopes.len() == u.scopes.len());
    let s = u1.with_scope(Some(enclosing), routine.start, routine.end);
    lemma_scope(u1, Some(enclosing), routine.start, routine.end);
    lemma_then(u, u1, s);
    let u2 = with_argument_list(s, header, own, source);
    lemma_argument_list(s, header, own, source);
    lemma_then(u, s, u2);
    assert(scope_kept(s.scopes[own as int], u2.scopes[own as int]));
    let name = header.children@[k];
    let u3 = with_routine_names(u2, routine, header, name, own, enclosing, source);
    lemma_routine_names(u2, routine, header, name, own, enclosing, source);
    lemma_named_routine(u2, routine, header, name, own, enclosing, source);
    lemma_then(u, u2, u3);
    assert(scope_kept(u2.scopes[own as int], u3.scopes[own as int]));
    lemma_locals(u3, routine, own, source, false, 0);
    let at = collect_locals(u3, routine, own, source, false, 0);
    lemma_then(u, u3, at);
    assert(scope_kept(u3.scopes[own as int], at.scopes[own as int]));
    let parts = name_parts_of(name, source);
    if parts is Some && parts->0.len() > 1 {
        lemma_bound_still(u3, at, own, "self"@, routine.start, value, default);
        let entry = OwnerModel {
            routine_scope: own,
            owner_parts: Some(parts->0.drop_last()),
            enclosing_scope: enclosing,
            offset: routine.start,
        };
        let j = choose|j: int|
            0 <= j < u3.pending_method_owners.len() && u3.pending_method_owners[j] == entry;
        assert(at.pending_method_owners[j] == entry);
    }
    if header.find(named_kind("kFunction"@)) is Some {
        lemma_bound_still(u3, at, own, "result"@, routine.start, value, default);
    }
    at
}

proof fn lemma_named_routine(
    u: UnitModel,
    routine: SyntaxNode,
    header: SyntaxNode,
    name: SyntaxNode,
    scope: usize,
    enclosing: usize,
    source: Seq<u8>,
)
    requires
        scope < u.scopes.len(),
    ensures
        ({
            let after = with_routine_names(u, routine, header, name, scope, enclosing, source);
            let parts = name_parts_of(name, source);
            &&& parts is Some && parts->0.len() > 1 ==> {
                &&& bound(
                    after,
                    scope,
                    "self"@,
                    routine.start,
                    BindingKind::Value,
                    Visibility::Default,
                )
                &&& after.pending_method_owners.contains(
                    OwnerModel {
                        routine_scope: scope,
                        owner_parts: Some(parts->0.drop_last()),
                        enclosing_scope: enclosing,
                        offset: routine.start,
                    },
                )
            }
            &&& header.find(named_kind("kFunction"@)) is Some ==> bound(
                after,
                scope,
                "result"@,
                routine.start,
                BindingKind::Value,
                Visibility::Default,
            )
        }),
{
    reveal_strlit("self");
    reveal_strlit("result");
    let value = BindingKind::Value;
    let default = Visibility::Default;
    let at = routine.start;
    let parts = name_parts_of(name, source);
    let after = with_routine_names(u, routine, header, name, scope, enclosing, source);
    let owner = match parts {
        Some(p) => if p.len() > 1 {
            Some(p.subrange(0, p.len() - 1))
        } else {
            None
        },
        None => None,
    };
    let entry = OwnerModel {
        routine_scope: scope,
        owner_parts: owner,
        enclosing_scope: enclosing,
        offset: at,
    };
    let w = u.with_owner(entry);
    let m = w.with_binding(scope, "self"@, at, value, default);
    lemma_binding(w, scope, "self"@, at, value, default);
    let u1 = if owner is Some || (name.kind@ == "genericDot"@ && parts is None) {
        m
    } else {
        u
    };
    let u2 = u1.with_binding(scope, "result"@, at, value, default);
    lemma_binding(u1, scope, "result"@, at, value, default);
    if header.find(named_kind("kFunction"@)) is Some {
        if let Some(p) = parts {
            if p.len() > 0 {
                lemma_binding(u2, scope, p[p.len() - 1], at, value, default);
            }
        }
        assert(grows(u2, after));
        lemma_bound_still(u2, after, scope, "result"@, at, value, default);
        lemma_then(u1, u2, after);
    }
    assert(grows(u1, after));
    if owner is Some {
        lemma_bound_still(m, after, scope, "self"@, at, value, default);
        assert(owner->0 =~= parts->0.drop_last());
        let n = u.pending_method_owners.len() as int;
        assert(m.pending_method_owners[n] == entry);
        assert(after.pending_method_owners[n] == entry);
    }
}

/// A `for` loop has a scope of its own inside the one that it stands in, over its whole
/// text, in which its parts are collected.
///
/// The witness gives the unit before part `i`.
pub proof fn law_loop_scope(
    u: UnitModel,
    node: SyntaxNode,
    scope: usize,
    source: Seq<u8>,
    conditional: bool,
    i: int,
) -> (at: UnitModel)
    requires
        node.kind@ == "for"@ || node.kind@ == "foreach"@,
        !node.preprocessor(source),
        u.scopes.len() < usize::MAX,
        0 <= i < node.children@.len(),
        node.children@[i].named,
    ensures
        ({
            let after = collect(u, node, scope, source, conditional);
            let own = u.scopes.len() as usize;
            &&& grows(u, at)
            &&& own < at.scopes.len()
            &&& at.scopes[own as int].parent == Some(scope)
            &&& at.scopes[own as int].start == node.start
            &&& at.scopes[own as int].end == node.end
            &&& grows(collect(at, node.children@[i], own, source, conditional), after)
        }),
{
    lemma_loop_words();
    let own = u.next_scope();
    let u1 = u.with_scope(Some(scope), node.start, node.end);
    lemma_scope(u, Some(scope), node.start, node.end);
    let at = lemma_part(u1, node, own, source, conditional, 0, i);
    lemma_then(u, u1, at);
    assert(scope_kept(u1.scopes[own as int], at.scopes[own as int]));
    at
}

proof fn lemma_loop_words()
    ensures
        "for"@ != "with"@,
        "foreach"@ != "with"@,
        "for"@ != "defProc"@,
        "foreach"@ != "defProc"@,
        "for"@ != "lambda"@,
        "foreach"@ != "lambda"@,
        "varDef"@ != "with"@,
        "varDef"@ != "defProc"@,
        "varDef"@ != "lambda"@,
        "varDef"@ != "for"@,
        "varDef"@ != "foreach"@,
        "varDef"@ != "declTypes"@,
        "varDef"@ != "declVars"@,
        "varDef"@ != "declConsts"@,
        "varAssignDef"@ != "with"@,
        "varAssignDef"@ != "defProc"@,
        "varAssignDef"@ != "lambda"@,
        "varAssignDef"@ != "for"@,
        "varAssignDef"@ != "foreach"@,
        "varAssignDef"@ != "declTypes"@,
        "varAssignDef"@ != "declVars"@,
        "varAssignDef"@ != "declConsts"@,
{
    reveal_strlit("for");
    reveal_strlit("foreach");
    reveal_strlit("with");
    reveal_strlit("defProc");
    reveal_strlit("lambda");
    reveal_strlit("varDef");
    reveal_strlit("varAssignDef");
    reveal_strlit("declTypes");
    reveal_strlit("declVars");
    reveal_strlit("declConsts");
    assert("for"@[0] == 'f' && "foreach"@[0] == 'f' && "with"@[0] == 'w');
    assert("defProc"@[0] == 'd' && "lambda"@[0] == 'l' && "varDef"@[0] == 'v');
    assert("varAssignDef"@[0] == 'v' && "declTypes"@[0] == 'd' && "declVars"@[0] == 'd');
    assert("declConsts"@[0] == 'd');
}

/// A variable that is declared in a statement is bound as a value from where its name
/// stands.
pub proof fn law_inline_variable(
    u: UnitModel,
    node: SyntaxNode,
    scope: usize,
    source: Seq<u8>,
    conditional: bool,
    k: int,
)
    requires
        node.kind@ == "varDef"@ || node.kind@ == "varAssignDef"@,
        !node.preprocessor(source),
        scope < u.scopes.len(),
        0 <= k < node.children@.len(),
        node.children@[k].kind@ == "identifier"@,
        node.children@[k].named,
        forall|j: int|
            0 <= j < k ==> !((#[trigger] node.children@[j]).kind@ == "identifier"@
                && node.children@[j].named),
        name_of(node.children@[k], source).len() > 0,
    ensures
        bound(
            collect(u, node, scope, source, conditional),
            scope,
            name_of(node.children@[k], source),
            node.children@[k].start,
            BindingKind::Value,
            Visibility::Default,
        ),
{
    lemma_loop_words();
    law_first_that_fits(node.children@, named_kind("identifier"@), 0);
    assert(node.find(named_kind("identifier"@)) == Some(k));
    let name = node.children@[k];
    let text = name_of(name, source);
    lemma_binding(u, scope, text, name.start, BindingKind::Value, Visibility::Default);
}

/// The arguments of a routine are bound as values.
pub proof fn law_arguments(
    u: UnitModel,
    args: SyntaxNode,
    scope: usize,
    source: Seq<u8>,
    from: int,
    i: int,
    j: int,
)
    requires
        0 <= from <= i < args.children@.len(),
        args.children@[i].named,
        args.children@[i].kind@ == "declArg"@,
        0 <= j < args.children@[i].children@.len(),
        opt_text(args.children@[i].children@[j].field) == Some("name"@),
        args.children@[i].children@[j].named,
        name_of(args.children@[i].children@[j], source).len() > 0,
        scope < u.scopes.len(),
    ensures
        bound(
            with_arguments(u, args, scope, source, from),
            scope,
            name_of(args.children@[i].children@[j], source),
            args.children@[i].children@[j].start,
            BindingKind::Value,
            Visibility::Default,
        ),
    decreases i - from,
{
    let child = args.children@[from];
    let default = Visibility::Default;
    let absent = CreateMember::Absent;
    lemma_value_names(u, child, scope, source, default, absent, 0);
    let u1 = if child.named && child.kind@ == "declArg"@ {
        with_value_names(u, child, scope, source, default, absent, 0).0
    } else {
        u
    };
    if from == i {
        law_value_names(u, child, scope, source, default, absent, 0, j);
        lemma_arguments(u1, args, scope, source, from + 1);
        let v = with_arguments(u1, args, scope, source, from + 1);
        let name = child.children@[j];
        let text = name_of(name, source);
        lemma_bound_still(u1, v, scope, text, name.start, BindingKind::Value, default);
    } else {
        law_arguments(u1, args, scope, source, from + 1, i, j);
    }
}

/// The outermost scope of a unit goes over its whole text and lies in none. The unit is
/// uncertain where a directive stands anywhere in it or its text does not parse; what
/// it exports stands in its interface section.
pub proof fn law_unit(unit_index: usize, root: SyntaxNode, source: Seq<u8>)
    requires
        source.len() <= usize::MAX,
    ensures
        ({
            let u = unit_types(unit_index, root, source);
            &&& u.unit_index == unit_index
            &&& u.scopes.len() > 0
            &&& u.scopes[0].parent is None
            &&& u.scopes[0].start == 0
            &&& u.scopes[0].end == source.len()
            &&& u.parser_incomplete == root.error
            &&& directive_in(root, source) ==> u.has_preprocessor_barrier
            &&& u.interface_range == crate::unit_types::module_section(root, "interface"@)
            &&& u.module_name == crate::unit_types::module_name_of(root, source)
        }),
{
    let empty = UnitModel {
        unit_index,
        module_name: crate::unit_types::module_name_of(root, source),
        scopes: Seq::empty(),
        types: Seq::empty(),
        unsupported_ranges: Seq::empty(),
        with_ranges: Seq::empty(),
        has_preprocessor_barrier: directive_in(root, source),
        pending_method_owners: Seq::empty(),
        interface_range: crate::unit_types::module_section(root, "interface"@),
        parser_incomplete: root.error,
    };
    let first = empty.with_scope(None, 0, source.len() as usize);
    lemma_collect(first, root, 0, source, false);
    assert(scope_kept(first.scopes[0], unit_types(unit_index, root, source).scopes[0]));
}

/// Whether a node stands somewhere in a tree.
pub open spec fn within(root: SyntaxNode, node: SyntaxNode) -> bool
    decreases root,
{
    root == node || exists|i: int|
        0 <= i < root.children@.len() && within(#[trigger] root.children@[i], node)
}

/// A directive anywhere in a tree is a directive in the tree.
pub proof fn law_directives_are_found(root: SyntaxNode, node: SyntaxNode, source: Seq<u8>)
    requires
        within(root, node),
        node.preprocessor(source),
    ensures
        directive_in(root, source),
    decreases root,
{
    if root != node {
        let i = choose|i: int|
            0 <= i < root.children@.len() && within(#[trigger] root.children@[i], node);
        law_directives_are_found(root.children@[i], node, source);
        lemma_directive_from(root, source, 0, i);
    }
}

proof fn lemma_directive_from(root: SyntaxNode, source: Seq<u8>, from: int, i: int)
    requires
        0 <= from <= i < root.children@.len(),
        directive_in(root.children@[i], source),
    ensures
        crate::unit_types::directive_from(root, source, from),
    decreases i - from,
{
    if from < i {
        lemma_directive_from(root, source, from + 1, i);
    }
}

} // verus!
