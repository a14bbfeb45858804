//! Trees with the same nodes declare the same.

use vstd::prelude::*;
use crate::syntax::{any_field, hit, module_from, named_field, named_kind, SyntaxNode};
use crate::tree_laws::{alike, group_alike, group_alike_readings};
use crate::unit_types::{
    collect, collect_handler_of, collect_inside, collect_lambda_of, collect_locals, collect_members,
    collect_named, collect_routine_of, collect_type, collect_types, define, directive_in,
    first_name, merged, module_name_of, module_section, name_of, parent_of_class,
    proc_create_member, routine_header, section_visibility, sole_named, type_create_member,
    unit_types, with_argument_list, with_arguments, with_proc_binding, with_routine_names,
    with_value_names, with_value_section, BindingKind, CreateMember, UnitModel, Visibility,
};

verus! {

proof fn lemma_alike_with_value_names(
    u: UnitModel,
    a: SyntaxNode,
    b: SyntaxNode,
    scope: usize,
    source: Seq<u8>,
    visibility: Visibility,
    create: CreateMember,
    i: int,
)
    requires
        alike(a, b),
    ensures
        with_value_names(u, a, scope, source, visibility, create, i) == with_value_names(
            u,
            b,
            scope,
            source,
            visibility,
            create,
            i,
        ),
    decreases a.children@.len() - i,
{
    broadcast use {group_alike, group_alike_readings};

    if 0 <= i < a.children@.len() {
        let child = a.children@[i];
        assert(alike(child, b.children@[i]));
        if hit(named_field("name"@), child) {
            let name = name_of(child, source);
            lemma_alike_with_value_names(
                u.with_binding(scope, name, child.start, BindingKind::Value, visibility),
                a,
                b,
                scope,
                source,
                visibility,
                if name == "create"@ {
                    merged(create, CreateMember::NonConstructor(visibility))
                } else {
                    create
                },
                i + 1,
            );
        } else {
            lemma_alike_with_value_names(u, a, b, scope, source, visibility, create, i + 1);
        }
    }
}

proof fn lemma_alike_with_value_section(
    u: UnitModel,
    a: SyntaxNode,
    b: SyntaxNode,
    scope: usize,
    source: Seq<u8>,
    visibility: Visibility,
    create: CreateMember,
    i: int,
)
    requires
        alike(a, b),
    ensures
        with_value_section(u, a, scope, source, visibility, create, i) == with_value_section(
            u,
            b,
            scope,
            source,
            visibility,
            create,
            i,
        ),
    decreases a.children@.len() - i,
{
    broadcast use {group_alike, group_alike_readings};

    if 0 <= i < a.children@.len() {
        let child = a.children@[i];
        let other = b.children@[i];
        assert(alike(child, other));
        if child.named && child.kind@ == "ppBlock"@ {
            let create1 = merged(create, CreateMember::Unknown);
            lemma_alike_with_value_section(u, a, b, scope, source, visibility, create1, i + 1);
        } else if child.named && (child.kind@ == "declVar"@ || child.kind@ == "declConst"@) {
            lemma_alike_with_value_names(u, child, other, scope, source, visibility, create, 0);
            let (u1, create1) = with_value_names(u, child, scope, source, visibility, create, 0);
            lemma_alike_with_value_section(u1, a, b, scope, source, visibility, create1, i + 1);
        } else {
            lemma_alike_with_value_section(u, a, b, scope, source, visibility, create, i + 1);
        }
    }
}

proof fn lemma_alike_with_arguments(
    u: UnitModel,
    a: SyntaxNode,
    b: SyntaxNode,
    scope: usize,
    source: Seq<u8>,
    i: int,
)
    requires
        alike(a, b),
    ensures
        with_arguments(u, a, scope, source, i) == with_arguments(u, b, scope, source, i),
    decreases a.children@.len() - i,
{
    broadcast use {group_alike, group_alike_readings};

    if 0 <= i < a.children@.len() {
        let child = a.children@[i];
        let plain = Visibility::Default;
        let absent = CreateMember::Absent;
        assert(alike(child, b.children@[i]));
        lemma_alike_with_value_names(u, child, b.children@[i], scope, source, plain, absent, 0);
        let u1 = if child.named && child.kind@ == "declArg"@ {
            with_value_names(u, child, scope, source, plain, absent, 0).0
        } else {
            u
        };
        lemma_alike_with_arguments(u1, a, b, scope, source, i + 1);
    }
}

proof fn lemma_alike_with_argument_list(
    u: UnitModel,
    a: SyntaxNode,
    b: SyntaxNode,
    scope: usize,
    source: Seq<u8>,
)
    requires
        alike(a, b),
    ensures
        with_argument_list(u, a, scope, source) == with_argument_list(u, b, scope, source),
{
    broadcast use {group_alike, group_alike_readings};

    if let Some(k) = a.find(named_field("args"@)) {
        lemma_alike_with_arguments(u, a.children@[k], b.children@[k], scope, source, 0);
    }
}

proof fn lemma_alike_with_proc_binding(
    u: UnitModel,
    a: SyntaxNode,
    b: SyntaxNode,
    scope: usize,
    source: Seq<u8>,
    unsupported: bool,
    visibility: Visibility,
)
    requires
        alike(a, b),
    ensures
        with_proc_binding(u, a, scope, source, unsupported, visibility) == with_proc_binding(
            u,
            b,
            scope,
            source,
            unsupported,
            visibility,
        ),
{
    broadcast use {group_alike, group_alike_readings};

    if let Some(k) = a.find(any_field("name"@)) {
        assert(alike(a.children@[k], b.children@[k]));
    }
}

proof fn lemma_alike_parent_of_class(
    a: SyntaxNode,
    b: SyntaxNode,
    scope: usize,
    source: Seq<u8>,
)
    requires
        alike(a, b),
    ensures
        parent_of_class(a, scope, source) == parent_of_class(b, scope, source),
{
    broadcast use {group_alike, group_alike_readings};

    if let Some(k) = a.find(named_field("parent"@)) {
        assert(alike(a.children@[k], b.children@[k]));
    }
}

proof fn lemma_alike_type_create_member(
    a: SyntaxNode,
    b: SyntaxNode,
    source: Seq<u8>,
    conditional: bool,
    visibility: Visibility,
)
    requires
        alike(a, b),
    ensures
        type_create_member(a, source, conditional, visibility) == type_create_member(
            b,
            source,
            conditional,
            visibility,
        ),
{
    broadcast use {group_alike, group_alike_readings};

    if let Some(k) = a.find(any_field("name"@)) {
        assert(alike(a.children@[k], b.children@[k]));
    }
}

proof fn lemma_alike_proc_create_member(
    a: SyntaxNode,
    b: SyntaxNode,
    source: Seq<u8>,
    visibility: Visibility,
)
    requires
        alike(a, b),
    ensures
        proc_create_member(a, source, visibility) == proc_create_member(b, source, visibility),
{
    broadcast use {group_alike, group_alike_readings};

    if let Some(k) = a.find(any_field("name"@)) {
        assert(alike(a.children@[k], b.children@[k]));
    }
}

proof fn lemma_alike_with_routine_names(
    u: UnitModel,
    a: SyntaxNode,
    b: SyntaxNode,
    header: SyntaxNode,
    other: SyntaxNode,
    name: SyntaxNode,
    second: SyntaxNode,
    scope: usize,
    enclosing: usize,
    source: Seq<u8>,
)
    requires
        alike(a, b),
        alike(header, other),
        alike(name, second),
    ensures
        with_routine_names(u, a, header, name, scope, enclosing, source) == with_routine_names(
            u,
            b,
            other,
            second,
            scope,
            enclosing,
            source,
        ),
{
    broadcast use {group_alike, group_alike_readings};

}

proof fn lemma_alike_collect(
    u: UnitModel,
    a: SyntaxNode,
    b: SyntaxNode,
    scope: usize,
    source: Seq<u8>,
    conditional: bool,
)
    requires
        alike(a, b),
    ensures
        collect(u, a, scope, source, conditional) == collect(u, b, scope, source, conditional),
    decreases a, 3int, 0int,
{
    broadcast use group_alike;

    let directive = a.preprocessor(source);
    let c = conditional || directive;
    let u1 = if directive {
        u.with_directive(a.start, a.end)
    } else {
        u
    };
    let u2 = if a.kind@ == "with"@ {
        u1.with_with(a.start, a.end)
    } else {
        u1
    };
    if a.kind@ == "defProc"@ {
        lemma_alike_collect_routine_of(u2, a, b, scope, source, c);
    } else if a.kind@ == "lambda"@ {
        lemma_alike_collect_lambda_of(u2, a, b, scope, source, c);
    } else if a.kind@ == "for"@ || a.kind@ == "foreach"@ {
        let u3 = u2.with_scope(Some(scope), a.start, a.end);
        lemma_alike_collect_named(u3, a, b, u2.next_scope(), source, c, 0);
    } else if a.kind@ == "declTypes"@ {
        lemma_alike_collect_types(
            u2,
            a,
            b,
            scope,
            source,
            c,
            Visibility::Default,
            CreateMember::Absent,
            0,
        );
    } else if a.kind@ == "declVars"@ || a.kind@ == "declConsts"@ {
        lemma_alike_with_value_section(
            u2,
            a,
            b,
            scope,
            source,
            Visibility::Default,
            CreateMember::Absent,
            0,
        );
    } else if a.kind@ == "varDef"@ || a.kind@ == "varAssignDef"@ {
        if let Some(k) = a.find(named_kind("identifier"@)) {
            assert(alike(a.children@[k], b.children@[k]));
        }
    } else if a.kind@ == "declProc"@ {
        lemma_alike_with_proc_binding(u2, a, b, scope, source, c, Visibility::Default);
    } else if a.kind@ == "exceptionHandler"@ {
        lemma_alike_collect_handler_of(u2, a, b, scope, source, c);
    } else {
        lemma_alike_collect_named(u2, a, b, scope, source, c, 0);
    }
}

proof fn lemma_alike_collect_named(
    u: UnitModel,
    a: SyntaxNode,
    b: SyntaxNode,
    scope: usize,
    source: Seq<u8>,
    conditional: bool,
    i: int,
)
    requires
        alike(a, b),
    ensures
        collect_named(u, a, scope, source, conditional, i) == collect_named(
            u,
            b,
            scope,
            source,
            conditional,
            i,
        ),
    decreases a, 1int, a.children@.len() - i,
{
    broadcast use group_alike;

    if 0 <= i < a.children@.len() {
        let x = a.children@[i];
        lemma_alike_collect(u, x, b.children@[i], scope, source, conditional);
        let u1 = if x.named {
            collect(u, x, scope, source, conditional)
        } else {
            u
        };
        lemma_alike_collect_named(u1, a, b, scope, source, conditional, i + 1);
    }
}

proof fn lemma_alike_collect_locals(
    u: UnitModel,
    a: SyntaxNode,
    b: SyntaxNode,
    scope: usize,
    source: Seq<u8>,
    conditional: bool,
    i: int,
)
    requires
        alike(a, b),
    ensures
        collect_locals(u, a, scope, source, conditional, i) == collect_locals(
            u,
            b,
            scope,
            source,
            conditional,
            i,
        ),
    decreases a, 1int, a.children@.len() - i,
{
    broadcast use group_alike;

    if 0 <= i < a.children@.len() {
        let x = a.children@[i];
        lemma_alike_collect(u, x, b.children@[i], scope, source, conditional);
        let u1 = if hit(named_field("local"@), x) {
            collect(u, x, scope, source, conditional)
        } else {
            u
        };
        lemma_alike_collect_locals(u1, a, b, scope, source, conditional, i + 1);
    }
}

proof fn lemma_alike_collect_inside(
    u: UnitModel,
    a: SyntaxNode,
    b: SyntaxNode,
    scope: usize,
    source: Seq<u8>,
    conditional: bool,
)
    requires
        alike(a, b),
    ensures
        collect_inside(u, a, scope, source, conditional) == collect_inside(
            u,
            b,
            scope,
            source,
            conditional,
        ),
    decreases a, 2int, 0int,
{
    broadcast use group_alike;

    lemma_alike_collect_locals(u, a, b, scope, source, conditional, 0);
    let u1 = collect_locals(u, a, scope, source, conditional, 0);
    if let Some(k) = a.find(any_field("body"@)) {
        lemma_alike_collect(u1, a.children@[k], b.children@[k], scope, source, conditional);
    }
}

proof fn lemma_alike_collect_routine_of(
    u: UnitModel,
    a: SyntaxNode,
    b: SyntaxNode,
    enclosing: usize,
    source: Seq<u8>,
    conditional: bool,
)
    requires
        alike(a, b),
    ensures
        collect_routine_of(u, a, enclosing, source, conditional) == collect_routine_of(
            u,
            b,
            enclosing,
            source,
            conditional,
        ),
    decreases a, 2int, 1int,
{
    broadcast use group_alike;

    if let Some(h) = routine_header(a) {
        let header = a.children@[h];
        let other = b.children@[h];
        let plain = Visibility::Default;
        assert(alike(header, other));
        lemma_alike_with_proc_binding(u, header, other, enclosing, source, conditional, plain);
        let u1 = with_proc_binding(u, header, enclosing, source, conditional, plain);
        let scope = u1.next_scope();
        let u2 = u1.with_scope(Some(enclosing), a.start, a.end);
        lemma_alike_with_argument_list(u2, header, other, scope, source);
        let u3 = with_argument_list(u2, header, scope, source);
        if let Some(k) = header.find(any_field("name"@)) {
            let name = header.children@[k];
            let second = other.children@[k];
            assert(alike(name, second));
            lemma_alike_with_routine_names(
                u3,
                a,
                b,
                header,
                other,
                name,
                second,
                scope,
                enclosing,
                source,
            );
            let u4 = with_routine_names(u3, a, header, name, scope, enclosing, source);
            lemma_alike_collect_inside(u4, a, b, scope, source, conditional);
        }
    }
}

proof fn lemma_alike_collect_lambda_of(
    u: UnitModel,
    a: SyntaxNode,
    b: SyntaxNode,
    enclosing: usize,
    source: Seq<u8>,
    conditional: bool,
)
    requires
        alike(a, b),
    ensures
        collect_lambda_of(u, a, enclosing, source, conditional) == collect_lambda_of(
            u,
            b,
            enclosing,
            source,
            conditional,
        ),
    decreases a, 2int, 1int,
{
    broadcast use group_alike;

    let scope = u.next_scope();
    let u1 = u.with_scope(Some(enclosing), a.start, a.end);
    lemma_alike_with_argument_list(u1, a, b, scope, source);
    let u2 = with_argument_list(u1, a, scope, source);
    lemma_alike_collect_inside(u2, a, b, scope, source, conditional);
}

proof fn lemma_alike_collect_handler_of(
    u: UnitModel,
    a: SyntaxNode,
    b: SyntaxNode,
    enclosing: usize,
    source: Seq<u8>,
    conditional: bool,
)
    requires
        alike(a, b),
    ensures
        collect_handler_of(u, a, enclosing, source, conditional) == collect_handler_of(
            u,
            b,
            enclosing,
            source,
            conditional,
        ),
    decreases a, 2int, 1int,
{
    broadcast use group_alike;

    if let Some(k) = a.find(any_field("body"@)) {
        let body = a.children@[k];
        let other = b.children@[k];
        assert(alike(body, other));
        let scope = u.next_scope();
        let u1 = u.with_scope(Some(enclosing), body.start, a.end);
        let u2 = match a.find(any_field("variable"@)) {
            Some(v) => if a.children@[v].kind@ == "identifier"@ {
                u1.with_binding(
                    scope,
                    name_of(a.children@[v], source),
                    body.start,
                    if conditional {
                        BindingKind::Unsupported
                    } else {
                        BindingKind::Value
                    },
                    Visibility::Default,
                )
            } else {
                u1
            },
            None => u1,
        };
        if let Some(v) = a.find(any_field("variable"@)) {
            assert(alike(a.children@[v], b.children@[v]));
        }
        lemma_alike_collect_named(u2, body, other, scope, source, conditional, 0);
    }
}

proof fn lemma_alike_collect_types(
    u: UnitModel,
    a: SyntaxNode,
    b: SyntaxNode,
    scope: usize,
    source: Seq<u8>,
    conditional: bool,
    visibility: Visibility,
    create: CreateMember,
    i: int,
)
    requires
        alike(a, b),
    ensures
        collect_types(u, a, scope, source, conditional, visibility, create, i) == collect_types(
            u,
            b,
            scope,
            source,
            conditional,
            visibility,
            create,
            i,
        ),
    decreases a, 1int, a.children@.len() - i,
{
    broadcast use group_alike;

    if 0 <= i < a.children@.len() {
        let child = a.children@[i];
        let other = b.children@[i];
        assert(alike(child, other));
        if child.named && child.kind@ == "declType"@ {
            lemma_alike_collect_type(u, child, other, scope, source, conditional, visibility);
            lemma_alike_type_create_member(child, other, source, conditional, visibility);
            lemma_alike_collect_types(
                collect_type(u, child, scope, source, conditional, visibility),
                a,
                b,
                scope,
                source,
                conditional,
                visibility,
                merged(create, type_create_member(child, source, conditional, visibility)),
                i + 1,
            );
        } else {
            let create1 = if child.named && child.kind@ == "ppBlock"@ {
                merged(create, CreateMember::Unknown)
            } else {
                create
            };
            lemma_alike_collect_types(
                u,
                a,
                b,
                scope,
                source,
                conditional,
                visibility,
                create1,
                i + 1,
            );
        }
    }
}

proof fn lemma_alike_collect_type(
    u: UnitModel,
    a: SyntaxNode,
    b: SyntaxNode,
    scope: usize,
    source: Seq<u8>,
    conditional: bool,
    visibility: Visibility,
)
    requires
        alike(a, b),
    ensures
        collect_type(u, a, scope, source, conditional, visibility) == collect_type(
            u,
            b,
            scope,
            source,
            conditional,
            visibility,
        ),
    decreases a, 2int, 0int,
{
    broadcast use {group_alike, group_alike_readings};

    if let Some(n) = a.find(any_field("name"@)) {
        let name = a.children@[n];
        assert(alike(name, b.children@[n]));
        let id = u.next_type();
        let simple = name.kind@ == "identifier"@;
        let bound = match first_name(name, source) {
            Some(text) => text,
            None => Seq::empty(),
        };
        let u1 = u.with_type().with_binding(
            scope,
            bound,
            a.start,
            if conditional || !simple {
                BindingKind::Unsupported
            } else {
                BindingKind::Type(id)
            },
            visibility,
        );
        if let Some(t) = a.find(named_field("type"@)) {
            let x = a.children@[t];
            let y = b.children@[t];
            assert(alike(x, y));
            if x.kind@ == "type"@ {
                if let Some(k) = sole_named(x) {
                    lemma_alike_define(
                        u1,
                        x.children@[k],
                        y.children@[k],
                        id.local,
                        scope,
                        source,
                    );
                }
            } else {
                lemma_alike_define(u1, x, y, id.local, scope, source);
            }
        }
    }
}

proof fn lemma_alike_define(
    u: UnitModel,
    a: SyntaxNode,
    b: SyntaxNode,
    local: usize,
    scope: usize,
    source: Seq<u8>,
)
    requires
        alike(a, b),
    ensures
        define(u, a, local, scope, source) == define(u, b, local, scope, source),
    decreases a, 2int, 0int,
{
    broadcast use {group_alike, group_alike_readings};

    if a.kind@ == "declClass"@ && a.find(named_kind("kClass"@)) is Some {
        lemma_alike_collect_members(
            u.with_scope(Some(scope), a.start, a.end),
            a,
            b,
            u.next_scope(),
            source,
            Visibility::Default,
            CreateMember::Absent,
            0,
        );
        lemma_alike_parent_of_class(a, b, scope, source);
    }
}

proof fn lemma_alike_collect_members(
    u: UnitModel,
    a: SyntaxNode,
    b: SyntaxNode,
    scope: usize,
    source: Seq<u8>,
    visibility: Visibility,
    create: CreateMember,
    i: int,
)
    requires
        alike(a, b),
    ensures
        collect_members(u, a, scope, source, visibility, create, i) == collect_members(
            u,
            b,
            scope,
            source,
            visibility,
            create,
            i,
        ),
    decreases a, 1int, a.children@.len() - i,
{
    broadcast use {group_alike, crate::tree_laws::lemma_alike_section_visibility};

    if 0 <= i < a.children@.len() {
        let child = a.children@[i];
        let other = b.children@[i];
        assert(alike(child, other));
        let absent = CreateMember::Absent;
        let (u1, create1) = if !child.named {
            (u, create)
        } else if child.kind@ == "declTypes"@ {
            lemma_alike_collect_types(
                u,
                child,
                other,
                scope,
                source,
                false,
                visibility,
                absent,
                0,
            );
            let (v, nested) = collect_types(
                u,
                child,
                scope,
                source,
                false,
                visibility,
                absent,
                0,
            );
            (v, merged(create, nested))
        } else if child.kind@ == "declVars"@ || child.kind@ == "declConsts"@ {
            lemma_alike_with_value_section(u, child, other, scope, source, visibility, absent, 0);
            let (v, nested) = with_value_section(u, child, scope, source, visibility, absent, 0);
            (v, merged(create, nested))
        } else if child.kind@ == "declField"@ || child.kind@ == "declProp"@ {
            lemma_alike_with_value_names(u, child, other, scope, source, visibility, create, 0);
            with_value_names(u, child, scope, source, visibility, create, 0)
        } else if child.kind@ == "declProc"@ {
            lemma_alike_with_proc_binding(u, child, other, scope, source, false, visibility);
            lemma_alike_proc_create_member(child, other, source, visibility);
            (
                with_proc_binding(u, child, scope, source, false, visibility),
                merged(create, proc_create_member(child, source, visibility)),
            )
        } else if child.kind@ == "declSection"@ {
            let inner = section_visibility(child, false, 0);
            assert(inner == section_visibility(other, false, 0));
            lemma_alike_collect_members(u, child, other, scope, source, inner, absent, 0);
            let (v, nested) = collect_members(u, child, scope, source, inner, absent, 0);
            (v, merged(create, nested))
        } else if child.kind@ == "ppBlock"@ || child.kind@ == "ppDeclSection"@ {
            (u, merged(create, CreateMember::Unknown))
        } else {
            (u, create)
        };
        lemma_alike_collect_members(u1, a, b, scope, source, visibility, create1, i + 1);
    }
}

/// The types, the scopes and the names that a unit declares are the same.
pub proof fn lemma_alike_unit_types(
    unit_index: usize,
    a: SyntaxNode,
    b: SyntaxNode,
    source: Seq<u8>,
)
    requires
        alike(a, b),
    ensures
        unit_types(unit_index, a, source) == unit_types(unit_index, b, source),
{
    broadcast use {group_alike, group_alike_readings};

    if let Some(m) = module_from(a.children@, 0) {
        let x = a.children@[m];
        let y = b.children@[m];
        assert(alike(x, y));
        if let Some(k) = x.find(named_kind("moduleName"@)) {
            assert(alike(x.children@[k], y.children@[k]));
        }
        if let Some(k) = x.find(named_kind("interface"@)) {
            assert(alike(x.children@[k], y.children@[k]));
        }
    }
    assert(module_name_of(a, source) == module_name_of(b, source));
    assert(module_section(a, "interface"@) == module_section(b, "interface"@));
    let empty = UnitModel {
        unit_index,
        module_name: module_name_of(a, source),
        scopes: Seq::empty(),
        types: Seq::empty(),
        unsupported_ranges: Seq::empty(),
        with_ranges: Seq::empty(),
        has_preprocessor_barrier: directive_in(a, source),
        pending_method_owners: Seq::empty(),
        interface_range: module_section(a, "interface"@),
        parser_incomplete: a.error,
    };
    lemma_alike_collect(
        empty.with_scope(None, 0, source.len() as usize),
        a,
        b,
        0,
        source,
        false,
    );
}

} // verus!
