//! What a name stands for at a place, which members a class has, and which handlers
//! an exception reaches.

use vstd::prelude::*;
use crate::exception_types::{
    class_of_scope, constructor_knowledge_of, context_from, context_of, descends, export_of, full,
    handler_fact_of, in_force, in_ranges, innermost, is_ancestry, is_topmost, longest_qualifier,
    lookup, matches_handler, member, member_from, next_ancestor, owner_unknown, raised_constructor,
    raised_fact_of, resolve, resolve_members, resolve_name, resolve_type, shadowed,
    shadows_qualifier, subtype, usable_class, ExceptionTypeFact, ImportModel, ImportSelectionTarget,
    InForce, IndexModel, Knowledge, Lookup, MemberQueryModel, TypeMatch,
};
use crate::syntax::SyntaxNode;
use crate::text::split_text;
use crate::unit_types::{
    type_parts_of, BindingKind, BindingModel, CreateMember, DefinitionModel, ParentModel,
    ReferenceModel, TypeId, UnitModel, Visibility,
};

verus! {

// Declarations in force --------------------------------------------------------------------------

/// Whether a binding declares a name somewhere in `first..=last`.
pub open spec fn declares(b: BindingModel, name: Seq<char>, first: usize, last: usize) -> bool {
    b.name == name && first <= b.start <= last
}

/// Whether binding `k` is the last declaration of a name in a range, and no other
/// stands at the same place.
pub open spec fn decides(
    bindings: Seq<BindingModel>,
    name: Seq<char>,
    first: usize,
    last: usize,
    k: int,
) -> bool {
    0 <= k < bindings.len() && declares(bindings[k], name, first, last) && forall|j: int|
        0 <= j < bindings.len() && j != k && declares(#[trigger] bindings[j], name, first, last)
            ==> bindings[j].start < bindings[k].start
}

/// Whether two declarations of a name stand at the same place, with none behind them.
pub open spec fn collides(
    bindings: Seq<BindingModel>,
    name: Seq<char>,
    first: usize,
    last: usize,
    k: int,
    m: int,
) -> bool {
    0 <= k < m < bindings.len() && declares(bindings[k], name, first, last) && declares(
        bindings[m],
        name,
        first,
        last,
    ) && bindings[k].start == bindings[m].start && forall|j: int|
        0 <= j < bindings.len() && declares(#[trigger] bindings[j], name, first, last)
            ==> bindings[j].start <= bindings[k].start
}

/// The same as [`decides`] among the first `n` bindings.
spec fn decides_among(
    bindings: Seq<BindingModel>,
    name: Seq<char>,
    first: usize,
    last: usize,
    n: int,
    k: int,
) -> bool {
    0 <= k < n && declares(bindings[k], name, first, last) && forall|j: int|
        0 <= j < n && j != k && declares(#[trigger] bindings[j], name, first, last)
            ==> bindings[j].start < bindings[k].start
}

/// The same as [`collides`] among the first `n` bindings.
spec fn collides_among(
    bindings: Seq<BindingModel>,
    name: Seq<char>,
    first: usize,
    last: usize,
    n: int,
    k: int,
    m: int,
) -> bool {
    0 <= k < m < n && declares(bindings[k], name, first, last) && declares(
        bindings[m],
        name,
        first,
        last,
    ) && bindings[k].start == bindings[m].start && forall|j: int|
        0 <= j < n && declares(#[trigger] bindings[j], name, first, last) ==> bindings[j].start
            <= bindings[k].start
}

proof fn lemma_in_force(
    bindings: Seq<BindingModel>,
    name: Seq<char>,
    first: usize,
    last: usize,
    n: int,
) -> (r: (int, int))
    requires
        0 <= n <= bindings.len(),
    ensures
        match in_force(bindings, name, first, last, n) {
            InForce::Absent => forall|j: int|
                0 <= j < n ==> !declares(#[trigger] bindings[j], name, first, last),
            InForce::Only(b) => decides_among(bindings, name, first, last, n, r.0) && bindings[r.0]
                == b,
            InForce::Several(start) => collides_among(
                bindings,
                name,
                first,
                last,
                n,
                r.0,
                r.1,
            ) && bindings[r.0].start == start,
        },
    decreases n,
{
    if n > 0 {
        let (k, m) = lemma_in_force(bindings, name, first, last, n - 1);
        let before = in_force(bindings, name, first, last, n - 1);
        let b = bindings[n - 1];
        if declares(b, name, first, last) {
            match before {
                InForce::Absent => (n - 1, n - 1),
                InForce::Only(a) => if b.start > a.start {
                    (n - 1, n - 1)
                } else {
                    (k, n - 1)
                },
                InForce::Several(start) => if b.start > start {
                    (n - 1, n - 1)
                } else {
                    (k, m)
                },
            }
        } else {
            (k, m)
        }
    } else {
        (0, 0)
    }
}

proof fn lemma_decides(
    bindings: Seq<BindingModel>,
    name: Seq<char>,
    first: usize,
    last: usize,
    k: int,
)
    requires
        decides(bindings, name, first, last, k),
    ensures
        in_force(bindings, name, first, last, bindings.len() as int) == InForce::Only(bindings[k]),
{
    let (i, m) = lemma_in_force(bindings, name, first, last, bindings.len() as int);
    match in_force(bindings, name, first, last, bindings.len() as int) {
        InForce::Absent => {},
        InForce::Only(b) => {
            assert(i == k);
        },
        InForce::Several(start) => {
            assert(i == k || bindings[i].start < bindings[k].start);
            assert(m == k || bindings[m].start < bindings[k].start);
        },
    }
}

proof fn lemma_collides(
    bindings: Seq<BindingModel>,
    name: Seq<char>,
    first: usize,
    last: usize,
    k: int,
    m: int,
)
    requires
        collides(bindings, name, first, last, k, m),
    ensures
        in_force(bindings, name, first, last, bindings.len() as int) is Several,
{
    let (i, _m) = lemma_in_force(bindings, name, first, last, bindings.len() as int);
    if let InForce::Only(b) = in_force(bindings, name, first, last, bindings.len() as int) {
        assert(bindings[i].start <= bindings[k].start);
        assert(k == i || bindings[k].start < b.start);
        assert(m == i || bindings[m].start < b.start);
    }
}

/// Whether a scope declares nothing under a name up to an offset.
pub open spec fn undeclared(
    bindings: Seq<BindingModel>,
    name: Seq<char>,
    first: usize,
    last: usize,
) -> bool {
    forall|j: int|
        0 <= j < bindings.len() ==> !declares(#[trigger] bindings[j], name, first, last)
}

proof fn lemma_undeclared(bindings: Seq<BindingModel>, name: Seq<char>, first: usize, last: usize)
    requires
        undeclared(bindings, name, first, last),
    ensures
        in_force(bindings, name, first, last, bindings.len() as int) is Absent,
{
    lemma_in_force(bindings, name, first, last, bindings.len() as int);
}

// Lexical scopes ----------------------------------------------------------------------------------

/// In a scope, the last declaration of a name at or before the place that asks
/// decides what it stands for: the type that it declares, or a value. Whatever the
/// scopes around it or the class of a method declare does not matter, nor what is
/// declared behind the place. Where two declarations share that place, nothing is
/// known.
pub proof fn law_last_declaration_decides(
    x: IndexModel,
    fuel: nat,
    unit: usize,
    scope: usize,
    name: Seq<char>,
    offset: usize,
    active: Seq<MemberQueryModel>,
    k: int,
    m: int,
)
    requires
        unit < x.units.len(),
        scope < x.units[unit as int].scopes.len(),
    ensures
        ({
            let bindings = x.units[unit as int].scopes[scope as int].bindings;
            &&& decides(bindings, name, 0, offset, k) ==> lookup(
                x,
                fuel,
                unit,
                scope,
                name,
                offset,
                active,
            ) == (match bindings[k].kind {
                BindingKind::Type(id) => Lookup::Type(id),
                _ => Lookup::Value,
            })
            &&& collides(bindings, name, 0, offset, k, m) ==> lookup(
                x,
                fuel,
                unit,
                scope,
                name,
                offset,
                active,
            ) == Lookup::Unknown
        }),
{
    let bindings = x.units[unit as int].scopes[scope as int].bindings;
    if decides(bindings, name, 0, offset, k) {
        lemma_decides(bindings, name, 0, offset, k);
    }
    if collides(bindings, name, 0, offset, k, m) {
        lemma_collides(bindings, name, 0, offset, k, m);
    }
}

/// Where a scope declares nothing under a name, the class of the method that it
/// belongs to is asked, and then the scope around it. In a method of unknown class
/// nothing is known.
pub proof fn law_outer_scope_is_asked_last(
    x: IndexModel,
    fuel: nat,
    unit: usize,
    scope: usize,
    name: Seq<char>,
    offset: usize,
    active: Seq<MemberQueryModel>,
)
    requires
        unit < x.units.len(),
        scope < x.units[unit as int].scopes.len(),
        undeclared(x.units[unit as int].scopes[scope as int].bindings, name, 0, offset),
    ensures
        ({
            let u = x.units[unit as int];
            let s = u.scopes[scope as int];
            let found = lookup(x, fuel, unit, scope, name, offset, active);
            &&& s.unresolved_owner ==> found == Lookup::Unknown
            &&& !s.unresolved_owner && s.owner_type is Some && member(
                x,
                fuel,
                s.owner_type->0,
                name,
                unit,
                offset,
                active,
            ) != Lookup::Absent ==> found == member(
                x,
                fuel,
                s.owner_type->0,
                name,
                unit,
                offset,
                active,
            )
            &&& !s.unresolved_owner && s.owner_type is None && class_of_scope(u, scope, 0) is None
                ==> match s.parent {
                Some(p) => p < scope ==> found == lookup(x, fuel, unit, p, name, offset, active),
                None => found == Lookup::Absent,
            }
            &&& !s.unresolved_owner && s.owner_type is Some && member(
                x,
                fuel,
                s.owner_type->0,
                name,
                unit,
                offset,
                active,
            ) == Lookup::Absent && class_of_scope(u, scope, 0) is None ==> match s.parent {
                Some(p) => p < scope ==> found == lookup(x, fuel, unit, p, name, offset, active),
                None => found == Lookup::Absent,
            }
        }),
{
    lemma_undeclared(x.units[unit as int].scopes[scope as int].bindings, name, 0, offset);
}

/// The scope of a place: of all that hold it the one that starts last and, of those
/// that start there, the shortest. Where none does it is the outermost.
pub proof fn law_innermost_scope(unit: UnitModel, offset: usize, k: int)
    requires
        0 < unit.scopes.len() <= usize::MAX,
        unit.scopes[0].start <= offset < unit.scopes[0].end,
        0 <= k < unit.scopes.len(),
    ensures
        ({
            let best = innermost(unit, offset, unit.scopes.len() as int);
            let s = unit.scopes[best as int];
            &&& best < unit.scopes.len()
            &&& s.start <= offset < s.end
            &&& unit.scopes[k].start <= offset < unit.scopes[k].end ==> unit.scopes[k].start
                <= s.start && (unit.scopes[k].start == s.start ==> s.end <= unit.scopes[k].end)
        }),
{
    lemma_innermost(unit, offset, unit.scopes.len() as int);
}

proof fn lemma_innermost(unit: UnitModel, offset: usize, n: int)
    requires
        0 < n <= unit.scopes.len() <= usize::MAX,
        unit.scopes[0].start <= offset < unit.scopes[0].end,
    ensures
        ({
            let best = innermost(unit, offset, n);
            let s = unit.scopes[best as int];
            &&& best < n
            &&& s.start <= offset < s.end
            &&& forall|k: int|
                0 <= k < n && (#[trigger] unit.scopes[k]).start <= offset < unit.scopes[k].end
                    ==> unit.scopes[k].start <= s.start && (unit.scopes[k].start == s.start
                    ==> s.end <= unit.scopes[k].end)
        }),
    decreases n,
{
    if n > 1 {
        lemma_innermost(unit, offset, n - 1);
    } else {
        assert(innermost(unit, offset, 0) == 0);
    }
}

// Names ------------------------------------------------------------------------------------------

/// A name of one part stands for the class of the type that is found under it, and for
/// nothing known where a value is found or what is found is not known.
pub proof fn law_plain_name(
    x: IndexModel,
    fuel: nat,
    name: Seq<char>,
    unit: usize,
    scope: usize,
    offset: usize,
    seen: Seq<TypeId>,
    active: Seq<MemberQueryModel>,
)
    requires
        unit < x.units.len(),
    ensures
        ({
            let found = lookup(x, fuel, unit, scope, name, offset, active);
            let r = resolve(x, fuel, seq![name], unit, scope, offset, seen, active);
            &&& found matches Lookup::Type(id) ==> r == resolve_type(x, fuel, id, seen, active)
            &&& found is Value || found is Unknown ==> r is None
        }),
{
    if let Some(module) = x.units[unit as int].module_name {
        crate::text_laws::law_split(module, '.');
    }
    if let Lookup::Type(id) = lookup(x, fuel, unit, scope, name, offset, active) {
        if let Some(resolved) = resolve_type(x, fuel, id, seen, active) {
            let parts = seq![name];
            let last = resolve_members(x, fuel, parts, 1, resolved, unit, offset, seen, active);
            assert(last == Some(resolved));
        }
    }
}

/// A name of several parts stands for a member: what its first part stands for, and
/// from there one member after the other.
pub proof fn law_member_names(
    x: IndexModel,
    fuel: nat,
    parts: Seq<Seq<char>>,
    i: int,
    class: TypeId,
    unit: usize,
    offset: usize,
    seen: Seq<TypeId>,
    active: Seq<MemberQueryModel>,
)
    requires
        0 <= i <= parts.len(),
    ensures
        i == parts.len() ==> resolve_members(
            x,
            fuel,
            parts,
            i,
            class,
            unit,
            offset,
            seen,
            active,
        ) == Some(class),
        i < parts.len() ==> ({
            let r = resolve_members(x, fuel, parts, i, class, unit, offset, seen, active);
            let found = member(x, fuel, class, parts[i], unit, offset, active);
            match found {
                Lookup::Type(id) => match resolve_type(x, fuel, id, seen, active) {
                    Some(next) => r == resolve_members(
                        x,
                        fuel,
                        parts,
                        i + 1,
                        next,
                        unit,
                        offset,
                        seen,
                        active,
                    ),
                    None => r is None,
                },
                _ => r is None,
            }
        }),
{
}

/// A name that is qualified with the name of its own unit stands for what the
/// outermost scope of the unit declares under it, where nothing nearer can be meant by
/// the first part.
pub proof fn law_own_unit_as_qualifier(
    x: IndexModel,
    fuel: nat,
    module: Seq<char>,
    name: Seq<char>,
    unit: usize,
    scope: usize,
    offset: usize,
    seen: Seq<TypeId>,
    active: Seq<MemberQueryModel>,
    id: TypeId,
)
    requires
        unit < x.units.len(),
        x.units[unit as int].module_name == Some(module),
        !shadowed(x, fuel, unit, scope, split_text(module, '.')[0], offset, active),
        !owner_unknown(x.units[unit as int], scope),
        lookup(x, fuel, unit, 0, name, offset, active) == Lookup::Type(id),
    ensures
        resolve(
            x,
            fuel,
            split_text(module, '.').push(name),
            unit,
            scope,
            offset,
            seen,
            active,
        ) == resolve_type(x, fuel, id, seen, active),
{
    crate::text_laws::law_split(module, '.');
    let qualifier = split_text(module, '.');
    let parts = qualifier.push(name);
    let k = qualifier.len() as int;
    assert(qualifier.is_prefix_of(parts)) by {
        assert(parts.subrange(0, k) =~= qualifier);
    }
    assert(parts[0] == qualifier[0]);
    assert(parts[k] == name);
    if let Some(resolved) = resolve_type(x, fuel, id, seen, active) {
        let last = resolve_members(x, fuel, parts, k + 1, resolved, unit, offset, seen, active);
        assert(last == Some(resolved));
    }
}

/// A name that the scope of a place or one around it declares cannot be taken for the
/// name of the unit; where no scope declares it and no class or method is around, it can.
pub proof fn law_declared_names_are_no_qualifiers(
    x: IndexModel,
    fuel: nat,
    unit: usize,
    scope: usize,
    name: Seq<char>,
    offset: usize,
    active: Seq<MemberQueryModel>,
)
    requires
        unit < x.units.len(),
        scope < x.units[unit as int].scopes.len(),
    ensures
        ({
            let u = x.units[unit as int];
            let s = u.scopes[scope as int];
            let hidden = shadowed(x, fuel, unit, scope, name, offset, active);
            &&& !undeclared(s.bindings, name, 0, offset) ==> hidden
            &&& s.owner_type is Some && member(
                x,
                fuel,
                s.owner_type->0,
                name,
                unit,
                offset,
                active,
            ) != Lookup::Absent ==> hidden
            &&& s.parent matches Some(p) ==> p < scope && shadowed(
                x,
                fuel,
                unit,
                p,
                name,
                offset,
                active,
            ) ==> hidden
            &&& undeclared(s.bindings, name, 0, offset) && s.owner_type is None && class_of_scope(
                u,
                scope,
                0,
            ) is None && s.parent is None ==> !hidden
        }),
{
    let bindings = x.units[unit as int].scopes[scope as int].bindings;
    let _w = lemma_in_force(bindings, name, 0, offset, bindings.len() as int);
    if undeclared(bindings, name, 0, offset) {
        lemma_undeclared(bindings, name, 0, offset);
    }
}

/// In a method of unknown class nothing that the method itself does not declare is
/// known, not even with the name of the unit before it.
pub proof fn law_unknown_method_knows_nothing(
    x: IndexModel,
    fuel: nat,
    parts: Seq<Seq<char>>,
    unit: usize,
    scope: usize,
    offset: usize,
    seen: Seq<TypeId>,
    active: Seq<MemberQueryModel>,
)
    requires
        parts.len() > 0,
        unit < x.units.len(),
        scope < x.units[unit as int].scopes.len(),
        x.units[unit as int].scopes[scope as int].unresolved_owner,
        undeclared(x.units[unit as int].scopes[scope as int].bindings, parts[0], 0, offset),
    ensures
        resolve(x, fuel, parts, unit, scope, offset, seen, active) is None,
{
    lemma_undeclared(x.units[unit as int].scopes[scope as int].bindings, parts[0], 0, offset);
}

/// A `uses` entry can be meant by the first part of a qualified name itself where it is
/// not loaded, or where its unit declares that part or leaves open whether it does.
pub proof fn law_entry_may_declare_a_qualifier(
    x: IndexModel,
    import: ImportModel,
    name: Seq<char>,
)
    ensures
        shadows_qualifier(x, import, name) <==> !(import.target matches
            ImportSelectionTarget::Loaded(target) && export_of(x, target, name) == Lookup::Absent),
{
}

/// The class of a scope of members is the class that is declared with that scope, the
/// first of several; a scope that no class has is that of none.
pub proof fn law_class_of_a_scope(unit: UnitModel, scope: usize, k: int)
    requires
        unit.types.len() <= usize::MAX,
        0 <= k < unit.types.len(),
        forall|j: int| 0 <= j < k ==> !has_scope(#[trigger] unit.types[j], scope),
    ensures
        has_scope(unit.types[k], scope) ==> class_of_scope(unit, scope, 0) == Some(
            TypeId { unit: unit.unit_index, local: k as usize },
        ),
        (forall|j: int| 0 <= j < unit.types.len() ==> !has_scope(#[trigger] unit.types[j], scope))
            ==> class_of_scope(unit, scope, 0) is None,
{
    lemma_class_of_scope(unit, scope, 0, k);
}

/// Whether a type is a class whose members are bound in a scope.
pub open spec fn has_scope(definition: DefinitionModel, scope: usize) -> bool {
    definition matches DefinitionModel::Class { class_scope, .. } && class_scope == scope
}

proof fn lemma_class_of_scope(unit: UnitModel, scope: usize, i: int, k: int)
    requires
        0 <= i <= k <= unit.types.len(),
        unit.types.len() <= usize::MAX,
        forall|j: int| i <= j < k ==> !has_scope(#[trigger] unit.types[j], scope),
    ensures
        k < unit.types.len() && has_scope(unit.types[k], scope) ==> class_of_scope(unit, scope, i)
            == Some(TypeId { unit: unit.unit_index, local: k as usize }),
        (forall|j: int| i <= j < unit.types.len() ==> !has_scope(#[trigger] unit.types[j], scope))
            ==> class_of_scope(unit, scope, i) is None,
    decreases unit.types.len() - i,
{
    if i < k {
        assert(!has_scope(unit.types[i], scope));
        lemma_class_of_scope(unit, scope, i + 1, k);
    } else if i < unit.types.len() && !has_scope(unit.types[i], scope) {
        lemma_class_of_scope(unit, scope, i + 1, i + 1);
    }
}

// Classes -----------------------------------------------------------------------------------------

/// A class can be relied on exactly where it is complete and its unit has no syntax
/// error and no preprocessor directive.
pub proof fn law_class_is_usable(x: IndexModel, id: TypeId)
    ensures
        usable_class(x, id) is Some <==> {
            &&& id.unit < x.units.len()
            &&& id.local < x.units[id.unit as int].types.len()
            &&& !x.units[id.unit as int].parser_incomplete
            &&& !x.units[id.unit as int].has_preprocessor_barrier
            &&& x.units[id.unit as int].types[id.local as int] matches DefinitionModel::Class {
                incomplete,
                ..
            } && !incomplete
        },
{
}

/// The scope in which the members of a usable class are bound.
pub open spec fn class_scope(x: IndexModel, id: TypeId) -> usize {
    match usable_class(x, id) {
        Some((scope, _parent, _create)) => scope,
        None => 0,
    }
}

/// The ancestor that a usable class declares.
pub open spec fn class_parent(x: IndexModel, id: TypeId) -> ParentModel {
    match usable_class(x, id) {
        Some((_scope, parent, _create)) => parent,
        None => ParentModel::Unsupported,
    }
}

/// The place that a name asks from can see a member: from the same unit unless it is
/// strictly private or protected, from another unit only what is public.
pub open spec fn accessible(visibility: Visibility, same_unit: bool) -> bool {
    if same_unit {
        !set![Visibility::StrictPrivate, Visibility::StrictProtected, Visibility::Unknown].contains(
            visibility,
        )
    } else {
        set![Visibility::Default, Visibility::Public, Visibility::Published].contains(visibility)
    }
}

/// A member that a class declares itself hides those of its ancestors. It stands for
/// the type or value that it declares where the place that asks may see it; where it
/// may not, or the form of the declaration is not supported, nothing is known. In the
/// unit of the class only what stands before the place counts, from another unit the
/// whole class.
pub proof fn law_own_member(
    x: IndexModel,
    fuel: nat,
    id: TypeId,
    name: Seq<char>,
    unit: usize,
    offset: usize,
    active: Seq<MemberQueryModel>,
    k: int,
)
    requires
        usable_class(x, id) is Some,
        class_scope(x, id) < x.units[id.unit as int].scopes.len(),
        !active.contains(MemberQueryModel { type_id: id, name, unit, offset }),
        decides(
            x.units[id.unit as int].scopes[class_scope(x, id) as int].bindings,
            name,
            0,
            if id.unit == unit {
                offset
            } else {
                usize::MAX
            },
            k,
        ),
    ensures
        ({
            let b = x.units[id.unit as int].scopes[class_scope(x, id) as int].bindings[k];
            let found = member(x, fuel, id, name, unit, offset, active);
            &&& !accessible(b.visibility, id.unit == unit) ==> found == Lookup::Unknown
            &&& accessible(b.visibility, id.unit == unit) ==> found == (match b.kind {
                BindingKind::Type(class) => Lookup::Type(class),
                BindingKind::Value => Lookup::Value,
                BindingKind::Unsupported => Lookup::Unknown,
            })
        }),
{
    let bindings = x.units[id.unit as int].scopes[class_scope(x, id) as int].bindings;
    let last = if id.unit == unit {
        offset
    } else {
        usize::MAX
    };
    lemma_decides(bindings, name, 0, last, k);
}

/// A member that a class does not declare is that of its ancestor. A class without
/// ancestor has no such member; where the ancestor is not known, nothing is known.
pub proof fn law_inherited_member(
    x: IndexModel,
    fuel: nat,
    id: TypeId,
    name: Seq<char>,
    unit: usize,
    offset: usize,
    seen: Seq<TypeId>,
    active: Seq<MemberQueryModel>,
)
    requires
        fuel > 0,
        usable_class(x, id) is Some,
        class_scope(x, id) < x.units[id.unit as int].scopes.len(),
        !seen.contains(id),
        undeclared(
            x.units[id.unit as int].scopes[class_scope(x, id) as int].bindings,
            name,
            0,
            if id.unit == unit {
                offset
            } else {
                usize::MAX
            },
        ),
    ensures
        ({
            let found = member_from(x, fuel, id, name, unit, offset, seen, active);
            let less = (fuel - 1) as nat;
            match class_parent(x, id) {
                ParentModel::Absent => found == Lookup::Absent,
                ParentModel::Unsupported => found == Lookup::Unknown,
                ParentModel::Reference(r) => match resolve(
                    x,
                    less,
                    r.parts,
                    id.unit,
                    r.scope,
                    r.offset,
                    seen.push(id),
                    active,
                ) {
                    Some(ancestor) => found == member_from(
                        x,
                        less,
                        ancestor,
                        name,
                        unit,
                        offset,
                        seen.push(id),
                        active,
                    ),
                    None => found == Lookup::Unknown,
                },
            }
        }),
{
    let last = if id.unit == unit {
        offset
    } else {
        usize::MAX
    };
    lemma_undeclared(
        x.units[id.unit as int].scopes[class_scope(x, id) as int].bindings,
        name,
        0,
        last,
    );
}

/// A class stands for itself, an alias for what its target stands for where the alias
/// is declared, and any other type for nothing.
pub proof fn law_aliases_are_followed(
    x: IndexModel,
    fuel: nat,
    id: TypeId,
    seen: Seq<TypeId>,
    active: Seq<MemberQueryModel>,
)
    requires
        fuel > 0,
        id.unit < x.units.len(),
        id.local < x.units[id.unit as int].types.len(),
        !seen.contains(id),
    ensures
        usable_class(x, id) is Some ==> resolve_type(x, fuel, id, seen, active) == Some(id),
        usable_class(x, id) is None && x.units[id.unit as int].types[id.local as int] is Class
            ==> resolve_type(x, fuel, id, seen, active) is None,
        x.units[id.unit as int].types[id.local as int] is Unsupported ==> resolve_type(
            x,
            fuel,
            id,
            seen,
            active,
        ) is None,
        x.units[id.unit as int].types[id.local as int] matches DefinitionModel::Alias(target) ==> (
        match target {
            Some(r) => resolve_type(x, fuel, id, seen, active) == resolve(
                x,
                (fuel - 1) as nat,
                r.parts,
                id.unit,
                r.scope,
                r.offset,
                seen.push(id),
                active,
            ),
            None => resolve_type(x, fuel, id, seen, active) is None,
        }),
{
}

/// A unit exports what its interface section declares, the last declaration of each
/// name, and nothing else. A unit with a syntax error or a preprocessor directive
/// leaves open what it exports.
pub proof fn law_export(
    x: IndexModel,
    unit: usize,
    name: Seq<char>,
    start: usize,
    end: usize,
    k: int,
)
    requires
        unit < x.units.len(),
        x.units[unit as int].scopes.len() > 0,
        x.units[unit as int].interface_range == Some((start, end)),
        0 < end,
    ensures
        ({
            let u = x.units[unit as int];
            let bindings = u.scopes[0].bindings;
            let found = export_of(x, unit, name);
            let sure = !u.parser_incomplete && !u.has_preprocessor_barrier;
            &&& !sure ==> found == Lookup::Unknown
            &&& sure && undeclared(bindings, name, start, (end - 1) as usize) ==> found
                == Lookup::Absent
            &&& sure && decides(bindings, name, start, (end - 1) as usize, k) ==> found == (
            match bindings[k].kind {
                BindingKind::Type(id) => Lookup::Type(id),
                BindingKind::Value => Lookup::Value,
                BindingKind::Unsupported => Lookup::Unknown,
            })
        }),
{
    let bindings = x.units[unit as int].scopes[0].bindings;
    let last = (end - 1) as usize;
    if undeclared(bindings, name, start, last) {
        lemma_undeclared(bindings, name, start, last);
    }
    if decides(bindings, name, start, last, k) {
        lemma_decides(bindings, name, start, last, k);
    }
}

/// The qualifier by which a name reaches into a `uses` entry is the longest of the
/// entry's qualifiers that the name starts with, and leaves at least one part.
pub proof fn law_longest_qualifier(
    qualifiers: Seq<Seq<Seq<char>>>,
    parts: Seq<Seq<char>>,
)
    ensures
        match longest_qualifier(qualifiers, parts, qualifiers.len() as int) {
            Some(n) => n < parts.len() && qualifiers.contains(parts.take(n)) && forall|j: int|
                0 <= j < qualifiers.len() && (#[trigger] qualifiers[j]).len() < parts.len()
                    && qualifiers[j].is_prefix_of(parts) ==> qualifiers[j].len() <= n,
            None => forall|j: int|
                0 <= j < qualifiers.len() ==> !((#[trigger] qualifiers[j]).len() < parts.len()
                    && qualifiers[j].is_prefix_of(parts)),
        },
{
    lemma_longest_qualifier(qualifiers, parts, qualifiers.len() as int);
    if let Some(n) = longest_qualifier(qualifiers, parts, qualifiers.len() as int) {
        let j = choose|j: int|
            0 <= j < qualifiers.len() && (#[trigger] qualifiers[j]).len() == n
                && qualifiers[j].is_prefix_of(parts);
        assert(parts.take(n) =~= qualifiers[j]);
    }
}

proof fn lemma_longest_qualifier(
    qualifiers: Seq<Seq<Seq<char>>>,
    parts: Seq<Seq<char>>,
    n: int,
)
    requires
        0 <= n <= qualifiers.len(),
    ensures
        match longest_qualifier(qualifiers, parts, n) {
            Some(best) => 0 <= best < parts.len() && (exists|j: int|
                0 <= j < n && (#[trigger] qualifiers[j]).len() == best
                    && qualifiers[j].is_prefix_of(parts)) && forall|j: int|
                0 <= j < n && (#[trigger] qualifiers[j]).len() < parts.len()
                    && qualifiers[j].is_prefix_of(parts) ==> qualifiers[j].len() <= best,
            None => forall|j: int|
                0 <= j < n ==> !((#[trigger] qualifiers[j]).len() < parts.len()
                    && qualifiers[j].is_prefix_of(parts)),
        },
    decreases n,
{
    if n > 0 {
        lemma_longest_qualifier(qualifiers, parts, n - 1);
        let q = qualifiers[n - 1];
        if q.len() < parts.len() && q.is_prefix_of(parts) {
            assert(qualifiers[n - 1].len() == q.len());
        }
    }
}

// Constructors -----------------------------------------------------------------------------------

/// Whether a class has a constructor `Create` is decided by the nearest class of its
/// ancestry that declares the name: a constructor that the unit may see is one, and
/// where it declares anything else nothing is known. Where no class of a known
/// ancestry declares it there is none.
pub proof fn law_nearest_create_decides(
    x: IndexModel,
    path: Seq<TypeId>,
    unit: usize,
)
    requires
        is_ancestry(x, path),
        path.no_duplicates(),
        path.len() <= full(),
        forall|i: int|
            0 <= i < path.len() - 1 ==> (usable_class(x, #[trigger] path[i]) matches Some(
                (_scope, _parent, create),
            ) && create == CreateMember::Absent),
        usable_class(x, path.last()) is Some,
    ensures
        ({
            let known = constructor_knowledge_of(x, full(), path[0], unit, Seq::empty());
            let (_scope, parent, create) = usable_class(x, path.last())->0;
            &&& create matches CreateMember::Constructor(v) ==> known == (if accessible(
                v,
                path.last().unit == unit,
            ) {
                Knowledge::Yes
            } else {
                Knowledge::Unknown
            })
            &&& create is NonConstructor || create is Ambiguous || create is Unknown ==> known
                == Knowledge::Unknown
            &&& create is Absent && parent is Absent ==> known == Knowledge::No
        }),
{
    assert(path.take(0) =~= Seq::empty());
    lemma_nearest_create(x, path, unit, full(), 0);
}

proof fn lemma_nearest_create(
    x: IndexModel,
    path: Seq<TypeId>,
    unit: usize,
    depth: nat,
    i: int,
)
    requires
        is_ancestry(x, path),
        path.no_duplicates(),
        0 <= i < path.len(),
        path.len() <= depth + i,
        forall|i: int|
            0 <= i < path.len() - 1 ==> (usable_class(x, #[trigger] path[i]) matches Some(
                (_scope, _parent, create),
            ) && create == CreateMember::Absent),
        usable_class(x, path.last()) is Some,
    ensures
        ({
            let known = constructor_knowledge_of(x, depth, path[i], unit, path.take(i));
            let (_scope, parent, create) = usable_class(x, path.last())->0;
            &&& create matches CreateMember::Constructor(v) ==> known == (if accessible(
                v,
                path.last().unit == unit,
            ) {
                Knowledge::Yes
            } else {
                Knowledge::Unknown
            })
            &&& create is NonConstructor || create is Ambiguous || create is Unknown ==> known
                == Knowledge::Unknown
            &&& create is Absent && parent is Absent ==> known == Knowledge::No
        }),
    decreases path.len() - i,
{
    lemma_not_before(path, i);
    if i < path.len() - 1 {
        assert(usable_class(x, path[i]) is Some);
        lemma_step_up(x, path, i);
        lemma_nearest_create(x, path, unit, (depth - 1) as nat, i + 1);
    }
}

proof fn lemma_not_before(path: Seq<TypeId>, i: int)
    requires
        path.no_duplicates(),
        0 <= i < path.len(),
    ensures
        !path.take(i).contains(path[i]),
{
    if path.take(i).contains(path[i]) {
        let j = choose|j: int| 0 <= j < i && path.take(i)[j] == path[i];
        assert(path[j] == path[i]);
    }
}

/// The step of an ancestry from class `i` to the next.
proof fn lemma_step_up(x: IndexModel, path: Seq<TypeId>, i: int) -> (r: ReferenceModel)
    requires
        is_ancestry(x, path),
        0 <= i < path.len() - 1,
    ensures
        path.take(i).push(path[i]) == path.take(i + 1),
        usable_class(x, path[i]) is Some,
        class_parent(x, path[i]) == ParentModel::Reference(r),
        resolve_name(x, r.parts, path[i].unit, r.scope, r.offset, path.take(i + 1)) == Some(
            path[i + 1],
        ),
{
    assert(path.take(i).push(path[i]) =~= path.take(i + 1));
    assert(path.take(i + 1).last() == path[i]);
    assert(next_ancestor(x, path.take(i + 1)) == Some(path[i + 1]));
    class_parent(x, path[i])->Reference_0
}

// Handlers ---------------------------------------------------------------------------------------

proof fn lemma_descends_along(
    x: IndexModel,
    path: Seq<TypeId>,
    ancestor: TypeId,
    depth: nat,
    i: int,
)
    requires
        is_ancestry(x, path),
        path.no_duplicates(),
        0 <= i < path.len(),
        path.len() <= depth + i,
        forall|j: int| 0 <= j < path.len() - 1 ==> #[trigger] path[j] != ancestor,
    ensures
        path.last() == ancestor ==> descends(x, depth, path[i], ancestor, path.take(i))
            == TypeMatch::Yes,
        path.last() != ancestor && is_topmost(x, path.last()) ==> descends(
            x,
            depth,
            path[i],
            ancestor,
            path.take(i),
        ) == TypeMatch::No,
    decreases path.len() - i,
{
    lemma_not_before(path, i);
    if i < path.len() - 1 {
        let r = lemma_step_up(x, path, i);
        lemma_descends_along(x, path, ancestor, (depth - 1) as nat, i + 1);
    }
}

/// A handler receives an exception of a known class where a known ancestry leads from
/// that class to its own, and does not where the known ancestry ends without it.
pub proof fn law_known_ancestry_decides(x: IndexModel, path: Seq<TypeId>, handler: TypeId)
    requires
        is_ancestry(x, path),
        path.no_duplicates(),
        path.len() <= full(),
    ensures
        path.last() == handler ==> matches_handler(
            x,
            ExceptionTypeFact::Known(path[0]),
            ExceptionTypeFact::Known(handler),
        ) == TypeMatch::Yes,
        !path.contains(handler) && is_topmost(x, path.last()) ==> matches_handler(
            x,
            ExceptionTypeFact::Known(path[0]),
            ExceptionTypeFact::Known(handler),
        ) == TypeMatch::No,
{
    assert(path.take(0) =~= Seq::empty());
    if path.last() == handler || !path.contains(handler) {
        assert forall|j: int| 0 <= j < path.len() - 1 implies #[trigger] path[j] != handler by {
            if path[j] == handler {
                assert(path.contains(handler));
            }
        }
        assert(path.last() != handler ==> !path.contains(handler));
        if !path.contains(handler) {
            assert(path.last() != handler) by {
                assert(path[path.len() - 1] == path.last());
            }
        }
        lemma_descends_along(x, path, handler, full(), 0);
    }
}

/// Of an exception below a known bound: a handler for an ancestor of the bound
/// receives it; one for a class below the bound may or may not, and one for a class
/// that is neither cannot.
pub proof fn law_bounded_exceptions(x: IndexModel, bound: TypeId, handler: TypeId)
    ensures
        ({
            let found = matches_handler(
                x,
                ExceptionTypeFact::SubtypeOf(bound),
                ExceptionTypeFact::Known(handler),
            );
            &&& found == TypeMatch::Yes <==> subtype(x, bound, handler) == TypeMatch::Yes
            &&& found == TypeMatch::No <==> subtype(x, bound, handler) == TypeMatch::No && subtype(
                x,
                handler,
                bound,
            ) == TypeMatch::No
        }),
{
}

/// Whether a handler for a class may receive an exception.
spec fn receives(x: IndexModel, handler: TypeId, fact: ExceptionTypeFact) -> bool {
    matches_handler(x, fact, ExceptionTypeFact::Known(handler)) != TypeMatch::No
}

/// What the body of a handler knows of the exception it handles: its exact class
/// where each exception that may get there is known to be of that one class, and else
/// that it descends from the class of the handler.
pub proof fn law_handler_context(
    x: IndexModel,
    handler: TypeId,
    incoming: Seq<ExceptionTypeFact>,
    class: TypeId,
)
    ensures
        context_of(x, ExceptionTypeFact::Known(handler), incoming) == ExceptionTypeFact::Known(
            class,
        ) <==> {
            &&& exists|i: int|
                0 <= i < incoming.len() && matches_handler(
                    x,
                    #[trigger] incoming[i],
                    ExceptionTypeFact::Known(handler),
                ) != TypeMatch::No
            &&& forall|i: int|
                0 <= i < incoming.len() && matches_handler(
                    x,
                    #[trigger] incoming[i],
                    ExceptionTypeFact::Known(handler),
                ) != TypeMatch::No ==> incoming[i] == ExceptionTypeFact::Known(class)
        },
        !(context_of(x, ExceptionTypeFact::Known(handler), incoming) is Known) ==> context_of(
            x,
            ExceptionTypeFact::Known(handler),
            incoming,
        ) == ExceptionTypeFact::SubtypeOf(handler),
{
    lemma_context(x, handler, incoming, None, 0, class);
}

proof fn lemma_context(
    x: IndexModel,
    handler: TypeId,
    incoming: Seq<ExceptionTypeFact>,
    exact: Option<TypeId>,
    i: int,
    class: TypeId,
)
    requires
        0 <= i <= incoming.len(),
    ensures
        ({
            let found = context_from(x, handler, incoming, exact, i);
            &&& found == ExceptionTypeFact::Known(class) <==> {
                &&& exact is Some || exists|j: int|
                    i <= j < incoming.len() && receives(x, handler, #[trigger] incoming[j])
                &&& exact is Some ==> exact == Some(class)
                &&& forall|j: int|
                    i <= j < incoming.len() && receives(x, handler, #[trigger] incoming[j])
                        ==> incoming[j] == ExceptionTypeFact::Known(class)
            }
            &&& !(found is Known) ==> found == ExceptionTypeFact::SubtypeOf(handler)
        }),
    decreases incoming.len() - i,
{
    if i < incoming.len() {
        let fact = incoming[i];
        if !receives(x, handler, fact) {
            lemma_context(x, handler, incoming, exact, i + 1, class);
        } else {
            assert(receives(x, handler, incoming[i]));
            if let ExceptionTypeFact::Known(own) = fact {
                lemma_context(x, handler, incoming, Some(own), i + 1, class);
            }
        }
    }
}

/// An exception is known to be of a class only where a handler that names the same
/// class at the same place would be known to be for it, and the class has a
/// constructor that the unit may call.
pub proof fn law_raised_class_is_the_handled_class(
    x: IndexModel,
    unit: usize,
    raise: SyntaxNode,
    handler: SyntaxNode,
    k: int,
    source: Seq<u8>,
)
    requires
        handler.find(crate::syntax::any_field("exception"@)) == Some(k),
        0 <= k < handler.children@.len(),
        raised_constructor(raise, source) is Some,
        type_parts_of(handler.children@[k], source) == raised_constructor(raise, source),
        handler.start == raise.start,
        handler.children@[k].start == raise.start,
    ensures
        raised_fact_of(x, unit, raise, source) is Known ==> raised_fact_of(x, unit, raise, source)
            == handler_fact_of(x, unit, handler, source),
        handler_fact_of(x, unit, handler, source) matches ExceptionTypeFact::Known(class) ==> (
        raised_fact_of(x, unit, raise, source) is Known <==> constructor_knowledge_of(
            x,
            full(),
            class,
            unit,
            Seq::empty(),
        ) == Knowledge::Yes),
        !(raised_fact_of(x, unit, raise, source) is SubtypeOf),
        !(handler_fact_of(x, unit, handler, source) is SubtypeOf),
{
}

/// Inside a `with` statement a name may be a member of anything, so no class that is
/// named there is known; nor is one in a unit with a preprocessor directive.
pub proof fn law_with_hides_classes(
    x: IndexModel,
    unit: usize,
    raise: SyntaxNode,
    source: Seq<u8>,
    k: int,
)
    requires
        unit < x.units.len(),
        x.units[unit as int].has_preprocessor_barrier || (0 <= k
            < x.units[unit as int].with_ranges.len() && x.units[unit as int].with_ranges[k].0
            <= raise.start < x.units[unit as int].with_ranges[k].1
            && raised_constructor(raise, source) is Some && raised_constructor(
            raise,
            source,
        )->0.len() > 0),
    ensures
        raised_fact_of(x, unit, raise, source) == ExceptionTypeFact::Unknown,
{
    let u = x.units[unit as int];
    if !u.has_preprocessor_barrier {
        assert(in_ranges(u.with_ranges, raise.start)) by {
            assert(u.with_ranges[k].0 <= raise.start);
        }
    }
}

} // verus!
