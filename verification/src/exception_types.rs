//! Which exception class a `raise` produces and which handlers can receive it.
//!
//! The index joins the declarations of the units of a project and resolves the
//! names written at `raise` statements and exception handlers. Everything that
//! it cannot prove stays unknown.

use vstd::prelude::*;
use crate::syntax::{any_field, SyntaxNode};
use crate::text::{opt_texts, same_text, split, split_text, texts};
use crate::unit_types::{
    name_parts, name_parts_of, type_parts_of, type_reference_parts, unit_types, Binding,
    BindingKind, BindingModel, CreateMember, DefinitionModel, LexicalScope, OwnerModel,
    ParentModel, ParentType, PendingMethodOwner, ScopeModel, TypeDefinition, TypeId, UnitModel,
    UnitTypeIndex, Visibility,
};

verus! {

broadcast use crate::syntax::lemma_find_bounds;

/// What is known of the class of a travelling exception.
///
/// `Known` is the exact class; `SubtypeOf` says that it is that class or one of
/// its descendants.
#[derive(Debug, Clone, Copy, PartialEq, Eq, Structural, Hash)]
pub enum ExceptionTypeFact {
    Known(TypeId),
    SubtypeOf(TypeId),
    Unknown,
}

/// Whether a handler receives an exception.
#[derive(Debug, Clone, Copy, PartialEq, Eq, Structural)]
pub enum TypeMatch {
    Yes,
    No,
    Unknown,
}

/// The part of a module in which a `uses` clause stands.
#[derive(Debug, Clone, Copy, PartialEq, Eq, Structural)]
pub enum ImportSection {
    /// A program or library, or a clause outside a unit's sections.
    Module,
    Interface,
    Implementation,
}

/// The unit that a `uses` entry stands for.
#[derive(Debug, Clone, Copy, PartialEq, Eq, Structural)]
pub enum ImportSelectionTarget {
    Loaded(usize),
    Unavailable,
    Ambiguous,
}

/// One `uses` entry.
#[derive(Debug)]
pub struct ImportSelection {
    pub importer: usize,
    pub start: usize,
    pub end: usize,
    pub section: ImportSection,
    pub section_start: usize,
    pub target: ImportSelectionTarget,
    pub authorized_qualifiers: Vec<Vec<String>>,
}

/// The types of one file or of the units of a project.
#[derive(Debug)]
pub struct ExceptionTypeIndex {
    pub units: Vec<UnitTypeIndex>,
    pub imports: Vec<ImportSelection>,
}

/// The mathematical value of an [`ImportSelection`].
#[verifier::ext_equal]
pub struct ImportModel {
    pub importer: usize,
    pub start: usize,
    pub end: usize,
    pub section: ImportSection,
    pub section_start: usize,
    pub target: ImportSelectionTarget,
    pub qualifiers: Seq<Seq<Seq<char>>>,
}

/// The mathematical value of an [`ExceptionTypeIndex`].
#[verifier::ext_equal]
pub struct IndexModel {
    pub units: Seq<UnitModel>,
    pub imports: Seq<ImportModel>,
}

impl View for ImportSelection {
    type V = ImportModel;

    open spec fn view(&self) -> ImportModel {
        ImportModel {
            importer: self.importer,
            start: self.start,
            end: self.end,
            section: self.section,
            section_start: self.section_start,
            target: self.target,
            qualifiers: self.authorized_qualifiers@.map_values(|q: Vec<String>| texts(q@)),
        }
    }
}

impl View for ExceptionTypeIndex {
    type V = IndexModel;

    open spec fn view(&self) -> IndexModel {
        IndexModel {
            units: self.units@.map_values(|u: UnitTypeIndex| u@),
            imports: self.imports@.map_values(|i: ImportSelection| i@),
        }
    }
}

/// What a name stands for at some place.
#[derive(Debug, Clone, Copy, PartialEq, Eq, Structural)]
pub enum Lookup {
    Type(TypeId),
    Value,
    Unknown,
    Absent,
}

/// Whether a class has an accessible constructor `Create`.
#[derive(Debug, Clone, Copy, PartialEq, Eq, Structural)]
pub enum Knowledge {
    Yes,
    No,
    Unknown,
}

/// The search for a member that is under way: the class it started at, the name,
/// and the unit and offset that ask.
#[derive(Debug)]
pub struct MemberQuery {
    pub type_id: TypeId,
    pub name: String,
    pub unit: usize,
    pub offset: usize,
}

/// The mathematical value of a [`MemberQuery`].
pub struct MemberQueryModel {
    pub type_id: TypeId,
    pub name: Seq<char>,
    pub unit: usize,
    pub offset: usize,
}

impl View for MemberQuery {
    type V = MemberQueryModel;

    open spec fn view(&self) -> MemberQueryModel {
        MemberQueryModel {
            type_id: self.type_id,
            name: self.name@,
            unit: self.unit,
            offset: self.offset,
        }
    }
}

/// The searches under way.
pub open spec fn queries(active: Seq<MemberQuery>) -> Seq<MemberQueryModel> {
    active.map_values(|q: MemberQuery| q@)
}

// Bindings in force -------------------------------------------------------------

/// The declaration of a name that is in force at an offset.
pub enum InForce {
    /// No declaration of the name lies in the range.
    Absent,
    /// The latest declaration.
    Only(BindingModel),
    /// Several declarations share the latest offset.
    Several(usize),
}

/// The declaration of `name` in force, among the first `n` bindings of a scope
/// that start in `first..=last`: the one that starts last.
pub open spec fn in_force(
    bindings: Seq<BindingModel>,
    name: Seq<char>,
    first: usize,
    last: usize,
    n: int,
) -> InForce
    decreases n,
{
    if n <= 0 || n > bindings.len() {
        InForce::Absent
    } else {
        let before = in_force(bindings, name, first, last, n - 1);
        let b = bindings[n - 1];
        if b.name == name && first <= b.start && b.start <= last {
            match before {
                InForce::Absent => InForce::Only(b),
                InForce::Only(a) => if b.start > a.start {
                    InForce::Only(b)
                } else if b.start == a.start {
                    InForce::Several(b.start)
                } else {
                    before
                },
                InForce::Several(start) => if b.start > start {
                    InForce::Only(b)
                } else {
                    before
                },
            }
        } else {
            before
        }
    }
}

/// The declaration of a name in force in a scope of a unit.
pub open spec fn scope_binding(
    unit: UnitModel,
    scope: usize,
    name: Seq<char>,
    first: usize,
    last: usize,
) -> InForce {
    if scope < unit.scopes.len() {
        let bindings = unit.scopes[scope as int].bindings;
        in_force(bindings, name, first, last, bindings.len() as int)
    } else {
        InForce::Absent
    }
}

/// An executable counterpart of [`InForce`]: the index of the binding.
enum Found {
    Absent,
    Only(usize),
    Several(usize),
}

spec fn found_model(found: Found, bindings: Seq<BindingModel>) -> InForce {
    match found {
        Found::Absent => InForce::Absent,
        Found::Only(k) => InForce::Only(bindings[k as int]),
        Found::Several(start) => InForce::Several(start),
    }
}

fn find_in_force(scope: &LexicalScope, name: &str, first: usize, last: usize) -> (r: Found)
    ensures
        found_model(r, scope@.bindings) == in_force(
            scope@.bindings,
            name@,
            first,
            last,
            scope@.bindings.len() as int,
        ),
        r matches Found::Only(k) ==> k < scope.bindings@.len(),
{
    let mut found = Found::Absent;
    let mut i: usize = 0;
    while i < scope.bindings.len()
        invariant
            i <= scope.bindings@.len(),
            scope@.bindings == scope.bindings@.map_values(|b: Binding| b@),
            found_model(found, scope@.bindings) == in_force(
                scope@.bindings,
                name@,
                first,
                last,
                i as int,
            ),
            found matches Found::Only(k) ==> k < i,
        decreases scope.bindings@.len() - i,
    {
        let b = &scope.bindings[i];
        assert(scope@.bindings[i as int] == b@);
        if first <= b.start && b.start <= last && same_text(b.name.as_str(), name) {
            match found {
                Found::Absent => {
                    found = Found::Only(i);
                },
                Found::Only(k) => {
                    assert(scope@.bindings[k as int] == scope.bindings@[k as int]@);
                    if b.start > scope.bindings[k].start {
                        found = Found::Only(i);
                    } else if b.start == scope.bindings[k].start {
                        found = Found::Several(b.start);
                    }
                },
                Found::Several(start) => {
                    if b.start > start {
                        found = Found::Only(i);
                    }
                },
            }
        }
        i = i + 1;
    }
    found
}

/// What a lexically visible declaration stands for.
pub open spec fn lexical_lookup(found: InForce) -> Lookup {
    match found {
        InForce::Absent => Lookup::Absent,
        InForce::Only(b) => match b.kind {
            BindingKind::Type(id) => Lookup::Type(id),
            BindingKind::Value => Lookup::Value,
            BindingKind::Unsupported => Lookup::Value,
        },
        InForce::Several(_) => Lookup::Unknown,
    }
}

/// Whether a member declared with a visibility can be used from a unit.
///
/// Private and protected members are visible in the declaring unit only. Strict
/// visibility needs the class of the user, which is not modelled.
pub open spec fn visible(visibility: Visibility, same_unit: bool) -> bool {
    match visibility {
        Visibility::Default => true,
        Visibility::Public => true,
        Visibility::Published => true,
        Visibility::Private => same_unit,
        Visibility::Protected => same_unit,
        Visibility::StrictPrivate => false,
        Visibility::StrictProtected => false,
        Visibility::Unknown => false,
    }
}

fn member_visible(visibility: Visibility, same_unit: bool) -> (r: bool)
    ensures
        r == visible(visibility, same_unit),
{
    match visibility {
        Visibility::Default => true,
        Visibility::Public => true,
        Visibility::Published => true,
        Visibility::Private => same_unit,
        Visibility::Protected => same_unit,
        Visibility::StrictPrivate => false,
        Visibility::StrictProtected => false,
        Visibility::Unknown => false,
    }
}

/// What a declaration reached through a class or a unit's interface stands for.
pub open spec fn member_lookup(found: InForce, same_unit: bool) -> Lookup {
    match found {
        InForce::Absent => Lookup::Absent,
        InForce::Only(b) => if !visible(b.visibility, same_unit) {
            Lookup::Unknown
        } else {
            match b.kind {
                BindingKind::Type(id) => Lookup::Type(id),
                BindingKind::Value => Lookup::Value,
                BindingKind::Unsupported => Lookup::Unknown,
            }
        },
        InForce::Several(_) => Lookup::Unknown,
    }
}

/// What a unit exports under a name: what its interface section declares.
pub open spec fn export_of(x: IndexModel, unit: usize, name: Seq<char>) -> Lookup {
    if unit >= x.units.len() {
        Lookup::Unknown
    } else {
        let u = x.units[unit as int];
        if u.parser_incomplete || u.has_preprocessor_barrier {
            Lookup::Unknown
        } else {
            match u.interface_range {
                None => Lookup::Absent,
                Some((start, end)) => if end == 0 {
                    Lookup::Absent
                } else {
                    match scope_binding(u, 0, name, start, (end - 1) as usize) {
                        InForce::Absent => Lookup::Absent,
                        InForce::Only(b) => match b.kind {
                            BindingKind::Type(id) => Lookup::Type(id),
                            BindingKind::Value => Lookup::Value,
                            BindingKind::Unsupported => Lookup::Unknown,
                        },
                        InForce::Several(_) => Lookup::Unknown,
                    }
                },
            }
        }
    }
}

/// The class of a unit whose members live in a scope, at or behind type `i`.
pub open spec fn class_of_scope(unit: UnitModel, scope: usize, i: int) -> Option<TypeId>
    decreases unit.types.len() - i,
{
    if i < 0 || i >= unit.types.len() {
        None
    } else {
        match unit.types[i] {
            DefinitionModel::Class { class_scope, .. } => if class_scope == scope {
                Some(TypeId { unit: unit.unit_index, local: i as usize })
            } else {
                class_of_scope(unit, scope, i + 1)
            },
            _ => class_of_scope(unit, scope, i + 1),
        }
    }
}

/// Whether a scope or one that encloses it belongs to a method of unknown owner.
pub open spec fn owner_unknown(unit: UnitModel, scope: usize) -> bool
    decreases scope,
{
    if scope >= unit.scopes.len() {
        false
    } else {
        unit.scopes[scope as int].unresolved_owner || match unit.scopes[scope as int].parent {
            Some(p) => p < scope && owner_unknown(unit, p),
            None => false,
        }
    }
}

// Imports -------------------------------------------------------------------------

/// Whether an entry is visible at an offset of its unit.
pub open spec fn import_in_view(import: ImportModel, unit: usize, offset: usize) -> bool {
    &&& import.importer == unit
    &&& import.end <= offset
    &&& import.section == ImportSection::Implementation ==> offset >= import.section_start
}

/// The length of the longest of the first `n` qualifiers that properly starts
/// the parts.
pub open spec fn longest_qualifier(
    qualifiers: Seq<Seq<Seq<char>>>,
    parts: Seq<Seq<char>>,
    n: int,
) -> Option<int>
    decreases n,
{
    if n <= 0 || n > qualifiers.len() {
        None
    } else {
        let before = longest_qualifier(qualifiers, parts, n - 1);
        let q = qualifiers[n - 1];
        if q.len() < parts.len() && q.is_prefix_of(parts) {
            match before {
                Some(best) => if q.len() > best {
                    Some(q.len() as int)
                } else {
                    before
                },
                None => Some(q.len() as int),
            }
        } else {
            before
        }
    }
}

/// The length of the qualifier by which the parts name something in an import.
pub open spec fn qualifier_of(
    import: ImportModel,
    parts: Seq<Seq<char>>,
    unit: usize,
    offset: usize,
) -> Option<int> {
    if import_in_view(import, unit, offset) {
        longest_qualifier(import.qualifiers, parts, import.qualifiers.len() as int)
    } else {
        None
    }
}

/// Whether some of the first `n` imports can be meant by the parts' qualifier.
pub open spec fn some_qualifier(
    imports: Seq<ImportModel>,
    parts: Seq<Seq<char>>,
    unit: usize,
    offset: usize,
    n: int,
) -> bool
    decreases n,
{
    if n <= 0 || n > imports.len() {
        false
    } else {
        some_qualifier(imports, parts, unit, offset, n - 1) || qualifier_of(
            imports[n - 1],
            parts,
            unit,
            offset,
        ) is Some
    }
}

/// Whether an import may declare the first part itself, so that it is not a
/// qualifier.
pub open spec fn shadows_qualifier(x: IndexModel, import: ImportModel, name: Seq<char>) -> bool {
    match import.target {
        ImportSelectionTarget::Loaded(target) => export_of(x, target, name) != Lookup::Absent,
        _ => true,
    }
}

// Resolution ----------------------------------------------------------------------
//
// The functions below call each other. `fuel` bounds their nesting. `seen` holds
// the types whose definition is being followed and `active` the member searches
// under way; meeting one of them again means that the declarations are circular,
// and what depends on it stays unknown.

/// The type that a dotted name stands for at a place of a unit.
pub open spec fn resolve(
    x: IndexModel,
    fuel: nat,
    parts: Seq<Seq<char>>,
    unit: usize,
    scope: usize,
    offset: usize,
    seen: Seq<TypeId>,
    active: Seq<MemberQueryModel>,
) -> Option<TypeId>
    decreases fuel, 4int, 0int,
{
    if parts.len() == 0 || unit >= x.units.len() {
        None
    } else {
        let u = x.units[unit as int];
        let module = match u.module_name {
            Some(name) => split_text(name, '.'),
            None => parts,
        };
        if module.len() < parts.len() && module.is_prefix_of(parts) && !shadowed(
            x,
            fuel,
            unit,
            scope,
            parts[0],
            offset,
            active,
        ) && !owner_unknown(u, scope) {
            let k = module.len() as int;
            match lookup(x, fuel, unit, 0, parts[k], offset, active) {
                Lookup::Type(id) => match resolve_type(x, fuel, id, seen, active) {
                    Some(resolved) => resolve_members(
                        x,
                        fuel,
                        parts,
                        k + 1,
                        resolved,
                        unit,
                        offset,
                        seen,
                        active,
                    ),
                    None => None,
                },
                _ => None,
            }
        } else {
            match lookup(x, fuel, unit, scope, parts[0], offset, active) {
                Lookup::Type(id) => match resolve_type(x, fuel, id, seen, active) {
                    Some(resolved) => resolve_members(
                        x,
                        fuel,
                        parts,
                        1,
                        resolved,
                        unit,
                        offset,
                        seen,
                        active,
                    ),
                    None => None,
                },
                Lookup::Absent => resolve_imported(
                    x,
                    fuel,
                    parts,
                    unit,
                    offset,
                    parts.len() > 1 && some_qualifier(
                        x.imports,
                        parts,
                        unit,
                        offset,
                        x.imports.len() as int,
                    ),
                    seen,
                    active,
                    0,
                ),
                _ => None,
            }
        }
    }
}

/// The type that a name stands for through the imports at or behind `i`, where
/// nothing in the unit itself declares it. An import that is not loaded, or whose
/// unit declares the name as something else, ends the search.
pub open spec fn resolve_imported(
    x: IndexModel,
    fuel: nat,
    parts: Seq<Seq<char>>,
    unit: usize,
    offset: usize,
    qualified: bool,
    seen: Seq<TypeId>,
    active: Seq<MemberQueryModel>,
    i: int,
) -> Option<TypeId>
    decreases fuel, 3int, x.imports.len() - i,
{
    if i < 0 || i >= x.imports.len() || parts.len() == 0 {
        None
    } else {
        let import = x.imports[i];
        if !import_in_view(import, unit, offset) {
            resolve_imported(x, fuel, parts, unit, offset, qualified, seen, active, i + 1)
        } else if qualified && shadows_qualifier(x, import, parts[0]) {
            None
        } else {
            let prefix = if qualified {
                qualifier_of(import, parts, unit, offset)
            } else {
                Some(0int)
            };
            match prefix {
                Some(k) => if 0 <= k < parts.len() {
                    match import.target {
                        ImportSelectionTarget::Loaded(target) => {
                            match export_of(x, target, parts[k]) {
                                Lookup::Type(id) => match resolve_type(x, fuel, id, seen, active) {
                                    Some(resolved) => resolve_members(
                                        x,
                                        fuel,
                                        parts,
                                        k + 1,
                                        resolved,
                                        unit,
                                        offset,
                                        seen,
                                        active,
                                    ),
                                    None => None,
                                },
                                Lookup::Absent => resolve_imported(
                                    x,
                                    fuel,
                                    parts,
                                    unit,
                                    offset,
                                    qualified,
                                    seen,
                                    active,
                                    i + 1,
                                ),
                                _ => None,
                            }
                        },
                        _ => None,
                    }
                } else {
                    resolve_imported(x, fuel, parts, unit, offset, qualified, seen, active, i + 1)
                },
                None => resolve_imported(
                    x,
                    fuel,
                    parts,
                    unit,
                    offset,
                    qualified,
                    seen,
                    active,
                    i + 1,
                ),
            }
        }
    }
}

/// The type that the parts from `i` on stand for as members of a type.
pub open spec fn resolve_members(
    x: IndexModel,
    fuel: nat,
    parts: Seq<Seq<char>>,
    i: int,
    resolved: TypeId,
    unit: usize,
    offset: usize,
    seen: Seq<TypeId>,
    active: Seq<MemberQueryModel>,
) -> Option<TypeId>
    decreases fuel, 2int, parts.len() - i,
{
    if i < 0 || i >= parts.len() {
        Some(resolved)
    } else {
        match member(x, fuel, resolved, parts[i], unit, offset, active) {
            Lookup::Type(id) => match resolve_type(x, fuel, id, seen, active) {
                Some(next) => resolve_members(
                    x,
                    fuel,
                    parts,
                    i + 1,
                    next,
                    unit,
                    offset,
                    seen,
                    active,
                ),
                None => None,
            },
            _ => None,
        }
    }
}

/// What a name stands for in a scope or those that enclose it.
pub open spec fn lookup(
    x: IndexModel,
    fuel: nat,
    unit: usize,
    scope: usize,
    name: Seq<char>,
    offset: usize,
    active: Seq<MemberQueryModel>,
) -> Lookup
    decreases fuel, 2int, scope as int,
{
    if unit >= x.units.len() {
        Lookup::Unknown
    } else if scope >= x.units[unit as int].scopes.len() {
        Lookup::Absent
    } else {
        let u = x.units[unit as int];
        let s = u.scopes[scope as int];
        let direct = lexical_lookup(scope_binding(u, scope, name, 0, offset));
        if direct != Lookup::Absent {
            direct
        } else if s.unresolved_owner {
            Lookup::Unknown
        } else {
            let owned = match s.owner_type {
                Some(owner) => member(x, fuel, owner, name, unit, offset, active),
                None => Lookup::Absent,
            };
            if owned != Lookup::Absent {
                owned
            } else {
                let inherited = match class_of_scope(u, scope, 0) {
                    Some(class) => member(x, fuel, class, name, unit, offset, active),
                    None => Lookup::Absent,
                };
                if inherited != Lookup::Absent {
                    inherited
                } else {
                    match s.parent {
                        Some(p) => if p < scope {
                            lookup(x, fuel, unit, p, name, offset, active)
                        } else {
                            Lookup::Absent
                        },
                        None => Lookup::Absent,
                    }
                }
            }
        }
    }
}

/// Whether something other than the module itself may be meant by its name.
pub open spec fn shadowed(
    x: IndexModel,
    fuel: nat,
    unit: usize,
    scope: usize,
    name: Seq<char>,
    offset: usize,
    active: Seq<MemberQueryModel>,
) -> bool
    decreases fuel, 2int, scope as int,
{
    if unit >= x.units.len() {
        true
    } else if scope >= x.units[unit as int].scopes.len() {
        false
    } else {
        let u = x.units[unit as int];
        let s = u.scopes[scope as int];
        let inherited = match class_of_scope(u, scope, 0) {
            Some(class) => member(x, fuel, class, name, unit, offset, active),
            None => Lookup::Absent,
        };
        let owned = match s.owner_type {
            Some(owner) => member(x, fuel, owner, name, unit, offset, active),
            None => Lookup::Absent,
        };
        lexical_lookup(scope_binding(u, scope, name, 0, offset)) != Lookup::Absent || inherited
            != Lookup::Absent || owned != Lookup::Absent || match s.parent {
            Some(p) => p < scope && shadowed(x, fuel, unit, p, name, offset, active),
            None => false,
        }
    }
}

/// What a name stands for as a member of a class or of its ancestors.
pub open spec fn member(
    x: IndexModel,
    fuel: nat,
    type_id: TypeId,
    name: Seq<char>,
    unit: usize,
    offset: usize,
    active: Seq<MemberQueryModel>,
) -> Lookup
    decreases fuel, 1int, 1int,
{
    let query = MemberQueryModel { type_id, name, unit, offset };
    if active.contains(query) {
        Lookup::Unknown
    } else {
        member_from(
            x,
            fuel,
            type_id,
            name,
            unit,
            offset,
            Seq::empty(),
            active.push(query),
        )
    }
}

/// The same, for a search that has come through the classes in `seen`.
pub open spec fn member_from(
    x: IndexModel,
    fuel: nat,
    type_id: TypeId,
    name: Seq<char>,
    unit: usize,
    offset: usize,
    seen: Seq<TypeId>,
    active: Seq<MemberQueryModel>,
) -> Lookup
    decreases fuel, 1int, 0int,
{
    if seen.contains(type_id) {
        Lookup::Unknown
    } else {
        match usable_class(x, type_id) {
            None => Lookup::Unknown,
            Some((class_scope, parent, _create)) => {
                let same_unit = type_id.unit == unit;
                let direct = member_lookup(
                    scope_binding(
                        x.units[type_id.unit as int],
                        class_scope,
                        name,
                        0,
                        if same_unit {
                            offset
                        } else {
                            usize::MAX
                        },
                    ),
                    same_unit,
                );
                if direct != Lookup::Absent {
                    direct
                } else {
                    match parent {
                        ParentModel::Absent => Lookup::Absent,
                        ParentModel::Unsupported => Lookup::Unknown,
                        ParentModel::Reference(reference) => if fuel == 0 {
                            Lookup::Unknown
                        } else {
                            match resolve(
                                x,
                                (fuel - 1) as nat,
                                reference.parts,
                                type_id.unit,
                                reference.scope,
                                reference.offset,
                                seen.push(type_id),
                                active,
                            ) {
                                Some(ancestor) => member_from(
                                    x,
                                    (fuel - 1) as nat,
                                    ancestor,
                                    name,
                                    unit,
                                    offset,
                                    seen.push(type_id),
                                    active,
                                ),
                                None => Lookup::Unknown,
                            }
                        },
                    }
                }
            },
        }
    }
}

/// The class that a type is, through aliases.
pub open spec fn resolve_type(
    x: IndexModel,
    fuel: nat,
    type_id: TypeId,
    seen: Seq<TypeId>,
    active: Seq<MemberQueryModel>,
) -> Option<TypeId>
    decreases fuel, 1int, 0int,
{
    if seen.contains(type_id) || type_id.unit >= x.units.len() || type_id.local
        >= x.units[type_id.unit as int].types.len() {
        None
    } else {
        match x.units[type_id.unit as int].types[type_id.local as int] {
            DefinitionModel::Class { .. } => if usable_class(x, type_id) is Some {
                Some(type_id)
            } else {
                None
            },
            DefinitionModel::Alias(Some(reference)) => if fuel == 0 {
                None
            } else {
                resolve(
                    x,
                    (fuel - 1) as nat,
                    reference.parts,
                    type_id.unit,
                    reference.scope,
                    reference.offset,
                    seen.push(type_id),
                    active,
                )
            },
            _ => None,
        }
    }
}

/// The scope, ancestor and `Create` of a class that is complete, in a unit that
/// parsed without errors and holds no preprocessor directive.
pub open spec fn usable_class(x: IndexModel, type_id: TypeId) -> Option<
    (usize, ParentModel, CreateMember),
> {
    if type_id.unit >= x.units.len() || type_id.local >= x.units[type_id.unit as int].types.len() {
        None
    } else {
        let u = x.units[type_id.unit as int];
        match u.types[type_id.local as int] {
            DefinitionModel::Class { class_scope, parent, create_member, incomplete } => {
                if incomplete || u.parser_incomplete || u.has_preprocessor_barrier {
                    None
                } else {
                    Some((class_scope, parent, create_member))
                }
            },
            _ => None,
        }
    }
}

/// The bound on the nesting of a resolution.
pub open spec fn full() -> nat {
    usize::MAX as nat
}

/// The type that a dotted name stands for, with nothing else under way.
pub open spec fn resolve_name(
    x: IndexModel,
    parts: Seq<Seq<char>>,
    unit: usize,
    scope: usize,
    offset: usize,
    seen: Seq<TypeId>,
) -> Option<TypeId> {
    resolve(x, full(), parts, unit, scope, offset, seen, Seq::empty())
}

fn has_type(seen: &Vec<TypeId>, type_id: TypeId) -> (r: bool)
    ensures
        r == seen@.contains(type_id),
{
    let mut i: usize = 0;
    while i < seen.len()
        invariant
            i <= seen@.len(),
            forall|k: int| 0 <= k < i ==> seen@[k] != type_id,
        decreases seen@.len() - i,
    {
        if seen[i] == type_id {
            return true;
        }
        i = i + 1;
    }
    false
}

fn with_seen(seen: &Vec<TypeId>, type_id: TypeId) -> (r: Vec<TypeId>)
    ensures
        r@ == seen@.push(type_id),
{
    let mut out: Vec<TypeId> = Vec::new();
    let mut i: usize = 0;
    while i < seen.len()
        invariant
            i <= seen@.len(),
            out@ == seen@.take(i as int),
        decreases seen@.len() - i,
    {
        out.push(seen[i]);
        i = i + 1;
        assert(seen@.take(i as int) =~= seen@.take(i as int - 1).push(seen@[i as int - 1]));
    }
    assert(seen@.take(i as int) =~= seen@);
    out.push(type_id);
    out
}

fn has_query(
    active: &Vec<MemberQuery>,
    type_id: TypeId,
    name: &str,
    unit: usize,
    offset: usize,
) -> (r: bool)
    ensures
        r == queries(active@).contains(
            (MemberQueryModel { type_id, name: name@, unit, offset }),
        ),
{
    let ghost query = MemberQueryModel { type_id, name: name@, unit, offset };
    let mut i: usize = 0;
    while i < active.len()
        invariant
            i <= active@.len(),
            query == (MemberQueryModel { type_id, name: name@, unit, offset }),
            forall|k: int| 0 <= k < i ==> queries(active@)[k] != query,
        decreases active@.len() - i,
    {
        let q = &active[i];
        assert(queries(active@)[i as int] == q@);
        if q.type_id == type_id && q.unit == unit && q.offset == offset && same_text(
            q.name.as_str(),
            name,
        ) {
            return true;
        }
        i = i + 1;
    }
    assert(queries(active@).len() == active@.len());
    false
}

fn with_query(
    active: &Vec<MemberQuery>,
    type_id: TypeId,
    name: &str,
    unit: usize,
    offset: usize,
) -> (r: Vec<MemberQuery>)
    ensures
        queries(r@) == queries(active@).push(
            (MemberQueryModel { type_id, name: name@, unit, offset }),
        ),
{
    let mut out: Vec<MemberQuery> = Vec::new();
    let mut i: usize = 0;
    while i < active.len()
        invariant
            i <= active@.len(),
            queries(out@) == queries(active@).take(i as int),
        decreases active@.len() - i,
    {
        let q = &active[i];
        let copy = MemberQuery {
            type_id: q.type_id,
            name: q.name.clone(),
            unit: q.unit,
            offset: q.offset,
        };
        let ghost before = out@;
        out.push(copy);
        assert(queries(out@) =~= queries(before).push(active@[i as int]@));
        i = i + 1;
        assert(queries(active@).take(i as int) =~= queries(active@).take(i as int - 1).push(
            active@[i as int - 1]@,
        ));
    }
    assert(queries(active@).take(i as int) =~= queries(active@));
    let ghost before = out@;
    let last = MemberQuery { type_id, name: name.to_owned(), unit, offset };
    out.push(last);
    assert(queries(out@) =~= queries(before).push(last@));
    out
}

/// Whether the parts start with a prefix.
fn starts_with(parts: &Vec<String>, prefix: &Vec<String>) -> (r: bool)
    ensures
        r == texts(prefix@).is_prefix_of(texts(parts@)),
{
    assert(texts(prefix@).len() == prefix@.len());
    assert(texts(parts@).len() == parts@.len());
    if prefix.len() > parts.len() {
        return false;
    }
    let mut i: usize = 0;
    while i < prefix.len()
        invariant
            i <= prefix@.len() <= parts@.len(),
            forall|k: int| 0 <= k < i ==> prefix@[k]@ == parts@[k]@,
        decreases prefix@.len() - i,
    {
        if !same_text(prefix[i].as_str(), parts[i].as_str()) {
            assert(texts(prefix@)[i as int] != texts(parts@)[i as int]);
            assert(texts(parts@).subrange(0, prefix@.len() as int)[i as int] == texts(
                parts@,
            )[i as int]);
            return false;
        }
        i = i + 1;
    }
    assert(texts(prefix@) =~= texts(parts@).subrange(0, prefix@.len() as int));
    true
}

impl UnitTypeIndex {
    fn lexical(&self, scope: usize, name: &str, offset: usize) -> (r: Lookup)
        ensures
            r == lexical_lookup(scope_binding(self@, scope, name@, 0, offset)),
    {
        if scope >= self.scopes.len() {
            return Lookup::Absent;
        }
        let s = &self.scopes[scope];
        assert(self@.scopes[scope as int] == s@);
        match find_in_force(s, name, 0, offset) {
            Found::Absent => Lookup::Absent,
            Found::Only(k) => {
                assert(s@.bindings[k as int] == s.bindings@[k as int]@);
                match s.bindings[k].kind {
                    BindingKind::Type(id) => Lookup::Type(id),
                    BindingKind::Value => Lookup::Value,
                    BindingKind::Unsupported => Lookup::Value,
                }
            },
            Found::Several(_) => Lookup::Unknown,
        }
    }

    fn direct_member(&self, scope: usize, name: &str, same_unit: bool, offset: usize) -> (r: Lookup)
        ensures
            r == member_lookup(scope_binding(self@, scope, name@, 0, offset), same_unit),
    {
        if scope >= self.scopes.len() {
            return Lookup::Absent;
        }
        let s = &self.scopes[scope];
        assert(self@.scopes[scope as int] == s@);
        match find_in_force(s, name, 0, offset) {
            Found::Absent => Lookup::Absent,
            Found::Only(k) => {
                assert(s@.bindings[k as int] == s.bindings@[k as int]@);
                if !member_visible(s.bindings[k].visibility, same_unit) {
                    return Lookup::Unknown;
                }
                match s.bindings[k].kind {
                    BindingKind::Type(id) => Lookup::Type(id),
                    BindingKind::Value => Lookup::Value,
                    BindingKind::Unsupported => Lookup::Unknown,
                }
            },
            Found::Several(_) => Lookup::Unknown,
        }
    }

    fn class_type_for_scope(&self, scope: usize) -> (r: Option<TypeId>)
        ensures
            r == class_of_scope(self@, scope, 0),
    {
        let mut i: usize = 0;
        while i < self.types.len()
            invariant
                i <= self.types@.len(),
                self@.types.len() == self.types@.len(),
                class_of_scope(self@, scope, 0) == class_of_scope(self@, scope, i as int),
            decreases self.types@.len() - i,
        {
            assert(self@.types[i as int] == self.types@[i as int]@);
            if let TypeDefinition::Class { class_scope, .. } = &self.types[i] {
                if *class_scope == scope {
                    return Some(TypeId { unit: self.unit_index, local: i });
                }
            }
            i = i + 1;
        }
        None
    }

    fn has_unresolved_owner(&self, scope: usize) -> (r: bool)
        ensures
            r == owner_unknown(self@, scope),
        decreases scope,
    {
        if scope >= self.scopes.len() {
            return false;
        }
        assert(self@.scopes[scope as int] == self.scopes@[scope as int]@);
        if self.scopes[scope].unresolved_owner {
            return true;
        }
        match self.scopes[scope].parent {
            Some(p) => p < scope && self.has_unresolved_owner(p),
            None => false,
        }
    }
}

impl ImportSelection {
    fn in_view(&self, unit: usize, offset: usize) -> (r: bool)
        ensures
            r == import_in_view(self@, unit, offset),
    {
        self.importer == unit && self.end <= offset && (self.section
            != ImportSection::Implementation || offset >= self.section_start)
    }

    fn qualifier_match(&self, parts: &Vec<String>, unit: usize, offset: usize) -> (r: Option<usize>)
        ensures
            crate::syntax::index_of(r) == qualifier_of(self@, texts(parts@), unit, offset),
            r matches Some(k) ==> k < parts@.len(),
    {
        if !self.in_view(unit, offset) {
            return None;
        }
        let mut best: Option<usize> = None;
        let mut i: usize = 0;
        while i < self.authorized_qualifiers.len()
            invariant
                i <= self.authorized_qualifiers@.len(),
                self@.qualifiers.len() == self.authorized_qualifiers@.len(),
                crate::syntax::index_of(best) == longest_qualifier(
                    self@.qualifiers,
                    texts(parts@),
                    i as int,
                ),
                best matches Some(k) ==> k < parts@.len(),
            decreases self.authorized_qualifiers@.len() - i,
        {
            let q = &self.authorized_qualifiers[i];
            assert(self@.qualifiers[i as int] == texts(q@));
            assert(texts(q@).len() == q@.len());
            assert(texts(parts@).len() == parts@.len());
            if q.len() < parts.len() && starts_with(parts, q) {
                match best {
                    Some(b) => {
                        if q.len() > b {
                            best = Some(q.len());
                        }
                    },
                    None => {
                        best = Some(q.len());
                    },
                }
            }
            i = i + 1;
        }
        best
    }
}

impl ExceptionTypeIndex {
    fn lookup_export(&self, unit: usize, name: &str) -> (r: Lookup)
        ensures
            r == export_of(self@, unit, name@),
    {
        if unit >= self.units.len() {
            return Lookup::Unknown;
        }
        let u = &self.units[unit];
        assert(self@.units[unit as int] == u@);
        if u.parser_incomplete || u.has_preprocessor_barrier {
            return Lookup::Unknown;
        }
        match u.interface_range {
            None => Lookup::Absent,
            Some((start, end)) => {
                if end == 0 || u.scopes.len() == 0 {
                    return Lookup::Absent;
                }
                let s = &u.scopes[0];
                assert(u@.scopes[0] == s@);
                match find_in_force(s, name, start, end - 1) {
                    Found::Absent => Lookup::Absent,
                    Found::Only(k) => {
                        assert(s@.bindings[k as int] == s.bindings@[k as int]@);
                        match s.bindings[k].kind {
                            BindingKind::Type(id) => Lookup::Type(id),
                            BindingKind::Value => Lookup::Value,
                            BindingKind::Unsupported => Lookup::Unknown,
                        }
                    },
                    Found::Several(_) => Lookup::Unknown,
                }
            },
        }
    }

    fn import_can_shadow_qualifier(&self, import: &ImportSelection, name: &str) -> (r: bool)
        ensures
            r == shadows_qualifier(self@, import@, name@),
    {
        match import.target {
            ImportSelectionTarget::Loaded(target) => self.lookup_export(target, name)
                != Lookup::Absent,
            _ => true,
        }
    }

    fn any_qualifier(&self, parts: &Vec<String>, unit: usize, offset: usize) -> (r: bool)
        ensures
            r == some_qualifier(
                self@.imports,
                texts(parts@),
                unit,
                offset,
                self@.imports.len() as int,
            ),
    {
        let mut any: bool = false;
        let mut i: usize = 0;
        while i < self.imports.len()
            invariant
                i <= self.imports@.len(),
                self@.imports.len() == self.imports@.len(),
                any == some_qualifier(self@.imports, texts(parts@), unit, offset, i as int),
            decreases self.imports@.len() - i,
        {
            assert(self@.imports[i as int] == self.imports@[i as int]@);
            if self.imports[i].qualifier_match(parts, unit, offset).is_some() {
                any = true;
            }
            i = i + 1;
        }
        any
    }

    fn is_usable_class(&self, type_id: TypeId) -> (r: bool)
        ensures
            r == (usable_class(self@, type_id) is Some),
            r ==> type_id.unit < self.units@.len() && type_id.local
                < self.units@[type_id.unit as int].types@.len(),
    {
        if type_id.unit >= self.units.len() {
            return false;
        }
        let u = &self.units[type_id.unit];
        assert(self@.units[type_id.unit as int] == u@);
        if type_id.local >= u.types.len() {
            return false;
        }
        assert(u@.types[type_id.local as int] == u.types@[type_id.local as int]@);
        match &u.types[type_id.local] {
            TypeDefinition::Class { incomplete, .. } => !*incomplete && !u.parser_incomplete
                && !u.has_preprocessor_barrier,
            _ => false,
        }
    }

    fn resolve_parts(
        &self,
        fuel: usize,
        parts: &Vec<String>,
        unit: usize,
        scope: usize,
        offset: usize,
        seen: &Vec<TypeId>,
        active: &Vec<MemberQuery>,
    ) -> (r: Option<TypeId>)
        ensures
            r == resolve(
                self@,
                fuel as nat,
                texts(parts@),
                unit,
                scope,
                offset,
                seen@,
                queries(active@),
            ),
        decreases fuel, 4int, 0int,
    {
        assert(texts(parts@).len() == parts@.len());
        if parts.len() == 0 || unit >= self.units.len() {
            return None;
        }
        let u = &self.units[unit];
        assert(self@.units[unit as int] == u@);
        assert(texts(parts@)[0] == parts@[0]@);
        let mut local: Option<usize> = None;
        if let Some(name) = &u.module_name {
            let module = split(name.as_str(), '.');
            assert(texts(module@).len() == module@.len());
            if module.len() < parts.len() && starts_with(parts, &module)
                && !self.qualifier_is_shadowed(fuel, unit, scope, parts[0].as_str(), offset, active)
                && !u.has_unresolved_owner(scope) {
                local = Some(module.len());
            }
        }
        match local {
            Some(k) => {
                assert(texts(parts@)[k as int] == parts@[k as int]@);
                match self.lookup_name(fuel, unit, 0, parts[k].as_str(), offset, active) {
                    Lookup::Type(id) => match self.resolve_type_id(fuel, id, seen, active) {
                        Some(resolved) => self.resolve_member_parts(
                            fuel,
                            parts,
                            k + 1,
                            resolved,
                            unit,
                            offset,
                            seen,
                            active,
                        ),
                        None => None,
                    },
                    _ => None,
                }
            },
            None => match self.lookup_name(fuel, unit, scope, parts[0].as_str(), offset, active) {
                Lookup::Type(id) => match self.resolve_type_id(fuel, id, seen, active) {
                    Some(resolved) => self.resolve_member_parts(
                        fuel,
                        parts,
                        1,
                        resolved,
                        unit,
                        offset,
                        seen,
                        active,
                    ),
                    None => None,
                },
                Lookup::Absent => {
                    let qualified = parts.len() > 1 && self.any_qualifier(parts, unit, offset);
                    self.resolve_imported_parts(fuel, parts, unit, offset, qualified, seen, active)
                },
                _ => None,
            },
        }
    }

    fn resolve_imported_parts(
        &self,
        fuel: usize,
        parts: &Vec<String>,
        unit: usize,
        offset: usize,
        qualified: bool,
        seen: &Vec<TypeId>,
        active: &Vec<MemberQuery>,
    ) -> (r: Option<TypeId>)
        requires
            parts@.len() > 0,
        ensures
            r == resolve_imported(
                self@,
                fuel as nat,
                texts(parts@),
                unit,
                offset,
                qualified,
                seen@,
                queries(active@),
                0,
            ),
        decreases fuel, 3int, 0int,
    {
        let ghost names = texts(parts@);
        let count: usize = parts.len();
        let mut i: usize = 0;
        while i < self.imports.len()
            invariant
                i <= self.imports@.len(),
                self@.imports.len() == self.imports@.len(),
                parts@.len() > 0,
                count == parts@.len(),
                names == texts(parts@),
                names.len() == parts@.len(),
                resolve_imported(
                    self@,
                    fuel as nat,
                    names,
                    unit,
                    offset,
                    qualified,
                    seen@,
                    queries(active@),
                    0,
                ) == resolve_imported(
                    self@,
                    fuel as nat,
                    names,
                    unit,
                    offset,
                    qualified,
                    seen@,
                    queries(active@),
                    i as int,
                ),
            decreases self.imports@.len() - i,
        {
            let import = &self.imports[i];
            assert(self@.imports[i as int] == import@);
            assert(names[0] == parts@[0]@);
            if import.in_view(unit, offset) {
                if qualified && self.import_can_shadow_qualifier(import, parts[0].as_str()) {
                    return None;
                }
                let prefix: Option<usize> = if qualified {
                    import.qualifier_match(parts, unit, offset)
                } else {
                    Some(0)
                };
                if let Some(k) = prefix {
                    assert(names[k as int] == parts@[k as int]@);
                    match import.target {
                        ImportSelectionTarget::Loaded(target) => {
                            match self.lookup_export(target, parts[k].as_str()) {
                                Lookup::Type(id) => {
                                    return match self.resolve_type_id(fuel, id, seen, active) {
                                        Some(resolved) => self.resolve_member_parts(
                                            fuel,
                                            parts,
                                            k + 1,
                                            resolved,
                                            unit,
                                            offset,
                                            seen,
                                            active,
                                        ),
                                        None => None,
                                    };
                                },
                                Lookup::Absent => {},
                                _ => {
                                    return None;
                                },
                            }
                        },
                        _ => {
                            return None;
                        },
                    }
                }
            }
            i = i + 1;
        }
        None
    }

    fn resolve_member_parts(
        &self,
        fuel: usize,
        parts: &Vec<String>,
        from: usize,
        start: TypeId,
        unit: usize,
        offset: usize,
        seen: &Vec<TypeId>,
        active: &Vec<MemberQuery>,
    ) -> (r: Option<TypeId>)
        requires
            from <= parts@.len(),
        ensures
            r == resolve_members(
                self@,
                fuel as nat,
                texts(parts@),
                from as int,
                start,
                unit,
                offset,
                seen@,
                queries(active@),
            ),
        decreases fuel, 2int, 0int,
    {
        let ghost names = texts(parts@);
        let mut resolved = start;
        let mut i: usize = from;
        while i < parts.len()
            invariant
                from <= i <= parts@.len(),
                names == texts(parts@),
                names.len() == parts@.len(),
                resolve_members(
                    self@,
                    fuel as nat,
                    names,
                    from as int,
                    start,
                    unit,
                    offset,
                    seen@,
                    queries(active@),
                ) == resolve_members(
                    self@,
                    fuel as nat,
                    names,
                    i as int,
                    resolved,
                    unit,
                    offset,
                    seen@,
                    queries(active@),
                ),
            decreases parts@.len() - i,
        {
            assert(names[i as int] == parts@[i as int]@);
            match self.find_member(fuel, resolved, parts[i].as_str(), unit, offset, active) {
                Lookup::Type(id) => match self.resolve_type_id(fuel, id, seen, active) {
                    Some(next) => {
                        resolved = next;
                    },
                    None => {
                        return None;
                    },
                },
                _ => {
                    return None;
                },
            }
            i = i + 1;
        }
        Some(resolved)
    }

    fn lookup_name(
        &self,
        fuel: usize,
        unit: usize,
        scope: usize,
        name: &str,
        offset: usize,
        active: &Vec<MemberQuery>,
    ) -> (r: Lookup)
        ensures
            r == lookup(self@, fuel as nat, unit, scope, name@, offset, queries(active@)),
        decreases fuel, 2int, scope as int,
    {
        if unit >= self.units.len() {
            return Lookup::Unknown;
        }
        let u = &self.units[unit];
        assert(self@.units[unit as int] == u@);
        if scope >= u.scopes.len() {
            return Lookup::Absent;
        }
        let s = &u.scopes[scope];
        assert(u@.scopes[scope as int] == s@);
        let direct = u.lexical(scope, name, offset);
        if direct != Lookup::Absent {
            return direct;
        }
        if s.unresolved_owner {
            return Lookup::Unknown;
        }
        if let Some(owner) = s.owner_type {
            let owned = self.find_member(fuel, owner, name, unit, offset, active);
            if owned != Lookup::Absent {
                return owned;
            }
        }
        if let Some(class) = u.class_type_for_scope(scope) {
            let inherited = self.find_member(fuel, class, name, unit, offset, active);
            if inherited != Lookup::Absent {
                return inherited;
            }
        }
        match s.parent {
            Some(p) => if p < scope {
                self.lookup_name(fuel, unit, p, name, offset, active)
            } else {
                Lookup::Absent
            },
            None => Lookup::Absent,
        }
    }

    fn qualifier_is_shadowed(
        &self,
        fuel: usize,
        unit: usize,
        scope: usize,
        name: &str,
        offset: usize,
        active: &Vec<MemberQuery>,
    ) -> (r: bool)
        ensures
            r == shadowed(self@, fuel as nat, unit, scope, name@, offset, queries(active@)),
        decreases fuel, 2int, scope as int,
    {
        if unit >= self.units.len() {
            return true;
        }
        let u = &self.units[unit];
        assert(self@.units[unit as int] == u@);
        if scope >= u.scopes.len() {
            return false;
        }
        let s = &u.scopes[scope];
        assert(u@.scopes[scope as int] == s@);
        if u.lexical(scope, name, offset) != Lookup::Absent {
            return true;
        }
        if let Some(class) = u.class_type_for_scope(scope) {
            if self.find_member(fuel, class, name, unit, offset, active) != Lookup::Absent {
                return true;
            }
        }
        if let Some(owner) = s.owner_type {
            if self.find_member(fuel, owner, name, unit, offset, active) != Lookup::Absent {
                return true;
            }
        }
        match s.parent {
            Some(p) => p < scope && self.qualifier_is_shadowed(
                fuel,
                unit,
                p,
                name,
                offset,
                active,
            ),
            None => false,
        }
    }

    fn find_member(
        &self,
        fuel: usize,
        type_id: TypeId,
        name: &str,
        unit: usize,
        offset: usize,
        active: &Vec<MemberQuery>,
    ) -> (r: Lookup)
        ensures
            r == member(self@, fuel as nat, type_id, name@, unit, offset, queries(active@)),
        decreases fuel, 1int, 1int,
    {
        if has_query(active, type_id, name, unit, offset) {
            return Lookup::Unknown;
        }
        let under_way = with_query(active, type_id, name, unit, offset);
        let seen: Vec<TypeId> = Vec::new();
        self.lookup_class_member(fuel, type_id, name, unit, offset, &seen, &under_way)
    }

    fn lookup_class_member(
        &self,
        fuel: usize,
        type_id: TypeId,
        name: &str,
        unit: usize,
        offset: usize,
        seen: &Vec<TypeId>,
        active: &Vec<MemberQuery>,
    ) -> (r: Lookup)
        ensures
            r == member_from(
                self@,
                fuel as nat,
                type_id,
                name@,
                unit,
                offset,
                seen@,
                queries(active@),
            ),
        decreases fuel, 1int, 0int,
    {
        if has_type(seen, type_id) || !self.is_usable_class(type_id) {
            return Lookup::Unknown;
        }
        let u = &self.units[type_id.unit];
        assert(self@.units[type_id.unit as int] == u@);
        assert(u@.types[type_id.local as int] == u.types@[type_id.local as int]@);
        match &u.types[type_id.local] {
            TypeDefinition::Class { class_scope, parent, .. } => {
                let same_unit = type_id.unit == unit;
                let direct = u.direct_member(
                    *class_scope,
                    name,
                    same_unit,
                    if same_unit {
                        offset
                    } else {
                        usize::MAX
                    },
                );
                if direct != Lookup::Absent {
                    return direct;
                }
                match parent {
                    ParentType::Absent => Lookup::Absent,
                    ParentType::Unsupported => Lookup::Unknown,
                    ParentType::Reference(reference) => {
                        if fuel == 0 {
                            return Lookup::Unknown;
                        }
                        let followed = with_seen(seen, type_id);
                        match self.resolve_parts(
                            fuel - 1,
                            &reference.parts,
                            type_id.unit,
                            reference.scope,
                            reference.offset,
                            &followed,
                            active,
                        ) {
                            Some(ancestor) => self.lookup_class_member(
                                fuel - 1,
                                ancestor,
                                name,
                                unit,
                                offset,
                                &followed,
                                active,
                            ),
                            None => Lookup::Unknown,
                        }
                    },
                }
            },
            _ => Lookup::Unknown,
        }
    }

    fn resolve_type_id(
        &self,
        fuel: usize,
        type_id: TypeId,
        seen: &Vec<TypeId>,
        active: &Vec<MemberQuery>,
    ) -> (r: Option<TypeId>)
        ensures
            r == resolve_type(self@, fuel as nat, type_id, seen@, queries(active@)),
        decreases fuel, 1int, 0int,
    {
        if has_type(seen, type_id) || type_id.unit >= self.units.len() {
            return None;
        }
        let u = &self.units[type_id.unit];
        assert(self@.units[type_id.unit as int] == u@);
        if type_id.local >= u.types.len() {
            return None;
        }
        assert(u@.types[type_id.local as int] == u.types@[type_id.local as int]@);
        match &u.types[type_id.local] {
            TypeDefinition::Class { .. } => if self.is_usable_class(type_id) {
                Some(type_id)
            } else {
                None
            },
            TypeDefinition::Alias(target) => match target {
                Some(reference) => {
                    if fuel == 0 {
                        return None;
                    }
                    let followed = with_seen(seen, type_id);
                    self.resolve_parts(
                        fuel - 1,
                        &reference.parts,
                        type_id.unit,
                        reference.scope,
                        reference.offset,
                        &followed,
                        active,
                    )
                },
                None => None,
            },
            TypeDefinition::Unsupported => None,
        }
    }

    fn resolve_path(
        &self,
        parts: &Vec<String>,
        unit: usize,
        scope: usize,
        offset: usize,
        seen: &Vec<TypeId>,
    ) -> (r: Option<TypeId>)
        ensures
            r == resolve_name(self@, texts(parts@), unit, scope, offset, seen@),
    {
        let active: Vec<MemberQuery> = Vec::new();
        assert(queries(active@) =~= Seq::<MemberQueryModel>::empty());
        self.resolve_parts(usize::MAX, parts, unit, scope, offset, seen, &active)
    }
}

// Classes -------------------------------------------------------------------------

/// Whether a class has an accessible constructor `Create`, itself or through its
/// nearest ancestor that declares the name.
pub open spec fn constructor_knowledge_of(
    x: IndexModel,
    depth: nat,
    type_id: TypeId,
    unit: usize,
    seen: Seq<TypeId>,
) -> Knowledge
    decreases depth,
{
    if seen.contains(type_id) {
        Knowledge::Unknown
    } else {
        match usable_class(x, type_id) {
            None => Knowledge::Unknown,
            Some((_scope, parent, create)) => match create {
                CreateMember::Constructor(visibility) => if visible(
                    visibility,
                    type_id.unit == unit,
                ) {
                    Knowledge::Yes
                } else {
                    Knowledge::Unknown
                },
                CreateMember::Absent => match parent {
                    ParentModel::Absent => Knowledge::No,
                    ParentModel::Unsupported => Knowledge::Unknown,
                    ParentModel::Reference(reference) => if depth == 0 {
                        Knowledge::Unknown
                    } else {
                        match resolve_name(
                            x,
                            reference.parts,
                            type_id.unit,
                            reference.scope,
                            reference.offset,
                            seen.push(type_id),
                        ) {
                            Some(ancestor) => constructor_knowledge_of(
                                x,
                                (depth - 1) as nat,
                                ancestor,
                                unit,
                                seen.push(type_id),
                            ),
                            None => Knowledge::Unknown,
                        }
                    },
                },
                _ => Knowledge::Unknown,
            },
        }
    }
}

/// Whether a class is another class or descends from it, for a search that has
/// come through the classes in `seen`.
pub open spec fn descends(
    x: IndexModel,
    depth: nat,
    current: TypeId,
    ancestor: TypeId,
    seen: Seq<TypeId>,
) -> TypeMatch
    decreases depth,
{
    if current == ancestor {
        TypeMatch::Yes
    } else if seen.contains(current) {
        TypeMatch::Unknown
    } else {
        match usable_class(x, current) {
            None => TypeMatch::Unknown,
            Some((_scope, parent, _create)) => match parent {
                ParentModel::Absent => TypeMatch::No,
                ParentModel::Unsupported => TypeMatch::Unknown,
                ParentModel::Reference(reference) => if depth == 0 {
                    TypeMatch::Unknown
                } else {
                    match resolve_name(
                        x,
                        reference.parts,
                        current.unit,
                        reference.scope,
                        reference.offset,
                        seen.push(current),
                    ) {
                        Some(next) => descends(
                            x,
                            (depth - 1) as nat,
                            next,
                            ancestor,
                            seen.push(current),
                        ),
                        None => TypeMatch::Unknown,
                    }
                },
            },
        }
    }
}

/// Whether a class is another class or descends from it.
pub open spec fn subtype(x: IndexModel, raised: TypeId, handler: TypeId) -> TypeMatch {
    descends(x, full(), raised, handler, Seq::empty())
}

/// Whether a handler for a class receives an exception of which a fact is known.
pub open spec fn matches_handler(
    x: IndexModel,
    raised: ExceptionTypeFact,
    handler: ExceptionTypeFact,
) -> TypeMatch {
    match (raised, handler) {
        (ExceptionTypeFact::Known(r), ExceptionTypeFact::Known(h)) => subtype(x, r, h),
        (ExceptionTypeFact::SubtypeOf(bound), ExceptionTypeFact::Known(h)) => {
            match subtype(x, bound, h) {
                TypeMatch::Yes => TypeMatch::Yes,
                TypeMatch::No => if subtype(x, h, bound) == TypeMatch::No {
                    TypeMatch::No
                } else {
                    TypeMatch::Unknown
                },
                TypeMatch::Unknown => TypeMatch::Unknown,
            }
        },
        _ => TypeMatch::Unknown,
    }
}

/// The fact that holds in the body of a handler for `handler_type`: the exact
/// class where every exception that can reach it is of that class, else the
/// bound that the handler declares. `exact` is the class met so far.
pub open spec fn context_from(
    x: IndexModel,
    handler_type: TypeId,
    incoming: Seq<ExceptionTypeFact>,
    exact: Option<TypeId>,
    i: int,
) -> ExceptionTypeFact
    decreases incoming.len() - i,
{
    if i < 0 || i >= incoming.len() {
        match exact {
            Some(class) => ExceptionTypeFact::Known(class),
            None => ExceptionTypeFact::SubtypeOf(handler_type),
        }
    } else if matches_handler(x, incoming[i], ExceptionTypeFact::Known(handler_type))
        == TypeMatch::No {
        context_from(x, handler_type, incoming, exact, i + 1)
    } else {
        match incoming[i] {
            ExceptionTypeFact::Known(class) => if exact is Some && exact != Some(class) {
                ExceptionTypeFact::SubtypeOf(handler_type)
            } else {
                context_from(x, handler_type, incoming, Some(class), i + 1)
            },
            _ => ExceptionTypeFact::SubtypeOf(handler_type),
        }
    }
}

/// The fact that holds in the body of a handler.
pub open spec fn context_of(
    x: IndexModel,
    handler: ExceptionTypeFact,
    incoming: Seq<ExceptionTypeFact>,
) -> ExceptionTypeFact {
    match handler {
        ExceptionTypeFact::Known(handler_type) => context_from(x, handler_type, incoming, None, 0),
        _ => ExceptionTypeFact::Unknown,
    }
}

// Places ---------------------------------------------------------------------------

/// The innermost of the first `n` scopes that holds an offset.
pub open spec fn innermost(unit: UnitModel, offset: usize, n: int) -> usize
    decreases n,
{
    if n <= 0 || n > unit.scopes.len() {
        0
    } else {
        let best = innermost(unit, offset, n - 1);
        let s = unit.scopes[n - 1];
        let b = unit.scopes[best as int];
        if s.start <= offset && offset < s.end && (s.start > b.start || (s.start == b.start && s.end
            < b.end)) {
            (n - 1) as usize
        } else {
            best
        }
    }
}

/// Whether an offset lies in one of the ranges.
pub open spec fn in_ranges(ranges: Seq<(usize, usize)>, offset: usize) -> bool {
    exists|k: int|
        0 <= k < ranges.len() && (#[trigger] ranges[k]).0 <= offset && offset < ranges[k].1
}

/// The class named by an expression that calls or names its constructor
/// `Create`: the parts before that name.
pub open spec fn constructor_of(entity: SyntaxNode, source: Seq<u8>) -> Option<Seq<Seq<char>>> {
    match name_parts_of(entity, source) {
        Some(parts) => if parts.len() > 0 && parts[parts.len() - 1] == "create"@ {
            Some(parts.subrange(0, parts.len() - 1))
        } else {
            None
        },
        None => None,
    }
}

/// The class whose constructor an expression calls, with or without arguments.
pub open spec fn constructor_call(node: SyntaxNode, source: Seq<u8>) -> Option<Seq<Seq<char>>> {
    if node.kind@ == "exprCall"@ {
        match node.find(any_field("entity"@)) {
            Some(k) => constructor_of(node.children@[k], source),
            None => None,
        }
    } else if node.kind@ == "exprDot"@ {
        constructor_of(node, source)
    } else {
        None
    }
}

/// The first constructor call among the named children at or behind `i`.
pub open spec fn constructor_among(node: SyntaxNode, source: Seq<u8>, i: int) -> Option<
    Seq<Seq<char>>,
>
    decreases node.children@.len() - i,
{
    if i < 0 || i >= node.children@.len() {
        None
    } else if node.children@[i].named && constructor_call(node.children@[i], source) is Some {
        constructor_call(node.children@[i], source)
    } else {
        constructor_among(node, source, i + 1)
    }
}

/// The class whose constructor the expression of a `raise` calls.
pub open spec fn raised_constructor(raise: SyntaxNode, source: Seq<u8>) -> Option<Seq<Seq<char>>> {
    match raise.find(any_field("exception"@)) {
        Some(k) => if raise.children@[k].kind@ == "exprParens"@ {
            constructor_among(raise.children@[k], source, 0)
        } else {
            constructor_call(raise.children@[k], source)
        },
        None => None,
    }
}

/// What is known of the exception that a `raise` statement of a unit raises.
pub open spec fn raised_fact_of(
    x: IndexModel,
    unit: usize,
    raise: SyntaxNode,
    source: Seq<u8>,
) -> ExceptionTypeFact {
    match raised_constructor(raise, source) {
        Some(parts) => if unit >= x.units.len() {
            ExceptionTypeFact::Unknown
        } else {
            let u = x.units[unit as int];
            if u.has_preprocessor_barrier || in_ranges(u.unsupported_ranges, raise.start) || (
            parts.len() > 0 && in_ranges(u.with_ranges, raise.start)) {
                ExceptionTypeFact::Unknown
            } else {
                match resolve_name(
                    x,
                    parts,
                    unit,
                    innermost(u, raise.start, u.scopes.len() as int),
                    raise.start,
                    Seq::empty(),
                ) {
                    Some(id) => if constructor_knowledge_of(x, full(), id, unit, Seq::empty())
                        == Knowledge::Yes {
                        ExceptionTypeFact::Known(id)
                    } else {
                        ExceptionTypeFact::Unknown
                    },
                    None => ExceptionTypeFact::Unknown,
                }
            }
        },
        None => ExceptionTypeFact::Unknown,
    }
}

/// The class that a typed handler of a unit names.
pub open spec fn handler_fact_of(
    x: IndexModel,
    unit: usize,
    handler: SyntaxNode,
    source: Seq<u8>,
) -> ExceptionTypeFact {
    match handler.find(any_field("exception"@)) {
        Some(k) => {
            let exception = handler.children@[k];
            match type_parts_of(exception, source) {
                Some(parts) => if unit >= x.units.len() {
                    ExceptionTypeFact::Unknown
                } else {
                    let u = x.units[unit as int];
                    if u.has_preprocessor_barrier || in_ranges(
                        u.unsupported_ranges,
                        exception.start,
                    ) || (parts.len() > 0 && in_ranges(u.with_ranges, handler.start)) {
                        ExceptionTypeFact::Unknown
                    } else {
                        match resolve_name(
                            x,
                            parts,
                            unit,
                            innermost(u, handler.start, u.scopes.len() as int),
                            exception.start,
                            Seq::empty(),
                        ) {
                            Some(id) => ExceptionTypeFact::Known(id),
                            None => ExceptionTypeFact::Unknown,
                        }
                    }
                },
                None => ExceptionTypeFact::Unknown,
            }
        },
        None => ExceptionTypeFact::Unknown,
    }
}

// Method owners ----------------------------------------------------------------------

/// The class that owns a method implementation.
pub open spec fn owner_class(x: IndexModel, unit: usize, owner: OwnerModel) -> Option<TypeId> {
    match owner.owner_parts {
        Some(parts) => match resolve_name(
            x,
            parts,
            unit,
            owner.enclosing_scope,
            owner.offset,
            Seq::empty(),
        ) {
            Some(id) => if usable_class(x, id) is Some {
                Some(id)
            } else {
                None
            },
            None => None,
        },
        None => None,
    }
}

/// The unit with the owner of a method implementation entered. A method without
/// a known owner is cut off from the enclosing scopes.
pub open spec fn with_method_owner(
    unit: UnitModel,
    scope: usize,
    class: Option<TypeId>,
) -> UnitModel {
    if scope >= unit.scopes.len() {
        unit
    } else {
        let s = unit.scopes[scope as int];
        UnitModel {
            scopes: unit.scopes.update(
                scope as int,
                match class {
                    Some(id) => ScopeModel { owner_type: Some(id), ..s },
                    None => ScopeModel {
                        parent: None,
                        owner_type: None,
                        unresolved_owner: true,
                        ..s
                    },
                },
            ),
            ..unit
        }
    }
}

/// The index with one unit replaced.
pub open spec fn with_unit(x: IndexModel, unit: usize, u: UnitModel) -> IndexModel {
    IndexModel { units: x.units.update(unit as int, u), ..x }
}

/// The index after entering the owners of a unit's methods from the `k`th on.
pub open spec fn settle_unit(x: IndexModel, unit: usize, k: int) -> IndexModel
    decreases x.units[unit as int].pending_method_owners.len() - k,
{
    if unit >= x.units.len() || k < 0 || k
        >= x.units[unit as int].pending_method_owners.len() {
        x
    } else {
        let u = x.units[unit as int];
        let owner = u.pending_method_owners[k];
        settle_unit(
            with_unit(
                x,
                unit,
                with_method_owner(u, owner.routine_scope, owner_class(x, unit, owner)),
            ),
            unit,
            k + 1,
        )
    }
}

/// The index after entering the owners of all methods, unit by unit.
pub open spec fn settle_from(x: IndexModel, unit: int) -> IndexModel
    decreases x.units.len() - unit,
{
    if unit < 0 || unit >= x.units.len() {
        x
    } else {
        proof {
            lemma_settle_keeps_units(x, unit as usize, 0);
        }
        settle_from(settle_unit(x, unit as usize, 0), unit + 1)
    }
}

/// Entering owners adds and removes no unit.
pub proof fn lemma_settle_keeps_units(x: IndexModel, unit: usize, k: int)
    ensures
        settle_unit(x, unit, k).units.len() == x.units.len(),
    decreases x.units[unit as int].pending_method_owners.len() - k,
{
    if unit < x.units.len() && 0 <= k < x.units[unit as int].pending_method_owners.len() {
        let u = x.units[unit as int];
        let owner = u.pending_method_owners[k];
        let y = with_unit(
            x,
            unit,
            with_method_owner(u, owner.routine_scope, owner_class(x, unit, owner)),
        );
        lemma_settle_keeps_units(y, unit, k + 1);
    }
}

/// The index of a single file.
pub open spec fn file_index(root: SyntaxNode, source: Seq<u8>) -> IndexModel {
    settle_from(
        IndexModel { units: seq![unit_types(0, root, source)], imports: Seq::empty() },
        0,
    )
}

fn in_some_range(ranges: &Vec<(usize, usize)>, offset: usize) -> (r: bool)
    ensures
        r == in_ranges(ranges@, offset),
{
    let mut i: usize = 0;
    while i < ranges.len()
        invariant
            i <= ranges@.len(),
            forall|k: int|
                0 <= k < i ==> !((#[trigger] ranges@[k]).0 <= offset && offset < ranges@[k].1),
        decreases ranges@.len() - i,
    {
        if ranges[i].0 <= offset && offset < ranges[i].1 {
            assert(ranges@[i as int].0 <= offset);
            return true;
        }
        i = i + 1;
    }
    false
}

fn constructor_parts_from_entity(entity: &SyntaxNode, source: &[u8]) -> (r: Option<Vec<String>>)
    ensures
        opt_texts(r) == constructor_of(*entity, source@),
{
    match name_parts(entity, source) {
        Some(found) => {
            let mut parts = found;
            assert(texts(parts@).len() == parts@.len());
            let count: usize = parts.len();
            if count == 0 {
                return None;
            }
            assert(texts(parts@)[count - 1] == parts@[count - 1]@);
            if !same_text(parts[count - 1].as_str(), "create") {
                return None;
            }
            let ghost all = parts@;
            parts.truncate(count - 1);
            assert(texts(parts@) =~= texts(all).subrange(0, count - 1));
            Some(parts)
        },
        None => None,
    }
}

/// The class whose constructor an expression calls.
pub fn constructor_call_parts(node: &SyntaxNode, source: &[u8]) -> (r: Option<Vec<String>>)
    ensures
        opt_texts(r) == constructor_call(*node, source@),
{
    if node.is_kind("exprCall") {
        match node.child_by_field("entity") {
            Some(k) => constructor_parts_from_entity(&node.children[k], source),
            None => None,
        }
    } else if node.is_kind("exprDot") {
        constructor_parts_from_entity(node, source)
    } else {
        None
    }
}

/// The class whose constructor the expression of a `raise` calls.
pub fn constructor_parts(raise: &SyntaxNode, source: &[u8]) -> (r: Option<Vec<String>>)
    ensures
        opt_texts(r) == raised_constructor(*raise, source@),
{
    match raise.child_by_field("exception") {
        Some(k) => {
            let exception = &raise.children[k];
            if !exception.is_kind("exprParens") {
                return constructor_call_parts(exception, source);
            }
            let mut i: usize = 0;
            while i < exception.children.len()
                invariant
                    i <= exception.children@.len(),
                    constructor_among(*exception, source@, 0) == constructor_among(
                        *exception,
                        source@,
                        i as int,
                    ),
                    raised_constructor(*raise, source@) == constructor_among(
                        *exception,
                        source@,
                        0,
                    ),
                decreases exception.children@.len() - i,
            {
                if exception.children[i].named {
                    let parts = constructor_call_parts(&exception.children[i], source);
                    if parts.is_some() {
                        return parts;
                    }
                }
                i = i + 1;
            }
            None
        },
        None => None,
    }
}

impl UnitTypeIndex {
    fn scope_at(&self, offset: usize) -> (r: usize)
        ensures
            r == innermost(self@, offset, self@.scopes.len() as int),
    {
        let mut best: usize = 0;
        let mut i: usize = 0;
        while i < self.scopes.len()
            invariant
                i <= self.scopes@.len(),
                self@.scopes.len() == self.scopes@.len(),
                best == innermost(self@, offset, i as int),
                best == 0 || best < i,
            decreases self.scopes@.len() - i,
        {
            let s = &self.scopes[i];
            let b = &self.scopes[best];
            assert(self@.scopes[i as int] == s@);
            assert(self@.scopes[best as int] == b@);
            if s.start <= offset && offset < s.end && (s.start > b.start || (s.start == b.start
                && s.end < b.end)) {
                best = i;
            }
            i = i + 1;
        }
        best
    }

    fn set_method_owner(&mut self, scope: usize, class: Option<TypeId>)
        ensures
            final(self)@ == with_method_owner(old(self)@, scope, class),
    {
        if scope < self.scopes.len() {
            let ghost before = self.scopes@[scope as int]@;
            match class {
                Some(id) => {
                    self.scopes[scope].owner_type = Some(id);
                },
                None => {
                    self.scopes[scope].parent = None;
                    self.scopes[scope].owner_type = None;
                    self.scopes[scope].unresolved_owner = true;
                },
            }
            assert(self.scopes@[scope as int]@.bindings =~= before.bindings);
            assert(self@.scopes =~= with_method_owner(old(self)@, scope, class).scopes);
            assert(self@ =~= with_method_owner(old(self)@, scope, class));
        }
    }
}

impl ExceptionTypeIndex {
    fn constructor_knowledge(&self, type_id: TypeId, unit: usize) -> (r: Knowledge)
        ensures
            r == constructor_knowledge_of(self@, full(), type_id, unit, Seq::empty()),
    {
        let mut current = type_id;
        let mut seen: Vec<TypeId> = Vec::new();
        let mut depth: usize = usize::MAX;
        loop
            invariant
                constructor_knowledge_of(self@, full(), type_id, unit, Seq::empty())
                    == constructor_knowledge_of(self@, depth as nat, current, unit, seen@),
            decreases depth,
        {
            if has_type(&seen, current) || !self.is_usable_class(current) {
                return Knowledge::Unknown;
            }
            let u = &self.units[current.unit];
            assert(self@.units[current.unit as int] == u@);
            assert(u@.types[current.local as int] == u.types@[current.local as int]@);
            match &u.types[current.local] {
                TypeDefinition::Class { parent, create_member, .. } => match create_member {
                    CreateMember::Constructor(visibility) => {
                        return if member_visible(*visibility, current.unit == unit) {
                            Knowledge::Yes
                        } else {
                            Knowledge::Unknown
                        };
                    },
                    CreateMember::Absent => match parent {
                        ParentType::Absent => {
                            return Knowledge::No;
                        },
                        ParentType::Unsupported => {
                            return Knowledge::Unknown;
                        },
                        ParentType::Reference(reference) => {
                            if depth == 0 {
                                return Knowledge::Unknown;
                            }
                            let followed = with_seen(&seen, current);
                            match self.resolve_path(
                                &reference.parts,
                                current.unit,
                                reference.scope,
                                reference.offset,
                                &followed,
                            ) {
                                Some(ancestor) => {
                                    current = ancestor;
                                    seen = followed;
                                    depth = depth - 1;
                                },
                                None => {
                                    return Knowledge::Unknown;
                                },
                            }
                        },
                    },
                    _ => {
                        return Knowledge::Unknown;
                    },
                },
                _ => {
                    return Knowledge::Unknown;
                },
            }
        }
    }

    fn is_subtype(&self, raised: TypeId, handler: TypeId) -> (r: TypeMatch)
        ensures
            r == subtype(self@, raised, handler),
    {
        let mut current = raised;
        let mut seen: Vec<TypeId> = Vec::new();
        let mut depth: usize = usize::MAX;
        loop
            invariant
                subtype(self@, raised, handler) == descends(
                    self@,
                    depth as nat,
                    current,
                    handler,
                    seen@,
                ),
            decreases depth,
        {
            if current == handler {
                return TypeMatch::Yes;
            }
            if has_type(&seen, current) || !self.is_usable_class(current) {
                return TypeMatch::Unknown;
            }
            let u = &self.units[current.unit];
            assert(self@.units[current.unit as int] == u@);
            assert(u@.types[current.local as int] == u.types@[current.local as int]@);
            match &u.types[current.local] {
                TypeDefinition::Class { parent, .. } => match parent {
                    ParentType::Absent => {
                        return TypeMatch::No;
                    },
                    ParentType::Unsupported => {
                        return TypeMatch::Unknown;
                    },
                    ParentType::Reference(reference) => {
                        if depth == 0 {
                            return TypeMatch::Unknown;
                        }
                        let followed = with_seen(&seen, current);
                        match self.resolve_path(
                            &reference.parts,
                            current.unit,
                            reference.scope,
                            reference.offset,
                            &followed,
                        ) {
                            Some(next) => {
                                current = next;
                                seen = followed;
                                depth = depth - 1;
                            },
                            None => {
                                return TypeMatch::Unknown;
                            },
                        }
                    },
                },
                _ => {
                    return TypeMatch::Unknown;
                },
            }
        }
    }

    /// Whether a handler for a class receives an exception of which a fact is
    /// known.
    pub fn match_handler(&self, raised: ExceptionTypeFact, handler: ExceptionTypeFact) -> (r:
        TypeMatch)
        ensures
            r == matches_handler(self@, raised, handler),
    {
        match (raised, handler) {
            (ExceptionTypeFact::Known(class), ExceptionTypeFact::Known(target)) => self.is_subtype(
                class,
                target,
            ),
            (ExceptionTypeFact::SubtypeOf(bound), ExceptionTypeFact::Known(target)) => {
                match self.is_subtype(bound, target) {
                    TypeMatch::Yes => TypeMatch::Yes,
                    TypeMatch::No => if self.is_subtype(target, bound) == TypeMatch::No {
                        TypeMatch::No
                    } else {
                        TypeMatch::Unknown
                    },
                    TypeMatch::Unknown => TypeMatch::Unknown,
                }
            },
            _ => TypeMatch::Unknown,
        }
    }

    /// The fact that holds in the body of a handler, given the facts of the
    /// exceptions that leave the protected statements.
    pub fn handler_context(
        &self,
        handler: ExceptionTypeFact,
        incoming: &Vec<ExceptionTypeFact>,
    ) -> (r: ExceptionTypeFact)
        ensures
            r == context_of(self@, handler, incoming@),
    {
        match handler {
            ExceptionTypeFact::Known(handler_type) => {
                let mut exact: Option<TypeId> = None;
                let mut i: usize = 0;
                while i < incoming.len()
                    invariant
                        i <= incoming@.len(),
                        handler == ExceptionTypeFact::Known(handler_type),
                        context_of(self@, handler, incoming@) == context_from(
                            self@,
                            handler_type,
                            incoming@,
                            exact,
                            i as int,
                        ),
                    decreases incoming@.len() - i,
                {
                    if self.match_handler(incoming[i], handler) != TypeMatch::No {
                        match incoming[i] {
                            ExceptionTypeFact::Known(class) => {
                                if let Some(previous) = exact {
                                    if previous != class {
                                        return ExceptionTypeFact::SubtypeOf(handler_type);
                                    }
                                }
                                exact = Some(class);
                            },
                            _ => {
                                return ExceptionTypeFact::SubtypeOf(handler_type);
                            },
                        }
                    }
                    i = i + 1;
                }
                match exact {
                    Some(class) => ExceptionTypeFact::Known(class),
                    None => ExceptionTypeFact::SubtypeOf(handler_type),
                }
            },
            _ => ExceptionTypeFact::Unknown,
        }
    }

    /// What is known of the exception that a `raise` statement raises.
    pub fn raised_fact(&self, unit: usize, raise: &SyntaxNode, source: &[u8]) -> (r:
        ExceptionTypeFact)
        ensures
            r == raised_fact_of(self@, unit, *raise, source@),
    {
        match constructor_parts(raise, source) {
            Some(parts) => {
                if unit >= self.units.len() {
                    return ExceptionTypeFact::Unknown;
                }
                let u = &self.units[unit];
                assert(self@.units[unit as int] == u@);
                assert(texts(parts@).len() == parts@.len());
                if u.has_preprocessor_barrier || in_some_range(&u.unsupported_ranges, raise.start)
                    || (parts.len() > 0 && in_some_range(&u.with_ranges, raise.start)) {
                    return ExceptionTypeFact::Unknown;
                }
                let seen: Vec<TypeId> = Vec::new();
                match self.resolve_path(&parts, unit, u.scope_at(raise.start), raise.start, &seen) {
                    Some(id) => if self.constructor_knowledge(id, unit) == Knowledge::Yes {
                        ExceptionTypeFact::Known(id)
                    } else {
                        ExceptionTypeFact::Unknown
                    },
                    None => ExceptionTypeFact::Unknown,
                }
            },
            None => ExceptionTypeFact::Unknown,
        }
    }

    /// The class that a typed handler names.
    pub fn handler_fact(&self, unit: usize, handler: &SyntaxNode, source: &[u8]) -> (r:
        ExceptionTypeFact)
        ensures
            r == handler_fact_of(self@, unit, *handler, source@),
    {
        match handler.child_by_field("exception") {
            Some(k) => {
                let exception = &handler.children[k];
                match type_reference_parts(exception, source) {
                    Some(parts) => {
                        if unit >= self.units.len() {
                            return ExceptionTypeFact::Unknown;
                        }
                        let u = &self.units[unit];
                        assert(self@.units[unit as int] == u@);
                        assert(texts(parts@).len() == parts@.len());
                        if u.has_preprocessor_barrier || in_some_range(
                            &u.unsupported_ranges,
                            exception.start,
                        ) || (parts.len() > 0 && in_some_range(&u.with_ranges, handler.start)) {
                            return ExceptionTypeFact::Unknown;
                        }
                        let seen: Vec<TypeId> = Vec::new();
                        match self.resolve_path(
                            &parts,
                            unit,
                            u.scope_at(handler.start),
                            exception.start,
                            &seen,
                        ) {
                            Some(id) => ExceptionTypeFact::Known(id),
                            None => ExceptionTypeFact::Unknown,
                        }
                    },
                    None => ExceptionTypeFact::Unknown,
                }
            },
            None => ExceptionTypeFact::Unknown,
        }
    }

    fn method_owner(&self, unit: usize, owner: &PendingMethodOwner) -> (r: Option<TypeId>)
        ensures
            r == owner_class(self@, unit, owner@),
    {
        match &owner.owner_parts {
            Some(parts) => {
                let seen: Vec<TypeId> = Vec::new();
                match self.resolve_path(parts, unit, owner.enclosing_scope, owner.offset, &seen) {
                    Some(id) => if self.is_usable_class(id) {
                        Some(id)
                    } else {
                        None
                    },
                    None => None,
                }
            },
            None => None,
        }
    }

    fn resolve_unit_owners(&mut self, unit: usize)
        requires
            unit < old(self).units@.len(),
        ensures
            final(self)@ == settle_unit(old(self)@, unit, 0),
            final(self).units@.len() == old(self).units@.len(),
    {
        let mut k: usize = 0;
        while k < self.units[unit].pending_method_owners.len()
            invariant
                unit < self.units@.len(),
                self.units@.len() == old(self).units@.len(),
                k <= self.units@[unit as int].pending_method_owners@.len(),
                settle_unit(self@, unit, k as int) == settle_unit(old(self)@, unit, 0),
            decreases self.units@[unit as int].pending_method_owners@.len() - k,
        {
            let ghost before = self@;
            let owner = &self.units[unit].pending_method_owners[k];
            assert(self@.units[unit as int] == self.units@[unit as int]@);
            assert(self@.units[unit as int].pending_method_owners[k as int] == owner@);
            let scope: usize = owner.routine_scope;
            let class = self.method_owner(unit, owner);
            let ghost count = self.units@[unit as int].pending_method_owners@.len();
            self.units[unit].set_method_owner(scope, class);
            proof {
                let u = with_method_owner(before.units[unit as int], scope, class);
                assert(self.units@[unit as int]@ == u);
                assert(u.pending_method_owners.len() == count);
                assert(self.units@[unit as int]@.pending_method_owners.len()
                    == self.units@[unit as int].pending_method_owners@.len());
                assert(self@.units =~= before.units.update(unit as int, u));
                assert(self@ =~= with_unit(before, unit, u));
            }
            k = k + 1;
        }
        assert(self@.units[unit as int] == self.units@[unit as int]@);
    }

    /// Enters the classes that methods belong to.
    pub(crate) fn resolve_pending_method_owners(&mut self)
        ensures
            final(self)@ == settle_from(old(self)@, 0),
    {
        let mut unit: usize = 0;
        while unit < self.units.len()
            invariant
                unit <= self.units@.len(),
                self@.units.len() == self.units@.len(),
                settle_from(self@, unit as int) == settle_from(old(self)@, 0),
            decreases self.units@.len() - unit,
        {
            self.resolve_unit_owners(unit);
            unit = unit + 1;
        }
    }

    /// Indexes a single file.
    pub fn build(root: &SyntaxNode, source: &[u8]) -> (r: ExceptionTypeIndex)
        ensures
            r@ == file_index(*root, source@),
    {
        let mut units: Vec<UnitTypeIndex> = Vec::new();
        units.push(UnitTypeIndex::build(0, root, source));
        let mut index = ExceptionTypeIndex { units, imports: Vec::new() };
        assert(index@ =~= IndexModel {
            units: seq![unit_types(0, *root, source@)],
            imports: Seq::empty(),
        });
        index.resolve_pending_method_owners();
        index
    }
}

/// An exception whose class is not known, or a handler whose class is not known,
/// never rules the handler out.
pub proof fn law_unknown_facts_keep_handlers(
    x: IndexModel,
    raised: ExceptionTypeFact,
    handler: ExceptionTypeFact,
)
    ensures
        raised == ExceptionTypeFact::Unknown || !(handler is Known) ==> matches_handler(
            x,
            raised,
            handler,
        ) == TypeMatch::Unknown,
{
}

/// A handler for the exact class of an exception receives it, and so does a
/// handler for the class that bounds it.
pub proof fn law_own_handler_matches(x: IndexModel, class: TypeId)
    ensures
        matches_handler(x, ExceptionTypeFact::Known(class), ExceptionTypeFact::Known(class))
            == TypeMatch::Yes,
        matches_handler(x, ExceptionTypeFact::SubtypeOf(class), ExceptionTypeFact::Known(class))
            == TypeMatch::Yes,
{
}

/// A preprocessor directive anywhere in a unit, or a syntax error in it, makes
/// every class that the unit declares unknown: no exception is known to be of
/// such a class, and none is known to descend from it or not to.
pub proof fn law_uncertain_units_prove_nothing(
    x: IndexModel,
    type_id: TypeId,
    other: TypeId,
    unit: usize,
)
    requires
        type_id.unit < x.units.len(),
        x.units[type_id.unit as int].has_preprocessor_barrier
            || x.units[type_id.unit as int].parser_incomplete,
    ensures
        usable_class(x, type_id) is None,
        constructor_knowledge_of(x, full(), type_id, unit, Seq::empty()) == Knowledge::Unknown,
        type_id != other ==> subtype(x, type_id, other) == TypeMatch::Unknown,
{
}

/// The fact that a handler body works with is never the fact of an exception
/// that the handler cannot receive, and without a known handler class nothing is
/// known.
pub proof fn law_handler_context_is_reachable(
    x: IndexModel,
    handler: ExceptionTypeFact,
    incoming: Seq<ExceptionTypeFact>,
)
    ensures
        match context_of(x, handler, incoming) {
            ExceptionTypeFact::Known(class) => incoming.contains(ExceptionTypeFact::Known(class))
                && matches_handler(x, ExceptionTypeFact::Known(class), handler) != TypeMatch::No,
            ExceptionTypeFact::SubtypeOf(class) => handler == ExceptionTypeFact::Known(class),
            ExceptionTypeFact::Unknown => !(handler is Known),
        },
{
    if let ExceptionTypeFact::Known(handler_type) = handler {
        lemma_context_from(x, handler_type, incoming, None, 0);
    }
}

proof fn lemma_context_from(
    x: IndexModel,
    handler_type: TypeId,
    incoming: Seq<ExceptionTypeFact>,
    exact: Option<TypeId>,
    i: int,
)
    requires
        0 <= i <= incoming.len(),
        exact matches Some(class) ==> incoming.contains(ExceptionTypeFact::Known(class))
            && matches_handler(
            x,
            ExceptionTypeFact::Known(class),
            ExceptionTypeFact::Known(handler_type),
        ) != TypeMatch::No,
    ensures
        match context_from(x, handler_type, incoming, exact, i) {
            ExceptionTypeFact::Known(class) => incoming.contains(ExceptionTypeFact::Known(class))
                && matches_handler(
                x,
                ExceptionTypeFact::Known(class),
                ExceptionTypeFact::Known(handler_type),
            ) != TypeMatch::No,
            ExceptionTypeFact::SubtypeOf(class) => class == handler_type,
            ExceptionTypeFact::Unknown => false,
        },
    decreases incoming.len() - i,
{
    if i < incoming.len() {
        if matches_handler(x, incoming[i], ExceptionTypeFact::Known(handler_type))
            == TypeMatch::No {
            lemma_context_from(x, handler_type, incoming, exact, i + 1);
        } else if let ExceptionTypeFact::Known(class) = incoming[i] {
            if !(exact is Some && exact != Some(class)) {
                lemma_context_from(x, handler_type, incoming, Some(class), i + 1);
            }
        }
    }
}

/// The class that the last class of a path directly descends from, where that is
/// known. The path holds the classes on the way to it.
pub open spec fn next_ancestor(x: IndexModel, path: Seq<TypeId>) -> Option<TypeId> {
    match usable_class(x, path.last()) {
        Some((_scope, ParentModel::Reference(reference), _create)) => resolve_name(
            x,
            reference.parts,
            path.last().unit,
            reference.scope,
            reference.offset,
            path,
        ),
        _ => None,
    }
}

/// Whether each class of a path directly descends from the next.
pub open spec fn is_ancestry(x: IndexModel, path: Seq<TypeId>) -> bool {
    path.len() > 0 && forall|i: int|
        0 < i < path.len() ==> next_ancestor(x, path.take(i)) == Some(#[trigger] path[i])
}

/// Whether a class is known to descend from nothing.
pub open spec fn is_topmost(x: IndexModel, class: TypeId) -> bool {
    usable_class(x, class) matches Some((_scope, parent, _create)) && parent is Absent
}

proof fn lemma_descends(
    x: IndexModel,
    depth: nat,
    current: TypeId,
    ancestor: TypeId,
    seen: Seq<TypeId>,
)
    requires
        is_ancestry(x, seen.push(current)),
        !seen.contains(ancestor),
    ensures
        descends(x, depth, current, ancestor, seen) == TypeMatch::Yes ==> exists|path: Seq<TypeId>|
            #[trigger] is_ancestry(x, path) && path[0] == seen.push(current)[0] && path.last()
                == ancestor,
        descends(x, depth, current, ancestor, seen) == TypeMatch::No ==> exists|path: Seq<TypeId>|
            #[trigger] is_ancestry(x, path) && path[0] == seen.push(current)[0] && !path.contains(
                ancestor,
            ) && is_topmost(x, path.last()),
    decreases depth,
{
    let path = seen.push(current);
    if current == ancestor {
        assert(is_ancestry(x, path) && path.last() == ancestor);
    } else if !seen.contains(current) {
        if let Some((_scope, parent, _create)) = usable_class(x, current) {
            match parent {
                ParentModel::Absent => {
                    assert(!path.contains(ancestor)) by {
                        if path.contains(ancestor) {
                            let k = choose|k: int| 0 <= k < path.len() && path[k] == ancestor;
                            assert(seen[k] == ancestor);
                        }
                    }
                    assert(is_ancestry(x, path) && is_topmost(x, path.last()));
                },
                ParentModel::Reference(reference) => {
                    if depth > 0 {
                        if let Some(next) = resolve_name(
                            x,
                            reference.parts,
                            current.unit,
                            reference.scope,
                            reference.offset,
                            path,
                        ) {
                            let longer = path.push(next);
                            assert(is_ancestry(x, longer)) by {
                                assert forall|i: int| 0 < i < longer.len() implies next_ancestor(
                                    x,
                                    longer.take(i),
                                ) == Some(#[trigger] longer[i]) by {
                                    if i < path.len() {
                                        assert(longer.take(i) =~= path.take(i));
                                        assert(longer[i] == path[i]);
                                    } else {
                                        assert(longer.take(i) =~= path);
                                    }
                                }
                            }
                            assert(!path.contains(ancestor)) by {
                                if path.contains(ancestor) {
                                    let k = choose|k: int|
                                        0 <= k < path.len() && path[k] == ancestor;
                                    assert(seen[k] == ancestor);
                                }
                            }
                            assert(longer[0] == path[0]);
                            lemma_descends(x, (depth - 1) as nat, next, ancestor, path);
                        }
                    }
                },
                _ => {},
            }
        }
    }
}

/// A class is taken to be another one, or to descend from it, only where a chain
/// of known ancestors leads there. It is taken not to descend from it only where
/// its ancestors are known up to one that has none, and the other class is not
/// among them. Everything else stays open, circular ancestry too.
pub proof fn law_matches_are_proven_by_ancestry(x: IndexModel, raised: TypeId, handler: TypeId)
    ensures
        subtype(x, raised, handler) == TypeMatch::Yes ==> exists|path: Seq<TypeId>|
            #[trigger] is_ancestry(x, path) && path[0] == raised && path.last() == handler,
        subtype(x, raised, handler) == TypeMatch::No ==> exists|path: Seq<TypeId>|
            #[trigger] is_ancestry(x, path) && path[0] == raised && !path.contains(handler)
                && is_topmost(x, path.last()),
{
    let seen = Seq::<TypeId>::empty();
    assert(is_ancestry(x, seen.push(raised)));
    assert(seen.push(raised)[0] == raised);
    lemma_descends(x, full(), raised, handler, seen);
}

/// Whether all types of one list are in another.
spec fn within(few: Seq<TypeId>, many: Seq<TypeId>) -> bool {
    forall|t: TypeId| #[trigger] few.contains(t) ==> many.contains(t)
}

proof fn lemma_within_push(few: Seq<TypeId>, many: Seq<TypeId>, t: TypeId)
    requires
        within(few, many),
    ensures
        within(few.push(t), many.push(t)),
{
    assert forall|u: TypeId| #[trigger] few.push(t).contains(u) implies many.push(t).contains(
        u,
    ) by {
        let k = choose|k: int| 0 <= k < few.push(t).len() && few.push(t)[k] == u;
        if k < few.len() {
            assert(few[k] == u);
            assert(few.contains(u));
            let j = choose|j: int| 0 <= j < many.len() && many[j] == u;
            assert(many.push(t)[j] == u);
        } else {
            assert(many.push(t)[many.len() as int] == u);
        }
    }
}

/// What is found although many types are being followed is found where fewer are.
proof fn lemma_resolve_within(
    x: IndexModel,
    fuel: nat,
    parts: Seq<Seq<char>>,
    unit: usize,
    scope: usize,
    offset: usize,
    few: Seq<TypeId>,
    many: Seq<TypeId>,
    active: Seq<MemberQueryModel>,
)
    requires
        within(few, many),
        resolve(x, fuel, parts, unit, scope, offset, many, active) is Some,
    ensures
        resolve(x, fuel, parts, unit, scope, offset, few, active) == resolve(
            x,
            fuel,
            parts,
            unit,
            scope,
            offset,
            many,
            active,
        ),
    decreases fuel, 4int, 0int,
{
    let u = x.units[unit as int];
    let module = match u.module_name {
        Some(name) => split_text(name, '.'),
        None => parts,
    };
    if module.len() < parts.len() && module.is_prefix_of(parts) && !shadowed(
        x,
        fuel,
        unit,
        scope,
        parts[0],
        offset,
        active,
    ) && !owner_unknown(u, scope) {
        let k = module.len() as int;
        if let Lookup::Type(id) = lookup(x, fuel, unit, 0, parts[k], offset, active) {
            lemma_type_within(x, fuel, id, few, many, active);
            let resolved = resolve_type(x, fuel, id, many, active)->0;
            lemma_members_within(x, fuel, parts, k + 1, resolved, unit, offset, few, many, active);
        }
    } else {
        match lookup(x, fuel, unit, scope, parts[0], offset, active) {
            Lookup::Type(id) => {
                lemma_type_within(x, fuel, id, few, many, active);
                let resolved = resolve_type(x, fuel, id, many, active)->0;
                lemma_members_within(x, fuel, parts, 1, resolved, unit, offset, few, many, active);
            },
            Lookup::Absent => {
                let qualified = parts.len() > 1 && some_qualifier(
                    x.imports,
                    parts,
                    unit,
                    offset,
                    x.imports.len() as int,
                );
                lemma_imported_within(
                    x,
                    fuel,
                    parts,
                    unit,
                    offset,
                    qualified,
                    few,
                    many,
                    active,
                    0,
                );
            },
            _ => {},
        }
    }
}

proof fn lemma_imported_within(
    x: IndexModel,
    fuel: nat,
    parts: Seq<Seq<char>>,
    unit: usize,
    offset: usize,
    qualified: bool,
    few: Seq<TypeId>,
    many: Seq<TypeId>,
    active: Seq<MemberQueryModel>,
    i: int,
)
    requires
        within(few, many),
        resolve_imported(x, fuel, parts, unit, offset, qualified, many, active, i) is Some,
    ensures
        resolve_imported(x, fuel, parts, unit, offset, qualified, few, active, i)
            == resolve_imported(x, fuel, parts, unit, offset, qualified, many, active, i),
    decreases fuel, 3int, x.imports.len() - i,
{
    let import = x.imports[i];
    let prefix = if qualified {
        qualifier_of(import, parts, unit, offset)
    } else {
        Some(0int)
    };
    if resolve_imported(x, fuel, parts, unit, offset, qualified, many, active, i + 1) is Some {
        lemma_imported_within(x, fuel, parts, unit, offset, qualified, few, many, active, i + 1);
    }
    if let Some(k) = prefix {
        if 0 <= k < parts.len() {
            if let ImportSelectionTarget::Loaded(target) = import.target {
                if let Lookup::Type(id) = export_of(x, target, parts[k]) {
                    if let Some(resolved) = resolve_type(x, fuel, id, many, active) {
                        lemma_type_within(x, fuel, id, few, many, active);
                        if resolve_members(
                            x,
                            fuel,
                            parts,
                            k + 1,
                            resolved,
                            unit,
                            offset,
                            many,
                            active,
                        ) is Some {
                            lemma_members_within(
                                x,
                                fuel,
                                parts,
                                k + 1,
                                resolved,
                                unit,
                                offset,
                                few,
                                many,
                                active,
                            );
                        }
                    }
                }
            }
        }
    }
}

proof fn lemma_members_within(
    x: IndexModel,
    fuel: nat,
    parts: Seq<Seq<char>>,
    i: int,
    resolved: TypeId,
    unit: usize,
    offset: usize,
    few: Seq<TypeId>,
    many: Seq<TypeId>,
    active: Seq<MemberQueryModel>,
)
    requires
        within(few, many),
        resolve_members(x, fuel, parts, i, resolved, unit, offset, many, active) is Some,
    ensures
        resolve_members(x, fuel, parts, i, resolved, unit, offset, few, active) == resolve_members(
            x,
            fuel,
            parts,
            i,
            resolved,
            unit,
            offset,
            many,
            active,
        ),
    decreases fuel, 2int, parts.len() - i,
{
    if 0 <= i < parts.len() {
        if let Lookup::Type(id) = member(x, fuel, resolved, parts[i], unit, offset, active) {
            lemma_type_within(x, fuel, id, few, many, active);
            let next = resolve_type(x, fuel, id, many, active)->0;
            lemma_members_within(x, fuel, parts, i + 1, next, unit, offset, few, many, active);
        }
    }
}

proof fn lemma_type_within(
    x: IndexModel,
    fuel: nat,
    type_id: TypeId,
    few: Seq<TypeId>,
    many: Seq<TypeId>,
    active: Seq<MemberQueryModel>,
)
    requires
        within(few, many),
        resolve_type(x, fuel, type_id, many, active) is Some,
    ensures
        resolve_type(x, fuel, type_id, few, active) == resolve_type(
            x,
            fuel,
            type_id,
            many,
            active,
        ),
    decreases fuel, 1int, 0int,
{
    assert(!few.contains(type_id));
    if let DefinitionModel::Alias(Some(reference)) =
        x.units[type_id.unit as int].types[type_id.local as int] {
        lemma_within_push(few, many, type_id);
        lemma_resolve_within(
            x,
            (fuel - 1) as nat,
            reference.parts,
            type_id.unit,
            reference.scope,
            reference.offset,
            few.push(type_id),
            many.push(type_id),
            active,
        );
    }
}

/// A class that descends from another, found on a way through many classes,
/// descends from it on a shorter way too.
proof fn lemma_descends_within(
    x: IndexModel,
    less: nat,
    depth: nat,
    current: TypeId,
    ancestor: TypeId,
    few: Seq<TypeId>,
    many: Seq<TypeId>,
)
    requires
        within(few, many),
        less <= depth,
        descends(x, less, current, ancestor, many) == TypeMatch::Yes,
    ensures
        descends(x, depth, current, ancestor, few) == TypeMatch::Yes,
    decreases less,
{
    if current != ancestor {
        assert(!few.contains(current));
        if let Some((_scope, ParentModel::Reference(reference), _create)) = usable_class(
            x,
            current,
        ) {
            lemma_within_push(few, many, current);
            lemma_resolve_within(
                x,
                full(),
                reference.parts,
                current.unit,
                reference.scope,
                reference.offset,
                few.push(current),
                many.push(current),
                Seq::empty(),
            );
            let next = next_ancestor(x, many.push(current))->0;
            lemma_descends_within(
                x,
                (less - 1) as nat,
                (depth - 1) as nat,
                next,
                ancestor,
                few.push(current),
                many.push(current),
            );
        }
    }
}

/// Two ancestors of a class stand in one line.
proof fn lemma_ancestors_in_line(
    x: IndexModel,
    depth: nat,
    current: TypeId,
    a: TypeId,
    b: TypeId,
    seen: Seq<TypeId>,
)
    requires
        depth <= full(),
        descends(x, depth, current, a, seen) == TypeMatch::Yes,
        descends(x, depth, current, b, seen) == TypeMatch::Yes,
    ensures
        subtype(x, a, b) == TypeMatch::Yes || subtype(x, b, a) == TypeMatch::Yes,
    decreases depth,
{
    if current == a {
        lemma_descends_within(x, depth, full(), a, b, Seq::empty(), seen);
    } else if current == b {
        lemma_descends_within(x, depth, full(), b, a, Seq::empty(), seen);
    } else {
        let next = next_ancestor(x, seen.push(current))->0;
        lemma_ancestors_in_line(x, (depth - 1) as nat, next, a, b, seen.push(current));
    }
}

/// Where a handler is excluded for every exception below a bound, no class that
/// descends from the bound descends from the class of the handler.
pub proof fn law_excluded_bound_excludes_descendants(
    x: IndexModel,
    bound: TypeId,
    handler: TypeId,
    class: TypeId,
)
    requires
        matches_handler(
            x,
            ExceptionTypeFact::SubtypeOf(bound),
            ExceptionTypeFact::Known(handler),
        ) == TypeMatch::No,
        subtype(x, class, bound) == TypeMatch::Yes,
    ensures
        subtype(x, class, handler) != TypeMatch::Yes,
{
    if subtype(x, class, handler) == TypeMatch::Yes {
        lemma_ancestors_in_line(x, full(), class, bound, handler, Seq::empty());
    }
}

/// Whether the search for a name without a qualifier goes on behind a `uses` entry:
/// the entry is out of view, or stands for a loaded unit that does not declare the
/// first part of the name.
pub open spec fn passes_on(
    x: IndexModel,
    import: ImportModel,
    name: Seq<char>,
    unit: usize,
    offset: usize,
) -> bool {
    !import_in_view(import, unit, offset) || (import.target matches ImportSelectionTarget::Loaded(
        target,
    ) && export_of(x, target, name) == Lookup::Absent)
}

/// What a `uses` entry makes of a name whose first `k` parts are its qualifier:
/// the type that its unit exports under the next part, and from there the members
/// that the remaining parts name. Nothing is known where the entry is not loaded.
pub open spec fn through_import(
    x: IndexModel,
    fuel: nat,
    import: ImportModel,
    parts: Seq<Seq<char>>,
    k: int,
    unit: usize,
    offset: usize,
    seen: Seq<TypeId>,
    active: Seq<MemberQueryModel>,
) -> Option<TypeId> {
    match import.target {
        ImportSelectionTarget::Loaded(target) => match export_of(x, target, parts[k]) {
            Lookup::Type(id) => match resolve_type(x, fuel, id, seen, active) {
                Some(resolved) => resolve_members(
                    x,
                    fuel,
                    parts,
                    k + 1,
                    resolved,
                    unit,
                    offset,
                    seen,
                    active,
                ),
                None => None,
            },
            _ => None,
        },
        _ => None,
    }
}

/// The search for a name without a qualifier among the `uses` entries takes them
/// in order, and the first one in view that does not pass on its first part
/// decides. Where that one is not loaded, or its unit leaves open what the part
/// is, nothing is known, whatever the entries behind it declare.
pub proof fn law_first_import_decides(
    x: IndexModel,
    fuel: nat,
    parts: Seq<Seq<char>>,
    unit: usize,
    offset: usize,
    seen: Seq<TypeId>,
    active: Seq<MemberQueryModel>,
    i: int,
    k: int,
)
    requires
        parts.len() > 0,
        0 <= i <= k < x.imports.len(),
        forall|j: int|
            i <= j < k ==> passes_on(x, #[trigger] x.imports[j], parts[0], unit, offset),
        !passes_on(x, x.imports[k], parts[0], unit, offset),
    ensures
        resolve_imported(x, fuel, parts, unit, offset, false, seen, active, i) == through_import(
            x,
            fuel,
            x.imports[k],
            parts,
            0,
            unit,
            offset,
            seen,
            active,
        ),
    decreases k - i,
{
    if i < k {
        assert(passes_on(x, x.imports[i], parts[0], unit, offset));
        law_first_import_decides(x, fuel, parts, unit, offset, seen, active, i + 1, k);
    }
}

/// Where every `uses` entry passes on the first part of a name without a
/// qualifier, the name stands for nothing known.
pub proof fn law_no_import_decides(
    x: IndexModel,
    fuel: nat,
    parts: Seq<Seq<char>>,
    unit: usize,
    offset: usize,
    seen: Seq<TypeId>,
    active: Seq<MemberQueryModel>,
    i: int,
)
    requires
        parts.len() > 0,
        0 <= i,
        forall|j: int|
            i <= j < x.imports.len() ==> passes_on(
                x,
                #[trigger] x.imports[j],
                parts[0],
                unit,
                offset,
            ),
    ensures
        resolve_imported(x, fuel, parts, unit, offset, false, seen, active, i) is None,
    decreases x.imports.len() - i,
{
    if i < x.imports.len() {
        assert(passes_on(x, x.imports[i], parts[0], unit, offset));
        law_no_import_decides(x, fuel, parts, unit, offset, seen, active, i + 1);
    }
}

/// Whether the search for a qualified name goes on behind a `uses` entry: the
/// entry is out of view; or it is loaded, its unit does not declare the first part
/// itself, and the entry either has no qualifier that starts the name or does not
/// declare the part behind it.
pub open spec fn passes_on_qualified(
    x: IndexModel,
    import: ImportModel,
    parts: Seq<Seq<char>>,
    unit: usize,
    offset: usize,
) -> bool {
    !import_in_view(import, unit, offset) || (!shadows_qualifier(x, import, parts[0]) && (
    match qualifier_of(import, parts, unit, offset) {
        Some(k) => import.target matches ImportSelectionTarget::Loaded(target) && export_of(
            x,
            target,
            parts[k],
        ) == Lookup::Absent,
        None => true,
    }))
}

proof fn lemma_qualifier_is_shorter(
    qualifiers: Seq<Seq<Seq<char>>>,
    parts: Seq<Seq<char>>,
    n: int,
)
    ensures
        longest_qualifier(qualifiers, parts, n) matches Some(k) ==> 0 <= k < parts.len(),
    decreases n,
{
    if 0 < n <= qualifiers.len() {
        lemma_qualifier_is_shorter(qualifiers, parts, n - 1);
    }
}

/// The search for a qualified name takes the `uses` entries in order too, and the
/// first one that does not pass it on decides: where it may declare the first part
/// itself nothing is known, and else its longest qualifier that starts the name is
/// taken off.
pub proof fn law_first_qualified_import_decides(
    x: IndexModel,
    fuel: nat,
    parts: Seq<Seq<char>>,
    unit: usize,
    offset: usize,
    seen: Seq<TypeId>,
    active: Seq<MemberQueryModel>,
    i: int,
    k: int,
)
    requires
        parts.len() > 0,
        0 <= i <= k < x.imports.len(),
        forall|j: int|
            i <= j < k ==> passes_on_qualified(x, #[trigger] x.imports[j], parts, unit, offset),
        !passes_on_qualified(x, x.imports[k], parts, unit, offset),
    ensures
        resolve_imported(x, fuel, parts, unit, offset, true, seen, active, i) == (
        if shadows_qualifier(x, x.imports[k], parts[0]) {
            None
        } else {
            through_import(
                x,
                fuel,
                x.imports[k],
                parts,
                qualifier_of(x.imports[k], parts, unit, offset)->0,
                unit,
                offset,
                seen,
                active,
            )
        }),
    decreases k - i,
{
    let qualifiers = x.imports[i].qualifiers;
    lemma_qualifier_is_shorter(qualifiers, parts, qualifiers.len() as int);
    if i < k {
        assert(passes_on_qualified(x, x.imports[i], parts, unit, offset));
        law_first_qualified_import_decides(x, fuel, parts, unit, offset, seen, active, i + 1, k);
    }
}

} // verus!
