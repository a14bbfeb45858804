//! What the index of a project holds of its units and of their `uses` entries.

use vstd::prelude::*;
use crate::exception_types::{
    owner_class, settle_from, settle_unit, with_method_owner, with_unit, ImportModel,
    ImportSelectionTarget, IndexModel,
};
use crate::import_laws::lemma_settle_imports;
use crate::project::{
    lemma_unit_found, site_taken, sites_in, sites_in_list, ImportBindingModel, ImportTargetModel,
    ProjectModel, SiteModel, UnitInputModel,
};
use crate::project_index::{
    canonical_qualifiers, chosen, declarations, latest_first, law_later_entries_come_first,
    law_units_are_ranked, open_entries, open_in_unit, project_index, ranked,
};
use crate::syntax::SyntaxNode;
use crate::text::{lower_text, split_text};
use crate::unit_types::{unit_types, UnitModel};

verus! {

// Entries ----------------------------------------------------------------------------------------

/// Whether an entry is the one that a choice for a `uses` site gives: it stands at the
/// site, and leads to the chosen unit where that is loaded and to nothing known
/// otherwise. Its qualifiers are those of the choice in lower case, part by part.
pub open spec fn entry_for(
    units: Seq<UnitInputModel>,
    import: ImportBindingModel,
    e: ImportModel,
) -> bool {
    &&& e.importer < units.len() && units[e.importer as int].id == import.site.unit_id
    &&& e.start == import.site.start && e.end == import.site.end
    &&& match import.target {
        ImportTargetModel::Loaded(id) => match e.target {
            ImportSelectionTarget::Loaded(t) => t < units.len() && units[t as int].id == id,
            ImportSelectionTarget::Unavailable => forall|j: int|
                0 <= j < units.len() ==> (#[trigger] units[j]).id != id,
            _ => false,
        },
        ImportTargetModel::Unavailable => e.target == ImportSelectionTarget::Unavailable,
        ImportTargetModel::Ambiguous => e.target == ImportSelectionTarget::Ambiguous,
    }
    &&& e.qualifiers.len() == import.qualifiers.len()
    &&& forall|q: int|
        0 <= q < import.qualifiers.len() ==> (#[trigger] e.qualifiers[q]) == split_text(
            import.qualifiers[q],
            '.',
        ).map_values(|part: Seq<char>| lower_text(part))
}

proof fn lemma_chosen_entry(
    units: Seq<UnitInputModel>,
    imports: Seq<ImportBindingModel>,
    n: int,
    i: int,
) -> (e: ImportModel)
    requires
        0 <= i < n <= imports.len(),
        units.len() <= usize::MAX,
        exists|k: int|
            0 <= k < units.len() && (#[trigger] units[k]).id == imports[i].site.unit_id,
    ensures
        chosen(units, imports, n).contains(e),
        entry_for(units, imports[i], e),
    decreases n,
{
    let before = chosen(units, imports, n - 1);
    let all = chosen(units, imports, n);
    lemma_unit_found(units, imports[n - 1].site.unit_id, units.len() as int);
    if i < n - 1 {
        let e = lemma_chosen_entry(units, imports, n - 1, i);
        let k = choose|k: int| 0 <= k < before.len() && before[k] == e;
        assert(all[k] == e);
        e
    } else {
        let import = imports[i];
        if let ImportTargetModel::Loaded(id) = import.target {
            lemma_unit_found(units, id, units.len() as int);
        }
        let e = all.last();
        assert(all[all.len() - 1] == e);
        assert forall|q: int| 0 <= q < import.qualifiers.len() implies (#[trigger] e.qualifiers[q])
            == split_text(import.qualifiers[q], '.').map_values(
            |part: Seq<char>| lower_text(part),
        ) by {
            assert(e.qualifiers[q] == canonical_qualifiers(import.qualifiers)[q]);
        }
        e
    }
}

proof fn lemma_open_in(
    unit: UnitInputModel,
    importer: usize,
    imports: Seq<ImportBindingModel>,
    n: int,
    s: int,
) -> (e: ImportModel)
    requires
        0 <= s < n <= sites_in(unit.tree.root, false).len(),
        !imports_site(
            imports,
            unit.id,
            sites_in(unit.tree.root, false)[s].0,
            sites_in(unit.tree.root, false)[s].1,
        ),
    ensures
        open_in_unit(unit, importer, imports, n).contains(e),
        e.importer == importer,
        e.start == sites_in(unit.tree.root, false)[s].0,
        e.end == sites_in(unit.tree.root, false)[s].1,
        e.target == ImportSelectionTarget::Unavailable,
        e.qualifiers.len() == 0,
    decreases n,
{
    let sites = sites_in(unit.tree.root, false);
    let before = open_in_unit(unit, importer, imports, n - 1);
    let all = open_in_unit(unit, importer, imports, n);
    let (start, end) = sites[n - 1];
    if s < n - 1 {
        let e = lemma_open_in(unit, importer, imports, n - 1, s);
        let k = choose|k: int| 0 <= k < before.len() && before[k] == e;
        assert(all[k] == e);
        e
    } else if sites.take(n - 1).contains((start, end)) {
        let earlier = sites.take(n - 1);
        let k = choose|k: int| 0 <= k < earlier.len() && earlier[k] == (start, end);
        assert(sites[k] == sites[s]);
        let e = lemma_open_in(unit, importer, imports, n - 1, k);
        let m = choose|m: int| 0 <= m < before.len() && before[m] == e;
        assert(all[m] == e);
        e
    } else {
        let site = SiteModel { unit_id: unit.id, start, end };
        assert(!site_taken(imports, site, imports.len() as int)) by {
            if site_taken(imports, site, imports.len() as int) {
                let k = choose|k: int| 0 <= k < imports.len() && imports[k].site == site;
                assert(imports[k].site.unit_id == unit.id);
            }
        }
        let e = all.last();
        assert(all[all.len() - 1] == e);
        e
    }
}

/// Whether a choice was made for a `uses` site of a unit.
pub open spec fn imports_site(
    imports: Seq<ImportBindingModel>,
    id: Seq<char>,
    start: usize,
    end: usize,
) -> bool {
    exists|k: int|
        0 <= k < imports.len() && (#[trigger] imports[k]).site.unit_id == id
            && imports[k].site.start == start && imports[k].site.end == end
}

proof fn lemma_open_entry(
    units: Seq<UnitInputModel>,
    imports: Seq<ImportBindingModel>,
    n: int,
    u: int,
    e: ImportModel,
)
    requires
        0 <= u < n <= units.len(),
        open_in_unit(
            units[u],
            u as usize,
            imports,
            sites_in(units[u].tree.root, false).len() as int,
        ).contains(e),
    ensures
        open_entries(units, imports, n).contains(e),
    decreases n,
{
    let before = open_entries(units, imports, n - 1);
    let here = open_in_unit(
        units[n - 1],
        (n - 1) as usize,
        imports,
        sites_in(units[n - 1].tree.root, false).len() as int,
    );
    let all = before + here;
    if u < n - 1 {
        lemma_open_entry(units, imports, n - 1, u, e);
        let k = choose|k: int| 0 <= k < before.len() && before[k] == e;
        assert(all[k] == e);
    } else {
        let k = choose|k: int| 0 <= k < here.len() && here[k] == e;
        assert(all[before.len() + k] == e);
    }
}

proof fn lemma_in_index(project: ProjectModel, e: ImportModel)
    requires
        ({
            let units = ranked(project.units);
            chosen(units, project.imports, project.imports.len() as int).contains(e)
                || open_entries(units, project.imports, units.len() as int).contains(e)
        }),
    ensures
        project_index(project).imports.contains(e),
{
    let units = ranked(project.units);
    let a = chosen(units, project.imports, project.imports.len() as int);
    let b = open_entries(units, project.imports, units.len() as int);
    let all = a + b;
    if a.contains(e) {
        let k = choose|k: int| 0 <= k < a.len() && a[k] == e;
        assert(all[k] == e);
    } else {
        let k = choose|k: int| 0 <= k < b.len() && b[k] == e;
        assert(all[a.len() + k] == e);
    }
    law_later_entries_come_first(all);
    all.to_multiset_ensures();
    latest_first(all).to_multiset_ensures();
    assert(all.contains(e));
    assert(all.to_multiset().contains(e));
    assert(latest_first(all).to_multiset().contains(e));
    assert(latest_first(all).contains(e));
    lemma_settle_imports(
        IndexModel { units: declarations(units), imports: latest_first(all) },
        0,
    );
}

/// Every choice for a `uses` site of a unit of the project is an entry of the index.
///
/// The witness gives the entry.
pub proof fn law_choice_is_an_entry(project: ProjectModel, i: int) -> (e: ImportModel)
    requires
        0 <= i < project.imports.len(),
        project.units.len() <= usize::MAX,
        exists|k: int|
            0 <= k < project.units.len() && (#[trigger] project.units[k]).id
                == project.imports[i].site.unit_id,
    ensures
        project_index(project).imports.contains(e),
        entry_for(ranked(project.units), project.imports[i], e),
{
    let units = ranked(project.units);
    law_units_are_ranked(project.units);
    let k = choose|k: int|
        0 <= k < project.units.len() && (#[trigger] project.units[k]).id
            == project.imports[i].site.unit_id;
    assert(project.units.contains(project.units[k]));
    assert(units.contains(project.units[k]));
    let e = lemma_chosen_entry(units, project.imports, project.imports.len() as int, i);
    lemma_in_index(project, e);
    e
}

/// Every `uses` site for which no choice was made is an entry too, one that leads to
/// nothing known.
///
/// The witness gives the entry.
pub proof fn law_site_without_choice_is_open(project: ProjectModel, u: int, s: int) -> (e:
    ImportModel)
    requires
        0 <= u < ranked(project.units).len() <= usize::MAX,
        0 <= s < sites_in(ranked(project.units)[u].tree.root, false).len(),
        !imports_site(
            project.imports,
            ranked(project.units)[u].id,
            sites_in(ranked(project.units)[u].tree.root, false)[s].0,
            sites_in(ranked(project.units)[u].tree.root, false)[s].1,
        ),
    ensures
        project_index(project).imports.contains(e),
        e.importer == u,
        e.start == sites_in(ranked(project.units)[u].tree.root, false)[s].0,
        e.end == sites_in(ranked(project.units)[u].tree.root, false)[s].1,
        e.target == ImportSelectionTarget::Unavailable,
        e.qualifiers.len() == 0,
{
    let units = ranked(project.units);
    let sites = sites_in(units[u].tree.root, false);
    let e = lemma_open_in(units[u], u as usize, project.imports, sites.len() as int, s);
    lemma_open_entry(units, project.imports, units.len() as int, u, e);
    lemma_in_index(project, e);
    e
}

/// Whether a node is a unit name in a `uses` clause below another node, or in the clause
/// that the other node stands in.
pub open spec fn names_unit(root: SyntaxNode, name: SyntaxNode, in_uses: bool) -> bool
    decreases root,
{
    let inside = in_uses || root.kind@ == "declUses"@;
    if inside && root.kind@ == "moduleName"@ {
        root == name
    } else {
        exists|i: int|
            0 <= i < root.children@.len() && names_unit(#[trigger] root.children@[i], name, inside)
    }
}

/// The `uses` sites of a unit are the places of the unit names in its `uses` clauses.
pub proof fn law_uses_sites(root: SyntaxNode, name: SyntaxNode, in_uses: bool)
    requires
        names_unit(root, name, in_uses),
    ensures
        sites_in(root, in_uses).contains((name.start, name.end)),
    decreases root,
{
    let inside = in_uses || root.kind@ == "declUses"@;
    let all = sites_in(root, in_uses);
    if inside && root.kind@ == "moduleName"@ {
        assert(all[0] == (name.start, name.end));
    } else {
        let i = choose|i: int|
            0 <= i < root.children@.len() && names_unit(#[trigger] root.children@[i], name, inside);
        law_uses_sites(root.children@[i], name, inside);
        lemma_site_in_list(
            root.children@,
            inside,
            root.children@.len() as int,
            i,
            (name.start, name.end),
        );
    }
}

proof fn lemma_site_in_list(
    nodes: Seq<SyntaxNode>,
    in_uses: bool,
    n: int,
    i: int,
    site: (usize, usize),
)
    requires
        0 <= i < n <= nodes.len(),
        sites_in(nodes[i], in_uses).contains(site),
    ensures
        sites_in_list(nodes, in_uses, n).contains(site),
    decreases n,
{
    let before = sites_in_list(nodes, in_uses, n - 1);
    let here = sites_in(nodes[n - 1], in_uses);
    if i < n - 1 {
        lemma_site_in_list(nodes, in_uses, n - 1, i, site);
        let k = choose|k: int| 0 <= k < before.len() && before[k] == site;
        assert((before + here)[k] == site);
    } else {
        let k = choose|k: int| 0 <= k < here.len() && here[k] == site;
        assert((before + here)[before.len() + k] == site);
    }
}

// Method owners ----------------------------------------------------------------------------------

/// Whether a unit is another one in which owners may have been settled.
pub open spec fn unit_settled(before: UnitModel, after: UnitModel) -> bool {
    &&& after.unit_index == before.unit_index
    &&& after.module_name == before.module_name
    &&& after.types == before.types
    &&& after.unsupported_ranges == before.unsupported_ranges
    &&& after.with_ranges == before.with_ranges
    &&& after.has_preprocessor_barrier == before.has_preprocessor_barrier
    &&& after.pending_method_owners == before.pending_method_owners
    &&& after.interface_range == before.interface_range
    &&& after.parser_incomplete == before.parser_incomplete
    &&& after.scopes.len() == before.scopes.len()
    &&& forall|k: int|
        0 <= k < before.scopes.len() ==> {
            &&& (#[trigger] after.scopes[k]).start == before.scopes[k].start
            &&& after.scopes[k].end == before.scopes[k].end
            &&& after.scopes[k].bindings == before.scopes[k].bindings
        }
}

proof fn lemma_settle_unit(x: IndexModel, unit: usize, k: int, v: int)
    requires
        0 <= v < x.units.len(),
    ensures
        settle_unit(x, unit, k).units.len() == x.units.len(),
        unit_settled(x.units[v], settle_unit(x, unit, k).units[v]),
        v != unit ==> settle_unit(x, unit, k).units[v] == x.units[v],
    decreases x.units[unit as int].pending_method_owners.len() - k,
{
    if unit < x.units.len() && 0 <= k < x.units[unit as int].pending_method_owners.len() {
        let u = x.units[unit as int];
        let owner = u.pending_method_owners[k];
        let y = with_unit(
            x,
            unit,
            with_method_owner(u, owner.routine_scope, owner_class(x, unit, owner)),
        );
        lemma_settle_unit(y, unit, k + 1, v);
        let after = settle_unit(x, unit, k).units[v];
        assert forall|j: int| 0 <= j < x.units[v].scopes.len() implies {
            &&& (#[trigger] after.scopes[j]).start == x.units[v].scopes[j].start
            &&& after.scopes[j].end == x.units[v].scopes[j].end
            &&& after.scopes[j].bindings == x.units[v].scopes[j].bindings
        } by {
            assert(y.units[v].scopes[j].bindings == x.units[v].scopes[j].bindings);
        }
    }
}

proof fn lemma_settle_from(x: IndexModel, unit: int, v: int)
    requires
        0 <= v < x.units.len(),
    ensures
        settle_from(x, unit).units.len() == x.units.len(),
        unit_settled(x.units[v], settle_from(x, unit).units[v]),
    decreases x.units.len() - unit,
{
    if 0 <= unit < x.units.len() {
        let y = settle_unit(x, unit as usize, 0);
        lemma_settle_unit(x, unit as usize, 0, v);
        lemma_settle_from(y, unit + 1, v);
        let after = settle_from(x, unit).units[v];
        assert forall|j: int| 0 <= j < x.units[v].scopes.len() implies {
            &&& (#[trigger] after.scopes[j]).start == x.units[v].scopes[j].start
            &&& after.scopes[j].end == x.units[v].scopes[j].end
            &&& after.scopes[j].bindings == x.units[v].scopes[j].bindings
        } by {
            assert(y.units[v].scopes[j].bindings == x.units[v].scopes[j].bindings);
        }
    }
}

/// The index of a project holds the declarations of each unit, in the order of the
/// identities of the units; settling the owners of methods changes none of them.
pub proof fn law_index_holds_the_declarations(project: ProjectModel, k: int)
    requires
        0 <= k < project.units.len() <= usize::MAX,
    ensures
        ({
            let units = ranked(project.units);
            let x = project_index(project);
            &&& x.units.len() == project.units.len()
            &&& units.len() == project.units.len()
            &&& unit_settled(
                unit_types(k as usize, units[k].tree.root, units[k].source),
                x.units[k],
            )
        }),
{
    let units = ranked(project.units);
    law_units_are_ranked(project.units);
    let a = chosen(units, project.imports, project.imports.len() as int);
    let b = open_entries(units, project.imports, units.len() as int);
    let x = IndexModel { units: declarations(units), imports: latest_first(a + b) };
    assert(x.units.len() == units.len());
    lemma_settle_from(x, 0, k);
}

/// The scope of a method belongs to the class that the parts before its name stand for
/// where it is implemented. Where they stand for no usable class, the scope is cut off
/// from those around it and nothing is known in it.
///
/// The witness gives the index in which the owner is looked up.
pub proof fn law_method_owner(x: IndexModel, unit: usize, from: int, k: int) -> (at: IndexModel)
    requires
        unit < x.units.len(),
        0 <= from <= k < x.units[unit as int].pending_method_owners.len(),
        x.units[unit as int].pending_method_owners[k].routine_scope
            < x.units[unit as int].scopes.len(),
        forall|j: int|
            k < j < x.units[unit as int].pending_method_owners.len() ==> (
            #[trigger] x.units[unit as int].pending_method_owners[j]).routine_scope
                != x.units[unit as int].pending_method_owners[k].routine_scope,
    ensures
        ({
            let owner = x.units[unit as int].pending_method_owners[k];
            let after = settle_unit(x, unit, from).units[unit as int];
            let s = after.scopes[owner.routine_scope as int];
            &&& after.scopes.len() == x.units[unit as int].scopes.len()
            &&& at.units.len() == x.units.len() && at.imports == x.imports
            &&& unit_settled(x.units[unit as int], at.units[unit as int])
            &&& match owner_class(at, unit, owner) {
                Some(id) => s.owner_type == Some(id),
                None => s.owner_type is None && s.unresolved_owner && s.parent is None,
            }
        }),
    decreases k - from,
{
    let u = x.units[unit as int];
    let owner = u.pending_method_owners[from];
    let v = with_method_owner(u, owner.routine_scope, owner_class(x, unit, owner));
    let y = with_unit(x, unit, v);
    lemma_settle_unit(x, unit, from, unit as int);
    if from == k {
        lemma_scope_stays(y, unit, from + 1, owner.routine_scope);
        x
    } else {
        assert(y.units[unit as int].pending_method_owners == u.pending_method_owners);
        let at = law_method_owner(y, unit, from + 1, k);
        assert forall|j: int| 0 <= j < u.scopes.len() implies {
            &&& (#[trigger] at.units[unit as int].scopes[j]).start == u.scopes[j].start
            &&& at.units[unit as int].scopes[j].end == u.scopes[j].end
            &&& at.units[unit as int].scopes[j].bindings == u.scopes[j].bindings
        } by {
            assert(v.scopes[j].bindings == u.scopes[j].bindings);
        }
        at
    }
}

proof fn lemma_scope_stays(x: IndexModel, unit: usize, k: int, scope: usize)
    requires
        unit < x.units.len(),
        0 <= k,
        scope < x.units[unit as int].scopes.len(),
        forall|j: int|
            k <= j < x.units[unit as int].pending_method_owners.len() ==> (
            #[trigger] x.units[unit as int].pending_method_owners[j]).routine_scope != scope,
    ensures
        settle_unit(x, unit, k).units[unit as int].scopes[scope as int]
            == x.units[unit as int].scopes[scope as int],
    decreases x.units[unit as int].pending_method_owners.len() - k,
{
    if k < x.units[unit as int].pending_method_owners.len() {
        let u = x.units[unit as int];
        let owner = u.pending_method_owners[k];
        let y = with_unit(
            x,
            unit,
            with_method_owner(u, owner.routine_scope, owner_class(x, unit, owner)),
        );
        lemma_scope_stays(y, unit, k + 1, scope);
    }
}

} // verus!
