//! Which `uses` entries a place of a unit sees, and what it finds through them.

use vstd::prelude::*;
use crate::exception_types::{
    export_of, import_in_view, law_first_import_decides, lookup, owner_class, passes_on, resolve,
    resolve_members, resolve_type, settle_from, settle_unit, with_method_owner, with_unit,
    ImportModel, ImportSection, ImportSelectionTarget, IndexModel, Lookup, MemberQueryModel,
};
use crate::project::{sites_in, unit_index, ImportBindingModel, ProjectModel, UnitInputModel};
use crate::project_index::{
    chosen, covering, entry_slot, latest_first, law_units_are_ranked, lemma_entry_slot,
    open_entries, open_in_unit, project_index, ranked, section_at, section_below,
};
use crate::syntax::SyntaxNode;
use crate::text::split_from;
use crate::unit_types::TypeId;

verus! {

// Where sections begin -------------------------------------------------------------------------

/// Whether the section of an entry begins at or before the entry.
spec fn begins_before(section: Option<(ImportSection, usize)>, offset: usize) -> bool {
    section matches Some((_kind, start)) ==> start <= offset
}

proof fn lemma_covering(nodes: Seq<SyntaxNode>, offset: usize, i: int)
    ensures
        covering(nodes, offset, i) matches Some(k) ==> 0 <= k < nodes.len() && nodes[k].start
            <= offset,
    decreases nodes.len() - i,
{
    if 0 <= i < nodes.len() {
        lemma_covering(nodes, offset, i + 1);
    }
}

proof fn lemma_section_at(
    node: SyntaxNode,
    offset: usize,
    section: Option<(ImportSection, usize)>,
    found: Option<(ImportSection, usize)>,
)
    requires
        node.start <= offset,
        begins_before(section, offset),
        begins_before(found, offset),
    ensures
        begins_before(section_at(node, offset, section, found), offset),
    decreases node,
{
    lemma_covering(node.children@, offset, 0);
    let here = if node.kind@ == "declUses"@ {
        match section {
            Some(s) => Some(s),
            None => Some((ImportSection::Module, node.start)),
        }
    } else {
        found
    };
    if let Some(k) = covering(node.children@, offset, 0) {
        lemma_section_at(node.children@[k], offset, section_below(node, section), here);
    }
}

/// Whether an entry stands in its section.
spec fn in_its_section(e: ImportModel) -> bool {
    e.section_start <= e.start
}

spec fn all_in_section(entries: Seq<ImportModel>) -> bool {
    forall|k: int| 0 <= k < entries.len() ==> in_its_section(#[trigger] entries[k])
}

spec fn all_start_at_zero(units: Seq<UnitInputModel>) -> bool {
    forall|k: int| 0 <= k < units.len() ==> (#[trigger] units[k]).tree.root.start == 0
}

proof fn lemma_chosen(units: Seq<UnitInputModel>, imports: Seq<ImportBindingModel>, n: int)
    requires
        all_start_at_zero(units),
    ensures
        all_in_section(chosen(units, imports, n)),
    decreases n,
{
    if n > 0 {
        lemma_chosen(units, imports, n - 1);
        let import = imports[n - 1];
        crate::project::lemma_unit_found(units, import.site.unit_id, units.len() as int);
        if let Some(k) = unit_index(units, import.site.unit_id, units.len() as int) {
            assert(units[k].tree.root.start == 0);
            lemma_section_at(units[k].tree.root, import.site.start, None, None);
        }
    }
}

proof fn lemma_open_in_unit(
    unit: UnitInputModel,
    importer: usize,
    imports: Seq<ImportBindingModel>,
    n: int,
)
    requires
        unit.tree.root.start == 0,
    ensures
        all_in_section(open_in_unit(unit, importer, imports, n)),
    decreases n,
{
    if n > 0 {
        lemma_open_in_unit(unit, importer, imports, n - 1);
        let start = sites_in(unit.tree.root, false)[n - 1].0;
        lemma_section_at(unit.tree.root, start, None, None);
    }
}

proof fn lemma_open_entries(units: Seq<UnitInputModel>, imports: Seq<ImportBindingModel>, n: int)
    requires
        all_start_at_zero(units),
        n <= units.len(),
    ensures
        all_in_section(open_entries(units, imports, n)),
    decreases n,
{
    if n > 0 {
        lemma_open_entries(units, imports, n - 1);
        assert(units[n - 1].tree.root.start == 0);
        lemma_open_in_unit(
            units[n - 1],
            (n - 1) as usize,
            imports,
            sites_in(units[n - 1].tree.root, false).len() as int,
        );
    }
}

proof fn lemma_latest_first(entries: Seq<ImportModel>)
    requires
        all_in_section(entries),
    ensures
        all_in_section(latest_first(entries)),
    decreases entries.len(),
{
    if entries.len() > 0 {
        let rest = entries.drop_last();
        assert(all_in_section(rest));
        lemma_latest_first(rest);
        let before = latest_first(rest);
        let e = entries.last();
        lemma_entry_slot(before, e.start, 0);
        let at = entry_slot(before, e.start, 0);
        let after = before.insert(at, e);
        assert forall|k: int| 0 <= k < after.len() implies in_its_section(#[trigger] after[k]) by {
            if k < at {
                assert(in_its_section(before[k]));
            } else if k > at {
                assert(in_its_section(before[k - 1]));
            } else {
                assert(in_its_section(entries[entries.len() - 1]));
            }
        }
    }
}

proof fn lemma_settle_unit_imports(x: IndexModel, unit: usize, k: int)
    ensures
        settle_unit(x, unit, k).imports == x.imports,
    decreases x.units[unit as int].pending_method_owners.len() - k,
{
    if unit < x.units.len() && 0 <= k < x.units[unit as int].pending_method_owners.len() {
        let u = x.units[unit as int];
        let owner = u.pending_method_owners[k];
        let y = with_unit(
            x,
            unit,
            with_method_owner(u, owner.routine_scope, owner_class(x, unit, owner)),
        );
        lemma_settle_unit_imports(y, unit, k + 1);
    }
}

pub proof fn lemma_settle_imports(x: IndexModel, unit: int)
    ensures
        settle_from(x, unit).imports == x.imports,
    decreases x.units.len() - unit,
{
    if 0 <= unit < x.units.len() {
        lemma_settle_unit_imports(x, unit as usize, 0);
        crate::exception_types::lemma_settle_keeps_units(x, unit as usize, 0);
        lemma_settle_imports(settle_unit(x, unit as usize, 0), unit + 1);
    }
}

proof fn lemma_entries_in_section(project: ProjectModel)
    requires
        project.valid(),
    ensures
        all_in_section(project_index(project).imports),
{
    let units = ranked(project.units);
    law_units_are_ranked(project.units);
    assert(all_start_at_zero(units)) by {
        assert forall|k: int| 0 <= k < units.len() implies (
        #[trigger] units[k]).tree.root.start == 0 by {
            assert(units.contains(units[k]));
            assert(project.units.contains(units[k]));
            let i = choose|i: int| 0 <= i < project.units.len() && project.units[i] == units[k];
            crate::project::lemma_units_hold(project.units, 0);
            assert(crate::project::unit_error(project.units, i) is None);
        }
    }
    let a = chosen(units, project.imports, project.imports.len() as int);
    let b = open_entries(units, project.imports, units.len() as int);
    lemma_chosen(units, project.imports, project.imports.len() as int);
    lemma_open_entries(units, project.imports, units.len() as int);
    let all = a + b;
    assert forall|k: int| 0 <= k < all.len() implies in_its_section(#[trigger] all[k]) by {
        if k < a.len() {
            assert(in_its_section(a[k]));
        } else {
            assert(in_its_section(b[k - a.len()]));
        }
    }
    lemma_latest_first(all);
    lemma_settle_imports(
        IndexModel { units: crate::project_index::declarations(units), imports: latest_first(all) },
        0,
    );
}

// What is in view --------------------------------------------------------------------------------

/// A `uses` entry of a project is in view from its end on, at every place of its
/// unit, in whichever section it stands; before its end and in other units it is
/// not.
pub proof fn law_entry_is_in_view_from_its_end_on(
    project: ProjectModel,
    k: int,
    unit: usize,
    offset: usize,
)
    requires
        project.valid(),
        0 <= k < project_index(project).imports.len(),
        project_index(project).imports[k].start <= project_index(project).imports[k].end,
    ensures
        ({
            let e = project_index(project).imports[k];
            import_in_view(e, unit, offset) <==> unit == e.importer && e.end <= offset
        }),
{
    lemma_entries_in_section(project);
    assert(in_its_section(project_index(project).imports[k]));
}

proof fn lemma_split_nonempty(s: Seq<char>, c: char, start: int, i: int)
    ensures
        split_from(s, c, start, i).len() > 0,
    decreases s.len() - i,
{
    if i < s.len() {
        lemma_split_nonempty(s, c, start, i + 1);
    }
}

/// A name that nothing in the unit declares stands for the class that a loaded unit
/// declares in its interface under that name, wherever the `uses` entry of that unit
/// has ended and no later entry has.
pub proof fn law_name_is_found_through_uses(
    project: ProjectModel,
    k: int,
    fuel: nat,
    name: Seq<char>,
    unit: usize,
    scope: usize,
    offset: usize,
    seen: Seq<TypeId>,
    active: Seq<MemberQueryModel>,
    target: usize,
    id: TypeId,
)
    requires
        project.valid(),
        0 <= k < project_index(project).imports.len(),
        unit < project_index(project).units.len(),
        lookup(project_index(project), fuel, unit, scope, name, offset, active) == Lookup::Absent,
        project_index(project).imports[k].importer == unit,
        project_index(project).imports[k].start <= project_index(project).imports[k].end <= offset,
        project_index(project).imports[k].target == ImportSelectionTarget::Loaded(target),
        export_of(project_index(project), target, name) == Lookup::Type(id),
        forall|j: int|
            0 <= j < k && (#[trigger] project_index(project).imports[j]).importer == unit
                ==> offset < project_index(project).imports[j].end,
    ensures
        resolve(
            project_index(project),
            fuel,
            seq![name],
            unit,
            scope,
            offset,
            seen,
            active,
        ) == resolve_type(project_index(project), fuel, id, seen, active),
{
    let x = project_index(project);
    let parts = seq![name];
    law_entry_is_in_view_from_its_end_on(project, k, unit, offset);
    assert forall|j: int| 0 <= j < k implies passes_on(
        x,
        #[trigger] x.imports[j],
        name,
        unit,
        offset,
    ) by {
        assert(!import_in_view(x.imports[j], unit, offset));
    }
    law_first_import_decides(x, fuel, parts, unit, offset, seen, active, 0, k);
    if let Some(module) = x.units[unit as int].module_name {
        lemma_split_nonempty(module, '.', 0, 0);
    }
    if let Some(r) = resolve_type(x, fuel, id, seen, active) {
        assert(resolve_members(x, fuel, parts, 1, r, unit, offset, seen, active) == Some(r));
    }
}

} // verus!
