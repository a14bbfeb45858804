//! The types of a project: the units of a snapshot in the order of their
//! identities, and the `uses` entries that connect them.

use vstd::prelude::*;
use crate::exception_types::{
    file_index, settle_from, ExceptionTypeIndex, ImportModel, ImportSection, ImportSelection,
    ImportSelectionTarget, IndexModel,
};
use crate::project::{
    has_span, import_models, import_site_spans, law_units_are_distinct, site_taken, sites_in,
    unit_index, unit_models, ImportBinding, ImportBindingModel, ImportTarget, ImportTargetModel,
    ProjectModel, ProjectSnapshot, ProjectUnitId, ProjectUnitInput, SiteModel, UnitInputModel,
};
use crate::syntax::SyntaxNode;
use crate::text::{
    is_before, law_text_order_is_total, law_text_order_is_transitive, lower_text, lowercase, split,
    split_text, text_before, texts,
};
use crate::unit_types::{unit_types, UnitModel, UnitTypeIndex};

verus! {

/// Where a unit belongs among units in the order of their identities, from
/// position `i` on: behind all that do not come after it.
pub open spec fn place(ranked: Seq<UnitInputModel>, id: Seq<char>, i: int) -> int
    decreases ranked.len() - i,
{
    if i < 0 || i >= ranked.len() || text_before(id, ranked[i].id) {
        i
    } else {
        place(ranked, id, i + 1)
    }
}

/// The units in the order of their identities.
pub open spec fn ranked(units: Seq<UnitInputModel>) -> Seq<UnitInputModel>
    decreases units.len(),
{
    if units.len() == 0 {
        Seq::empty()
    } else {
        let before = ranked(units.drop_last());
        before.insert(place(before, units.last().id, 0), units.last())
    }
}

/// The declarations of each unit, which is numbered by its position.
pub open spec fn declarations(units: Seq<UnitInputModel>) -> Seq<UnitModel> {
    Seq::new(
        units.len(),
        |i: int| unit_types(i as usize, units[i].tree.root, units[i].source),
    )
}

/// The child that covers the byte at `offset`: the first one, from `i` on, that
/// ends behind it, unless that one starts behind it too.
pub open spec fn covering(nodes: Seq<SyntaxNode>, offset: usize, i: int) -> Option<int>
    decreases nodes.len() - i,
{
    if i < 0 || i >= nodes.len() {
        None
    } else if nodes[i].end <= offset {
        covering(nodes, offset, i + 1)
    } else if nodes[i].start <= offset {
        Some(i)
    } else {
        None
    }
}

/// The section that a node's children stand in: a module's section, none
/// directly below a module, and else that of the node itself.
pub open spec fn section_below(
    node: SyntaxNode,
    section: Option<(ImportSection, usize)>,
) -> Option<(ImportSection, usize)> {
    if node.kind@ == "interface"@ {
        Some((ImportSection::Interface, node.start))
    } else if node.kind@ == "implementation"@ {
        Some((ImportSection::Implementation, node.start))
    } else if node.kind@ == "unit"@ || node.kind@ == "program"@ || node.kind@ == "library"@
        || node.kind@ == "root"@ {
        None
    } else {
        section
    }
}

/// The section of the innermost `uses` clause around the byte at `offset`, where
/// `section` is the one that the node stands in and `found` that of the innermost
/// clause above it. A clause outside of a unit's sections is its own section.
pub open spec fn section_at(
    node: SyntaxNode,
    offset: usize,
    section: Option<(ImportSection, usize)>,
    found: Option<(ImportSection, usize)>,
) -> Option<(ImportSection, usize)>
    decreases node,
{
    let here = if node.kind@ == "declUses"@ {
        match section {
            Some(s) => Some(s),
            None => Some((ImportSection::Module, node.start)),
        }
    } else {
        found
    };
    match covering(node.children@, offset, 0) {
        Some(k) if 0 <= k < node.children@.len() => section_at(
            node.children@[k],
            offset,
            section_below(node, section),
            here,
        ),
        _ => here,
    }
}

/// The section of a `uses` entry and where that section starts.
pub open spec fn section_of(root: SyntaxNode, offset: usize) -> (ImportSection, usize) {
    match section_at(root, offset, None, None) {
        Some(section) => section,
        None => (ImportSection::Module, root.start),
    }
}

/// The dotted parts of each qualifier in canonical spelling.
pub open spec fn canonical_qualifiers(qualifiers: Seq<Seq<char>>) -> Seq<Seq<Seq<char>>> {
    qualifiers.map_values(
        |q: Seq<char>| split_text(q, '.').map_values(|part: Seq<char>| lower_text(part)),
    )
}

/// The unit that a choice stands for, by its position.
pub open spec fn selection_target(
    units: Seq<UnitInputModel>,
    target: ImportTargetModel,
) -> ImportSelectionTarget {
    match target {
        ImportTargetModel::Loaded(id) => match unit_index(units, id, units.len() as int) {
            Some(k) => ImportSelectionTarget::Loaded(k as usize),
            None => ImportSelectionTarget::Unavailable,
        },
        ImportTargetModel::Unavailable => ImportSelectionTarget::Unavailable,
        ImportTargetModel::Ambiguous => ImportSelectionTarget::Ambiguous,
    }
}

/// The `uses` entries that the first `n` choices give.
pub open spec fn chosen(
    units: Seq<UnitInputModel>,
    imports: Seq<ImportBindingModel>,
    n: int,
) -> Seq<ImportModel>
    decreases n,
{
    if n <= 0 {
        Seq::empty()
    } else {
        let before = chosen(units, imports, n - 1);
        let import = imports[n - 1];
        match unit_index(units, import.site.unit_id, units.len() as int) {
            Some(k) => {
                let section = section_of(units[k].tree.root, import.site.start);
                before.push(
                    ImportModel {
                        importer: k as usize,
                        start: import.site.start,
                        end: import.site.end,
                        section: section.0,
                        section_start: section.1,
                        target: selection_target(units, import.target),
                        qualifiers: canonical_qualifiers(import.qualifiers),
                    },
                )
            },
            None => before,
        }
    }
}

/// The entries for the first `n` unit names of one unit for which no choice was
/// made. Such a name is known to stand for something, but not for what.
pub open spec fn open_in_unit(
    unit: UnitInputModel,
    importer: usize,
    imports: Seq<ImportBindingModel>,
    n: int,
) -> Seq<ImportModel>
    decreases n,
{
    let sites = sites_in(unit.tree.root, false);
    if n <= 0 {
        Seq::empty()
    } else {
        let before = open_in_unit(unit, importer, imports, n - 1);
        let (start, end) = sites[n - 1];
        if sites.take(n - 1).contains((start, end)) || site_taken(
            imports,
            SiteModel { unit_id: unit.id, start, end },
            imports.len() as int,
        ) {
            before
        } else {
            let section = section_of(unit.tree.root, start);
            before.push(
                ImportModel {
                    importer,
                    start,
                    end,
                    section: section.0,
                    section_start: section.1,
                    target: ImportSelectionTarget::Unavailable,
                    qualifiers: Seq::empty(),
                },
            )
        }
    }
}

/// The entries for the unit names of the first `n` units for which no choice was
/// made.
pub open spec fn open_entries(
    units: Seq<UnitInputModel>,
    imports: Seq<ImportBindingModel>,
    n: int,
) -> Seq<ImportModel>
    decreases n,
{
    if n <= 0 {
        Seq::empty()
    } else {
        open_entries(units, imports, n - 1) + open_in_unit(
            units[n - 1],
            (n - 1) as usize,
            imports,
            sites_in(units[n - 1].tree.root, false).len() as int,
        )
    }
}

/// Where an entry belongs among entries of which the later in the source come
/// first, from position `i` on.
pub open spec fn entry_slot(entries: Seq<ImportModel>, start: usize, i: int) -> int
    decreases entries.len() - i,
{
    if i < 0 || i >= entries.len() || entries[i].start < start {
        i
    } else {
        entry_slot(entries, start, i + 1)
    }
}

/// The entries ordered so that the later in the source come first. Those that
/// start at the same place keep their order.
pub open spec fn latest_first(entries: Seq<ImportModel>) -> Seq<ImportModel>
    decreases entries.len(),
{
    if entries.len() == 0 {
        Seq::empty()
    } else {
        let before = latest_first(entries.drop_last());
        before.insert(entry_slot(before, entries.last().start, 0), entries.last())
    }
}

/// The index of a project.
pub open spec fn project_index(project: ProjectModel) -> IndexModel {
    let units = ranked(project.units);
    settle_from(
        IndexModel {
            units: declarations(units),
            imports: latest_first(
                chosen(units, project.imports, project.imports.len() as int) + open_entries(
                    units,
                    project.imports,
                    units.len() as int,
                ),
            ),
        },
        0,
    )
}

/// The models of a list of units.
pub open spec fn input_models(inputs: Seq<&ProjectUnitInput>) -> Seq<UnitInputModel> {
    inputs.map_values(|u: &ProjectUnitInput| u@)
}

/// The units of a snapshot in the order of their identities.
pub(crate) fn ranked_units(snapshot: &ProjectSnapshot) -> (r: Vec<&ProjectUnitInput>)
    ensures
        input_models(r@) == ranked(snapshot@.units),
{
    let units = snapshot.units();
    let ghost all = unit_models(units@);
    assert(all.len() == units@.len());
    let mut out: Vec<&ProjectUnitInput> = Vec::new();
    let mut n: usize = 0;
    assert(input_models(out@) =~= ranked(all.take(0)));
    while n < units.len()
        invariant
            n <= units@.len(),
            all == unit_models(units@),
            all.len() == units@.len(),
            input_models(out@) == ranked(all.take(n as int)),
        decreases units@.len() - n,
    {
        let unit = &units[n];
        let ghost before = input_models(out@);
        assert(before.len() == out@.len());
        assert(all[n as int] == unit@);
        assert(all.take(n as int + 1).drop_last() =~= all.take(n as int));
        let mut at: usize = 0;
        while at < out.len() && !is_before(unit.id().as_str(), out[at].id().as_str())
            invariant
                at <= out@.len(),
                before == input_models(out@),
                before.len() == out@.len(),
                place(before, unit@.id, 0) == place(before, unit@.id, at as int),
            decreases out@.len() - at,
        {
            assert(before[at as int] == out@[at as int]@);
            at = at + 1;
        }
        proof {
            if at < out@.len() {
                assert(before[at as int] == out@[at as int]@);
            }
        }
        out.insert(at, unit);
        assert(input_models(out@) =~= before.insert(at as int, unit@));
        n = n + 1;
    }
    assert(all.take(n as int) =~= all);
    out
}

/// The position of a unit among ranked units.
pub(crate) fn position(units: &Vec<&ProjectUnitInput>, id: &ProjectUnitId) -> (r: Option<usize>)
    ensures
        match r {
            Some(k) => k < units@.len() && unit_index(
                input_models(units@),
                id@,
                units@.len() as int,
            ) == Some(k as int),
            None => unit_index(input_models(units@), id@, units@.len() as int) is None,
        },
{
    let ghost models = input_models(units@);
    let mut i: usize = 0;
    while i < units.len()
        invariant
            i <= units@.len(),
            models == input_models(units@),
            unit_index(models, id@, i as int) is None,
        decreases units@.len() - i,
    {
        assert(models[i as int] == units@[i as int]@);
        if units[i].id().same(id) {
            proof {
                crate::project::lemma_unit_index(models, id@, i as int, units@.len() as int);
            }
            return Some(i);
        }
        i = i + 1;
    }
    None
}

fn covering_child(node: &SyntaxNode, offset: usize) -> (r: Option<usize>)
    ensures
        match r {
            Some(k) => k < node.children@.len() && covering(node.children@, offset, 0) == Some(
                k as int,
            ),
            None => covering(node.children@, offset, 0) is None,
        },
{
    let mut i: usize = 0;
    while i < node.children.len()
        invariant
            i <= node.children@.len(),
            covering(node.children@, offset, 0) == covering(node.children@, offset, i as int),
        decreases node.children@.len() - i,
    {
        if node.children[i].end > offset {
            if node.children[i].start <= offset {
                return Some(i);
            }
            return None;
        }
        i = i + 1;
    }
    None
}

fn find_section(
    node: &SyntaxNode,
    offset: usize,
    section: Option<(ImportSection, usize)>,
    found: Option<(ImportSection, usize)>,
) -> (r: Option<(ImportSection, usize)>)
    ensures
        r == section_at(*node, offset, section, found),
    decreases node,
{
    let here = if node.is_kind("declUses") {
        match section {
            Some(s) => Some(s),
            None => Some((ImportSection::Module, node.start)),
        }
    } else {
        found
    };
    let below = if node.is_kind("interface") {
        Some((ImportSection::Interface, node.start))
    } else if node.is_kind("implementation") {
        Some((ImportSection::Implementation, node.start))
    } else if node.is_kind("unit") || node.is_kind("program") || node.is_kind("library")
        || node.is_kind("root") {
        None
    } else {
        section
    };
    match covering_child(node, offset) {
        Some(k) => find_section(&node.children[k], offset, below, here),
        None => here,
    }
}

/// The section of a `uses` entry and where that section starts.
pub fn import_section(root: &SyntaxNode, offset: usize) -> (r: (ImportSection, usize))
    ensures
        r == section_of(*root, offset),
{
    match find_section(root, offset, None, None) {
        Some(section) => section,
        None => (ImportSection::Module, root.start),
    }
}

fn qualifier_parts(qualifier: &str) -> (r: Vec<String>)
    ensures
        texts(r@) == split_text(qualifier@, '.').map_values(|part: Seq<char>| lower_text(part)),
{
    let parts = split(qualifier, '.');
    let ghost expected = split_text(qualifier@, '.');
    assert(expected.len() == parts@.len());
    let mut out: Vec<String> = Vec::new();
    let mut i: usize = 0;
    while i < parts.len()
        invariant
            i <= parts@.len(),
            texts(parts@) == expected,
            expected.len() == parts@.len(),
            out@.len() == i,
            forall|k: int| 0 <= k < i ==> (#[trigger] out@[k])@ == lower_text(expected[k]),
        decreases parts@.len() - i,
    {
        assert(expected[i as int] == parts@[i as int]@);
        out.push(lowercase(parts[i].as_str()));
        i = i + 1;
    }
    assert(texts(out@) =~= expected.map_values(|part: Seq<char>| lower_text(part)));
    out
}

fn all_qualifier_parts(qualifiers: &[String]) -> (r: Vec<Vec<String>>)
    ensures
        r@.map_values(|q: Vec<String>| texts(q@)) == canonical_qualifiers(texts(qualifiers@)),
{
    let ghost models = texts(qualifiers@);
    let mut out: Vec<Vec<String>> = Vec::new();
    let mut i: usize = 0;
    while i < qualifiers.len()
        invariant
            i <= qualifiers@.len(),
            models == texts(qualifiers@),
            out@.len() == i,
            forall|k: int|
                0 <= k < i ==> texts((#[trigger] out@[k])@) == canonical_qualifiers(models)[k],
        decreases qualifiers@.len() - i,
    {
        assert(models[i as int] == qualifiers@[i as int]@);
        out.push(qualifier_parts(qualifiers[i].as_str()));
        i = i + 1;
    }
    assert(out@.map_values(|q: Vec<String>| texts(q@)) =~= canonical_qualifiers(models));
    out
}

/// The models of a list of entries.
pub open spec fn entry_models(entries: Seq<ImportSelection>) -> Seq<ImportModel> {
    entries.map_values(|i: ImportSelection| i@)
}

fn chosen_entries(units: &Vec<&ProjectUnitInput>, imports: &[ImportBinding]) -> (r: Vec<
    ImportSelection,
>)
    ensures
        entry_models(r@) == chosen(
            input_models(units@),
            import_models(imports@),
            imports@.len() as int,
        ),
{
    let ghost models = input_models(units@);
    let ghost bindings = import_models(imports@);
    assert(models.len() == units@.len());
    let mut out: Vec<ImportSelection> = Vec::new();
    assert(entry_models(out@) =~= Seq::<ImportModel>::empty());
    let mut n: usize = 0;
    while n < imports.len()
        invariant
            n <= imports@.len(),
            models == input_models(units@),
            models.len() == units@.len(),
            bindings == import_models(imports@),
            entry_models(out@) == chosen(models, bindings, n as int),
        decreases imports@.len() - n,
    {
        let binding = &imports[n];
        assert(bindings[n as int] == binding@);
        let ghost before = entry_models(out@);
        if let Some(k) = position(units, binding.site().unit_id()) {
            assert(models[k as int] == units@[k as int]@);
            let range = binding.site().byte_range();
            let (section, section_start) = import_section(&units[k].tree().root, range.start);
            let target = match binding.target() {
                ImportTarget::Loaded(id) => match position(units, id) {
                    Some(t) => ImportSelectionTarget::Loaded(t),
                    None => ImportSelectionTarget::Unavailable,
                },
                ImportTarget::Unavailable => ImportSelectionTarget::Unavailable,
                ImportTarget::Ambiguous => ImportSelectionTarget::Ambiguous,
            };
            let entry = ImportSelection {
                importer: k,
                start: range.start,
                end: range.end,
                section,
                section_start,
                target,
                authorized_qualifiers: all_qualifier_parts(binding.authorized_qualifiers()),
            };
            let ghost model = entry@;
            out.push(entry);
            assert(entry_models(out@) =~= before.push(model));
        }
        n = n + 1;
    }
    out
}

fn chosen_for(imports: &[ImportBinding], unit: &ProjectUnitId, start: usize, end: usize) -> (r: bool)
    ensures
        r == site_taken(
            import_models(imports@),
            SiteModel { unit_id: unit@, start, end },
            imports@.len() as int,
        ),
{
    let ghost models = import_models(imports@);
    let ghost site = SiteModel { unit_id: unit@, start, end };
    let mut i: usize = 0;
    while i < imports.len()
        invariant
            i <= imports@.len(),
            models == import_models(imports@),
            site == (SiteModel { unit_id: unit@, start, end }),
            forall|k: int| 0 <= k < i ==> (#[trigger] models[k]).site != site,
        decreases imports@.len() - i,
    {
        assert(models[i as int] == imports@[i as int]@);
        let other = imports[i].site();
        let range = other.byte_range();
        if other.unit_id().same(unit) && range.start == start && range.end == end {
            assert(models[i as int].site == site);
            return true;
        }
        i = i + 1;
    }
    false
}

fn add_open_entries(
    unit: &ProjectUnitInput,
    importer: usize,
    imports: &[ImportBinding],
    out: &mut Vec<ImportSelection>,
)
    ensures
        entry_models(final(out)@) == entry_models(old(out)@) + open_in_unit(
            unit@,
            importer,
            import_models(imports@),
            sites_in(unit@.tree.root, false).len() as int,
        ),
{
    let ghost bindings = import_models(imports@);
    let ghost first = entry_models(out@);
    assert(bindings.len() == imports@.len());
    let root = &unit.tree().root;
    let sites = import_site_spans(root);
    let mut earlier: Vec<(usize, usize)> = Vec::new();
    let mut n: usize = 0;
    assert(earlier@ =~= sites@.take(0));
    assert(entry_models(out@) =~= first + open_in_unit(unit@, importer, bindings, 0));
    while n < sites.len()
        invariant
            n <= sites@.len(),
            sites@ == sites_in(unit@.tree.root, false),
            *root == unit@.tree.root,
            earlier@ == sites@.take(n as int),
            bindings == import_models(imports@),
            bindings.len() == imports@.len(),
            entry_models(out@) == first + open_in_unit(unit@, importer, bindings, n as int),
        decreases sites@.len() - n,
    {
        let start: usize = sites[n].0;
        let end: usize = sites[n].1;
        let ghost before = entry_models(out@);
        let ghost found = open_in_unit(unit@, importer, bindings, n as int);
        assert(sites@[n as int] == (start, end));
        if !has_span(&earlier, start, end) && !chosen_for(imports, unit.id(), start, end) {
            let (section, section_start) = import_section(root, start);
            let entry = ImportSelection {
                importer,
                start,
                end,
                section,
                section_start,
                target: ImportSelectionTarget::Unavailable,
                authorized_qualifiers: Vec::new(),
            };
            let ghost model = entry@;
            assert(model.qualifiers =~= Seq::<Seq<Seq<char>>>::empty());
            out.push(entry);
            assert(entry_models(out@) =~= before.push(model));
            assert(before.push(model) =~= first + found.push(model));
        }
        earlier.push((start, end));
        n = n + 1;
        assert(earlier@ =~= sites@.take(n as int));
    }
}

fn sort_latest_first(entries: Vec<ImportSelection>) -> (r: Vec<ImportSelection>)
    ensures
        entry_models(r@) == latest_first(entry_models(entries@)),
{
    let ghost all = entry_models(entries@);
    assert(all.len() == entries@.len());
    let mut rest = entries;
    let mut reversed: Vec<ImportSelection> = Vec::new();
    let mut out: Vec<ImportSelection> = Vec::new();
    let count: usize = rest.len();
    assert(all.take(count as int) =~= all);
    while rest.len() > 0
        invariant
            all.len() == count,
            rest@.len() + reversed@.len() == count,
            entry_models(rest@) == all.take(rest@.len() as int),
            forall|k: int|
                0 <= k < reversed@.len() ==> (#[trigger] reversed@[k])@ == all[count - 1 - k],
        decreases rest@.len(),
    {
        let ghost before = rest@;
        if let Some(last) = rest.pop() {
            assert(last@ == entry_models(before)[before.len() - 1]);
            assert(entry_models(rest@) =~= all.take(rest@.len() as int));
            reversed.push(last);
        }
    }
    let mut i: usize = 0;
    assert(entry_models(out@) =~= latest_first(all.take(0)));
    while reversed.len() > 0
        invariant
            all.len() == count,
            i + reversed@.len() == count,
            entry_models(out@) == latest_first(all.take(i as int)),
            forall|k: int|
                0 <= k < reversed@.len() ==> (#[trigger] reversed@[k])@ == all[count - 1 - k],
        decreases reversed@.len(),
    {
        let ghost models = entry_models(out@);
        assert(models.len() == out@.len());
        if let Some(next) = reversed.pop() {
            assert(next@ == all[i as int]);
            assert(all.take(i as int + 1).drop_last() =~= all.take(i as int));
            let start: usize = next.start;
            let mut at: usize = 0;
            while at < out.len() && out[at].start >= start
                invariant
                    at <= out@.len(),
                    models == entry_models(out@),
                    models.len() == out@.len(),
                    entry_slot(models, start, 0) == entry_slot(models, start, at as int),
                decreases out@.len() - at,
            {
                assert(models[at as int] == out@[at as int]@);
                at = at + 1;
            }
            proof {
                if at < out@.len() {
                    assert(models[at as int] == out@[at as int]@);
                }
            }
            let ghost held = next@;
            out.insert(at, next);
            assert(entry_models(out@) =~= models.insert(at as int, held));
            i = i + 1;
        }
    }
    assert(all.take(i as int) =~= all);
    out
}

impl ExceptionTypeIndex {
    /// Indexes the units of a project.
    pub fn build_project(snapshot: &ProjectSnapshot) -> (r: ExceptionTypeIndex)
        ensures
            r@ == project_index(snapshot@),
    {
        let inputs = ranked_units(snapshot);
        let ghost models = input_models(inputs@);
        let ghost bindings = snapshot@.imports;
        assert(models.len() == inputs@.len());
        let imports = snapshot.imports();
        assert(bindings.len() == imports@.len());
        let mut units: Vec<UnitTypeIndex> = Vec::new();
        let mut entries = chosen_entries(&inputs, imports);
        let ghost first = entry_models(entries@);
        let mut i: usize = 0;
        assert(entry_models(entries@) =~= first + open_entries(models, bindings, 0));
        while i < inputs.len()
            invariant
                i <= inputs@.len(),
                models == input_models(inputs@),
                models.len() == inputs@.len(),
                bindings == import_models(imports@),
                units@.len() == i,
                forall|k: int| 0 <= k < i ==> (#[trigger] units@[k])@ == declarations(models)[k],
                entry_models(entries@) == first + open_entries(models, bindings, i as int),
            decreases inputs@.len() - i,
        {
            assert(models[i as int] == inputs@[i as int]@);
            units.push(UnitTypeIndex::build(i, &inputs[i].tree().root, inputs[i].source()));
            add_open_entries(inputs[i], i, imports, &mut entries);
            i = i + 1;
            assert(entry_models(entries@) =~= first + open_entries(models, bindings, i as int));
        }
        let mut index = ExceptionTypeIndex { units, imports: sort_latest_first(entries) };
        assert(index@.units =~= declarations(models));
        assert(index@.imports =~= entry_models(index.imports@));
        index.resolve_pending_method_owners();
        index
    }
}

proof fn lemma_place(units: Seq<UnitInputModel>, id: Seq<char>, i: int)
    requires
        0 <= i <= units.len(),
    ensures
        i <= place(units, id, i) <= units.len(),
        forall|k: int|
            i <= k < place(units, id, i) ==> !text_before(id, (#[trigger] units[k]).id),
        place(units, id, i) < units.len() ==> text_before(id, units[place(units, id, i)].id),
    decreases units.len() - i,
{
    if i < units.len() && !text_before(id, units[i].id) {
        lemma_place(units, id, i + 1);
    }
}

/// Whether each unit comes strictly before the later ones.
pub open spec fn strictly_ranked(units: Seq<UnitInputModel>) -> bool {
    forall|i: int, k: int|
        0 <= i < k < units.len() ==> text_before((#[trigger] units[i]).id, (#[trigger] units[k]).id)
}

/// Whether no two units have the same identity.
pub open spec fn distinct_units(units: Seq<UnitInputModel>) -> bool {
    forall|i: int, k: int|
        0 <= i < k < units.len() ==> (#[trigger] units[i]).id != (#[trigger] units[k]).id
}

/// Ranking units neither loses nor adds one, and orders distinct ones strictly by
/// their identities.
pub proof fn law_units_are_ranked(units: Seq<UnitInputModel>)
    ensures
        ranked(units).len() == units.len(),
        forall|u: UnitInputModel| ranked(units).contains(u) <==> #[trigger] units.contains(u),
        distinct_units(units) ==> strictly_ranked(ranked(units)),
    decreases units.len(),
{
    if units.len() == 0 {
        assert(ranked(units) =~= units);
    } else {
        let rest = units.drop_last();
        let last = units.last();
        law_units_are_ranked(rest);
        let before = ranked(rest);
        let at = place(before, last.id, 0);
        lemma_place(before, last.id, 0);
        let after = ranked(units);
        assert(after =~= before.insert(at, last));
        assert forall|u: UnitInputModel| after.contains(u) <==> #[trigger] units.contains(u) by {
            if units.contains(u) {
                let k = choose|k: int| 0 <= k < units.len() && units[k] == u;
                if k < rest.len() {
                    assert(rest[k] == u);
                    assert(rest.contains(u));
                    let j = choose|j: int| 0 <= j < before.len() && before[j] == u;
                    if j < at {
                        assert(after[j] == u);
                    } else {
                        assert(after[j + 1] == u);
                    }
                } else {
                    assert(after[at] == u);
                }
            }
            if after.contains(u) {
                let j = choose|j: int| 0 <= j < after.len() && after[j] == u;
                if j == at {
                    assert(units[units.len() - 1] == u);
                } else {
                    let b = if j < at {
                        j
                    } else {
                        j - 1
                    };
                    assert(before[b] == u);
                    assert(before.contains(u));
                    assert(rest.contains(u));
                    let k = choose|k: int| 0 <= k < rest.len() && rest[k] == u;
                    assert(units[k] == u);
                }
            }
        }
        if distinct_units(units) {
            assert(distinct_units(rest));
            assert forall|i: int, k: int| 0 <= i < k < after.len() implies text_before(
                (#[trigger] after[i]).id,
                (#[trigger] after[k]).id,
            ) by {
                let x = if i < at {
                    i
                } else {
                    i - 1
                };
                let y = if k < at {
                    k
                } else {
                    k - 1
                };
                if i == at {
                    if k > at + 1 {
                        assert(text_before(before[at].id, before[y].id));
                        law_text_order_is_transitive(last.id, before[at].id, before[y].id);
                    }
                } else if k == at {
                    assert(before.contains(before[x]));
                    assert(rest.contains(before[x]));
                    let j = choose|j: int| 0 <= j < rest.len() && rest[j] == before[x];
                    assert(units[j].id != units[units.len() - 1].id);
                    law_text_order_is_total(before[x].id, last.id);
                } else {
                    assert(text_before(before[x].id, before[y].id));
                }
            }
        }
    }
}

/// Strictly ranked lists of the same units are the same list.
proof fn lemma_ranking_is_unique(a: Seq<UnitInputModel>, b: Seq<UnitInputModel>)
    requires
        strictly_ranked(a),
        strictly_ranked(b),
        a.len() == b.len(),
        forall|u: UnitInputModel| a.contains(u) <==> #[trigger] b.contains(u),
    ensures
        a == b,
    decreases a.len(),
{
    if a.len() == 0 {
        assert(a =~= b);
    } else {
        let n = a.len() - 1;
        let x = a[n];
        let y = b[n];
        assert(a.contains(x));
        assert(b.contains(x));
        assert(b.contains(y));
        assert(a.contains(y));
        let j = choose|j: int| 0 <= j < b.len() && b[j] == x;
        let k = choose|k: int| 0 <= k < a.len() && a[k] == y;
        if j < n && k < n {
            assert(text_before(b[j].id, b[n].id));
            assert(text_before(a[k].id, a[n].id));
            law_text_order_is_total(x.id, y.id);
        } else if j < n {
            law_text_order_is_total(x.id, y.id);
            assert(text_before(b[j].id, b[n].id));
        } else if k < n {
            law_text_order_is_total(x.id, y.id);
            assert(text_before(a[k].id, a[n].id));
        }
        assert(x == y);
        let c = a.drop_last();
        let d = b.drop_last();
        assert forall|u: UnitInputModel| c.contains(u) <==> #[trigger] d.contains(u) by {
            if c.contains(u) {
                let i = choose|i: int| 0 <= i < c.len() && c[i] == u;
                assert(a[i] == u);
                assert(a.contains(u));
                assert(b.contains(u));
                let m = choose|m: int| 0 <= m < b.len() && b[m] == u;
                if m == n {
                    assert(text_before(a[i].id, a[n].id));
                    law_text_order_is_total(u.id, x.id);
                }
                assert(d[m] == u);
            }
            if d.contains(u) {
                let i = choose|i: int| 0 <= i < d.len() && d[i] == u;
                assert(b[i] == u);
                assert(b.contains(u));
                assert(a.contains(u));
                let m = choose|m: int| 0 <= m < a.len() && a[m] == u;
                if m == n {
                    assert(text_before(b[i].id, b[n].id));
                    law_text_order_is_total(u.id, x.id);
                }
                assert(c[m] == u);
            }
        }
        lemma_ranking_is_unique(c, d);
        assert(a =~= c.push(x));
        assert(b =~= d.push(y));
    }
}

/// What is known of a project does not depend on the order in which its units are
/// given.
pub proof fn law_unit_order_does_not_matter(a: ProjectModel, b: ProjectModel)
    requires
        a.valid(),
        b.valid(),
        a.imports == b.imports,
        a.units.len() == b.units.len(),
        forall|u: UnitInputModel| a.units.contains(u) <==> #[trigger] b.units.contains(u),
    ensures
        ranked(a.units) == ranked(b.units),
        project_index(a) == project_index(b),
{
    assert forall|i: int, k: int| 0 <= i < k < a.units.len() implies (#[trigger] a.units[i]).id != (
    #[trigger] a.units[k]).id by {
        law_units_are_distinct(a, i);
    }
    assert forall|i: int, k: int| 0 <= i < k < b.units.len() implies (#[trigger] b.units[i]).id != (
    #[trigger] b.units[k]).id by {
        law_units_are_distinct(b, i);
    }
    law_units_are_ranked(a.units);
    law_units_are_ranked(b.units);
    assert forall|u: UnitInputModel| ranked(a.units).contains(u) <==> #[trigger] ranked(
        b.units,
    ).contains(u) by {
        assert(a.units.contains(u) <==> b.units.contains(u));
    }
    lemma_ranking_is_unique(ranked(a.units), ranked(b.units));
}

pub proof fn lemma_entry_slot(entries: Seq<ImportModel>, start: usize, i: int)
    requires
        0 <= i <= entries.len(),
    ensures
        i <= entry_slot(entries, start, i) <= entries.len(),
        forall|k: int|
            i <= k < entry_slot(entries, start, i) ==> (#[trigger] entries[k]).start >= start,
        entry_slot(entries, start, i) < entries.len() ==> entries[entry_slot(
            entries,
            start,
            i,
        )].start < start,
    decreases entries.len() - i,
{
    if i < entries.len() && entries[i].start >= start {
        lemma_entry_slot(entries, start, i + 1);
    }
}

/// Whether entries that stand later in the source come first.
pub open spec fn in_precedence(entries: Seq<ImportModel>) -> bool {
    forall|i: int, k: int|
        0 <= i <= k < entries.len() ==> (#[trigger] entries[i]).start >= (
        #[trigger] entries[k]).start
}

/// Putting an entry at its slot keeps the order.
proof fn lemma_insert_entry(before: Seq<ImportModel>, e: ImportModel)
    requires
        in_precedence(before),
    ensures
        in_precedence(before.insert(entry_slot(before, e.start, 0), e)),
{
    let at = entry_slot(before, e.start, 0);
    lemma_entry_slot(before, e.start, 0);
    let after = before.insert(at, e);
    assert forall|i: int, k: int| 0 <= i <= k < after.len() implies (#[trigger] after[i]).start >= (
    #[trigger] after[k]).start by {
        let x = if i < at {
            i
        } else {
            i - 1
        };
        let y = if k < at {
            k
        } else {
            k - 1
        };
        if i == at {
            if k > at {
                assert(before[at].start >= before[y].start);
            }
        } else if k == at {
            assert(before[x].start >= e.start);
        } else {
            assert(before[x].start >= before[y].start);
        }
    }
}

/// Entries that stand later in the source come first, so that they take
/// precedence; none is lost or added.
pub proof fn law_later_entries_come_first(entries: Seq<ImportModel>)
    ensures
        latest_first(entries).len() == entries.len(),
        in_precedence(latest_first(entries)),
        latest_first(entries).to_multiset() == entries.to_multiset(),
    decreases entries.len(),
{
    if entries.len() == 0 {
        assert(latest_first(entries) =~= entries);
    } else {
        let rest = entries.drop_last();
        let e = entries.last();
        law_later_entries_come_first(rest);
        let before = latest_first(rest);
        lemma_entry_slot(before, e.start, 0);
        lemma_insert_entry(before, e);
        assert(latest_first(entries).to_multiset() == entries.to_multiset()) by {
            vstd::seq_lib::to_multiset_insert(before, entry_slot(before, e.start, 0), e);
            vstd::seq_lib::to_multiset_build(rest, e);
            assert(entries =~= rest.push(e));
        }
    }
}

/// A project of one unit without `uses` entries knows what the file alone tells.
pub proof fn law_single_unit_knows_its_file(unit: UnitInputModel)
    requires
        sites_in(unit.tree.root, false).len() == 0,
    ensures
        ({
            let project = ProjectModel { units: seq![unit], imports: Seq::empty() };
            &&& ranked(project.units) == seq![unit]
            &&& project_index(project) == file_index(unit.tree.root, unit.source)
        }),
{
    let project = ProjectModel { units: seq![unit], imports: Seq::empty() };
    let units = ranked(project.units);
    assert(project.units.drop_last() =~= Seq::<UnitInputModel>::empty());
    assert(ranked(project.units.drop_last()) =~= Seq::<UnitInputModel>::empty());
    assert(units =~= seq![unit]);
    assert(declarations(units) =~= seq![unit_types(0, unit.tree.root, unit.source)]);
    assert(open_in_unit(unit, 0, project.imports, 0) =~= Seq::<ImportModel>::empty());
    assert(open_entries(units, project.imports, 0) =~= Seq::<ImportModel>::empty());
    assert(open_entries(units, project.imports, 1) =~= Seq::<ImportModel>::empty());
    assert(chosen(units, project.imports, 0) + open_entries(units, project.imports, 1) =~= Seq::<
        ImportModel,
    >::empty());
    assert(latest_first(Seq::<ImportModel>::empty()) =~= Seq::<ImportModel>::empty());
}

} // verus!
