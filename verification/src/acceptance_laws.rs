//! Which projects and which prepared sources are in order.

use vstd::prelude::*;
use crate::labels::is_white;
use crate::prepared::{
    first_directive, parse_error, preparation_error, PreparationFidelity, PreparedErrorModel,
    PreparedModel,
};
use crate::project::{
    bad_qualifier, conflict, first_configuration, import_error, imports_error, known_texts,
    lemma_unit_found, qualifier_ok, site_taken, sites_in, source_taken, texts_of_unit, unit_index,
    units_error, ImportBindingModel, ImportTargetModel, ProjectModel, UnitInputModel,
};
use crate::source_map::SnapshotModel;
use crate::syntax::{preprocessor_at, NodeFacts};
use crate::text::split_text;

verus! {

// Projects ---------------------------------------------------------------------------------------

/// Whether a unit is in order by itself: it has an identity and a source identity, and
/// its tree starts with its text and does not go beyond it.
pub open spec fn sound_unit(unit: UnitInputModel) -> bool {
    &&& unit.id.len() > 0
    &&& unit.source_id.len() > 0
    &&& unit.tree.root.start == 0
    &&& unit.tree.root.end <= unit.source.len()
}

/// Whether two units go together: their identities and source identities differ, and
/// they are not prepared under different configurations.
pub open spec fn compatible(a: UnitInputModel, b: UnitInputModel) -> bool {
    &&& a.id != b.id
    &&& a.source_id != b.source_id
    &&& a.configuration_id is Some && b.configuration_id is Some ==> a.configuration_id
        == b.configuration_id
}

/// Whether the texts that the units know agree: where two have the same identity, they
/// are the same.
pub open spec fn texts_agree(units: Seq<UnitInputModel>) -> bool {
    let known = known_texts(units, units.len() as int);
    forall|i: int, j: int|
        0 <= i < j < known.len() && (#[trigger] known[i]).source_id == (
        #[trigger] known[j]).source_id ==> known[i].bytes == known[j].bytes
}

/// Whether a qualifier is a dotted name: each of its parts is there and holds no white
/// space.
pub open spec fn dotted(qualifier: Seq<char>) -> bool {
    forall|p: int, k: int|
        #![trigger split_text(qualifier, '.')[p][k]]
        0 <= p < split_text(qualifier, '.').len() && 0 <= k < split_text(qualifier, '.')[p].len()
            ==> !is_white(split_text(qualifier, '.')[p][k])
}

/// Whether none of the parts of a qualifier is empty.
pub open spec fn without_gaps(qualifier: Seq<char>) -> bool {
    forall|p: int|
        0 <= p < split_text(qualifier, '.').len() ==> (#[trigger] split_text(
            qualifier,
            '.',
        )[p]).len() > 0
}

/// Whether a choice is in order by itself: its site is one of a unit of the project, its
/// target is loaded where it says so, and its qualifiers are dotted names.
pub open spec fn sound_choice(units: Seq<UnitInputModel>, import: ImportBindingModel) -> bool {
    &&& exists|k: int|
        0 <= k < units.len() && (#[trigger] units[k]).id == import.site.unit_id && sites_in(
            units[k].tree.root,
            false,
        ).contains((import.site.start, import.site.end))
    &&& import.target matches ImportTargetModel::Loaded(id) ==> exists|k: int|
        0 <= k < units.len() && (#[trigger] units[k]).id == id
    &&& forall|q: int|
        0 <= q < import.qualifiers.len() ==> dotted(#[trigger] import.qualifiers[q])
            && without_gaps(import.qualifiers[q])
}

proof fn lemma_first_configuration(units: Seq<UnitInputModel>, n: int)
    requires
        0 <= n <= units.len(),
    ensures
        first_configuration(units, n) matches Some(c) ==> exists|k: int|
            0 <= k < n && (#[trigger] units[k]).configuration_id == Some(c),
    decreases n,
{
    if n > 0 {
        lemma_first_configuration(units, n - 1);
        if first_configuration(units, n - 1) is None && first_configuration(units, n) is Some {
            assert(units[n - 1].configuration_id == first_configuration(units, n));
        }
    }
}

proof fn lemma_known_prefix(units: Seq<UnitInputModel>, m: int, n: int)
    requires
        0 <= m <= n <= units.len(),
    ensures
        known_texts(units, m).len() <= known_texts(units, n).len(),
        forall|k: int|
            0 <= k < known_texts(units, m).len() ==> #[trigger] known_texts(units, n)[k]
                == known_texts(units, m)[k],
    decreases n,
{
    if m < n {
        lemma_known_prefix(units, m, n - 1);
    }
}

proof fn lemma_no_conflict(known: Seq<SnapshotModel>, i: int)
    requires
        0 <= i <= known.len(),
        forall|i: int, j: int|
            0 <= i < j < known.len() && (#[trigger] known[i]).source_id == (
            #[trigger] known[j]).source_id ==> known[i].bytes == known[j].bytes,
    ensures
        conflict(known, i) is None,
    decreases known.len() - i,
{
    if i < known.len() {
        crate::include_laws::law_source_is_found(known, known[i].source_id, i);
        lemma_no_conflict(known, i + 1);
    }
}

proof fn lemma_units_accepted(units: Seq<UnitInputModel>, i: int)
    requires
        0 <= i <= units.len(),
        forall|k: int| 0 <= k < units.len() ==> sound_unit(#[trigger] units[k]),
        forall|j: int, k: int|
            0 <= j < k < units.len() ==> compatible(#[trigger] units[j], #[trigger] units[k]),
        texts_agree(units),
    ensures
        units_error(units, i) is None,
    decreases units.len() - i,
{
    if i < units.len() {
        lemma_units_accepted(units, i + 1);
        let unit = units[i];
        assert(sound_unit(unit));
        lemma_unit_found(units, unit.id, i);
        if let Some(k) = unit_index(units, unit.id, i) {
            assert(compatible(units[k], units[i]));
        }
        assert(!source_taken(units, unit.source_id, i)) by {
            if source_taken(units, unit.source_id, i) {
                let k = choose|k: int|
                    0 <= k < i && (#[trigger] units[k]).source_id == unit.source_id;
                assert(compatible(units[k], units[i]));
            }
        }
        lemma_first_configuration(units, i);
        if first_configuration(units, i) is Some && unit.configuration_id is Some {
            let c = first_configuration(units, i)->0;
            let k = choose|k: int| 0 <= k < i && (#[trigger] units[k]).configuration_id == Some(c);
            assert(compatible(units[k], units[i]));
        }
        let known = known_texts(units, i + 1);
        lemma_known_prefix(units, i + 1, units.len() as int);
        lemma_known_prefix(units, i, i + 1);
        let all = known_texts(units, units.len() as int);
        assert forall|p: int, q: int|
            0 <= p < q < known.len() && (#[trigger] known[p]).source_id == (
            #[trigger] known[q]).source_id implies known[p].bytes == known[q].bytes by {
            assert(all[p] == known[p]);
            assert(all[q] == known[q]);
        }
        lemma_no_conflict(known, known_texts(units, i).len() as int);
    }
}

proof fn lemma_qualifiers_accepted(qualifiers: Seq<Seq<char>>, i: int)
    requires
        0 <= i <= qualifiers.len(),
        forall|q: int|
            0 <= q < qualifiers.len() ==> dotted(#[trigger] qualifiers[q]) && without_gaps(
                qualifiers[q],
            ),
    ensures
        bad_qualifier(qualifiers, i) is None,
    decreases qualifiers.len() - i,
{
    if i < qualifiers.len() {
        lemma_qualifiers_accepted(qualifiers, i + 1);
        let q = qualifiers[i];
        assert(dotted(q) && without_gaps(q));
        assert(qualifier_ok(q)) by {
            let parts = split_text(q, '.');
            assert forall|p: int| 0 <= p < parts.len() implies crate::project::solid(
                #[trigger] parts[p],
            ) by {
                assert(split_text(q, '.')[p].len() > 0);
                assert forall|k: int| 0 <= k < parts[p].len() implies !is_white(
                    #[trigger] parts[p][k],
                ) by {
                    assert(!is_white(split_text(q, '.')[p][k]));
                }
            }
        }
    }
}

proof fn lemma_imports_accepted(
    units: Seq<UnitInputModel>,
    imports: Seq<ImportBindingModel>,
    i: int,
)
    requires
        0 <= i <= imports.len(),
        forall|j: int, k: int|
            0 <= j < k < units.len() ==> compatible(#[trigger] units[j], #[trigger] units[k]),
        forall|k: int| 0 <= k < imports.len() ==> sound_choice(units, #[trigger] imports[k]),
        forall|j: int, k: int|
            0 <= j < k < imports.len() ==> (#[trigger] imports[j]).site != (
            #[trigger] imports[k]).site,
    ensures
        imports_error(units, imports, i) is None,
    decreases imports.len() - i,
{
    if i < imports.len() {
        lemma_imports_accepted(units, imports, i + 1);
        let import = imports[i];
        assert(sound_choice(units, import));
        let k = choose|k: int|
            0 <= k < units.len() && (#[trigger] units[k]).id == import.site.unit_id && sites_in(
                units[k].tree.root,
                false,
            ).contains((import.site.start, import.site.end));
        lemma_unit_found(units, import.site.unit_id, units.len() as int);
        let found = unit_index(units, import.site.unit_id, units.len() as int);
        assert(found == Some(k)) by {
            if let Some(m) = found {
                if m < k {
                    assert(compatible(units[m], units[k]));
                } else if k < m {
                    assert(compatible(units[k], units[m]));
                }
            }
        }
        assert(!site_taken(imports, import.site, i));
        if let ImportTargetModel::Loaded(id) = import.target {
            lemma_unit_found(units, id, units.len() as int);
        }
        lemma_qualifiers_accepted(import.qualifiers, 0);
        assert(import_error(units, imports, i) is None);
    }
}

/// A project is accepted where each unit is in order and any two go together, the texts
/// that they know agree, each choice is in order and no two are for the same site.
pub proof fn law_orderly_project_is_accepted(project: ProjectModel)
    requires
        forall|k: int| 0 <= k < project.units.len() ==> sound_unit(#[trigger] project.units[k]),
        forall|j: int, k: int|
            0 <= j < k < project.units.len() ==> compatible(
                #[trigger] project.units[j],
                #[trigger] project.units[k],
            ),
        texts_agree(project.units),
        forall|k: int|
            0 <= k < project.imports.len() ==> sound_choice(
                project.units,
                #[trigger] project.imports[k],
            ),
        forall|j: int, k: int|
            0 <= j < k < project.imports.len() ==> (#[trigger] project.imports[j]).site != (
            #[trigger] project.imports[k]).site,
    ensures
        project.valid(),
{
    lemma_units_accepted(project.units, 0);
    lemma_imports_accepted(project.units, project.imports, 0);
}

/// The texts that a project knows are those of its units, one unit behind the other.
pub proof fn law_known_texts(units: Seq<UnitInputModel>, k: int, t: SnapshotModel)
    requires
        0 <= k < units.len(),
        texts_of_unit(units[k]).contains(t),
    ensures
        known_texts(units, units.len() as int).contains(t),
{
    let own = texts_of_unit(units[k]);
    let j = choose|j: int| 0 <= j < own.len() && own[j] == t;
    let before = known_texts(units, k);
    lemma_known_prefix(units, k + 1, units.len() as int);
    assert(known_texts(units, k + 1)[before.len() + j] == t);
    assert(known_texts(units, units.len() as int)[before.len() + j] == t);
}

// Prepared sources -------------------------------------------------------------------------------

proof fn lemma_first_directive(nodes: Seq<NodeFacts>, source: Seq<u8>)
    ensures
        first_directive(nodes, source) is Some <==> exists|k: int|
            0 <= k < nodes.len() && preprocessor_at(
                (#[trigger] nodes[k]).kind,
                nodes[k].start,
                nodes[k].end,
                source,
            ),
    decreases nodes.len(),
{
    if nodes.len() > 0 {
        let rest = nodes.drop_first();
        lemma_first_directive(rest, source);
        if exists|k: int|
            0 <= k < rest.len() && preprocessor_at(
                (#[trigger] rest[k]).kind,
                rest[k].start,
                rest[k].end,
                source,
            ) {
            let k = choose|k: int|
                0 <= k < rest.len() && preprocessor_at(
                    (#[trigger] rest[k]).kind,
                    rest[k].start,
                    rest[k].end,
                    source,
                );
            assert(nodes[k + 1] == rest[k]);
        }
        if exists|k: int|
            0 <= k < nodes.len() && preprocessor_at(
                (#[trigger] nodes[k]).kind,
                nodes[k].start,
                nodes[k].end,
                source,
            ) {
            let k = choose|k: int|
                0 <= k < nodes.len() && preprocessor_at(
                    (#[trigger] nodes[k]).kind,
                    nodes[k].start,
                    nodes[k].end,
                    source,
                );
            if k > 0 {
                assert(rest[k - 1] == nodes[k]);
            }
        }
    }
}

/// A text parses as a prepared source exactly where it has a tree, its root holds no
/// syntax error, and no node of it is a preprocessor directive.
pub proof fn law_parse_is_accepted(nodes: Seq<NodeFacts>, source: Seq<u8>)
    requires
        nodes.len() > 0,
    ensures
        parse_error(Some(nodes), source) is None <==> !nodes[0].error && forall|k: int|
            0 <= k < nodes.len() ==> !preprocessor_at(
                (#[trigger] nodes[k]).kind,
                nodes[k].start,
                nodes[k].end,
                source,
            ),
        parse_error(None, source) == Some(PreparedErrorModel::ParserReturnedNoTree),
        nodes[0].error ==> (parse_error(Some(nodes), source) matches Some(
            PreparedErrorModel::ParserErrors { range },
        ) && range.start == nodes[0].start && range.end == nodes[0].end),
{
    lemma_first_directive(nodes, source);
}

/// A node is a preprocessor directive where its kind is one of the preprocessor kinds,
/// and where it is a comment that opens with a bracket, a star and a dollar sign.
pub proof fn law_preprocessor_nodes(kind: Seq<char>, start: usize, end: usize, source: Seq<u8>)
    ensures
        kind.len() >= 2 && kind[0] == 'p' && kind[1] == 'p' ==> preprocessor_at(
            kind,
            start,
            end,
            source,
        ),
        kind == "comment"@ && start + 3 <= end <= source.len() ==> (preprocessor_at(
            kind,
            start,
            end,
            source,
        ) <==> source[start as int] == 0x28 && source[start + 1] == 0x2a && source[start + 2]
            == 0x24),
        kind != "comment"@ && !(kind.len() >= 2 && kind[0] == 'p' && kind[1] == 'p')
            ==> !preprocessor_at(kind, start, end, source),
{
    reveal_strlit("comment");
    assert("comment"@[0] == 'c');
}

/// A prepared source is accepted exactly where it has an identity and a configuration,
/// claims to be complete, its map is of its bytes, and its text parses as one.
pub proof fn law_prepared_source_is_accepted(
    prepared: PreparedModel,
    bytes: Seq<u8>,
    nodes: Option<Seq<NodeFacts>>,
)
    ensures
        preparation_error(prepared, bytes, nodes) is None <==> {
            &&& prepared.source_id.len() > 0
            &&& prepared.configuration_id.len() > 0
            &&& prepared.fidelity == PreparationFidelity::Complete
            &&& prepared.map.prepared == bytes
            &&& parse_error(nodes, bytes) is None
        },
{
}

} // verus!
