use std::ops::Range;

use cfg_pascal::{
    build_file_cfgs, build_file_cfgs_in_project, Cfg, EdgeKind, ImportBinding, ImportTarget,
    PreparedSource, ProjectBuildError, ProjectSnapshot, ProjectSnapshotError, ProjectSourceId, ProjectUnitId,
    ProjectUnitInput, SyntaxTree, UsesSite,
};
use cfg_pascal::exception_types::{ExceptionTypeIndex, ImportSection};
use cfg_pascal::project::{import_site_spans, valid_qualifier};
use cfg_pascal::project_index::import_section;

const BASE: &str = "unit Base; interface type EBase = class end; implementation end.";
const MAIN: &str = "program Main; uses Base, Other; begin Work; end.";

fn unit(id: &str, source_id: &str, text: &str) -> ProjectUnitInput {
    let tree = SyntaxTree::parse(text.as_bytes()).expect("tree");
    assert!(!tree.root.error, "fixture must be parse-clean");
    ProjectUnitInput::new(
        ProjectUnitId::new(id),
        ProjectSourceId::new(source_id),
        tree,
        text.as_bytes(),
    )
}

fn prepared(id: &str, source_id: &str, text: &str, configuration: &str) -> ProjectUnitInput {
    let source = PreparedSource::identity(
        ProjectSourceId::new(source_id),
        text.as_bytes(),
        configuration,
    )
    .expect("prepared source");
    ProjectUnitInput::from_prepared(ProjectUnitId::new(id), source)
}

fn site(text: &str, name: &str) -> Range<usize> {
    let start = text.find(name).expect("entry");
    start..start + name.len()
}

fn choose_unit(range: Range<usize>, target: ImportTarget, qualifiers: &[&str]) -> ImportBinding {
    ImportBinding::new(UsesSite::new(ProjectUnitId::new("main"), range), target, qualifiers)
}

fn refusal(units: Vec<ProjectUnitInput>, imports: Vec<ImportBinding>) -> ProjectSnapshotError {
    ProjectSnapshot::new(units, imports).expect_err("snapshot must be refused")
}

fn shape(cfgs: &[Cfg]) -> Vec<(String, usize, usize)> {
    cfgs.iter()
        .map(|cfg| {
            (cfg.proc_name.clone(), cfg.graph.blocks.len(), cfg.graph.edges.len())
        })
        .collect()
}

#[test]
fn identities_keep_their_text() {
    let unit_id = ProjectUnitId::from("u");
    assert_eq!(unit_id.as_str(), "u");
    assert!(!unit_id.is_empty());
    assert!(ProjectUnitId::from(String::new()).is_empty());
    assert_eq!(unit_id.clone(), unit_id);
    assert!(unit_id.same(&ProjectUnitId::new("u")));
    assert!(!unit_id.same(&ProjectUnitId::new("U")));
    assert!(ProjectSourceId::new("s").same(&ProjectSourceId::from("s")));
    assert_eq!(ProjectSourceId::from("s".to_string()).as_str(), "s");
}

#[test]
fn identities_are_ordered_as_their_texts() {
    let ids = |texts: &[&str]| -> Vec<ProjectUnitId> {
        texts.iter().map(|text| ProjectUnitId::new(text)).collect()
    };
    let mut units = ids(&["b", "a", "B", "ab", ""]);
    units.sort();
    assert_eq!(units, ids(&["", "B", "a", "ab", "b"]));
    assert!(ProjectUnitId::new("a") < ProjectUnitId::new("ab"));
    assert!(ProjectUnitId::new("z") > ProjectUnitId::new("Z"));
    assert_ne!(ProjectUnitId::new("a"), ProjectUnitId::new("A"));
    assert!(ProjectSourceId::new("a") < ProjectSourceId::new("b"));
    assert!(ProjectSourceId::new("a") <= ProjectSourceId::new("a"));
    assert_eq!(ProjectSourceId::new("a"), ProjectSourceId::from("a"));
}

#[test]
fn snapshots_are_copied_whole() {
    let base = "unit Base; interface type EBase = class constructor Create; end; \
                implementation end.";
    let main = "program Main; uses Base; begin try raise EBase.Create; except \
                on E: EBase do Handle; end; end.";
    let imports = vec![choose_unit(
        site(main, "Base"),
        ImportTarget::Loaded(ProjectUnitId::new("base")),
        &["Base"],
    )];
    let snapshot =
        ProjectSnapshot::new(vec![unit("main", "m", main), unit("base", "b", base)], imports)
            .expect("snapshot");
    let copy = snapshot.clone();
    let id = ProjectUnitId::new("main");
    let shown = |snapshot: &ProjectSnapshot| {
        format!("{:?}", build_file_cfgs_in_project(snapshot, &id).expect("graphs"))
    };
    let before = shown(&snapshot);
    drop(snapshot);
    assert_eq!(before, shown(&copy));
    assert!(matches!(
        build_file_cfgs_in_project(&copy, &ProjectUnitId::new("none")),
        Err(ProjectBuildError::UnitNotFound(_))
    ));
}

#[test]
fn units_need_identities() {
    let error = refusal(vec![unit("", "a", BASE)], vec![]);
    assert_eq!(error, ProjectSnapshotError::EmptyUnitId);
    assert_eq!(error.message(), "project unit ID must not be empty");

    let error = refusal(vec![unit("base", "", BASE)], vec![]);
    assert_eq!(error, ProjectSnapshotError::EmptySourceId);
    assert_eq!(error.message(), "project source ID must not be empty");

    let error = refusal(vec![unit("base", "a", BASE), unit("base", "b", BASE)], vec![]);
    assert_eq!(error, ProjectSnapshotError::DuplicateUnitId(ProjectUnitId::new("base")));
    assert_eq!(error.message(), "duplicate project unit ID ProjectUnitId(\"base\")");

    let error = refusal(vec![unit("base", "a", BASE), unit("main", "a", MAIN)], vec![]);
    assert_eq!(error, ProjectSnapshotError::DuplicateSourceId(ProjectSourceId::new("a")));
    assert_eq!(error.message(), "duplicate project source ID ProjectSourceId(\"a\")");
}

#[test]
fn trees_must_fit_their_source() {
    let tree = SyntaxTree::parse(BASE.as_bytes()).expect("tree");
    let short = ProjectUnitInput::new(
        ProjectUnitId::new("base"),
        ProjectSourceId::new("a"),
        tree,
        b"unit",
    );
    let error = refusal(vec![short], vec![]);
    assert_eq!(
        error,
        ProjectSnapshotError::InvalidTreeSource {
            unit_id: ProjectUnitId::new("base"),
            tree_range: 0..BASE.len(),
            source_len: 4,
        }
    );
    assert_eq!(
        error.message(),
        "tree range 0..64 for unit ProjectUnitId(\"base\") exceeds source length 4"
    );
    assert_eq!(error.clone(), error);
}

#[test]
fn prepared_units_share_one_configuration_and_one_text_per_source() {
    let error = refusal(
        vec![prepared("base", "a", BASE, "debug"), prepared("main", "b", MAIN, "release")],
        vec![],
    );
    assert_eq!(
        error,
        ProjectSnapshotError::IncompatibleConfigurationIds {
            unit_id: ProjectUnitId::new("main"),
            expected: "debug".to_string(),
            found: "release".to_string(),
        }
    );
    assert_eq!(
        error.message(),
        "prepared unit ProjectUnitId(\"main\") uses configuration \"release\", expected \"debug\""
    );

    let snapshot = ProjectSnapshot::new(
        vec![unit("base", "a", BASE), prepared("main", "b", MAIN, "release")],
        vec![],
    )
    .expect("a plain unit has no configuration");
    assert_eq!(snapshot.configuration_id(), Some("release"));
    let input = snapshot.unit(&ProjectUnitId::new("main")).expect("unit");
    assert!(input.is_prepared());
    assert_eq!(input.configuration_id(), Some("release"));
    assert_eq!(input.original_sources()[0].bytes(), MAIN.as_bytes());
    let plain = snapshot.unit(&ProjectUnitId::new("base")).expect("unit");
    assert!(!plain.is_prepared());
    assert!(plain.source_map().is_none());
    assert!(plain.original_sources().is_empty());
}

#[test]
fn original_text_must_not_contradict_another_unit() {
    let original = "program  Other; begin end.";
    let text = original.replace("  ", " ");
    let map = cfg_pascal::SourceMap::new(
        text.as_bytes(),
        vec![cfg_pascal::SourceSnapshot::new(ProjectSourceId::new("a"), original.as_bytes())],
        vec![
            cfg_pascal::SourceMapSegment::copied(
                0..8,
                ProjectSourceId::new("a"),
                0..8,
                cfg_pascal::ExpansionId::root(),
            ),
            cfg_pascal::SourceMapSegment::copied(
                8..25,
                ProjectSourceId::new("a"),
                9..26,
                cfg_pascal::ExpansionId::root(),
            ),
        ],
    )
    .expect("map");
    let projection = PreparedSource::new(
        ProjectSourceId::new("b"),
        text.as_bytes(),
        map,
        "debug",
        cfg_pascal::PreparationFidelity::Complete,
        cfg_pascal::PreparationProvenance::Configured,
    )
    .expect("projection");
    let error = refusal(
        vec![
            unit("base", "a", BASE),
            ProjectUnitInput::from_prepared(ProjectUnitId::new("other"), projection),
        ],
        vec![],
    );
    assert_eq!(
        error,
        ProjectSnapshotError::ConflictingOriginalSource { source_id: ProjectSourceId::new("a") }
    );
    assert_eq!(
        error.message(),
        "original source ID ProjectSourceId(\"a\") has conflicting bytes in the project snapshot"
    );
}

#[test]
fn choices_must_fit_the_units() {
    let units = || vec![unit("base", "a", BASE), unit("main", "b", MAIN)];
    let base = || ImportTarget::Loaded(ProjectUnitId::new("base"));

    let error = refusal(units(), vec![choose_unit(0..7, base(), &["Base"])]);
    assert_eq!(
        error,
        ProjectSnapshotError::InvalidImportSite {
            unit_id: ProjectUnitId::new("main"),
            byte_range: 0..7,
        }
    );
    assert_eq!(
        error.message(),
        "import site 0..7 is not a uses entry in unit ProjectUnitId(\"main\")"
    );

    let entry = site(MAIN, "Base");
    let twice = vec![
        choose_unit(entry.clone(), base(), &["Base"]),
        choose_unit(entry.clone(), ImportTarget::Unavailable, &["Base"]),
    ];
    let error = refusal(units(), twice);
    assert_eq!(
        error.message(),
        "duplicate import site 19..23 in unit ProjectUnitId(\"main\")"
    );

    let missing = ImportTarget::Loaded(ProjectUnitId::new("gone"));
    let error = refusal(units(), vec![choose_unit(entry.clone(), missing, &["Base"])]);
    assert_eq!(
        error.message(),
        "import from unit ProjectUnitId(\"main\") targets missing loaded unit \
         ProjectUnitId(\"gone\")"
    );

    for qualifier in ["", "A..B", "A b", ".A", "A."] {
        let binding = choose_unit(entry.clone(), base(), &["Base", qualifier]);
        let error = refusal(units(), vec![binding]);
        assert_eq!(error, ProjectSnapshotError::InvalidQualifier(qualifier.to_string()));
        assert_eq!(error.message(), format!("invalid authorized qualifier {qualifier:?}"));
        assert!(!valid_qualifier(qualifier));
    }
    assert!(valid_qualifier("System.Classes"));

    let binding = choose_unit(entry.clone(), base(), &["Base", "Pkg.Base"]);
    assert_eq!(binding.site().byte_range(), entry);
    assert_eq!(binding.authorized_qualifiers(), ["Base".to_string(), "Pkg.Base".to_string()]);
    let snapshot = ProjectSnapshot::new(units(), vec![binding]).expect("snapshot");
    assert_eq!(snapshot.imports().len(), 1);
    assert_eq!(snapshot.units().len(), 2);
}

#[test]
fn uses_entries_are_the_places_to_choose_for() {
    let tree = SyntaxTree::parse(MAIN.as_bytes()).expect("tree");
    let spans = import_site_spans(&tree.root);
    assert_eq!(spans, vec![(19, 23), (25, 30)]);
    let error = refusal(
        vec![unit("main", "b", MAIN)],
        vec![choose_unit(19..22, ImportTarget::Unavailable, &["Base"])],
    );
    assert!(matches!(error, ProjectSnapshotError::InvalidImportSite { .. }));
}

#[test]
fn uses_entries_belong_to_the_section_they_stand_in() {
    let text = "unit U; interface uses A; implementation uses B; end.";
    let tree = SyntaxTree::parse(text.as_bytes()).expect("tree");
    let (section, start) = import_section(&tree.root, site(text, "A;").start);
    assert_eq!((section, start), (ImportSection::Interface, 8));
    let (section, start) = import_section(&tree.root, site(text, "B;").start);
    assert_eq!((section, start), (ImportSection::Implementation, 26));

    let tree = SyntaxTree::parse(MAIN.as_bytes()).expect("tree");
    let (section, start) = import_section(&tree.root, site(MAIN, "Base").start);
    assert_eq!((section, start), (ImportSection::Module, 14));
}

#[test]
fn graphs_of_an_unknown_unit_are_refused() {
    let snapshot = ProjectSnapshot::new(vec![unit("base", "a", BASE)], vec![]).expect("snapshot");
    let missing = ProjectUnitId::new("gone");
    let error = build_file_cfgs_in_project(&snapshot, &missing).expect_err("no such unit");
    assert_eq!(error, ProjectBuildError::UnitNotFound(missing));
    assert_eq!(error.message(), "project unit ProjectUnitId(\"gone\") was not found");
    assert_eq!(error.clone(), error);
}

#[test]
fn graphs_do_not_depend_on_the_order_of_units() {
    let units = || (unit("base", "z", BASE), unit("main", "y", MAIN));
    let binding = || {
        choose_unit(
            site(MAIN, "Base"),
            ImportTarget::Loaded(ProjectUnitId::new("base")),
            &["Base"],
        )
    };
    let (base, main) = units();
    let forth = ProjectSnapshot::new(vec![base, main], vec![binding()]).expect("snapshot");
    let (base, main) = units();
    let back = ProjectSnapshot::new(vec![main, base], vec![binding()]).expect("snapshot");
    for name in ["base", "main"] {
        let id = ProjectUnitId::new(name);
        let a = build_file_cfgs_in_project(&forth, &id).expect("graphs");
        let b = build_file_cfgs_in_project(&back, &id).expect("graphs");
        assert_eq!(shape(&a), shape(&b));
    }
    let a = ExceptionTypeIndex::build_project(&forth);
    let b = ExceptionTypeIndex::build_project(&back);
    assert_eq!(format!("{a:?}"), format!("{b:?}"));
    // Units rank by their own identities, so `main` comes second.
    assert_eq!(a.imports.len(), 2);
    assert!(a.imports.iter().all(|entry| entry.importer == 1));
    assert_eq!(a.imports[0].start, site(MAIN, "Other").start);
}

#[test]
fn a_project_of_one_unit_has_the_graphs_of_its_file() {
    let tree = SyntaxTree::parse(MAIN.as_bytes()).expect("tree");
    let alone = build_file_cfgs(&tree, MAIN.as_bytes());
    let snapshot = ProjectSnapshot::new(vec![unit("main", "a", MAIN)], vec![]).expect("snapshot");
    let within =
        build_file_cfgs_in_project(&snapshot, &ProjectUnitId::new("main")).expect("graphs");
    assert_eq!(shape(&alone), shape(&within));
    assert!(!alone.is_empty());
}

#[test]
fn the_first_entry_that_declares_a_name_decides_its_members() {
    let with = "unit First; interface type TOuter = class public type EInner = class \
                constructor Create; end; end; implementation end.";
    let without = "unit Second; interface type TOuter = class end; implementation end.";
    let reaches_both = |uses: &str| -> bool {
        let main = format!(
            "program Main; uses {uses}; type EOwn = class constructor Create; end; begin try \
             raise TOuter.EInner.Create; except on E: EOwn do Own; on E: TOuter.EInner do Inner; \
             end; end."
        );
        let imports = ["First", "Second"]
            .iter()
            .map(|name| {
                let target = ImportTarget::Loaded(ProjectUnitId::new(name));
                choose_unit(site(&main, name), target, &[name])
            })
            .collect();
        let units = vec![
            unit("main", "m", &main),
            unit("First", "f", with),
            unit("Second", "s", without),
        ];
        let snapshot = ProjectSnapshot::new(units, imports).expect("snapshot");
        let cfgs = build_file_cfgs_in_project(&snapshot, &ProjectUnitId::new("main"))
            .expect("graphs");
        let graph = &cfgs[0].graph;
        let holding = |text: &str| -> usize {
            (0..graph.blocks.len())
                .find(|block| {
                    graph.blocks[*block]
                        .stmts
                        .iter()
                        .any(|stmt| main[stmt.byte_range.clone()].starts_with(text))
                })
                .expect("block")
        };
        let raise = holding("raise");
        let raised = graph
            .edges
            .iter()
            .find(|edge| edge.source.0 == raise && edge.kind == EdgeKind::Normal)
            .expect("successful raise")
            .target;
        let own = holding("Own");
        graph.edges.iter().any(|edge| edge.source == raised && edge.target.0 == own)
    };
    // The later entry is searched first. Where it declares the class with the
    // nested one, the raised class is known and the other handler is excluded.
    assert!(!reaches_both("Second, First"));
    assert!(reaches_both("First, Second"));
}
