//! Caller-owned inputs for project-aware graph construction.

use vstd::prelude::*;
use std::cmp::Ordering;
use std::ops::Range;
use vstd::slice::slice_to_vec;
use crate::labels::{is_white, white};
use crate::prepared::{PreparationFidelity, PreparationProvenance, PreparedSource};
use crate::rebuild_laws::law_equal_nodes_give_equal_verdicts;
use crate::source_map::{
    find_source, snapshot_models, source_index, MapModel, SnapshotModel, SourceMap, SourceSnapshot,
};
use crate::syntax::{opt_text, SyntaxNode, SyntaxTree};
use crate::text::{
    chars_of, copy_texts, debug_text, decimal, is_before, law_text_order_is_total, push_decimal,
    push_range, quoted, same_bytes, same_text, shown_range, split, split_text, text_before, texts,
};

verus! {

/// Identity that a caller assigns to one logical unit.
#[derive(Debug, Eq, Hash, Ord)]
pub struct ProjectUnitId(String);

/// Identity that a caller assigns to one exact source text.
#[derive(Debug, Eq, Hash, Ord)]
pub struct ProjectSourceId(String);

impl View for ProjectUnitId {
    type V = Seq<char>;

    closed spec fn view(&self) -> Seq<char> {
        self.0@
    }
}

impl View for ProjectSourceId {
    type V = Seq<char>;

    closed spec fn view(&self) -> Seq<char> {
        self.0@
    }
}

impl ProjectUnitId {
    /// An identity with the given text. Empty identities are rejected where they
    /// are used.
    pub fn new(value: &str) -> (r: ProjectUnitId)
        ensures
            r@ == value@,
    {
        ProjectUnitId(value.to_owned())
    }

    /// The text of the identity.
    pub fn as_str(&self) -> (r: &str)
        ensures
            r@ == self@,
    {
        self.0.as_str()
    }

    /// Whether the text is empty.
    pub fn is_empty(&self) -> (r: bool)
        ensures
            r == (self@.len() == 0),
    {
        self.0.as_str().is_empty()
    }

    /// Whether two identities are the same.
    pub fn same(&self, other: &ProjectUnitId) -> (r: bool)
        ensures
            r == (self@ == other@),
    {
        same_text(self.0.as_str(), other.0.as_str())
    }
}

impl ProjectSourceId {
    /// An identity with the given text. Empty identities are rejected where they
    /// are used.
    pub fn new(value: &str) -> (r: ProjectSourceId)
        ensures
            r@ == value@,
    {
        ProjectSourceId(value.to_owned())
    }

    /// The text of the identity.
    pub fn as_str(&self) -> (r: &str)
        ensures
            r@ == self@,
    {
        self.0.as_str()
    }

    /// Whether the text is empty.
    pub fn is_empty(&self) -> (r: bool)
        ensures
            r == (self@.len() == 0),
    {
        self.0.as_str().is_empty()
    }

    /// Whether two identities are the same.
    pub fn same(&self, other: &ProjectSourceId) -> (r: bool)
        ensures
            r == (self@ == other@),
    {
        same_text(self.0.as_str(), other.0.as_str())
    }
}

impl Clone for ProjectUnitId {
    fn clone(&self) -> (r: ProjectUnitId)
        ensures
            r@ == self@,
    {
        ProjectUnitId(self.0.clone())
    }
}

/// How two texts are ordered, character by character.
pub open spec fn text_order(a: Seq<char>, b: Seq<char>) -> Ordering {
    if a == b {
        Ordering::Equal
    } else if text_before(a, b) {
        Ordering::Less
    } else {
        Ordering::Greater
    }
}

/// Identities are ordered one way or the other: two are equal exactly where their
/// texts are, and turning the sides round turns the order round.
pub proof fn law_identities_are_ordered(a: Seq<char>, b: Seq<char>)
    ensures
        text_order(a, b) == Ordering::Equal <==> a == b,
        text_order(a, b) == Ordering::Less <==> text_before(a, b),
        text_order(a, b) == Ordering::Greater <==> text_before(b, a),
        text_order(a, b) == Ordering::Less <==> text_order(b, a) == Ordering::Greater,
{
    law_text_order_is_total(a, b);
}

fn order_texts(a: &str, b: &str) -> (r: Ordering)
    ensures
        r == text_order(a@, b@),
{
    if same_text(a, b) {
        Ordering::Equal
    } else if is_before(a, b) {
        Ordering::Less
    } else {
        Ordering::Greater
    }
}

impl PartialEq for ProjectUnitId {
    fn eq(&self, other: &ProjectUnitId) -> (r: bool) {
        self.same(other)
    }
}

impl vstd::std_specs::cmp::PartialEqSpecImpl for ProjectUnitId {
    open spec fn obeys_eq_spec() -> bool {
        true
    }

    open spec fn eq_spec(&self, other: &ProjectUnitId) -> bool {
        self@ == other@
    }
}

impl PartialOrd for ProjectUnitId {
    fn partial_cmp(&self, other: &ProjectUnitId) -> (r: Option<Ordering>) {
        Some(order_texts(self.as_str(), other.as_str()))
    }
}

impl vstd::std_specs::cmp::PartialOrdSpecImpl for ProjectUnitId {
    open spec fn obeys_partial_cmp_spec() -> bool {
        true
    }

    open spec fn partial_cmp_spec(&self, other: &ProjectUnitId) -> Option<Ordering> {
        Some(text_order(self@, other@))
    }
}

impl PartialEq for ProjectSourceId {
    fn eq(&self, other: &ProjectSourceId) -> (r: bool) {
        self.same(other)
    }
}

impl vstd::std_specs::cmp::PartialEqSpecImpl for ProjectSourceId {
    open spec fn obeys_eq_spec() -> bool {
        true
    }

    open spec fn eq_spec(&self, other: &ProjectSourceId) -> bool {
        self@ == other@
    }
}

impl PartialOrd for ProjectSourceId {
    fn partial_cmp(&self, other: &ProjectSourceId) -> (r: Option<Ordering>) {
        Some(order_texts(self.as_str(), other.as_str()))
    }
}

impl vstd::std_specs::cmp::PartialOrdSpecImpl for ProjectSourceId {
    open spec fn obeys_partial_cmp_spec() -> bool {
        true
    }

    open spec fn partial_cmp_spec(&self, other: &ProjectSourceId) -> Option<Ordering> {
        Some(text_order(self@, other@))
    }
}

impl From<&str> for ProjectUnitId {
    fn from(value: &str) -> (r: ProjectUnitId)
        ensures
            r@ == value@,
    {
        ProjectUnitId::new(value)
    }
}

impl vstd::std_specs::convert::FromSpecImpl<&str> for ProjectUnitId {
    open spec fn obeys_from_spec() -> bool {
        false
    }

    open spec fn from_spec(value: &str) -> ProjectUnitId {
        arbitrary()
    }
}

impl From<String> for ProjectUnitId {
    fn from(value: String) -> (r: ProjectUnitId)
        ensures
            r@ == value@,
    {
        ProjectUnitId(value)
    }
}

impl vstd::std_specs::convert::FromSpecImpl<String> for ProjectUnitId {
    open spec fn obeys_from_spec() -> bool {
        false
    }

    open spec fn from_spec(value: String) -> ProjectUnitId {
        arbitrary()
    }
}

impl Clone for ProjectSourceId {
    fn clone(&self) -> (r: ProjectSourceId)
        ensures
            r@ == self@,
    {
        ProjectSourceId(self.0.clone())
    }
}

impl From<&str> for ProjectSourceId {
    fn from(value: &str) -> (r: ProjectSourceId)
        ensures
            r@ == value@,
    {
        ProjectSourceId::new(value)
    }
}

impl vstd::std_specs::convert::FromSpecImpl<&str> for ProjectSourceId {
    open spec fn obeys_from_spec() -> bool {
        false
    }

    open spec fn from_spec(value: &str) -> ProjectSourceId {
        arbitrary()
    }
}

impl From<String> for ProjectSourceId {
    fn from(value: String) -> (r: ProjectSourceId)
        ensures
            r@ == value@,
    {
        ProjectSourceId(value)
    }
}

impl vstd::std_specs::convert::FromSpecImpl<String> for ProjectSourceId {
    open spec fn obeys_from_spec() -> bool {
        false
    }

    open spec fn from_spec(value: String) -> ProjectSourceId {
        arbitrary()
    }
}

/// How an error message shows a source identity.
pub open spec fn shown_source(id: Seq<char>) -> Seq<char> {
    "ProjectSourceId("@ + quoted(id) + ")"@
}

/// How an error message shows a unit identity.
pub open spec fn shown_unit(id: Seq<char>) -> Seq<char> {
    "ProjectUnitId("@ + quoted(id) + ")"@
}

/// Appends a source identity as error messages show it.
pub(crate) fn push_source(to: &mut String, id: &ProjectSourceId)
    ensures
        final(to)@ == old(to)@ + shown_source(id@),
{
    to.append("ProjectSourceId(");
    to.append(debug_text(id.as_str()).as_str());
    to.append(")");
    assert(to@ =~= old(to)@ + shown_source(id@));
}

/// Appends a unit identity as error messages show it.
pub(crate) fn push_unit(to: &mut String, id: &ProjectUnitId)
    ensures
        final(to)@ == old(to)@ + shown_unit(id@),
{
    to.append("ProjectUnitId(");
    to.append(debug_text(id.as_str()).as_str());
    to.append(")");
    assert(to@ =~= old(to)@ + shown_unit(id@));
}

/// One parsed unit and the source text from which its tree was made.
///
/// That tree and text belong together is the caller's promise: only the bounds
/// of the tree are checked.
#[derive(Debug)]
pub struct ProjectUnitInput {
    id: ProjectUnitId,
    source_id: ProjectSourceId,
    tree: SyntaxTree,
    source: Vec<u8>,
    source_map: Option<SourceMap>,
    configuration_id: Option<String>,
    preparation_fidelity: Option<PreparationFidelity>,
    preparation_provenance: Option<PreparationProvenance>,
}

/// The mathematical value of a [`ProjectUnitInput`].
#[verifier::ext_equal]
pub struct UnitInputModel {
    pub id: Seq<char>,
    pub source_id: Seq<char>,
    pub tree: SyntaxTree,
    pub source: Seq<u8>,
    pub source_map: Option<MapModel>,
    pub configuration_id: Option<Seq<char>>,
    pub preparation_fidelity: Option<PreparationFidelity>,
    pub preparation_provenance: Option<PreparationProvenance>,
}

/// The model of an optional map.
pub open spec fn map_model(map: Option<SourceMap>) -> Option<MapModel> {
    match map {
        Some(m) => Some(m@),
        None => None,
    }
}

impl View for ProjectUnitInput {
    type V = UnitInputModel;

    closed spec fn view(&self) -> UnitInputModel {
        UnitInputModel {
            id: self.id@,
            source_id: self.source_id@,
            tree: self.tree,
            source: self.source@,
            source_map: map_model(self.source_map),
            configuration_id: opt_text(self.configuration_id),
            preparation_fidelity: self.preparation_fidelity,
            preparation_provenance: self.preparation_provenance,
        }
    }
}

impl UnitInputModel {
    /// The original sources that the unit retains.
    pub open spec fn originals(self) -> Seq<SnapshotModel> {
        match self.source_map {
            Some(map) => map.sources,
            None => Seq::empty(),
        }
    }

    /// Whether two units differ in nothing but how their trees are held: the nodes
    /// are the same.
    pub open spec fn reads_as(self, other: UnitInputModel) -> bool {
        &&& self == (UnitInputModel { tree: self.tree, ..other })
        &&& self.tree.nodes() == other.tree.nodes()
    }
}

/// The models of a list of units.
pub open spec fn unit_models(units: Seq<ProjectUnitInput>) -> Seq<UnitInputModel> {
    units.map_values(|u: ProjectUnitInput| u@)
}

impl ProjectUnitInput {
    /// A unit made of a tree and its text, with no claim of completeness.
    pub fn new(id: ProjectUnitId, source_id: ProjectSourceId, tree: SyntaxTree, source: &[u8]) -> (r:
        ProjectUnitInput)
        ensures
            r@ == (UnitInputModel {
                id: id@,
                source_id: source_id@,
                tree,
                source: source@,
                source_map: None,
                configuration_id: None,
                preparation_fidelity: None,
                preparation_provenance: None,
            }),
    {
        ProjectUnitInput {
            id,
            source_id,
            tree,
            source: slice_to_vec(source),
            source_map: None,
            configuration_id: None,
            preparation_fidelity: None,
            preparation_provenance: None,
        }
    }

    /// A unit made of a prepared source. Its source identity is that of the
    /// prepared text; the original files are reached through the map.
    pub fn from_prepared(id: ProjectUnitId, prepared: PreparedSource) -> (r: ProjectUnitInput)
        ensures
            r@ == (UnitInputModel {
                id: id@,
                source_id: prepared@.source_id,
                tree: prepared.syntax(),
                source: prepared@.map.prepared,
                source_map: Some(prepared@.map),
                configuration_id: Some(prepared@.configuration_id),
                preparation_fidelity: Some(prepared@.fidelity),
                preparation_provenance: Some(prepared@.provenance),
            }),
    {
        let (source_id, tree, source_map, configuration_id, fidelity, provenance) =
            prepared.into_parts();
        ProjectUnitInput {
            id,
            source_id,
            tree,
            source: slice_to_vec(source_map.prepared_bytes()),
            source_map: Some(source_map),
            configuration_id: Some(configuration_id),
            preparation_fidelity: Some(fidelity),
            preparation_provenance: Some(provenance),
        }
    }

    /// The identity of the unit.
    pub fn id(&self) -> (r: &ProjectUnitId)
        ensures
            r@ == self@.id,
    {
        &self.id
    }

    /// The identity of the source text.
    pub fn source_id(&self) -> (r: &ProjectSourceId)
        ensures
            r@ == self@.source_id,
    {
        &self.source_id
    }

    /// The parse tree.
    pub fn tree(&self) -> (r: &SyntaxTree)
        ensures
            *r == self@.tree,
    {
        &self.tree
    }

    /// The source text.
    pub fn source(&self) -> (r: &[u8])
        ensures
            r@ == self@.source,
    {
        self.source.as_slice()
    }

    /// The map to the original sources, for a unit made of a prepared source.
    pub fn source_map(&self) -> (r: Option<&SourceMap>)
        ensures
            match r {
                Some(map) => self@.source_map == Some(map@),
                None => self@.source_map is None,
            },
    {
        self.source_map.as_ref()
    }

    /// The original sources that the unit retains; none for a raw unit.
    pub fn original_sources(&self) -> (r: &[SourceSnapshot])
        ensures
            snapshot_models(r@) == self@.originals(),
    {
        match &self.source_map {
            Some(map) => map.original_sources(),
            None => {
                let none: &[SourceSnapshot] = &[];
                assert(snapshot_models(none@) =~= Seq::<SnapshotModel>::empty());
                none
            },
        }
    }

    /// The configuration of a prepared unit; none for a raw unit.
    pub fn configuration_id(&self) -> (r: Option<&str>)
        ensures
            match r {
                Some(id) => self@.configuration_id == Some(id@),
                None => self@.configuration_id is None,
            },
    {
        match &self.configuration_id {
            Some(id) => Some(id.as_str()),
            None => None,
        }
    }

    /// The fidelity of a prepared unit; none for a raw unit.
    pub fn preparation_fidelity(&self) -> (r: Option<PreparationFidelity>)
        ensures
            r == self@.preparation_fidelity,
    {
        self.preparation_fidelity
    }

    /// The provenance of a prepared unit; none for a raw unit.
    pub fn preparation_provenance(&self) -> (r: Option<PreparationProvenance>)
        ensures
            r == self@.preparation_provenance,
    {
        self.preparation_provenance
    }

    /// Whether the unit was made of a prepared source.
    pub fn is_prepared(&self) -> (r: bool)
        ensures
            r == self@.source_map is Some,
    {
        self.source_map.is_some()
    }
}

impl Clone for ProjectUnitInput {
    fn clone(&self) -> (r: ProjectUnitInput)
        ensures
            r@.reads_as(self@),
    {
        ProjectUnitInput {
            id: self.id.clone(),
            source_id: self.source_id.clone(),
            tree: self.tree.clone(),
            source: slice_to_vec(self.source.as_slice()),
            source_map: match &self.source_map {
                Some(map) => Some(map.clone()),
                None => None,
            },
            configuration_id: match &self.configuration_id {
                Some(id) => Some(id.clone()),
                None => None,
            },
            preparation_fidelity: self.preparation_fidelity,
            preparation_provenance: self.preparation_provenance,
        }
    }
}

/// The place of one unit name in a `uses` clause.
#[derive(Debug, PartialEq, Eq, Hash)]
pub struct UsesSite {
    unit_id: ProjectUnitId,
    byte_range: Range<usize>,
}

/// The mathematical value of a [`UsesSite`].
#[verifier::ext_equal]
pub struct SiteModel {
    pub unit_id: Seq<char>,
    pub start: usize,
    pub end: usize,
}

impl SiteModel {
    /// The range of the unit name.
    pub open spec fn range(self) -> Range<usize> {
        Range { start: self.start, end: self.end }
    }
}

impl View for UsesSite {
    type V = SiteModel;

    closed spec fn view(&self) -> SiteModel {
        SiteModel {
            unit_id: self.unit_id@,
            start: self.byte_range.start,
            end: self.byte_range.end,
        }
    }
}

impl UsesSite {
    /// The place with exactly the range of a unit name in a `uses` clause of the
    /// unit.
    pub fn new(unit_id: ProjectUnitId, byte_range: Range<usize>) -> (r: UsesSite)
        ensures
            r@ == (SiteModel {
                unit_id: unit_id@,
                start: byte_range.start,
                end: byte_range.end,
            }),
    {
        UsesSite { unit_id, byte_range }
    }

    /// The unit with the `uses` clause.
    pub fn unit_id(&self) -> (r: &ProjectUnitId)
        ensures
            r@ == self@.unit_id,
    {
        &self.unit_id
    }

    /// The range of the unit name.
    pub fn byte_range(&self) -> (r: Range<usize>)
        ensures
            r == self@.range(),
    {
        self.byte_range.start..self.byte_range.end
    }
}

impl Clone for UsesSite {
    fn clone(&self) -> (r: UsesSite)
        ensures
            r@ == self@,
    {
        UsesSite::new(self.unit_id.clone(), self.byte_range())
    }
}

/// What the project model says of one unit name in a `uses` clause.
#[derive(Debug, PartialEq, Eq)]
pub enum ImportTarget {
    /// It names a unit of the snapshot.
    Loaded(ProjectUnitId),
    /// No unit was found for it.
    Unavailable,
    /// More than one unit was found for it.
    Ambiguous,
}

/// The mathematical value of an [`ImportTarget`].
pub enum ImportTargetModel {
    Loaded(Seq<char>),
    Unavailable,
    Ambiguous,
}

impl View for ImportTarget {
    type V = ImportTargetModel;

    open spec fn view(&self) -> ImportTargetModel {
        match *self {
            ImportTarget::Loaded(id) => ImportTargetModel::Loaded(id@),
            ImportTarget::Unavailable => ImportTargetModel::Unavailable,
            ImportTarget::Ambiguous => ImportTargetModel::Ambiguous,
        }
    }
}

impl Clone for ImportTarget {
    fn clone(&self) -> (r: ImportTarget)
        ensures
            r@ == self@,
    {
        match self {
            ImportTarget::Loaded(id) => ImportTarget::Loaded(id.clone()),
            ImportTarget::Unavailable => ImportTarget::Unavailable,
            ImportTarget::Ambiguous => ImportTarget::Ambiguous,
        }
    }
}

/// The choice made for one unit name in a `uses` clause.
#[derive(Debug, PartialEq, Eq)]
pub struct ImportBinding {
    site: UsesSite,
    target: ImportTarget,
    authorized_qualifiers: Vec<String>,
}

/// The mathematical value of an [`ImportBinding`].
#[verifier::ext_equal]
pub struct ImportBindingModel {
    pub site: SiteModel,
    pub target: ImportTargetModel,
    pub qualifiers: Seq<Seq<char>>,
}

impl View for ImportBinding {
    type V = ImportBindingModel;

    closed spec fn view(&self) -> ImportBindingModel {
        ImportBindingModel {
            site: self.site@,
            target: self.target@,
            qualifiers: texts(self.authorized_qualifiers@),
        }
    }
}

/// The models of a list of choices.
pub open spec fn import_models(imports: Seq<ImportBinding>) -> Seq<ImportBindingModel> {
    imports.map_values(|i: ImportBinding| i@)
}

impl ImportBinding {
    /// The choice of a target for a place.
    ///
    /// The qualifiers are the spellings, such as `Vendor.Errors` and `Errors`,
    /// that may qualify names of the target. Without any, only unqualified names
    /// are found through the place. None is inferred from an identity or a name.
    pub fn new(site: UsesSite, target: ImportTarget, authorized_qualifiers: &[&str]) -> (r:
        ImportBinding)
        ensures
            r@ == (ImportBindingModel {
                site: site@,
                target: target@,
                qualifiers: authorized_qualifiers@.map_values(|q: &str| q@),
            }),
    {
        let mut qualifiers: Vec<String> = Vec::new();
        let mut i: usize = 0;
        while i < authorized_qualifiers.len()
            invariant
                i <= authorized_qualifiers@.len(),
                qualifiers@.len() == i,
                forall|k: int|
                    0 <= k < i ==> (#[trigger] qualifiers@[k])@ == authorized_qualifiers@[k]@,
            decreases authorized_qualifiers@.len() - i,
        {
            qualifiers.push(authorized_qualifiers[i].to_owned());
            i = i + 1;
        }
        assert(texts(qualifiers@) =~= authorized_qualifiers@.map_values(|q: &str| q@));
        ImportBinding { site, target, authorized_qualifiers: qualifiers }
    }

    /// The place in the `uses` clause.
    pub fn site(&self) -> (r: &UsesSite)
        ensures
            r@ == self@.site,
    {
        &self.site
    }

    /// The chosen target.
    pub fn target(&self) -> (r: &ImportTarget)
        ensures
            r@ == self@.target,
    {
        &self.target
    }

    /// The spellings that may qualify names of the target.
    pub fn authorized_qualifiers(&self) -> (r: &[String])
        ensures
            texts(r@) == self@.qualifiers,
    {
        self.authorized_qualifiers.as_slice()
    }
}

impl Clone for ImportBinding {
    fn clone(&self) -> (r: ImportBinding)
        ensures
            r@ == self@,
    {
        ImportBinding {
            site: self.site.clone(),
            target: self.target.clone(),
            authorized_qualifiers: copy_texts(&self.authorized_qualifiers),
        }
    }
}

/// Why a project snapshot was refused.
#[derive(Debug, PartialEq, Eq)]
pub enum ProjectSnapshotError {
    /// The identity of a unit was empty.
    EmptyUnitId,
    /// The identity of a source was empty.
    EmptySourceId,
    /// Two units had the same identity.
    DuplicateUnitId(ProjectUnitId),
    /// Two units had the same source identity.
    DuplicateSourceId(ProjectSourceId),
    /// A tree does not fit its source.
    InvalidTreeSource { unit_id: ProjectUnitId, tree_range: Range<usize>, source_len: usize },
    /// A place is not that of a unit name in a `uses` clause of a known unit.
    InvalidImportSite { unit_id: ProjectUnitId, byte_range: Range<usize> },
    /// A place was chosen for twice.
    DuplicateImportSite { unit_id: ProjectUnitId, byte_range: Range<usize> },
    /// A chosen target is not a unit of the snapshot.
    DanglingLoadedTarget { importer: ProjectUnitId, target: ProjectUnitId },
    /// A qualifier is empty or has a part that is empty or holds white space.
    InvalidQualifier(String),
    /// Two prepared units were made under different configurations.
    IncompatibleConfigurationIds { unit_id: ProjectUnitId, expected: String, found: String },
    /// One source identity stands for different bytes.
    ConflictingOriginalSource { source_id: ProjectSourceId },
}

/// The mathematical value of a [`ProjectSnapshotError`].
pub enum ProjectErrorModel {
    EmptyUnitId,
    EmptySourceId,
    DuplicateUnitId(Seq<char>),
    DuplicateSourceId(Seq<char>),
    InvalidTreeSource { unit_id: Seq<char>, tree_range: Range<usize>, source_len: usize },
    InvalidImportSite { unit_id: Seq<char>, byte_range: Range<usize> },
    DuplicateImportSite { unit_id: Seq<char>, byte_range: Range<usize> },
    DanglingLoadedTarget { importer: Seq<char>, target: Seq<char> },
    InvalidQualifier(Seq<char>),
    IncompatibleConfigurationIds { unit_id: Seq<char>, expected: Seq<char>, found: Seq<char> },
    ConflictingOriginalSource { source_id: Seq<char> },
}

impl View for ProjectSnapshotError {
    type V = ProjectErrorModel;

    open spec fn view(&self) -> ProjectErrorModel {
        match *self {
            ProjectSnapshotError::EmptyUnitId => ProjectErrorModel::EmptyUnitId,
            ProjectSnapshotError::EmptySourceId => ProjectErrorModel::EmptySourceId,
            ProjectSnapshotError::DuplicateUnitId(id) => ProjectErrorModel::DuplicateUnitId(id@),
            ProjectSnapshotError::DuplicateSourceId(id) => ProjectErrorModel::DuplicateSourceId(id@),
            ProjectSnapshotError::InvalidTreeSource { unit_id, tree_range, source_len } => {
                ProjectErrorModel::InvalidTreeSource { unit_id: unit_id@, tree_range, source_len }
            },
            ProjectSnapshotError::InvalidImportSite { unit_id, byte_range } => {
                ProjectErrorModel::InvalidImportSite { unit_id: unit_id@, byte_range }
            },
            ProjectSnapshotError::DuplicateImportSite { unit_id, byte_range } => {
                ProjectErrorModel::DuplicateImportSite { unit_id: unit_id@, byte_range }
            },
            ProjectSnapshotError::DanglingLoadedTarget { importer, target } => {
                ProjectErrorModel::DanglingLoadedTarget { importer: importer@, target: target@ }
            },
            ProjectSnapshotError::InvalidQualifier(id) => ProjectErrorModel::InvalidQualifier(id@),
            ProjectSnapshotError::IncompatibleConfigurationIds { unit_id, expected, found } => {
                ProjectErrorModel::IncompatibleConfigurationIds {
                    unit_id: unit_id@,
                    expected: expected@,
                    found: found@,
                }
            },
            ProjectSnapshotError::ConflictingOriginalSource { source_id } => {
                ProjectErrorModel::ConflictingOriginalSource { source_id: source_id@ }
            },
        }
    }
}

impl Clone for ProjectSnapshotError {
    fn clone(&self) -> (r: ProjectSnapshotError)
        ensures
            r@ == self@,
    {
        match self {
            ProjectSnapshotError::EmptyUnitId => ProjectSnapshotError::EmptyUnitId,
            ProjectSnapshotError::EmptySourceId => ProjectSnapshotError::EmptySourceId,
            ProjectSnapshotError::DuplicateUnitId(id) => ProjectSnapshotError::DuplicateUnitId(id.clone()),
            ProjectSnapshotError::DuplicateSourceId(id) => ProjectSnapshotError::DuplicateSourceId(id.clone()),
            ProjectSnapshotError::InvalidTreeSource { unit_id, tree_range, source_len } => {
                ProjectSnapshotError::InvalidTreeSource {
                    unit_id: unit_id.clone(),
                    tree_range: tree_range.start..tree_range.end,
                    source_len: *source_len,
                }
            },
            ProjectSnapshotError::InvalidImportSite { unit_id, byte_range } => {
                ProjectSnapshotError::InvalidImportSite {
                    unit_id: unit_id.clone(),
                    byte_range: byte_range.start..byte_range.end,
                }
            },
            ProjectSnapshotError::DuplicateImportSite { unit_id, byte_range } => {
                ProjectSnapshotError::DuplicateImportSite {
                    unit_id: unit_id.clone(),
                    byte_range: byte_range.start..byte_range.end,
                }
            },
            ProjectSnapshotError::DanglingLoadedTarget { importer, target } => {
                ProjectSnapshotError::DanglingLoadedTarget {
                    importer: importer.clone(),
                    target: target.clone(),
                }
            },
            ProjectSnapshotError::InvalidQualifier(id) => ProjectSnapshotError::InvalidQualifier(id.clone()),
            ProjectSnapshotError::IncompatibleConfigurationIds { unit_id, expected, found } => {
                ProjectSnapshotError::IncompatibleConfigurationIds {
                    unit_id: unit_id.clone(),
                    expected: expected.clone(),
                    found: found.clone(),
                }
            },
            ProjectSnapshotError::ConflictingOriginalSource { source_id } => {
                ProjectSnapshotError::ConflictingOriginalSource { source_id: source_id.clone() }
            },
        }
    }
}

impl ProjectErrorModel {
    /// The error in words.
    pub open spec fn message(self) -> Seq<char> {
        match self {
            ProjectErrorModel::EmptyUnitId => {
                "project unit ID must not be empty"@
            },
            ProjectErrorModel::EmptySourceId => {
                "project source ID must not be empty"@
            },
            ProjectErrorModel::DuplicateUnitId(id) => {
                "duplicate project unit ID "@ + shown_unit(id)
            },
            ProjectErrorModel::DuplicateSourceId(id) => {
                "duplicate project source ID "@ + shown_source(id)
            },
            ProjectErrorModel::InvalidTreeSource { unit_id, tree_range, source_len } => {
                "tree range "@ + shown_range(tree_range.start, tree_range.end) + " for unit "@
                    + shown_unit(unit_id) + " exceeds source length "@
                    + decimal(source_len as nat)
            },
            ProjectErrorModel::InvalidImportSite { unit_id, byte_range } => {
                "import site "@ + shown_range(byte_range.start, byte_range.end)
                    + " is not a uses entry in unit "@ + shown_unit(unit_id)
            },
            ProjectErrorModel::DuplicateImportSite { unit_id, byte_range } => {
                "duplicate import site "@ + shown_range(byte_range.start, byte_range.end)
                    + " in unit "@ + shown_unit(unit_id)
            },
            ProjectErrorModel::DanglingLoadedTarget { importer, target } => {
                "import from unit "@ + shown_unit(importer) + " targets missing loaded unit "@
                    + shown_unit(target)
            },
            ProjectErrorModel::InvalidQualifier(id) => {
                "invalid authorized qualifier "@ + quoted(id)
            },
            ProjectErrorModel::IncompatibleConfigurationIds { unit_id, expected, found } => {
                "prepared unit "@ + shown_unit(unit_id) + " uses configuration "@ + quoted(found)
                    + ", expected "@ + quoted(expected)
            },
            ProjectErrorModel::ConflictingOriginalSource { source_id } => {
                "original source ID "@ + shown_source(source_id)
                    + " has conflicting bytes in the project snapshot"@
            },
        }
    }
}

impl ProjectSnapshotError {
    /// The error in words.
    pub fn message(&self) -> (r: String)
        ensures
            r@ == self@.message(),
    {
        match self {
            ProjectSnapshotError::EmptyUnitId => "project unit ID must not be empty".to_owned(),
            ProjectSnapshotError::EmptySourceId => "project source ID must not be empty".to_owned(),
            ProjectSnapshotError::DuplicateUnitId(id) => {
                let mut out = "duplicate project unit ID ".to_owned();
                push_unit(&mut out, id);
                out
            },
            ProjectSnapshotError::DuplicateSourceId(id) => {
                let mut out = "duplicate project source ID ".to_owned();
                push_source(&mut out, id);
                out
            },
            ProjectSnapshotError::InvalidTreeSource { unit_id, tree_range, source_len } => {
                let mut out = "tree range ".to_owned();
                push_range(&mut out, tree_range.start, tree_range.end);
                out.append(" for unit ");
                push_unit(&mut out, unit_id);
                out.append(" exceeds source length ");
                push_decimal(&mut out, *source_len);
                out
            },
            ProjectSnapshotError::InvalidImportSite { unit_id, byte_range } => {
                let mut out = "import site ".to_owned();
                push_range(&mut out, byte_range.start, byte_range.end);
                out.append(" is not a uses entry in unit ");
                push_unit(&mut out, unit_id);
                out
            },
            ProjectSnapshotError::DuplicateImportSite { unit_id, byte_range } => {
                let mut out = "duplicate import site ".to_owned();
                push_range(&mut out, byte_range.start, byte_range.end);
                out.append(" in unit ");
                push_unit(&mut out, unit_id);
                out
            },
            ProjectSnapshotError::DanglingLoadedTarget { importer, target } => {
                let mut out = "import from unit ".to_owned();
                push_unit(&mut out, importer);
                out.append(" targets missing loaded unit ");
                push_unit(&mut out, target);
                out
            },
            ProjectSnapshotError::InvalidQualifier(id) => {
                let mut out = "invalid authorized qualifier ".to_owned();
                out.append(debug_text(id.as_str()).as_str());
                out
            },
            ProjectSnapshotError::IncompatibleConfigurationIds { unit_id, expected, found } => {
                let mut out = "prepared unit ".to_owned();
                push_unit(&mut out, unit_id);
                out.append(" uses configuration ");
                out.append(debug_text(found.as_str()).as_str());
                out.append(", expected ");
                out.append(debug_text(expected.as_str()).as_str());
                out
            },
            ProjectSnapshotError::ConflictingOriginalSource { source_id } => {
                let mut out = "original source ID ".to_owned();
                push_source(&mut out, source_id);
                out.append(" has conflicting bytes in the project snapshot");
                out
            },
        }
    }
}

/// Why the graphs of a unit could not be built from a snapshot.
#[derive(Debug, PartialEq, Eq)]
pub enum ProjectBuildError {
    /// The snapshot has no such unit.
    UnitNotFound(ProjectUnitId),
}

impl Clone for ProjectBuildError {
    fn clone(&self) -> (r: ProjectBuildError)
        ensures
            (self matches ProjectBuildError::UnitNotFound(a) && r matches
                ProjectBuildError::UnitNotFound(b) && a@ == b@),
    {
        match self {
            ProjectBuildError::UnitNotFound(id) => ProjectBuildError::UnitNotFound(id.clone()),
        }
    }
}

impl ProjectBuildError {
    /// The error in words.
    pub fn message(&self) -> (r: String)
        ensures
            (self matches ProjectBuildError::UnitNotFound(id) && r@ == "project unit "@
                + shown_unit(id@) + " was not found"@),
    {
        match self {
            ProjectBuildError::UnitNotFound(id) => {
                let mut out = "project unit ".to_owned();
                push_unit(&mut out, id);
                out.append(" was not found");
                out
            },
        }
    }
}

/// The first of the first `n` units with the given identity.
pub open spec fn unit_index(units: Seq<UnitInputModel>, id: Seq<char>, n: int) -> Option<int>
    decreases n,
{
    if n <= 0 {
        None
    } else {
        match unit_index(units, id, n - 1) {
            Some(i) => Some(i),
            None => if units[n - 1].id == id {
                Some(n - 1)
            } else {
                None
            },
        }
    }
}

/// Whether one of the first `n` units has the given source identity.
pub open spec fn source_taken(units: Seq<UnitInputModel>, id: Seq<char>, n: int) -> bool {
    exists|k: int| 0 <= k < n && (#[trigger] units[k]).source_id == id
}

/// The configuration of the first of the first `n` units that has one.
pub open spec fn first_configuration(units: Seq<UnitInputModel>, n: int) -> Option<Seq<char>>
    decreases n,
{
    if n <= 0 {
        None
    } else {
        match first_configuration(units, n - 1) {
            Some(id) => Some(id),
            None => units[n - 1].configuration_id,
        }
    }
}

/// The source texts that a unit brings: its own and the original ones.
pub open spec fn texts_of_unit(unit: UnitInputModel) -> Seq<SnapshotModel> {
    seq![SnapshotModel { source_id: unit.source_id, bytes: unit.source }] + unit.originals()
}

/// The source texts that the first `n` units bring.
pub open spec fn known_texts(units: Seq<UnitInputModel>, n: int) -> Seq<SnapshotModel>
    decreases n,
{
    if n <= 0 {
        Seq::empty()
    } else {
        known_texts(units, n - 1) + texts_of_unit(units[n - 1])
    }
}

/// The identity of the first text, from `i` on, that stood for other bytes
/// before.
pub open spec fn conflict(known: Seq<SnapshotModel>, i: int) -> Option<Seq<char>>
    decreases known.len() - i,
{
    if i < 0 || i >= known.len() {
        None
    } else {
        match source_index(known, known[i].source_id, i) {
            Some(k) if known[k].bytes != known[i].bytes => Some(known[i].source_id),
            _ => conflict(known, i + 1),
        }
    }
}

/// What is wrong with one unit, given that those before it are in order.
pub open spec fn unit_error(units: Seq<UnitInputModel>, i: int) -> Option<ProjectErrorModel> {
    let unit = units[i];
    let root = unit.tree.root;
    if unit.id.len() == 0 {
        Some(ProjectErrorModel::EmptyUnitId)
    } else if unit.source_id.len() == 0 {
        Some(ProjectErrorModel::EmptySourceId)
    } else if unit_index(units, unit.id, i) is Some {
        Some(ProjectErrorModel::DuplicateUnitId(unit.id))
    } else if source_taken(units, unit.source_id, i) {
        Some(ProjectErrorModel::DuplicateSourceId(unit.source_id))
    } else if root.start != 0 || root.end > unit.source.len() {
        Some(
            ProjectErrorModel::InvalidTreeSource {
                unit_id: unit.id,
                tree_range: Range { start: root.start, end: root.end },
                source_len: unit.source.len() as usize,
            },
        )
    } else if first_configuration(units, i) is Some && unit.configuration_id is Some
        && first_configuration(units, i) != unit.configuration_id {
        Some(
            ProjectErrorModel::IncompatibleConfigurationIds {
                unit_id: unit.id,
                expected: first_configuration(units, i)->0,
                found: unit.configuration_id->0,
            },
        )
    } else {
        match conflict(known_texts(units, i + 1), known_texts(units, i).len() as int) {
            Some(source_id) => Some(ProjectErrorModel::ConflictingOriginalSource { source_id }),
            None => None,
        }
    }
}

/// What is wrong with the first unit, from `i` on, that is not in order.
pub open spec fn units_error(units: Seq<UnitInputModel>, i: int) -> Option<ProjectErrorModel>
    decreases units.len() - i,
{
    if i < 0 || i >= units.len() {
        None
    } else {
        match unit_error(units, i) {
            Some(error) => Some(error),
            None => units_error(units, i + 1),
        }
    }
}

/// The ranges of the unit names in the `uses` clauses below a node, in source
/// order; `in_uses` says that the node already stands in such a clause.
pub open spec fn sites_in(node: SyntaxNode, in_uses: bool) -> Seq<(usize, usize)>
    decreases node, 1int, 0int,
{
    let inside = in_uses || node.kind@ == "declUses"@;
    if inside && node.kind@ == "moduleName"@ {
        seq![(node.start, node.end)]
    } else {
        sites_in_list(node.children@, inside, node.children@.len() as int)
    }
}

/// The ranges of the unit names in the `uses` clauses of the first `n` nodes.
pub open spec fn sites_in_list(nodes: Seq<SyntaxNode>, in_uses: bool, n: int) -> Seq<
    (usize, usize),
>
    decreases nodes, 0int, n,
{
    if n <= 0 || n > nodes.len() {
        Seq::empty()
    } else {
        sites_in_list(nodes, in_uses, n - 1) + sites_in(nodes[n - 1], in_uses)
    }
}

/// Whether every dotted part of a qualifier is there and holds no white space.
pub open spec fn qualifier_ok(qualifier: Seq<char>) -> bool {
    forall|i: int|
        0 <= i < split_text(qualifier, '.').len() ==> solid(#[trigger] split_text(qualifier, '.')[i])
}

/// Whether a text is not empty and holds no white space.
pub open spec fn solid(part: Seq<char>) -> bool {
    part.len() > 0 && forall|k: int| 0 <= k < part.len() ==> !is_white(#[trigger] part[k])
}

/// The first qualifier, from `i` on, that is not in order.
pub open spec fn bad_qualifier(qualifiers: Seq<Seq<char>>, i: int) -> Option<Seq<char>>
    decreases qualifiers.len() - i,
{
    if i < 0 || i >= qualifiers.len() {
        None
    } else if !qualifier_ok(qualifiers[i]) {
        Some(qualifiers[i])
    } else {
        bad_qualifier(qualifiers, i + 1)
    }
}

/// Whether one of the first `n` choices is for the given place.
pub open spec fn site_taken(imports: Seq<ImportBindingModel>, site: SiteModel, n: int) -> bool {
    exists|k: int| 0 <= k < n && (#[trigger] imports[k]).site == site
}

/// What is wrong with one choice, given that those before it are in order.
pub open spec fn import_error(
    units: Seq<UnitInputModel>,
    imports: Seq<ImportBindingModel>,
    i: int,
) -> Option<ProjectErrorModel> {
    let import = imports[i];
    let site = import.site;
    let importer = unit_index(units, site.unit_id, units.len() as int);
    if importer is None || !sites_in(units[importer->0].tree.root, false).contains(
        (site.start, site.end),
    ) {
        Some(
            ProjectErrorModel::InvalidImportSite {
                unit_id: site.unit_id,
                byte_range: site.range(),
            },
        )
    } else if site_taken(imports, site, i) {
        Some(
            ProjectErrorModel::DuplicateImportSite {
                unit_id: site.unit_id,
                byte_range: site.range(),
            },
        )
    } else {
        match import.target {
            ImportTargetModel::Loaded(target) if unit_index(units, target, units.len() as int)
                is None => Some(
                ProjectErrorModel::DanglingLoadedTarget { importer: site.unit_id, target },
            ),
            _ => match bad_qualifier(import.qualifiers, 0) {
                Some(qualifier) => Some(ProjectErrorModel::InvalidQualifier(qualifier)),
                None => None,
            },
        }
    }
}

/// What is wrong with the first choice, from `i` on, that is not in order.
pub open spec fn imports_error(
    units: Seq<UnitInputModel>,
    imports: Seq<ImportBindingModel>,
    i: int,
) -> Option<ProjectErrorModel>
    decreases imports.len() - i,
{
    if i < 0 || i >= imports.len() {
        None
    } else {
        match import_error(units, imports, i) {
            Some(error) => Some(error),
            None => imports_error(units, imports, i + 1),
        }
    }
}

/// The mathematical value of a project snapshot.
#[verifier::ext_equal]
pub struct ProjectModel {
    pub units: Seq<UnitInputModel>,
    pub imports: Seq<ImportBindingModel>,
}

impl ProjectModel {
    /// The first thing that is wrong with the snapshot: the units are looked at
    /// before the choices, both in their order.
    pub open spec fn error(self) -> Option<ProjectErrorModel> {
        match units_error(self.units, 0) {
            Some(error) => Some(error),
            None => imports_error(self.units, self.imports, 0),
        }
    }

    /// Whether nothing is wrong with the snapshot.
    pub open spec fn valid(self) -> bool {
        self.error() is None
    }

    /// The position of the unit with the given identity.
    pub open spec fn find(self, id: Seq<char>) -> Option<int> {
        unit_index(self.units, id, self.units.len() as int)
    }

    /// Whether two snapshots have the same choices, and units that read as each
    /// other, one by one.
    pub open spec fn reads_as(self, other: ProjectModel) -> bool {
        &&& self.imports == other.imports
        &&& self.units.len() == other.units.len()
        &&& forall|k: int|
            0 <= k < self.units.len() ==> (#[trigger] self.units[k]).reads_as(other.units[k])
    }
}

/// A unit with an identity that none before it has is the one found.
pub(crate) proof fn lemma_unit_index(units: Seq<UnitInputModel>, id: Seq<char>, i: int, n: int)
    requires
        0 <= i < n,
        unit_index(units, id, i) is None,
        units[i].id == id,
    ensures
        unit_index(units, id, n) == Some(i),
    decreases n,
{
    if n > i + 1 {
        lemma_unit_index(units, id, i, n - 1);
    }
}

/// The unit found for an identity has that identity.
pub proof fn lemma_unit_found(units: Seq<UnitInputModel>, id: Seq<char>, n: int)
    requires
        0 <= n <= units.len(),
    ensures
        match unit_index(units, id, n) {
            Some(k) => 0 <= k < n && units[k].id == id,
            None => forall|k: int| 0 <= k < n ==> (#[trigger] units[k]).id != id,
        },
    decreases n,
{
    if n > 0 {
        lemma_unit_found(units, id, n - 1);
    }
}

/// The position of the first of the first `n` units with an identity.
pub(crate) fn find_unit(units: &[ProjectUnitInput], id: &ProjectUnitId, n: usize) -> (r: Option<
    usize,
>)
    requires
        n <= units@.len(),
    ensures
        match r {
            Some(k) => k < n && unit_index(unit_models(units@), id@, n as int) == Some(k as int),
            None => unit_index(unit_models(units@), id@, n as int) is None,
        },
{
    let ghost models = unit_models(units@);
    let mut i: usize = 0;
    while i < n
        invariant
            i <= n <= units@.len(),
            models == unit_models(units@),
            unit_index(models, id@, i as int) is None,
        decreases n - i,
    {
        assert(models[i as int] == units@[i as int]@);
        if units[i].id().same(id) {
            proof {
                lemma_unit_index(models, id@, i as int, n as int);
            }
            return Some(i);
        }
        i = i + 1;
    }
    None
}

fn has_source(units: &Vec<ProjectUnitInput>, id: &ProjectSourceId, n: usize) -> (r: bool)
    requires
        n <= units@.len(),
    ensures
        r == source_taken(unit_models(units@), id@, n as int),
{
    let ghost models = unit_models(units@);
    let mut i: usize = 0;
    while i < n
        invariant
            i <= n <= units@.len(),
            models == unit_models(units@),
            forall|k: int| 0 <= k < i ==> (#[trigger] models[k]).source_id != id@,
        decreases n - i,
    {
        assert(models[i as int] == units@[i as int]@);
        if units[i].source_id().same(id) {
            return true;
        }
        i = i + 1;
    }
    false
}

fn configuration_among(units: &[ProjectUnitInput], n: usize) -> (r: Option<&str>)
    requires
        n <= units@.len(),
    ensures
        match r {
            Some(id) => first_configuration(unit_models(units@), n as int) == Some(id@),
            None => first_configuration(unit_models(units@), n as int) is None,
        },
{
    let ghost models = unit_models(units@);
    let mut i: usize = 0;
    while i < n
        invariant
            i <= n <= units@.len(),
            models == unit_models(units@),
            first_configuration(models, i as int) is None,
        decreases n - i,
    {
        assert(models[i as int] == units@[i as int]@);
        if let Some(id) = units[i].configuration_id() {
            proof {
                lemma_first_configuration(models, i as int + 1, n as int);
            }
            return Some(id);
        }
        i = i + 1;
    }
    None
}

proof fn lemma_first_configuration(units: Seq<UnitInputModel>, i: int, n: int)
    requires
        i <= n,
        first_configuration(units, i) is Some,
    ensures
        first_configuration(units, n) == first_configuration(units, i),
    decreases n - i,
{
    if i < n {
        lemma_first_configuration(units, i, n - 1);
    }
}

/// A lookup among the first `n` texts does not depend on those behind.
proof fn lemma_text_prefix(a: Seq<SnapshotModel>, b: Seq<SnapshotModel>, id: Seq<char>, n: int)
    requires
        0 <= n <= a.len(),
        n <= b.len(),
        forall|k: int| 0 <= k < n ==> a[k] == b[k],
    ensures
        source_index(a, id, n) == source_index(b, id, n),
        match source_index(a, id, n) {
            Some(k) => 0 <= k < n,
            None => true,
        },
    decreases n,
{
    if n > 0 {
        lemma_text_prefix(a, b, id, n - 1);
    }
}

/// Adds a text to the known ones. Returns whether its identity stood for other
/// bytes before.
fn add_text(
    known: &mut Vec<SourceSnapshot>,
    id: &ProjectSourceId,
    bytes: &[u8],
    Ghost(all): Ghost<Seq<SnapshotModel>>,
) -> (r: bool)
    requires
        old(known)@.len() < all.len(),
        snapshot_models(old(known)@) == all.take(old(known)@.len() as int),
        all[old(known)@.len() as int] == (SnapshotModel { source_id: id@, bytes: bytes@ }),
    ensures
        final(known)@.len() == old(known)@.len() + 1,
        snapshot_models(final(known)@) == all.take(final(known)@.len() as int),
        conflict(all, old(known)@.len() as int) == (if r {
            Some(id@)
        } else {
            conflict(all, old(known)@.len() as int + 1)
        }),
{
    let ghost models = snapshot_models(known@);
    let ghost n = known@.len() as int;
    assert(models.len() == n);
    proof {
        lemma_text_prefix(models, all, id@, n);
    }
    let clash = match find_source(known, id, known.len()) {
        Some(k) => {
            assert(models[k as int] == known@[k as int]@);
            !same_bytes(known[k].bytes(), bytes)
        },
        None => false,
    };
    known.push(SourceSnapshot::new(id.clone(), bytes));
    assert(snapshot_models(known@) =~= all.take(n + 1)) by {
        assert forall|j: int| 0 <= j < n + 1 implies snapshot_models(known@)[j] == all.take(
            n + 1,
        )[j] by {
            if j < n {
                assert(models[j] == all.take(n)[j]);
                assert(models[j] == known@[j]@);
            }
        }
    }
    clash
}

fn check_texts(known: &mut Vec<SourceSnapshot>, units: &Vec<ProjectUnitInput>, i: usize) -> (r:
    Option<ProjectSourceId>)
    requires
        i < units@.len(),
        snapshot_models(old(known)@) == known_texts(unit_models(units@), i as int),
    ensures
        ({
            let all = known_texts(unit_models(units@), i as int + 1);
            let before = known_texts(unit_models(units@), i as int).len() as int;
            match r {
                Some(id) => conflict(all, before) == Some(id@),
                None => conflict(all, before) is None && snapshot_models(final(known)@) == all,
            }
        }),
{
    let unit = &units[i];
    assert(unit_models(units@)[i as int] == unit@);
    let ghost all = known_texts(unit_models(units@), i as int + 1);
    let ghost before = known@.len() as int;
    assert(snapshot_models(known@).len() == before);
    assert(all =~= snapshot_models(known@) + texts_of_unit(unit@));
    assert(all.take(before) =~= snapshot_models(known@));
    if add_text(known, unit.source_id(), unit.source(), Ghost(all)) {
        return Some(unit.source_id().clone());
    }
    let originals = unit.original_sources();
    let ghost added = snapshot_models(originals@);
    assert(added.len() == originals@.len());
    let mut k: usize = 0;
    while k < originals.len()
        invariant
            k <= originals@.len(),
            all == known_texts(unit_models(units@), i as int + 1),
            before == known_texts(unit_models(units@), i as int).len(),
            added == snapshot_models(originals@),
            added.len() == originals@.len(),
            all.len() == before + 1 + added.len(),
            forall|j: int| 0 <= j < added.len() ==> all[before + 1 + j] == #[trigger] added[j],
            known@.len() == before + 1 + k,
            snapshot_models(known@) == all.take(before + 1 + k),
            conflict(all, before) == conflict(all, before + 1 + k),
        decreases originals@.len() - k,
    {
        let original = &originals[k];
        assert(added[k as int] == original@);
        if add_text(known, original.source_id(), original.bytes(), Ghost(all)) {
            return Some(original.source_id().clone());
        }
        k = k + 1;
    }
    assert(all.take(before + 1 + k) =~= all);
    None
}

fn check_unit(known: &mut Vec<SourceSnapshot>, units: &Vec<ProjectUnitInput>, i: usize) -> (r:
    Option<ProjectSnapshotError>)
    requires
        i < units@.len(),
        snapshot_models(old(known)@) == known_texts(unit_models(units@), i as int),
    ensures
        match r {
            Some(error) => unit_error(unit_models(units@), i as int) == Some(error@),
            None => unit_error(unit_models(units@), i as int) is None && snapshot_models(
                final(known)@,
            ) == known_texts(unit_models(units@), i as int + 1),
        },
{
    let unit = &units[i];
    assert(unit_models(units@)[i as int] == unit@);
    if unit.id().is_empty() {
        return Some(ProjectSnapshotError::EmptyUnitId);
    }
    if unit.source_id().is_empty() {
        return Some(ProjectSnapshotError::EmptySourceId);
    }
    if find_unit(units.as_slice(), unit.id(), i).is_some() {
        return Some(ProjectSnapshotError::DuplicateUnitId(unit.id().clone()));
    }
    if has_source(units, unit.source_id(), i) {
        return Some(ProjectSnapshotError::DuplicateSourceId(unit.source_id().clone()));
    }
    let root = &unit.tree().root;
    if root.start != 0 || root.end > unit.source().len() {
        return Some(
            ProjectSnapshotError::InvalidTreeSource {
                unit_id: unit.id().clone(),
                tree_range: root.start..root.end,
                source_len: unit.source().len(),
            },
        );
    }
    if let Some(found) = unit.configuration_id() {
        if let Some(expected) = configuration_among(units.as_slice(), i) {
            if !same_text(expected, found) {
                return Some(
                    ProjectSnapshotError::IncompatibleConfigurationIds {
                        unit_id: unit.id().clone(),
                        expected: expected.to_owned(),
                        found: found.to_owned(),
                    },
                );
            }
        }
    }
    match check_texts(known, units, i) {
        Some(source_id) => Some(ProjectSnapshotError::ConflictingOriginalSource { source_id }),
        None => None,
    }
}

fn check_units(units: &Vec<ProjectUnitInput>) -> (r: Option<ProjectSnapshotError>)
    ensures
        match r {
            Some(error) => units_error(unit_models(units@), 0) == Some(error@),
            None => units_error(unit_models(units@), 0) is None,
        },
{
    let ghost models = unit_models(units@);
    let mut known: Vec<SourceSnapshot> = Vec::new();
    assert(snapshot_models(known@) =~= known_texts(models, 0));
    let mut i: usize = 0;
    while i < units.len()
        invariant
            i <= units@.len(),
            models == unit_models(units@),
            models.len() == units@.len(),
            snapshot_models(known@) == known_texts(models, i as int),
            units_error(models, 0) == units_error(models, i as int),
        decreases units@.len() - i,
    {
        if let Some(error) = check_unit(&mut known, units, i) {
            return Some(error);
        }
        i = i + 1;
    }
    None
}

fn collect_sites(node: &SyntaxNode, in_uses: bool, out: &mut Vec<(usize, usize)>)
    ensures
        final(out)@ == old(out)@ + sites_in(*node, in_uses),
    decreases node,
{
    let inside = in_uses || node.is_kind("declUses");
    if inside && node.is_kind("moduleName") {
        out.push((node.start, node.end));
        assert(out@ =~= old(out)@ + sites_in(*node, in_uses));
        return;
    }
    let ghost before = out@;
    let mut i: usize = 0;
    assert(out@ =~= before + sites_in_list(node.children@, inside, 0));
    while i < node.children.len()
        invariant
            i <= node.children@.len(),
            out@ == before + sites_in_list(node.children@, inside, i as int),
        decreases node.children@.len() - i,
    {
        collect_sites(&node.children[i], inside, out);
        i = i + 1;
        assert(out@ =~= before + sites_in_list(node.children@, inside, i as int));
    }
}

/// The ranges of the unit names in the `uses` clauses of a tree.
pub fn import_site_spans(root: &SyntaxNode) -> (r: Vec<(usize, usize)>)
    ensures
        r@ == sites_in(*root, false),
{
    let mut out: Vec<(usize, usize)> = Vec::new();
    collect_sites(root, false, &mut out);
    assert(out@ =~= sites_in(*root, false));
    out
}

/// Whether a list of ranges holds a range.
pub(crate) fn has_span(spans: &Vec<(usize, usize)>, start: usize, end: usize) -> (r: bool)
    ensures
        r == spans@.contains((start, end)),
{
    let mut i: usize = 0;
    while i < spans.len()
        invariant
            i <= spans@.len(),
            forall|k: int| 0 <= k < i ==> spans@[k] != (start, end),
        decreases spans@.len() - i,
    {
        if spans[i].0 == start && spans[i].1 == end {
            assert(spans@[i as int] == (start, end));
            return true;
        }
        i = i + 1;
    }
    false
}

fn is_solid(part: &str) -> (r: bool)
    ensures
        r == solid(part@),
{
    let chars = chars_of(part);
    let mut i: usize = 0;
    while i < chars.len()
        invariant
            i <= chars@.len(),
            chars@ == part@,
            forall|k: int| 0 <= k < i ==> !is_white(#[trigger] part@[k]),
        decreases chars@.len() - i,
    {
        if white(chars[i]) {
            assert(is_white(part@[i as int]));
            return false;
        }
        i = i + 1;
    }
    chars.len() > 0
}

/// Whether every dotted part of a qualifier is there and holds no white space.
pub fn valid_qualifier(qualifier: &str) -> (r: bool)
    ensures
        r == qualifier_ok(qualifier@),
{
    let parts = split(qualifier, '.');
    let ghost expected = split_text(qualifier@, '.');
    assert(texts(parts@) == expected);
    assert(expected.len() == parts@.len());
    let mut i: usize = 0;
    while i < parts.len()
        invariant
            i <= parts@.len(),
            texts(parts@) == expected,
            expected.len() == parts@.len(),
            expected == split_text(qualifier@, '.'),
            forall|k: int| 0 <= k < i ==> solid(#[trigger] expected[k]),
        decreases parts@.len() - i,
    {
        assert(expected[i as int] == parts@[i as int]@);
        if !is_solid(parts[i].as_str()) {
            return false;
        }
        i = i + 1;
    }
    true
}

fn check_qualifiers(qualifiers: &[String]) -> (r: Option<String>)
    ensures
        match r {
            Some(qualifier) => bad_qualifier(texts(qualifiers@), 0) == Some(qualifier@),
            None => bad_qualifier(texts(qualifiers@), 0) is None,
        },
{
    let ghost models = texts(qualifiers@);
    let mut i: usize = 0;
    while i < qualifiers.len()
        invariant
            i <= qualifiers@.len(),
            models == texts(qualifiers@),
            models.len() == qualifiers@.len(),
            bad_qualifier(models, 0) == bad_qualifier(models, i as int),
        decreases qualifiers@.len() - i,
    {
        assert(models[i as int] == qualifiers@[i as int]@);
        if !valid_qualifier(qualifiers[i].as_str()) {
            return Some(qualifiers[i].clone());
        }
        i = i + 1;
    }
    None
}

fn has_site(imports: &Vec<ImportBinding>, site: &UsesSite, n: usize) -> (r: bool)
    requires
        n <= imports@.len(),
    ensures
        r == site_taken(import_models(imports@), site@, n as int),
{
    let ghost models = import_models(imports@);
    let mut i: usize = 0;
    while i < n
        invariant
            i <= n <= imports@.len(),
            models == import_models(imports@),
            forall|k: int| 0 <= k < i ==> (#[trigger] models[k]).site != site@,
        decreases n - i,
    {
        assert(models[i as int] == imports@[i as int]@);
        let other = imports[i].site();
        if other.unit_id().same(site.unit_id()) && other.byte_range.start == site.byte_range.start
            && other.byte_range.end == site.byte_range.end {
            return true;
        }
        i = i + 1;
    }
    false
}

fn check_import(units: &Vec<ProjectUnitInput>, imports: &Vec<ImportBinding>, i: usize) -> (r: Option<
    ProjectSnapshotError,
>)
    requires
        i < imports@.len(),
    ensures
        match r {
            Some(error) => import_error(
                unit_models(units@),
                import_models(imports@),
                i as int,
            ) == Some(error@),
            None => import_error(
                unit_models(units@),
                import_models(imports@),
                i as int,
            ) is None,
        },
{
    let import = &imports[i];
    let site = import.site();
    assert(import_models(imports@)[i as int] == import@);
    assert(unit_models(units@).len() == units@.len());
    match find_unit(units.as_slice(), site.unit_id(), units.len()) {
        None => {
            return Some(
                ProjectSnapshotError::InvalidImportSite {
                    unit_id: site.unit_id().clone(),
                    byte_range: site.byte_range(),
                },
            );
        },
        Some(k) => {
            assert(unit_models(units@)[k as int] == units@[k as int]@);
            let spans = import_site_spans(&units[k].tree().root);
            if !has_span(&spans, site.byte_range.start, site.byte_range.end) {
                return Some(
                    ProjectSnapshotError::InvalidImportSite {
                        unit_id: site.unit_id().clone(),
                        byte_range: site.byte_range(),
                    },
                );
            }
        },
    }
    if has_site(imports, site, i) {
        return Some(
            ProjectSnapshotError::DuplicateImportSite {
                unit_id: site.unit_id().clone(),
                byte_range: site.byte_range(),
            },
        );
    }
    if let ImportTarget::Loaded(target) = import.target() {
        if find_unit(units.as_slice(), target, units.len()).is_none() {
            return Some(
                ProjectSnapshotError::DanglingLoadedTarget {
                    importer: site.unit_id().clone(),
                    target: target.clone(),
                },
            );
        }
    }
    match check_qualifiers(import.authorized_qualifiers()) {
        Some(qualifier) => Some(ProjectSnapshotError::InvalidQualifier(qualifier)),
        None => None,
    }
}

fn check_imports(units: &Vec<ProjectUnitInput>, imports: &Vec<ImportBinding>) -> (r: Option<
    ProjectSnapshotError,
>)
    ensures
        match r {
            Some(error) => imports_error(unit_models(units@), import_models(imports@), 0) == Some(
                error@,
            ),
            None => imports_error(unit_models(units@), import_models(imports@), 0) is None,
        },
{
    let ghost models = import_models(imports@);
    let mut i: usize = 0;
    while i < imports.len()
        invariant
            i <= imports@.len(),
            models == import_models(imports@),
            models.len() == imports@.len(),
            imports_error(unit_models(units@), models, 0) == imports_error(
                unit_models(units@),
                models,
                i as int,
            ),
        decreases imports@.len() - i,
    {
        if let Some(error) = check_import(units, imports, i) {
            return Some(error);
        }
        i = i + 1;
    }
    None
}

/// A set of parsed units with the choices made for their `uses` clauses.
#[derive(Debug)]
pub struct ProjectSnapshot {
    units: Vec<ProjectUnitInput>,
    imports: Vec<ImportBinding>,
}

impl View for ProjectSnapshot {
    type V = ProjectModel;

    closed spec fn view(&self) -> ProjectModel {
        ProjectModel { units: unit_models(self.units@), imports: import_models(self.imports@) }
    }
}

impl Clone for ProjectSnapshot {
    fn clone(&self) -> (r: ProjectSnapshot)
        ensures
            r@.reads_as(self@),
    {
        proof {
            use_type_invariant(self);
        }
        let mut units: Vec<ProjectUnitInput> = Vec::new();
        let mut i: usize = 0;
        while i < self.units.len()
            invariant
                i <= self.units.len(),
                units@.len() == i,
                forall|k: int|
                    0 <= k < i ==> (#[trigger] units@[k])@.reads_as(self.units@[k]@),
            decreases self.units.len() - i,
        {
            units.push(self.units[i].clone());
            i = i + 1;
        }
        let mut imports: Vec<ImportBinding> = Vec::new();
        let mut n: usize = 0;
        while n < self.imports.len()
            invariant
                n <= self.imports.len(),
                imports@.len() == n,
                forall|k: int| 0 <= k < n ==> (#[trigger] imports@[k])@ == self.imports@[k]@,
            decreases self.imports.len() - n,
        {
            imports.push(self.imports[n].clone());
            n = n + 1;
        }
        proof {
            let model = ProjectModel {
                units: unit_models(units@),
                imports: import_models(imports@),
            };
            assert(model.imports =~= self@.imports);
            assert forall|k: int| 0 <= k < model.units.len() implies (
            #[trigger] model.units[k]).reads_as(self@.units[k]) by {
                assert(units@[k]@.reads_as(self.units@[k]@));
            }
            law_equal_nodes_give_equal_verdicts(model, self@);
        }
        ProjectSnapshot { units, imports }
    }
}

impl ProjectSnapshot {
    #[verifier::type_invariant]
    spec fn checked(&self) -> bool {
        self@.valid()
    }

    /// Checks units and choices.
    ///
    /// A unit name without a choice is permitted: it stands for an unknown
    /// namespace and is never looked up by its spelling.
    pub fn new(units: Vec<ProjectUnitInput>, imports: Vec<ImportBinding>) -> (r: Result<
        ProjectSnapshot,
        ProjectSnapshotError,
    >)
        ensures
            ({
                let model = ProjectModel {
                    units: unit_models(units@),
                    imports: import_models(imports@),
                };
                match r {
                    Ok(snapshot) => model.valid() && snapshot@ == model,
                    Err(error) => model.error() == Some(error@),
                }
            }),
    {
        if let Some(error) = check_units(&units) {
            return Err(error);
        }
        if let Some(error) = check_imports(&units, &imports) {
            return Err(error);
        }
        Ok(ProjectSnapshot { units, imports })
    }

    /// The units in the order in which they were given.
    pub fn units(&self) -> (r: &[ProjectUnitInput])
        ensures
            unit_models(r@) == self@.units,
    {
        self.units.as_slice()
    }

    /// The choices in the order in which they were given.
    pub fn imports(&self) -> (r: &[ImportBinding])
        ensures
            import_models(r@) == self@.imports,
    {
        self.imports.as_slice()
    }

    /// The unit with the given identity.
    pub fn unit(&self, id: &ProjectUnitId) -> (r: Option<&ProjectUnitInput>)
        ensures
            match r {
                Some(unit) => self@.find(id@) is Some && unit@ == self@.units[self@.find(id@)->0],
                None => self@.find(id@) is None,
            },
    {
        assert(self@.units.len() == self.units@.len());
        match find_unit(self.units.as_slice(), id, self.units.len()) {
            Some(k) => {
                assert(self@.units[k as int] == self.units@[k as int]@);
                Some(&self.units[k])
            },
            None => None,
        }
    }

    /// The configuration that the prepared units share, if there are any.
    pub fn configuration_id(&self) -> (r: Option<&str>)
        ensures
            match r {
                Some(id) => first_configuration(self@.units, self@.units.len() as int) == Some(id@),
                None => first_configuration(self@.units, self@.units.len() as int) is None,
            },
    {
        assert(self@.units.len() == self.units@.len());
        configuration_among(self.units.as_slice(), self.units.len())
    }
}

pub proof fn lemma_units_hold(units: Seq<UnitInputModel>, i: int)
    requires
        0 <= i <= units.len(),
        units_error(units, i) is None,
    ensures
        forall|k: int| i <= k < units.len() ==> (#[trigger] unit_error(units, k)) is None,
    decreases units.len() - i,
{
    if i < units.len() {
        lemma_units_hold(units, i + 1);
    }
}

proof fn lemma_imports_hold(
    units: Seq<UnitInputModel>,
    imports: Seq<ImportBindingModel>,
    i: int,
)
    requires
        0 <= i <= imports.len(),
        imports_error(units, imports, i) is None,
    ensures
        forall|k: int|
            i <= k < imports.len() ==> (#[trigger] import_error(units, imports, k)) is None,
    decreases imports.len() - i,
{
    if i < imports.len() {
        lemma_imports_hold(units, imports, i + 1);
    }
}

/// Each unit of a snapshot is the one that its identity finds, and no other unit
/// has its source identity.
pub proof fn law_units_are_distinct(project: ProjectModel, i: int)
    requires
        project.valid(),
        0 <= i < project.units.len(),
    ensures
        project.units[i].id.len() > 0,
        project.find(project.units[i].id) == Some(i),
        forall|k: int|
            0 <= k < project.units.len() && k != i ==> (#[trigger] project.units[k]).id
                != project.units[i].id && project.units[k].source_id != project.units[i].source_id,
{
    let units = project.units;
    lemma_units_hold(units, 0);
    assert(unit_error(units, i) is None);
    lemma_unit_index(units, units[i].id, i, units.len() as int);
    lemma_unit_found(units, units[i].id, i);
    assert forall|k: int| 0 <= k < units.len() && k != i implies (#[trigger] units[k]).id
        != units[i].id && units[k].source_id != units[i].source_id by {
        assert(unit_error(units, k) is None);
        lemma_unit_found(units, units[k].id, k);
        if k < i {
            assert(!source_taken(units, units[i].source_id, i));
        } else {
            assert(!source_taken(units, units[k].source_id, k));
            assert(units[i].source_id != units[k].source_id);
        }
    }
}

/// All prepared units of a snapshot were made under the configuration that the
/// snapshot names.
pub proof fn law_one_configuration(project: ProjectModel, i: int)
    requires
        project.valid(),
        0 <= i < project.units.len(),
        project.units[i].configuration_id is Some,
    ensures
        first_configuration(project.units, project.units.len() as int)
            == project.units[i].configuration_id,
{
    let units = project.units;
    lemma_units_hold(units, 0);
    assert(unit_error(units, i) is None);
    assert(first_configuration(units, i + 1) == units[i].configuration_id);
    lemma_first_configuration(units, i + 1, units.len() as int);
}

proof fn lemma_no_conflict(known: Seq<SnapshotModel>, i: int, k: int)
    requires
        0 <= i <= k < known.len(),
        conflict(known, i) is None,
    ensures
        match source_index(known, known[k].source_id, k) {
            Some(j) => known[j].bytes == known[k].bytes,
            None => true,
        },
    decreases k - i,
{
    if i < k {
        lemma_no_conflict(known, i + 1, k);
    }
}

/// Every text of the first `n` units agrees with the first text of its identity.
proof fn lemma_texts_agree(units: Seq<UnitInputModel>, n: int, k: int)
    requires
        0 <= n <= units.len(),
        forall|i: int| 0 <= i < n ==> (#[trigger] unit_error(units, i)) is None,
        0 <= k < known_texts(units, n).len(),
    ensures
        ({
            let known = known_texts(units, n);
            match source_index(known, known[k].source_id, k) {
                Some(j) => known[j].bytes == known[k].bytes,
                None => true,
            }
        }),
    decreases n,
{
    let known = known_texts(units, n);
    let before = known_texts(units, n - 1);
    assert(unit_error(units, n - 1) is None);
    if k < before.len() {
        lemma_texts_agree(units, n - 1, k);
        assert forall|j: int| 0 <= j <= k implies before[j] == known[j] by {}
        lemma_text_prefix(before, known, known[k].source_id, k);
    } else {
        lemma_no_conflict(known, before.len() as int, k);
    }
}

/// One source identity stands for one text throughout a snapshot, whether the
/// text is that of a unit or an original source that a prepared unit retains.
pub proof fn law_one_text_per_source(project: ProjectModel, i: int, k: int)
    requires
        project.valid(),
        0 <= i < known_texts(project.units, project.units.len() as int).len(),
        0 <= k < known_texts(project.units, project.units.len() as int).len(),
        known_texts(project.units, project.units.len() as int)[i].source_id == known_texts(
            project.units,
            project.units.len() as int,
        )[k].source_id,
    ensures
        known_texts(project.units, project.units.len() as int)[i].bytes == known_texts(
            project.units,
            project.units.len() as int,
        )[k].bytes,
{
    let n = project.units.len() as int;
    let known = known_texts(project.units, n);
    let id = known[i].source_id;
    lemma_units_hold(project.units, 0);
    lemma_texts_agree(project.units, n, i);
    lemma_texts_agree(project.units, n, k);
    lemma_first_text(known, id, i, known.len() as int);
    lemma_first_text(known, id, k, known.len() as int);
}

/// The first text of an identity is the same however far one looks behind a text
/// that has it.
proof fn lemma_first_text(known: Seq<SnapshotModel>, id: Seq<char>, i: int, n: int)
    requires
        0 <= i < n <= known.len(),
        known[i].source_id == id,
    ensures
        source_index(known, id, n) == (match source_index(known, id, i) {
            Some(j) => Some(j),
            None => Some(i),
        }),
    decreases n,
{
    if n > i + 1 {
        lemma_first_text(known, id, i, n - 1);
    }
}

/// Each choice of a snapshot is for a unit name in a `uses` clause of one of its
/// units; a loaded target is one of its units; no place is chosen for twice.
pub proof fn law_choices_fit_the_units(project: ProjectModel, i: int)
    requires
        project.valid(),
        0 <= i < project.imports.len(),
    ensures
        ({
            let import = project.imports[i];
            let importer = project.find(import.site.unit_id);
            &&& importer is Some
            &&& 0 <= importer->0 < project.units.len()
            &&& sites_in(project.units[importer->0].tree.root, false).contains(
                (import.site.start, import.site.end),
            )
            &&& import.target matches ImportTargetModel::Loaded(target) ==> project.find(target)
                is Some
            &&& forall|k: int|
                0 <= k < project.imports.len() && k != i ==> (#[trigger] project.imports[k]).site
                    != import.site
        }),
{
    let imports = project.imports;
    lemma_imports_hold(project.units, imports, 0);
    assert(import_error(project.units, imports, i) is None);
    lemma_unit_found(project.units, imports[i].site.unit_id, project.units.len() as int);
    assert forall|k: int| 0 <= k < imports.len() && k != i implies (#[trigger] imports[k]).site
        != imports[i].site by {
        assert(import_error(project.units, imports, k) is None);
        if k < i {
            assert(!site_taken(imports, imports[i].site, i));
        } else {
            assert(!site_taken(imports, imports[k].site, k));
            assert(imports[i].site != imports[k].site);
        }
    }
}

} // verus!
