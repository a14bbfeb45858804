//! The declarations of one unit that matter for exception dispatch: its lexical
//! scopes, the names bound in them, and the classes and aliases it declares.

use vstd::prelude::*;
use crate::syntax::{
    any_field, count_hits, hit, is_preprocessor_kind, named_field, named_kind, preprocessor_kind,
    module_from, Query, SyntaxNode,
};
use crate::text::{copy_texts, lower_text, lowercase, opt_texts, same_text, texts};

verus! {

broadcast use {crate::syntax::lemma_find_bounds, crate::syntax::lemma_module_bounds};

/// Identity of a type: the unit that declares it and its number there.
#[derive(Debug, Clone, Copy, PartialEq, Eq, Structural, Hash)]
pub struct TypeId {
    pub unit: usize,
    pub local: usize,
}

/// What a bound name stands for.
#[derive(Debug, Clone, Copy, PartialEq, Eq, Structural)]
pub enum BindingKind {
    Type(TypeId),
    Value,
    Unsupported,
}

/// The visibility under which a name is declared.
#[derive(Debug, Clone, Copy, PartialEq, Eq, Structural)]
pub enum Visibility {
    Default,
    Private,
    StrictPrivate,
    Protected,
    StrictProtected,
    Public,
    Published,
    Unknown,
}

/// What a class itself declares under the name `Create`.
#[derive(Debug, Clone, Copy, PartialEq, Eq, Structural)]
pub enum CreateMember {
    Absent,
    Constructor(Visibility),
    NonConstructor(Visibility),
    Ambiguous,
    Unknown,
}

/// A name bound in a scope from an offset onward.
#[derive(Debug)]
pub struct Binding {
    pub name: String,
    pub start: usize,
    pub kind: BindingKind,
    pub visibility: Visibility,
}

/// A lexical scope.
#[derive(Debug)]
pub struct LexicalScope {
    pub parent: Option<usize>,
    pub start: usize,
    pub end: usize,
    pub bindings: Vec<Binding>,
    /// The class that a method implementation belongs to.
    pub owner_type: Option<TypeId>,
    /// Whether the scope belongs to a method whose owner is not known.
    pub unresolved_owner: bool,
}

/// A written reference to a type.
#[derive(Debug)]
pub struct TypeReference {
    pub parts: Vec<String>,
    pub scope: usize,
    pub offset: usize,
}

/// The declared ancestor of a class.
#[derive(Debug)]
pub enum ParentType {
    Absent,
    Reference(TypeReference),
    Unsupported,
}

/// What a type name is declared as.
#[derive(Debug)]
pub enum TypeDefinition {
    Class {
        class_scope: usize,
        parent: ParentType,
        create_member: CreateMember,
        incomplete: bool,
    },
    Alias(Option<TypeReference>),
    Unsupported,
}

/// A method implementation whose owner is still to be looked up. An owner that
/// is written in an unsupported form has no parts.
#[derive(Debug)]
pub struct PendingMethodOwner {
    pub routine_scope: usize,
    pub owner_parts: Option<Vec<String>>,
    pub enclosing_scope: usize,
    pub offset: usize,
}

/// The declarations of one unit.
#[derive(Debug)]
pub struct UnitTypeIndex {
    pub unit_index: usize,
    pub module_name: Option<String>,
    pub scopes: Vec<LexicalScope>,
    pub types: Vec<TypeDefinition>,
    pub unsupported_ranges: Vec<(usize, usize)>,
    pub with_ranges: Vec<(usize, usize)>,
    pub has_preprocessor_barrier: bool,
    pub pending_method_owners: Vec<PendingMethodOwner>,
    pub interface_range: Option<(usize, usize)>,
    pub parser_incomplete: bool,
}

/// The mathematical value of a [`Binding`].
pub struct BindingModel {
    pub name: Seq<char>,
    pub start: usize,
    pub kind: BindingKind,
    pub visibility: Visibility,
}

/// The mathematical value of a [`LexicalScope`].
#[verifier::ext_equal]
pub struct ScopeModel {
    pub parent: Option<usize>,
    pub start: usize,
    pub end: usize,
    pub bindings: Seq<BindingModel>,
    pub owner_type: Option<TypeId>,
    pub unresolved_owner: bool,
}

/// The mathematical value of a [`TypeReference`].
#[verifier::ext_equal]
pub struct ReferenceModel {
    pub parts: Seq<Seq<char>>,
    pub scope: usize,
    pub offset: usize,
}

/// The mathematical value of a [`ParentType`].
#[verifier::ext_equal]
pub enum ParentModel {
    Absent,
    Reference(ReferenceModel),
    Unsupported,
}

/// The mathematical value of a [`TypeDefinition`].
#[verifier::ext_equal]
pub enum DefinitionModel {
    Class {
        class_scope: usize,
        parent: ParentModel,
        create_member: CreateMember,
        incomplete: bool,
    },
    Alias(Option<ReferenceModel>),
    Unsupported,
}

/// The mathematical value of a [`PendingMethodOwner`].
#[verifier::ext_equal]
pub struct OwnerModel {
    pub routine_scope: usize,
    pub owner_parts: Option<Seq<Seq<char>>>,
    pub enclosing_scope: usize,
    pub offset: usize,
}

/// The mathematical value of a [`UnitTypeIndex`].
#[verifier::ext_equal]
pub struct UnitModel {
    pub unit_index: usize,
    pub module_name: Option<Seq<char>>,
    pub scopes: Seq<ScopeModel>,
    pub types: Seq<DefinitionModel>,
    pub unsupported_ranges: Seq<(usize, usize)>,
    pub with_ranges: Seq<(usize, usize)>,
    pub has_preprocessor_barrier: bool,
    pub pending_method_owners: Seq<OwnerModel>,
    pub interface_range: Option<(usize, usize)>,
    pub parser_incomplete: bool,
}

impl View for Binding {
    type V = BindingModel;

    open spec fn view(&self) -> BindingModel {
        BindingModel {
            name: self.name@,
            start: self.start,
            kind: self.kind,
            visibility: self.visibility,
        }
    }
}

impl View for LexicalScope {
    type V = ScopeModel;

    open spec fn view(&self) -> ScopeModel {
        ScopeModel {
            parent: self.parent,
            start: self.start,
            end: self.end,
            bindings: self.bindings@.map_values(|b: Binding| b@),
            owner_type: self.owner_type,
            unresolved_owner: self.unresolved_owner,
        }
    }
}

impl View for TypeReference {
    type V = ReferenceModel;

    open spec fn view(&self) -> ReferenceModel {
        ReferenceModel { parts: texts(self.parts@), scope: self.scope, offset: self.offset }
    }
}

impl View for ParentType {
    type V = ParentModel;

    open spec fn view(&self) -> ParentModel {
        match self {
            ParentType::Absent => ParentModel::Absent,
            ParentType::Reference(reference) => ParentModel::Reference(reference@),
            ParentType::Unsupported => ParentModel::Unsupported,
        }
    }
}

impl View for TypeDefinition {
    type V = DefinitionModel;

    open spec fn view(&self) -> DefinitionModel {
        match self {
            TypeDefinition::Class { class_scope, parent, create_member, incomplete } => {
                DefinitionModel::Class {
                    class_scope: *class_scope,
                    parent: parent@,
                    create_member: *create_member,
                    incomplete: *incomplete,
                }
            },
            TypeDefinition::Alias(target) => DefinitionModel::Alias(
                match target {
                    Some(reference) => Some(reference@),
                    None => None,
                },
            ),
            TypeDefinition::Unsupported => DefinitionModel::Unsupported,
        }
    }
}

impl View for PendingMethodOwner {
    type V = OwnerModel;

    open spec fn view(&self) -> OwnerModel {
        OwnerModel {
            routine_scope: self.routine_scope,
            owner_parts: opt_texts(self.owner_parts),
            enclosing_scope: self.enclosing_scope,
            offset: self.offset,
        }
    }
}

impl View for UnitTypeIndex {
    type V = UnitModel;

    open spec fn view(&self) -> UnitModel {
        UnitModel {
            unit_index: self.unit_index,
            module_name: crate::syntax::opt_text(self.module_name),
            scopes: self.scopes@.map_values(|s: LexicalScope| s@),
            types: self.types@.map_values(|d: TypeDefinition| d@),
            unsupported_ranges: self.unsupported_ranges@,
            with_ranges: self.with_ranges@,
            has_preprocessor_barrier: self.has_preprocessor_barrier,
            pending_method_owners: self.pending_method_owners@.map_values(
                |o: PendingMethodOwner| o@,
            ),
            interface_range: self.interface_range,
            parser_incomplete: self.parser_incomplete,
        }
    }
}

// Steps of the collection ------------------------------------------------------

impl UnitModel {
    /// The number that the next scope will get.
    pub open spec fn next_scope(self) -> usize {
        self.scopes.len() as usize
    }

    /// The identity that the next type will get.
    pub open spec fn next_type(self) -> TypeId {
        TypeId { unit: self.unit_index, local: self.types.len() as usize }
    }

    /// The unit with one more scope, in which nothing is bound.
    pub open spec fn with_scope(self, parent: Option<usize>, start: usize, end: usize) -> UnitModel {
        UnitModel {
            scopes: self.scopes.push(
                ScopeModel {
                    parent,
                    start,
                    end,
                    bindings: Seq::empty(),
                    owner_type: None,
                    unresolved_owner: false,
                },
            ),
            ..self
        }
    }

    /// The unit with one more name bound in a scope. The empty name is not bound.
    pub open spec fn with_binding(
        self,
        scope: usize,
        name: Seq<char>,
        start: usize,
        kind: BindingKind,
        visibility: Visibility,
    ) -> UnitModel {
        if name.len() == 0 || scope >= self.scopes.len() {
            self
        } else {
            let old = self.scopes[scope as int];
            UnitModel {
                scopes: self.scopes.update(
                    scope as int,
                    ScopeModel {
                        bindings: old.bindings.push(BindingModel { name, start, kind, visibility }),
                        ..old
                    },
                ),
                ..self
            }
        }
    }

    /// The unit with one more type, not yet defined.
    pub open spec fn with_type(self) -> UnitModel {
        UnitModel { types: self.types.push(DefinitionModel::Unsupported), ..self }
    }

    /// The unit with a type defined.
    pub open spec fn with_definition(self, local: usize, definition: DefinitionModel) -> UnitModel {
        if local < self.types.len() {
            UnitModel { types: self.types.update(local as int, definition), ..self }
        } else {
            self
        }
    }

    /// The unit with a preprocessor directive in it.
    pub open spec fn with_directive(self, start: usize, end: usize) -> UnitModel {
        UnitModel {
            has_preprocessor_barrier: true,
            unsupported_ranges: self.unsupported_ranges.push((start, end)),
            ..self
        }
    }

    /// The unit with a `with` statement in it.
    pub open spec fn with_with(self, start: usize, end: usize) -> UnitModel {
        UnitModel { with_ranges: self.with_ranges.push((start, end)), ..self }
    }

    /// The unit with one more method owner to look up.
    pub open spec fn with_owner(self, owner: OwnerModel) -> UnitModel {
        UnitModel { pending_method_owners: self.pending_method_owners.push(owner), ..self }
    }
}

/// How the declarations of `Create` in one class combine.
pub open spec fn merged(current: CreateMember, incoming: CreateMember) -> CreateMember {
    if current == CreateMember::Unknown || incoming == CreateMember::Unknown {
        CreateMember::Unknown
    } else if current == CreateMember::Ambiguous || incoming == CreateMember::Ambiguous {
        CreateMember::Ambiguous
    } else if current == CreateMember::Absent {
        incoming
    } else if incoming == CreateMember::Absent || incoming == current {
        current
    } else {
        CreateMember::Ambiguous
    }
}

/// Combines the declarations of `Create` in one class.
pub fn merge_create_member(current: CreateMember, incoming: CreateMember) -> (r: CreateMember)
    ensures
        r == merged(current, incoming),
{
    if current == CreateMember::Unknown || incoming == CreateMember::Unknown {
        CreateMember::Unknown
    } else if current == CreateMember::Ambiguous || incoming == CreateMember::Ambiguous {
        CreateMember::Ambiguous
    } else if current == CreateMember::Absent {
        incoming
    } else if incoming == CreateMember::Absent || incoming == current {
        current
    } else {
        CreateMember::Ambiguous
    }
}

/// The order in which the members of a class are seen does not matter for what
/// is known of its `Create`: combining is commutative, associative and
/// idempotent, with absence as its unit and the unknown as its zero.
pub proof fn law_create_members_combine(a: CreateMember, b: CreateMember, c: CreateMember)
    ensures
        merged(a, b) == merged(b, a),
        merged(merged(a, b), c) == merged(a, merged(b, c)),
        merged(a, a) == a,
        merged(a, CreateMember::Absent) == a,
        merged(a, CreateMember::Unknown) == CreateMember::Unknown,
{
}

impl UnitTypeIndex {
    fn new_scope(&mut self, parent: Option<usize>, start: usize, end: usize) -> (r: usize)
        ensures
            final(self)@ == old(self)@.with_scope(parent, start, end),
            r == old(self)@.next_scope(),
            r == old(self)@.scopes.len(),
    {
        let id: usize = self.scopes.len();
        let scope = LexicalScope {
            parent,
            start,
            end,
            bindings: Vec::new(),
            owner_type: None,
            unresolved_owner: false,
        };
        assert(scope@.bindings =~= Seq::<BindingModel>::empty());
        self.scopes.push(scope);
        assert(self@ =~= old(self)@.with_scope(parent, start, end));
        id
    }

    fn add_binding(
        &mut self,
        scope: usize,
        name: String,
        start: usize,
        kind: BindingKind,
        visibility: Visibility,
    )
        ensures
            final(self)@ == old(self)@.with_binding(scope, name@, start, kind, visibility),
    {
        if name.as_str().is_empty() || scope >= self.scopes.len() {
            return ;
        }
        let ghost model = BindingModel { name: name@, start, kind, visibility };
        self.scopes[scope].bindings.push(Binding { name, start, kind, visibility });
        proof {
            let s = scope as int;
            let before = old(self).scopes@[s]@;
            assert(self.scopes@[s]@ =~= ScopeModel {
                bindings: before.bindings.push(model),
                ..before
            });
            assert(self@.scopes =~= old(self)@.with_binding(scope, name@, start, kind, visibility).scopes);
            assert(self@ =~= old(self)@.with_binding(scope, name@, start, kind, visibility));
        }
    }

    fn new_type(&mut self) -> (r: TypeId)
        ensures
            final(self)@ == old(self)@.with_type(),
            r == old(self)@.next_type(),
            r.local == old(self)@.types.len(),
    {
        let id = TypeId { unit: self.unit_index, local: self.types.len() };
        self.types.push(TypeDefinition::Unsupported);
        assert(self@ =~= old(self)@.with_type());
        id
    }

    fn define_type(&mut self, local: usize, definition: TypeDefinition)
        ensures
            final(self)@ == old(self)@.with_definition(local, definition@),
    {
        if local < self.types.len() {
            self.types[local] = definition;
            assert(self@.types =~= old(self)@.with_definition(local, definition@).types);
            assert(self@ =~= old(self)@.with_definition(local, definition@));
        }
    }

    fn add_directive(&mut self, start: usize, end: usize)
        ensures
            final(self)@ == old(self)@.with_directive(start, end),
    {
        self.has_preprocessor_barrier = true;
        self.unsupported_ranges.push((start, end));
        assert(self@ =~= old(self)@.with_directive(start, end));
    }

    fn add_with(&mut self, start: usize, end: usize)
        ensures
            final(self)@ == old(self)@.with_with(start, end),
    {
        self.with_ranges.push((start, end));
        assert(self@ =~= old(self)@.with_with(start, end));
    }

    fn add_owner(&mut self, owner: PendingMethodOwner)
        ensures
            final(self)@ == old(self)@.with_owner(owner@),
    {
        self.pending_method_owners.push(owner);
        assert(self@ =~= old(self)@.with_owner(owner@));
    }
}

// Names ---------------------------------------------------------------------------

/// The canonical spelling of the name that a node writes.
pub open spec fn name_of(node: SyntaxNode, source: Seq<u8>) -> Seq<char> {
    lower_text(node.text(source))
}

/// The canonical spelling of the name that a node writes.
pub fn canonical_name(node: &SyntaxNode, source: &[u8]) -> (r: String)
    ensures
        r@ == name_of(*node, source@),
{
    lowercase(node.node_text(source).as_str())
}

/// The parts of a dotted name, or `None` for any other form.
pub open spec fn name_parts_of(node: SyntaxNode, source: Seq<u8>) -> Option<Seq<Seq<char>>>
    decreases node,
{
    if node.kind@ == "identifier"@ {
        Some(seq![name_of(node, source)])
    } else if node.kind@ == "exprDot"@ || node.kind@ == "genericDot"@ {
        match (node.find(any_field("lhs"@)), node.find(any_field("rhs"@))) {
            (Some(l), Some(r)) => match (
                name_parts_of(node.children@[l], source),
                name_parts_of(node.children@[r], source),
            ) {
                (Some(left), Some(right)) => Some(left + right),
                _ => None,
            },
            _ => None,
        }
    } else {
        None
    }
}

/// The parts of a dotted name.
pub fn name_parts(node: &SyntaxNode, source: &[u8]) -> (r: Option<Vec<String>>)
    ensures
        opt_texts(r) == name_parts_of(*node, source@),
    decreases *node,
{
    if node.is_kind("identifier") {
        let mut parts: Vec<String> = Vec::new();
        parts.push(canonical_name(node, source));
        assert(texts(parts@) =~= seq![name_of(*node, source@)]);
        Some(parts)
    } else if node.is_kind("exprDot") || node.is_kind("genericDot") {
        match (node.child_by_field("lhs"), node.child_by_field("rhs")) {
            (Some(l), Some(r)) => {
                match (name_parts(&node.children[l], source), name_parts(&node.children[r], source)) {
                    (Some(left), Some(right)) => {
                        let mut parts = left;
                        let mut rest = right;
                        parts.append(&mut rest);
                        assert(texts(parts@) =~= texts(left@) + texts(right@));
                        Some(parts)
                    },
                    _ => None,
                }
            },
            _ => None,
        }
    } else {
        None
    }
}

/// The query for a named child of any kind.
pub open spec fn any_named() -> Query {
    Query { field: None, kind: None, named: true }
}

/// The index of the only named child, or `None` where there is none or more.
pub open spec fn sole_named(node: SyntaxNode) -> Option<int> {
    if count_hits(node.children@, any_named(), node.children@.len() as int) == 1 {
        node.find(any_named())
    } else {
        None
    }
}

fn sole_named_child(node: &SyntaxNode) -> (r: Option<usize>)
    ensures
        crate::syntax::index_of(r) == sole_named(*node),
        r matches Some(k) ==> k < node.children@.len(),
{
    let mut count: usize = 0;
    let mut first: Option<usize> = None;
    let mut i: usize = 0;
    while i < node.children.len()
        invariant
            count <= i <= node.children@.len(),
            count == count_hits(node.children@, any_named(), i as int),
            match first {
                Some(k) => k < i && node.find(any_named()) == Some(k as int),
                None => count == 0 && node.find(any_named()) == crate::syntax::find_from(
                    node.children@,
                    any_named(),
                    i as int,
                ),
            },
        decreases node.children@.len() - i,
    {
        if node.children[i].named {
            if first.is_none() {
                first = Some(i);
            }
            count = count + 1;
        }
        i = i + 1;
    }
    if count == 1 {
        first
    } else {
        None
    }
}

/// The parts of a written type reference, or `None` for an unsupported form.
pub open spec fn type_parts_of(node: SyntaxNode, source: Seq<u8>) -> Option<Seq<Seq<char>>>
    decreases node,
{
    if node.kind@ == "typeref"@ || node.kind@ == "type"@ {
        match sole_named(node) {
            Some(k) => type_parts_of(node.children@[k], source),
            None => None,
        }
    } else if node.kind@ == "typerefDot"@ {
        match (node.find(any_field("lhs"@)), node.find(any_field("rhs"@))) {
            (Some(l), Some(r)) => match (
                type_parts_of(node.children@[l], source),
                type_parts_of(node.children@[r], source),
            ) {
                (Some(left), Some(right)) => Some(left + right),
                _ => None,
            },
            _ => None,
        }
    } else if node.kind@ == "identifier"@ {
        Some(seq![name_of(node, source)])
    } else {
        None
    }
}

/// The parts of a written type reference.
pub fn type_reference_parts(node: &SyntaxNode, source: &[u8]) -> (r: Option<Vec<String>>)
    ensures
        opt_texts(r) == type_parts_of(*node, source@),
    decreases *node,
{
    if node.is_kind("typeref") || node.is_kind("type") {
        match sole_named_child(node) {
            Some(k) => type_reference_parts(&node.children[k], source),
            None => None,
        }
    } else if node.is_kind("typerefDot") {
        match (node.child_by_field("lhs"), node.child_by_field("rhs")) {
            (Some(l), Some(r)) => {
                match (
                    type_reference_parts(&node.children[l], source),
                    type_reference_parts(&node.children[r], source),
                ) {
                    (Some(left), Some(right)) => {
                        let mut parts = left;
                        let mut rest = right;
                        parts.append(&mut rest);
                        assert(texts(parts@) =~= texts(left@) + texts(right@));
                        Some(parts)
                    },
                    _ => None,
                }
            },
            _ => None,
        }
    } else if node.is_kind("identifier") {
        let mut parts: Vec<String> = Vec::new();
        parts.push(canonical_name(node, source));
        assert(texts(parts@) =~= seq![name_of(*node, source@)]);
        Some(parts)
    } else {
        None
    }
}

/// Whether a subtree uses generics or conditional compilation.
pub open spec fn generic_syntax(node: SyntaxNode) -> bool
    decreases node, 1int, 0int,
{
    node.kind@ == "genericTpl"@ || node.kind@ == "typerefTpl"@ || node.kind@ == "kGeneric"@
        || preprocessor_kind(node.kind@) || generic_syntax_from(node, 0)
}

/// Whether a named child at or behind `i` uses generics or conditional
/// compilation.
pub open spec fn generic_syntax_from(node: SyntaxNode, i: int) -> bool
    decreases node, 0int, node.children@.len() - i,
{
    if i < 0 || i >= node.children@.len() {
        false
    } else {
        (node.children@[i].named && generic_syntax(node.children@[i])) || generic_syntax_from(
            node,
            i + 1,
        )
    }
}

fn has_generic_syntax(node: &SyntaxNode) -> (r: bool)
    ensures
        r == generic_syntax(*node),
    decreases *node,
{
    if node.is_kind("genericTpl") || node.is_kind("typerefTpl") || node.is_kind("kGeneric")
        || is_preprocessor_kind(node.kind.as_str()) {
        return true;
    }
    let mut i: usize = 0;
    while i < node.children.len()
        invariant
            i <= node.children@.len(),
            generic_syntax_from(*node, 0) == generic_syntax_from(*node, i as int),
        decreases node.children@.len() - i,
    {
        if node.children[i].named && has_generic_syntax(&node.children[i]) {
            assert(generic_syntax_from(*node, i as int));
            return true;
        }
        i = i + 1;
    }
    false
}

/// Whether a subtree holds a preprocessor directive.
pub open spec fn directive_in(node: SyntaxNode, source: Seq<u8>) -> bool
    decreases node, 1int, 0int,
{
    node.preprocessor(source) || directive_from(node, source, 0)
}

/// Whether a child at or behind `i` holds a preprocessor directive.
pub open spec fn directive_from(node: SyntaxNode, source: Seq<u8>, i: int) -> bool
    decreases node, 0int, node.children@.len() - i,
{
    if i < 0 || i >= node.children@.len() {
        false
    } else {
        directive_in(node.children@[i], source) || directive_from(node, source, i + 1)
    }
}

/// Whether a subtree holds a preprocessor directive.
pub fn contains_preprocessor_directive(node: &SyntaxNode, source: &[u8]) -> (r: bool)
    ensures
        r == directive_in(*node, source@),
    decreases *node,
{
    if node.is_preprocessor_node(source) {
        return true;
    }
    let mut i: usize = 0;
    while i < node.children.len()
        invariant
            i <= node.children@.len(),
            directive_from(*node, source@, 0) == directive_from(*node, source@, i as int),
        decreases node.children@.len() - i,
    {
        if contains_preprocessor_directive(&node.children[i], source) {
            assert(directive_from(*node, source@, i as int));
            return true;
        }
        i = i + 1;
    }
    false
}

/// The canonical name of the first identifier in a subtree, reached through
/// named nodes in pre-order.
pub open spec fn first_name(node: SyntaxNode, source: Seq<u8>) -> Option<Seq<char>>
    decreases node, 1int, 0int,
{
    if node.kind@ == "identifier"@ {
        Some(name_of(node, source))
    } else {
        first_name_from(node, source, 0)
    }
}

/// The first identifier's name among the named children at or behind `i`.
pub open spec fn first_name_from(node: SyntaxNode, source: Seq<u8>, i: int) -> Option<Seq<char>>
    decreases node, 0int, node.children@.len() - i,
{
    if i < 0 || i >= node.children@.len() {
        None
    } else {
        let here = if node.children@[i].named {
            first_name(node.children@[i], source)
        } else {
            None
        };
        if here is Some {
            here
        } else {
            first_name_from(node, source, i + 1)
        }
    }
}

fn first_identifier(node: &SyntaxNode, source: &[u8]) -> (r: Option<String>)
    ensures
        crate::syntax::opt_text(r) == first_name(*node, source@),
    decreases *node,
{
    if node.is_kind("identifier") {
        return Some(canonical_name(node, source));
    }
    let mut i: usize = 0;
    while i < node.children.len()
        invariant
            i <= node.children@.len(),
            node.kind@ != "identifier"@,
            first_name_from(*node, source@, 0) == first_name_from(*node, source@, i as int),
        decreases node.children@.len() - i,
    {
        if node.children[i].named {
            let found = first_identifier(&node.children[i], source);
            assert(found is Some ==> first_name_from(*node, source@, i as int)
                == crate::syntax::opt_text(found));
            if found.is_some() {
                return found;
            }
        }
        i = i + 1;
    }
    None
}

/// Whether parts are the single name `create`.
pub open spec fn is_create(parts: Option<Seq<Seq<char>>>) -> bool {
    parts matches Some(p) && p.len() == 1 && p[0] == "create"@
}

fn names_create(node: &SyntaxNode, source: &[u8]) -> (r: bool)
    ensures
        r == is_create(name_parts_of(*node, source@)),
{
    match name_parts(node, source) {
        Some(parts) => {
            assert(parts@.len() == texts(parts@).len());
            if parts.len() == 1 {
                assert(texts(parts@)[0] == parts@[0]@);
                same_text(parts[0].as_str(), "create")
            } else {
                false
            }
        },
        None => false,
    }
}

/// The visibility that a class section declares: the first visibility keyword
/// among the named children at or behind `i`.
pub open spec fn section_visibility(node: SyntaxNode, strict: bool, i: int) -> Visibility
    decreases node.children@.len() - i,
{
    if i < 0 || i >= node.children@.len() {
        Visibility::Unknown
    } else {
        let child = node.children@[i];
        if child.named && child.kind@ == "kStrict"@ {
            section_visibility(node, true, i + 1)
        } else if child.named && child.kind@ == "kPrivate"@ {
            if strict {
                Visibility::StrictPrivate
            } else {
                Visibility::Private
            }
        } else if child.named && child.kind@ == "kProtected"@ {
            if strict {
                Visibility::StrictProtected
            } else {
                Visibility::Protected
            }
        } else if child.named && child.kind@ == "kPublic"@ {
            Visibility::Public
        } else if child.named && child.kind@ == "kPublished"@ {
            Visibility::Published
        } else {
            section_visibility(node, strict, i + 1)
        }
    }
}

fn visibility_of_section(node: &SyntaxNode) -> (r: Visibility)
    ensures
        r == section_visibility(*node, false, 0),
{
    let mut strict: bool = false;
    let mut i: usize = 0;
    while i < node.children.len()
        invariant
            i <= node.children@.len(),
            section_visibility(*node, false, 0) == section_visibility(*node, strict, i as int),
        decreases node.children@.len() - i,
    {
        let child = &node.children[i];
        if child.named {
            if child.is_kind("kStrict") {
                strict = true;
            } else if child.is_kind("kPrivate") {
                return if strict {
                    Visibility::StrictPrivate
                } else {
                    Visibility::Private
                };
            } else if child.is_kind("kProtected") {
                return if strict {
                    Visibility::StrictProtected
                } else {
                    Visibility::Protected
                };
            } else if child.is_kind("kPublic") {
                return Visibility::Public;
            } else if child.is_kind("kPublished") {
                return Visibility::Published;
            }
        }
        i = i + 1;
    }
    Visibility::Unknown
}

// The collection ------------------------------------------------------------------

/// Binds the named children under `name` of a declaration as values, from the
/// child `i` on, and combines what is declared as `Create`.
pub open spec fn with_value_names(
    u: UnitModel,
    declaration: SyntaxNode,
    scope: usize,
    source: Seq<u8>,
    visibility: Visibility,
    create: CreateMember,
    i: int,
) -> (UnitModel, CreateMember)
    decreases declaration.children@.len() - i,
{
    if i < 0 || i >= declaration.children@.len() {
        (u, create)
    } else {
        let child = declaration.children@[i];
        if hit(named_field("name"@), child) {
            let name = name_of(child, source);
            with_value_names(
                u.with_binding(scope, name, child.start, BindingKind::Value, visibility),
                declaration,
                scope,
                source,
                visibility,
                if name == "create"@ {
                    merged(create, CreateMember::NonConstructor(visibility))
                } else {
                    create
                },
                i + 1,
            )
        } else {
            with_value_names(u, declaration, scope, source, visibility, create, i + 1)
        }
    }
}

/// Binds the variables and constants of a section.
pub open spec fn with_value_section(
    u: UnitModel,
    node: SyntaxNode,
    scope: usize,
    source: Seq<u8>,
    visibility: Visibility,
    create: CreateMember,
    i: int,
) -> (UnitModel, CreateMember)
    decreases node.children@.len() - i,
{
    if i < 0 || i >= node.children@.len() {
        (u, create)
    } else {
        let child = node.children@[i];
        if child.named && child.kind@ == "ppBlock"@ {
            with_value_section(
                u,
                node,
                scope,
                source,
                visibility,
                merged(create, CreateMember::Unknown),
                i + 1,
            )
        } else if child.named && (child.kind@ == "declVar"@ || child.kind@ == "declConst"@) {
            let (u1, create1) = with_value_names(u, child, scope, source, visibility, create, 0);
            with_value_section(u1, node, scope, source, visibility, create1, i + 1)
        } else {
            with_value_section(u, node, scope, source, visibility, create, i + 1)
        }
    }
}

/// Binds the arguments of a routine.
pub open spec fn with_arguments(
    u: UnitModel,
    args: SyntaxNode,
    scope: usize,
    source: Seq<u8>,
    i: int,
) -> UnitModel
    decreases args.children@.len() - i,
{
    if i < 0 || i >= args.children@.len() {
        u
    } else {
        let child = args.children@[i];
        let u1 = if child.named && child.kind@ == "declArg"@ {
            with_value_names(
                u,
                child,
                scope,
                source,
                Visibility::Default,
                CreateMember::Absent,
                0,
            ).0
        } else {
            u
        };
        with_arguments(u1, args, scope, source, i + 1)
    }
}

/// Binds the name of a declared routine, unless it is qualified.
pub open spec fn with_proc_binding(
    u: UnitModel,
    declaration: SyntaxNode,
    scope: usize,
    source: Seq<u8>,
    unsupported: bool,
    visibility: Visibility,
) -> UnitModel {
    match declaration.find(any_field("name"@)) {
        Some(k) => match name_parts_of(declaration.children@[k], source) {
            Some(parts) => if parts.len() == 1 {
                u.with_binding(
                    scope,
                    parts[0],
                    declaration.start,
                    if unsupported {
                        BindingKind::Unsupported
                    } else {
                        BindingKind::Value
                    },
                    visibility,
                )
            } else {
                u
            },
            None => u,
        },
        None => u,
    }
}

/// The declared ancestor of a class.
pub open spec fn parent_of_class(class: SyntaxNode, scope: usize, source: Seq<u8>) -> ParentModel {
    match class.find(named_field("parent"@)) {
        Some(k) => if count_hits(
            class.children@,
            named_field("parent"@),
            class.children@.len() as int,
        ) > 1 {
            ParentModel::Unsupported
        } else {
            match type_parts_of(class.children@[k], source) {
                Some(parts) => ParentModel::Reference(
                    ReferenceModel { parts, scope, offset: class.children@[k].start },
                ),
                None => ParentModel::Unsupported,
            }
        },
        None => ParentModel::Absent,
    }
}

/// What a type declaration named `Create` contributes.
pub open spec fn type_create_member(
    declaration: SyntaxNode,
    source: Seq<u8>,
    conditional: bool,
    visibility: Visibility,
) -> CreateMember {
    match declaration.find(any_field("name"@)) {
        Some(k) => if is_create(name_parts_of(declaration.children@[k], source)) {
            if conditional || generic_syntax(declaration) {
                CreateMember::Unknown
            } else {
                CreateMember::NonConstructor(visibility)
            }
        } else {
            CreateMember::Absent
        },
        None => CreateMember::Absent,
    }
}

/// What a declared routine named `Create` contributes.
pub open spec fn proc_create_member(
    declaration: SyntaxNode,
    source: Seq<u8>,
    visibility: Visibility,
) -> CreateMember {
    let named = match declaration.find(any_field("name"@)) {
        Some(k) => is_create(name_parts_of(declaration.children@[k], source)),
        None => is_create(name_parts_of(declaration, source)),
    };
    if named {
        if declaration.find(named_kind("kConstructor"@)) is Some && declaration.find(
            any_field("name"@),
        ) is Some {
            CreateMember::Constructor(visibility)
        } else {
            CreateMember::NonConstructor(visibility)
        }
    } else {
        CreateMember::Absent
    }
}

/// The header of a routine definition.
pub open spec fn routine_header(routine: SyntaxNode) -> Option<int> {
    match routine.find(any_field("header"@)) {
        Some(k) => Some(k),
        None => routine.find(named_kind("declProc"@)),
    }
}

/// The scope of a routine with its arguments, and what its name implies: the
/// owner of a method, `Self`, `Result` and the name of a function.
pub open spec fn with_routine_names(
    u: UnitModel,
    routine: SyntaxNode,
    header: SyntaxNode,
    name: SyntaxNode,
    scope: usize,
    enclosing: usize,
    source: Seq<u8>,
) -> UnitModel {
    let parts = name_parts_of(name, source);
    let owner = match parts {
        Some(p) => if p.len() > 1 {
            Some(p.subrange(0, p.len() - 1))
        } else {
            None
        },
        None => None,
    };
    let u1 = if owner is Some || (name.kind@ == "genericDot"@ && parts is None) {
        u.with_owner(
            OwnerModel {
                routine_scope: scope,
                owner_parts: owner,
                enclosing_scope: enclosing,
                offset: routine.start,
            },
        ).with_binding(
            scope,
            "self"@,
            routine.start,
            BindingKind::Value,
            Visibility::Default,
        )
    } else {
        u
    };
    if header.find(named_kind("kFunction"@)) is Some {
        let u2 = u1.with_binding(
            scope,
            "result"@,
            routine.start,
            BindingKind::Value,
            Visibility::Default,
        );
        match parts {
            Some(p) => if p.len() > 0 {
                u2.with_binding(
                    scope,
                    p[p.len() - 1],
                    routine.start,
                    BindingKind::Value,
                    Visibility::Default,
                )
            } else {
                u2
            },
            None => u2,
        }
    } else {
        u1
    }
}

/// The unit with the arguments of a routine or lambda bound.
pub open spec fn with_argument_list(
    u: UnitModel,
    header: SyntaxNode,
    scope: usize,
    source: Seq<u8>,
) -> UnitModel {
    match header.find(named_field("args"@)) {
        Some(k) => with_arguments(u, header.children@[k], scope, source, 0),
        None => u,
    }
}

/// Collects a node: its own declarations and those below it.
pub open spec fn collect(
    u: UnitModel,
    node: SyntaxNode,
    scope: usize,
    source: Seq<u8>,
    conditional: bool,
) -> UnitModel
    decreases node, 3int, 0int,
{
    let directive = node.preprocessor(source);
    let c = conditional || directive;
    let u1 = if directive {
        u.with_directive(node.start, node.end)
    } else {
        u
    };
    let u2 = if node.kind@ == "with"@ {
        u1.with_with(node.start, node.end)
    } else {
        u1
    };
    if node.kind@ == "defProc"@ {
        collect_routine_of(u2, node, scope, source, c)
    } else if node.kind@ == "lambda"@ {
        collect_lambda_of(u2, node, scope, source, c)
    } else if node.kind@ == "for"@ || node.kind@ == "foreach"@ {
        collect_named(
            u2.with_scope(Some(scope), node.start, node.end),
            node,
            u2.next_scope(),
            source,
            c,
            0,
        )
    } else if node.kind@ == "declTypes"@ {
        collect_types(
            u2,
            node,
            scope,
            source,
            c,
            Visibility::Default,
            CreateMember::Absent,
            0,
        ).0
    } else if node.kind@ == "declVars"@ || node.kind@ == "declConsts"@ {
        with_value_section(
            u2,
            node,
            scope,
            source,
            Visibility::Default,
            CreateMember::Absent,
            0,
        ).0
    } else if node.kind@ == "varDef"@ || node.kind@ == "varAssignDef"@ {
        match node.find(named_kind("identifier"@)) {
            Some(k) => u2.with_binding(
                scope,
                name_of(node.children@[k], source),
                node.children@[k].start,
                BindingKind::Value,
                Visibility::Default,
            ),
            None => u2,
        }
    } else if node.kind@ == "declProc"@ {
        with_proc_binding(u2, node, scope, source, c, Visibility::Default)
    } else if node.kind@ == "exceptionHandler"@ {
        collect_handler_of(u2, node, scope, source, c)
    } else {
        collect_named(u2, node, scope, source, c, 0)
    }
}

/// Collects the named children of a node from the child `i` on.
pub open spec fn collect_named(
    u: UnitModel,
    node: SyntaxNode,
    scope: usize,
    source: Seq<u8>,
    conditional: bool,
    i: int,
) -> UnitModel
    decreases node, 1int, node.children@.len() - i,
{
    if i < 0 || i >= node.children@.len() {
        u
    } else {
        let u1 = if node.children@[i].named {
            collect(u, node.children@[i], scope, source, conditional)
        } else {
            u
        };
        collect_named(u1, node, scope, source, conditional, i + 1)
    }
}

/// Collects the local declarations of a routine from the child `i` on.
pub open spec fn collect_locals(
    u: UnitModel,
    node: SyntaxNode,
    scope: usize,
    source: Seq<u8>,
    conditional: bool,
    i: int,
) -> UnitModel
    decreases node, 1int, node.children@.len() - i,
{
    if i < 0 || i >= node.children@.len() {
        u
    } else {
        let u1 = if hit(named_field("local"@), node.children@[i]) {
            collect(u, node.children@[i], scope, source, conditional)
        } else {
            u
        };
        collect_locals(u1, node, scope, source, conditional, i + 1)
    }
}

/// Collects the local declarations and the body of a routine or lambda.
pub open spec fn collect_inside(
    u: UnitModel,
    node: SyntaxNode,
    scope: usize,
    source: Seq<u8>,
    conditional: bool,
) -> UnitModel
    decreases node, 2int, 0int,
{
    let u1 = collect_locals(u, node, scope, source, conditional, 0);
    match node.find(any_field("body"@)) {
        Some(k) => collect(u1, node.children@[k], scope, source, conditional),
        None => u1,
    }
}

/// Collects a routine definition.
pub open spec fn collect_routine_of(
    u: UnitModel,
    routine: SyntaxNode,
    enclosing: usize,
    source: Seq<u8>,
    conditional: bool,
) -> UnitModel
    decreases routine, 2int, 1int,
{
    match routine_header(routine) {
        None => u,
        Some(h) => {
            let header = routine.children@[h];
            let u1 = with_proc_binding(
                u,
                header,
                enclosing,
                source,
                conditional,
                Visibility::Default,
            );
            let scope = u1.next_scope();
            let u2 = with_argument_list(
                u1.with_scope(Some(enclosing), routine.start, routine.end),
                header,
                scope,
                source,
            );
            match header.find(any_field("name"@)) {
                None => u2,
                Some(k) => collect_inside(
                    with_routine_names(
                        u2,
                        routine,
                        header,
                        header.children@[k],
                        scope,
                        enclosing,
                        source,
                    ),
                    routine,
                    scope,
                    source,
                    conditional,
                ),
            }
        },
    }
}

/// Collects an anonymous routine.
pub open spec fn collect_lambda_of(
    u: UnitModel,
    lambda: SyntaxNode,
    enclosing: usize,
    source: Seq<u8>,
    conditional: bool,
) -> UnitModel
    decreases lambda, 2int, 1int,
{
    let scope = u.next_scope();
    let u1 = with_argument_list(
        u.with_scope(Some(enclosing), lambda.start, lambda.end),
        lambda,
        scope,
        source,
    );
    collect_inside(u1, lambda, scope, source, conditional)
}

/// Collects a typed exception handler: its variable is bound in its body.
pub open spec fn collect_handler_of(
    u: UnitModel,
    handler: SyntaxNode,
    enclosing: usize,
    source: Seq<u8>,
    conditional: bool,
) -> UnitModel
    decreases handler, 2int, 1int,
{
    match handler.find(any_field("body"@)) {
        None => u,
        Some(b) => {
            let body = handler.children@[b];
            let scope = u.next_scope();
            let u1 = u.with_scope(Some(enclosing), body.start, handler.end);
            let u2 = match handler.find(any_field("variable"@)) {
                Some(v) => if handler.children@[v].kind@ == "identifier"@ {
                    u1.with_binding(
                        scope,
                        name_of(handler.children@[v], source),
                        body.start,
                        if conditional {
                            BindingKind::Unsupported
                        } else {
                            BindingKind::Value
                        },
                        Visibility::Default,
                    )
                } else {
                    u1
                },
                None => u1,
            };
            collect_named(u2, body, scope, source, conditional, 0)
        },
    }
}

/// Collects the type declarations of a section from the child `i` on.
pub open spec fn collect_types(
    u: UnitModel,
    node: SyntaxNode,
    scope: usize,
    source: Seq<u8>,
    conditional: bool,
    visibility: Visibility,
    create: CreateMember,
    i: int,
) -> (UnitModel, CreateMember)
    decreases node, 1int, node.children@.len() - i,
{
    if i < 0 || i >= node.children@.len() {
        (u, create)
    } else {
        let child = node.children@[i];
        if child.named && child.kind@ == "declType"@ {
            collect_types(
                collect_type(u, child, scope, source, conditional, visibility),
                node,
                scope,
                source,
                conditional,
                visibility,
                merged(create, type_create_member(child, source, conditional, visibility)),
                i + 1,
            )
        } else {
            let create1 = if child.named && child.kind@ == "ppBlock"@ {
                merged(create, CreateMember::Unknown)
            } else {
                create
            };
            collect_types(u, node, scope, source, conditional, visibility, create1, i + 1)
        }
    }
}

/// Collects one type declaration: binds its name and, where it is a plain class
/// or alias, defines it.
pub open spec fn collect_type(
    u: UnitModel,
    declaration: SyntaxNode,
    scope: usize,
    source: Seq<u8>,
    conditional: bool,
    visibility: Visibility,
) -> UnitModel
    decreases declaration, 2int, 0int,
{
    match declaration.find(any_field("name"@)) {
        None => u,
        Some(n) => {
            let name = declaration.children@[n];
            let id = u.next_type();
            let simple = name.kind@ == "identifier"@;
            let bound = match first_name(name, source) {
                Some(text) => text,
                None => Seq::empty(),
            };
            let u1 = u.with_type().with_binding(
                scope,
                bound,
                declaration.start,
                if conditional || !simple {
                    BindingKind::Unsupported
                } else {
                    BindingKind::Type(id)
                },
                visibility,
            );
            if conditional || !simple || generic_syntax(declaration) {
                u1
            } else {
                match declaration.find(named_field("type"@)) {
                    None => u1,
                    Some(t) => if declaration.children@[t].kind@ == "type"@ {
                        match sole_named(declaration.children@[t]) {
                            None => u1,
                            Some(k) => define(
                                u1,
                                declaration.children@[t].children@[k],
                                id.local,
                                scope,
                                source,
                            ),
                        }
                    } else {
                        define(u1, declaration.children@[t], id.local, scope, source)
                    },
                }
            }
        },
    }
}

/// Defines a type by the node that describes it.
pub open spec fn define(
    u: UnitModel,
    node: SyntaxNode,
    local: usize,
    scope: usize,
    source: Seq<u8>,
) -> UnitModel
    decreases node, 2int, 0int,
{
    if node.kind@ == "declClass"@ && node.find(named_kind("kClass"@)) is Some {
        let class_scope = u.next_scope();
        let (u1, create_member) = collect_members(
            u.with_scope(Some(scope), node.start, node.end),
            node,
            class_scope,
            source,
            Visibility::Default,
            CreateMember::Absent,
            0,
        );
        u1.with_definition(
            local,
            DefinitionModel::Class {
                class_scope,
                parent: parent_of_class(node, scope, source),
                create_member,
                incomplete: node.find(named_kind("kEnd"@)) is None,
            },
        )
    } else if node.kind@ == "typeref"@ || node.kind@ == "typerefDot"@ || node.kind@
        == "typerefPtr"@ {
        u.with_definition(
            local,
            DefinitionModel::Alias(
                match type_parts_of(node, source) {
                    Some(parts) => Some(ReferenceModel { parts, scope, offset: node.start }),
                    None => None,
                },
            ),
        )
    } else {
        u.with_definition(local, DefinitionModel::Unsupported)
    }
}

/// Collects the members of a class or class section from the child `i` on.
pub open spec fn collect_members(
    u: UnitModel,
    node: SyntaxNode,
    scope: usize,
    source: Seq<u8>,
    visibility: Visibility,
    create: CreateMember,
    i: int,
) -> (UnitModel, CreateMember)
    decreases node, 1int, node.children@.len() - i,
{
    if i < 0 || i >= node.children@.len() {
        (u, create)
    } else {
        let child = node.children@[i];
        let (u1, create1) = if !child.named {
            (u, create)
        } else if child.kind@ == "declTypes"@ {
            let (v, nested) = collect_types(
                u,
                child,
                scope,
                source,
                false,
                visibility,
                CreateMember::Absent,
                0,
            );
            (v, merged(create, nested))
        } else if child.kind@ == "declVars"@ || child.kind@ == "declConsts"@ {
            let (v, nested) = with_value_section(
                u,
                child,
                scope,
                source,
                visibility,
                CreateMember::Absent,
                0,
            );
            (v, merged(create, nested))
        } else if child.kind@ == "declField"@ || child.kind@ == "declProp"@ {
            with_value_names(u, child, scope, source, visibility, create, 0)
        } else if child.kind@ == "declProc"@ {
            (
                with_proc_binding(u, child, scope, source, false, visibility),
                merged(create, proc_create_member(child, source, visibility)),
            )
        } else if child.kind@ == "declSection"@ {
            let (v, nested) = collect_members(
                u,
                child,
                scope,
                source,
                section_visibility(child, false, 0),
                CreateMember::Absent,
                0,
            );
            (v, merged(create, nested))
        } else if child.kind@ == "ppBlock"@ || child.kind@ == "ppDeclSection"@ {
            (u, merged(create, CreateMember::Unknown))
        } else {
            (u, create)
        };
        collect_members(u1, node, scope, source, visibility, create1, i + 1)
    }
}

impl UnitTypeIndex {
    fn add_value_names(
        &mut self,
        declaration: &SyntaxNode,
        scope: usize,
        source: &[u8],
        visibility: Visibility,
        create: CreateMember,
    ) -> (r: CreateMember)
        ensures
            (final(self)@, r) == with_value_names(
                old(self)@,
                *declaration,
                scope,
                source@,
                visibility,
                create,
                0,
            ),
    {
        let mut found = create;
        let mut i: usize = 0;
        while i < declaration.children.len()
            invariant
                i <= declaration.children@.len(),
                with_value_names(
                    self@,
                    *declaration,
                    scope,
                    source@,
                    visibility,
                    found,
                    i as int,
                ) == with_value_names(
                    old(self)@,
                    *declaration,
                    scope,
                    source@,
                    visibility,
                    create,
                    0,
                ),
            decreases declaration.children@.len() - i,
        {
            let child = &declaration.children[i];
            if child.named && child.is_field("name") {
                let name = canonical_name(child, source);
                if same_text(name.as_str(), "create") {
                    found = merge_create_member(found, CreateMember::NonConstructor(visibility));
                }
                self.add_binding(scope, name, child.start, BindingKind::Value, visibility);
            }
            i = i + 1;
        }
        found
    }

    fn collect_value_section(
        &mut self,
        node: &SyntaxNode,
        scope: usize,
        source: &[u8],
        visibility: Visibility,
    ) -> (r: CreateMember)
        ensures
            (final(self)@, r) == with_value_section(
                old(self)@,
                *node,
                scope,
                source@,
                visibility,
                CreateMember::Absent,
                0,
            ),
    {
        let mut found = CreateMember::Absent;
        let mut i: usize = 0;
        while i < node.children.len()
            invariant
                i <= node.children@.len(),
                with_value_section(
                    self@,
                    *node,
                    scope,
                    source@,
                    visibility,
                    found,
                    i as int,
                ) == with_value_section(
                    old(self)@,
                    *node,
                    scope,
                    source@,
                    visibility,
                    CreateMember::Absent,
                    0,
                ),
            decreases node.children@.len() - i,
        {
            let child = &node.children[i];
            if child.named && child.is_kind("ppBlock") {
                found = merge_create_member(found, CreateMember::Unknown);
            } else if child.named && (child.is_kind("declVar") || child.is_kind("declConst")) {
                found = self.add_value_names(child, scope, source, visibility, found);
            }
            i = i + 1;
        }
        found
    }

    fn add_argument_list(&mut self, header: &SyntaxNode, scope: usize, source: &[u8])
        ensures
            final(self)@ == with_argument_list(old(self)@, *header, scope, source@),
    {
        if let Some(k) = header.named_child_by_field("args") {
            let args = &header.children[k];
            let mut i: usize = 0;
            while i < args.children.len()
                invariant
                    i <= args.children@.len(),
                    with_arguments(self@, *args, scope, source@, i as int) == with_arguments(
                        old(self)@,
                        *args,
                        scope,
                        source@,
                        0,
                    ),
                decreases args.children@.len() - i,
            {
                let child = &args.children[i];
                if child.named && child.is_kind("declArg") {
                    self.add_value_names(
                        child,
                        scope,
                        source,
                        Visibility::Default,
                        CreateMember::Absent,
                    );
                }
                i = i + 1;
            }
        }
    }

    fn collect_proc_binding(
        &mut self,
        declaration: &SyntaxNode,
        scope: usize,
        source: &[u8],
        unsupported: bool,
        visibility: Visibility,
    )
        ensures
            final(self)@ == with_proc_binding(
                old(self)@,
                *declaration,
                scope,
                source@,
                unsupported,
                visibility,
            ),
    {
        if let Some(k) = declaration.child_by_field("name") {
            if let Some(parts) = name_parts(&declaration.children[k], source) {
                assert(texts(parts@).len() == parts@.len());
                if parts.len() == 1 {
                    assert(texts(parts@)[0] == parts@[0]@);
                    self.add_binding(
                        scope,
                        parts[0].clone(),
                        declaration.start,
                        if unsupported {
                            BindingKind::Unsupported
                        } else {
                            BindingKind::Value
                        },
                        visibility,
                    );
                }
            }
        }
    }

    fn class_parent(class: &SyntaxNode, scope: usize, source: &[u8]) -> (r: ParentType)
        ensures
            r@ == parent_of_class(*class, scope, source@),
    {
        match class.named_child_by_field("parent") {
            Some(k) => {
                if class.named_children_by_field("parent") > 1 {
                    return ParentType::Unsupported;
                }
                match type_reference_parts(&class.children[k], source) {
                    Some(parts) => ParentType::Reference(
                        TypeReference { parts, scope, offset: class.children[k].start },
                    ),
                    None => ParentType::Unsupported,
                }
            },
            None => ParentType::Absent,
        }
    }

    fn type_create(
        declaration: &SyntaxNode,
        source: &[u8],
        conditional: bool,
        visibility: Visibility,
    ) -> (r: CreateMember)
        ensures
            r == type_create_member(*declaration, source@, conditional, visibility),
    {
        match declaration.child_by_field("name") {
            Some(k) => if names_create(&declaration.children[k], source) {
                if conditional || has_generic_syntax(declaration) {
                    CreateMember::Unknown
                } else {
                    CreateMember::NonConstructor(visibility)
                }
            } else {
                CreateMember::Absent
            },
            None => CreateMember::Absent,
        }
    }

    fn proc_create(declaration: &SyntaxNode, source: &[u8], visibility: Visibility) -> (r:
        CreateMember)
        ensures
            r == proc_create_member(*declaration, source@, visibility),
    {
        let name = declaration.child_by_field("name");
        let named = match name {
            Some(k) => names_create(&declaration.children[k], source),
            None => names_create(declaration, source),
        };
        if named {
            if declaration.named_child_of_kind("kConstructor").is_some() && name.is_some() {
                CreateMember::Constructor(visibility)
            } else {
                CreateMember::NonConstructor(visibility)
            }
        } else {
            CreateMember::Absent
        }
    }

    fn add_routine_names(
        &mut self,
        routine: &SyntaxNode,
        header: &SyntaxNode,
        name: &SyntaxNode,
        scope: usize,
        enclosing: usize,
        source: &[u8],
    )
        ensures
            final(self)@ == with_routine_names(
                old(self)@,
                *routine,
                *header,
                *name,
                scope,
                enclosing,
                source@,
            ),
    {
        let parts = name_parts(name, source);
        let mut owner: Option<Vec<String>> = None;
        let mut last: Option<String> = None;
        if let Some(p) = &parts {
            assert(texts(p@).len() == p@.len());
            if p.len() > 0 {
                last = Some(p[p.len() - 1].clone());
                assert(texts(p@)[p@.len() - 1] == p@[p@.len() - 1]@);
            }
            if p.len() > 1 {
                let mut prefix = copy_texts(p);
                assert(texts(prefix@).len() == prefix@.len());
                let ghost full = prefix@;
                prefix.truncate(p.len() - 1);
                assert(texts(prefix@) =~= texts(full).subrange(0, p@.len() - 1));
                owner = Some(prefix);
            }
        }
        if owner.is_some() || (name.is_kind("genericDot") && parts.is_none()) {
            self.add_owner(
                PendingMethodOwner {
                    routine_scope: scope,
                    owner_parts: owner,
                    enclosing_scope: enclosing,
                    offset: routine.start,
                },
            );
            self.add_binding(
                scope,
                "self".to_owned(),
                routine.start,
                BindingKind::Value,
                Visibility::Default,
            );
        }
        if header.named_child_of_kind("kFunction").is_some() {
            self.add_binding(
                scope,
                "result".to_owned(),
                routine.start,
                BindingKind::Value,
                Visibility::Default,
            );
            if let Some(result_name) = last {
                self.add_binding(
                    scope,
                    result_name,
                    routine.start,
                    BindingKind::Value,
                    Visibility::Default,
                );
            }
        }
    }

    fn collect_node(&mut self, node: &SyntaxNode, scope: usize, source: &[u8], conditional: bool)
        ensures
            final(self)@ == collect(old(self)@, *node, scope, source@, conditional),
        decreases *node, 3int,
    {
        let directive = node.is_preprocessor_node(source);
        let c = conditional || directive;
        if directive {
            self.add_directive(node.start, node.end);
        }
        if node.is_kind("with") {
            self.add_with(node.start, node.end);
        }
        if node.is_kind("defProc") {
            self.collect_routine(node, scope, source, c);
        } else if node.is_kind("lambda") {
            self.collect_lambda(node, scope, source, c);
        } else if node.is_kind("for") || node.is_kind("foreach") {
            let loop_scope = self.new_scope(Some(scope), node.start, node.end);
            self.collect_children(node, loop_scope, source, c);
        } else if node.is_kind("declTypes") {
            self.collect_type_section(node, scope, source, c, Visibility::Default);
        } else if node.is_kind("declVars") || node.is_kind("declConsts") {
            self.collect_value_section(node, scope, source, Visibility::Default);
        } else if node.is_kind("varDef") || node.is_kind("varAssignDef") {
            if let Some(k) = node.named_child_of_kind("identifier") {
                self.add_binding(
                    scope,
                    canonical_name(&node.children[k], source),
                    node.children[k].start,
                    BindingKind::Value,
                    Visibility::Default,
                );
            }
        } else if node.is_kind("declProc") {
            self.collect_proc_binding(node, scope, source, c, Visibility::Default);
        } else if node.is_kind("exceptionHandler") {
            self.collect_exception_handler(node, scope, source, c);
        } else {
            self.collect_children(node, scope, source, c);
        }
    }

    fn collect_children(
        &mut self,
        node: &SyntaxNode,
        scope: usize,
        source: &[u8],
        conditional: bool,
    )
        ensures
            final(self)@ == collect_named(old(self)@, *node, scope, source@, conditional, 0),
        decreases *node, 1int,
    {
        let mut i: usize = 0;
        while i < node.children.len()
            invariant
                i <= node.children@.len(),
                collect_named(self@, *node, scope, source@, conditional, i as int)
                    == collect_named(old(self)@, *node, scope, source@, conditional, 0),
            decreases node.children@.len() - i,
        {
            if node.children[i].named {
                self.collect_node(&node.children[i], scope, source, conditional);
            }
            i = i + 1;
        }
    }

    fn collect_body(&mut self, node: &SyntaxNode, scope: usize, source: &[u8], conditional: bool)
        ensures
            final(self)@ == collect_inside(old(self)@, *node, scope, source@, conditional),
        decreases *node, 1int,
    {
        let mut i: usize = 0;
        while i < node.children.len()
            invariant
                i <= node.children@.len(),
                collect_locals(self@, *node, scope, source@, conditional, i as int)
                    == collect_locals(old(self)@, *node, scope, source@, conditional, 0),
            decreases node.children@.len() - i,
        {
            if node.children[i].named && node.children[i].is_field("local") {
                self.collect_node(&node.children[i], scope, source, conditional);
            }
            i = i + 1;
        }
        if let Some(k) = node.child_by_field("body") {
            self.collect_node(&node.children[k], scope, source, conditional);
        }
    }

    fn collect_routine(
        &mut self,
        routine: &SyntaxNode,
        enclosing: usize,
        source: &[u8],
        conditional: bool,
    )
        ensures
            final(self)@ == collect_routine_of(
                old(self)@,
                *routine,
                enclosing,
                source@,
                conditional,
            ),
        decreases *routine, 2int,
    {
        let found = match routine.child_by_field("header") {
            Some(k) => Some(k),
            None => routine.named_child_of_kind("declProc"),
        };
        if let Some(h) = found {
            let header = &routine.children[h];
            self.collect_proc_binding(header, enclosing, source, conditional, Visibility::Default);
            let scope = self.new_scope(Some(enclosing), routine.start, routine.end);
            self.add_argument_list(header, scope, source);
            if let Some(k) = header.child_by_field("name") {
                self.add_routine_names(
                    routine,
                    header,
                    &header.children[k],
                    scope,
                    enclosing,
                    source,
                );
                self.collect_body(routine, scope, source, conditional);
            }
        }
    }

    fn collect_lambda(
        &mut self,
        lambda: &SyntaxNode,
        enclosing: usize,
        source: &[u8],
        conditional: bool,
    )
        ensures
            final(self)@ == collect_lambda_of(old(self)@, *lambda, enclosing, source@, conditional),
        decreases *lambda, 2int,
    {
        let scope = self.new_scope(Some(enclosing), lambda.start, lambda.end);
        self.add_argument_list(lambda, scope, source);
        self.collect_body(lambda, scope, source, conditional);
    }

    fn collect_exception_handler(
        &mut self,
        handler: &SyntaxNode,
        enclosing: usize,
        source: &[u8],
        conditional: bool,
    )
        ensures
            final(self)@ == collect_handler_of(
                old(self)@,
                *handler,
                enclosing,
                source@,
                conditional,
            ),
        decreases *handler, 2int,
    {
        if let Some(b) = handler.child_by_field("body") {
            let body = &handler.children[b];
            let scope = self.new_scope(Some(enclosing), body.start, handler.end);
            if let Some(v) = handler.child_by_field("variable") {
                let variable = &handler.children[v];
                if variable.is_kind("identifier") {
                    self.add_binding(
                        scope,
                        canonical_name(variable, source),
                        body.start,
                        if conditional {
                            BindingKind::Unsupported
                        } else {
                            BindingKind::Value
                        },
                        Visibility::Default,
                    );
                }
            }
            self.collect_children(body, scope, source, conditional);
        }
    }

    fn collect_type_section(
        &mut self,
        node: &SyntaxNode,
        scope: usize,
        source: &[u8],
        conditional: bool,
        visibility: Visibility,
    ) -> (r: CreateMember)
        ensures
            (final(self)@, r) == collect_types(
                old(self)@,
                *node,
                scope,
                source@,
                conditional,
                visibility,
                CreateMember::Absent,
                0,
            ),
        decreases *node, 1int,
    {
        let mut found = CreateMember::Absent;
        let mut i: usize = 0;
        while i < node.children.len()
            invariant
                i <= node.children@.len(),
                collect_types(
                    self@,
                    *node,
                    scope,
                    source@,
                    conditional,
                    visibility,
                    found,
                    i as int,
                ) == collect_types(
                    old(self)@,
                    *node,
                    scope,
                    source@,
                    conditional,
                    visibility,
                    CreateMember::Absent,
                    0,
                ),
            decreases node.children@.len() - i,
        {
            let child = &node.children[i];
            if child.named && child.is_kind("declType") {
                found = merge_create_member(
                    found,
                    Self::type_create(child, source, conditional, visibility),
                );
                self.collect_type_declaration(child, scope, source, conditional, visibility);
            } else if child.named && child.is_kind("ppBlock") {
                found = merge_create_member(found, CreateMember::Unknown);
            }
            i = i + 1;
        }
        found
    }

    fn collect_type_declaration(
        &mut self,
        declaration: &SyntaxNode,
        scope: usize,
        source: &[u8],
        conditional: bool,
        visibility: Visibility,
    )
        ensures
            final(self)@ == collect_type(
                old(self)@,
                *declaration,
                scope,
                source@,
                conditional,
                visibility,
            ),
        decreases *declaration, 2int,
    {
        if let Some(n) = declaration.child_by_field("name") {
            let name = &declaration.children[n];
            let id = self.new_type();
            let simple = name.is_kind("identifier");
            let bound = match first_identifier(name, source) {
                Some(text) => text,
                None => String::new(),
            };
            self.add_binding(
                scope,
                bound,
                declaration.start,
                if conditional || !simple {
                    BindingKind::Unsupported
                } else {
                    BindingKind::Type(id)
                },
                visibility,
            );
            if !conditional && simple && !has_generic_syntax(declaration) {
                if let Some(t) = declaration.named_child_by_field("type") {
                    let outer = &declaration.children[t];
                    if outer.is_kind("type") {
                        if let Some(k) = sole_named_child(outer) {
                            self.define_from(&outer.children[k], id.local, scope, source);
                        }
                    } else {
                        self.define_from(outer, id.local, scope, source);
                    }
                }
            }
        }
    }

    fn define_from(&mut self, node: &SyntaxNode, local: usize, scope: usize, source: &[u8])
        ensures
            final(self)@ == define(old(self)@, *node, local, scope, source@),
        decreases *node, 2int,
    {
        if node.is_kind("declClass") && node.named_child_of_kind("kClass").is_some() {
            let class_scope = self.new_scope(Some(scope), node.start, node.end);
            let incomplete = node.named_child_of_kind("kEnd").is_none();
            let parent = Self::class_parent(node, scope, source);
            let create_member = self.collect_class_members(
                node,
                class_scope,
                source,
                Visibility::Default,
            );
            self.define_type(
                local,
                TypeDefinition::Class { class_scope, parent, create_member, incomplete },
            );
        } else if node.is_kind("typeref") || node.is_kind("typerefDot") || node.is_kind(
            "typerefPtr",
        ) {
            let target = match type_reference_parts(node, source) {
                Some(parts) => Some(TypeReference { parts, scope, offset: node.start }),
                None => None,
            };
            self.define_type(local, TypeDefinition::Alias(target));
        } else {
            self.define_type(local, TypeDefinition::Unsupported);
        }
    }

    fn collect_class_members(
        &mut self,
        node: &SyntaxNode,
        scope: usize,
        source: &[u8],
        visibility: Visibility,
    ) -> (r: CreateMember)
        ensures
            (final(self)@, r) == collect_members(
                old(self)@,
                *node,
                scope,
                source@,
                visibility,
                CreateMember::Absent,
                0,
            ),
        decreases *node, 1int,
    {
        let mut found = CreateMember::Absent;
        let mut i: usize = 0;
        while i < node.children.len()
            invariant
                i <= node.children@.len(),
                collect_members(
                    self@,
                    *node,
                    scope,
                    source@,
                    visibility,
                    found,
                    i as int,
                ) == collect_members(
                    old(self)@,
                    *node,
                    scope,
                    source@,
                    visibility,
                    CreateMember::Absent,
                    0,
                ),
            decreases node.children@.len() - i,
        {
            let child = &node.children[i];
            if child.named {
                if child.is_kind("declTypes") {
                    let nested = self.collect_type_section(child, scope, source, false, visibility);
                    found = merge_create_member(found, nested);
                } else if child.is_kind("declVars") || child.is_kind("declConsts") {
                    let nested = self.collect_value_section(child, scope, source, visibility);
                    found = merge_create_member(found, nested);
                } else if child.is_kind("declField") || child.is_kind("declProp") {
                    found = self.add_value_names(child, scope, source, visibility, found);
                } else if child.is_kind("declProc") {
                    self.collect_proc_binding(child, scope, source, false, visibility);
                    found = merge_create_member(
                        found,
                        Self::proc_create(child, source, visibility),
                    );
                } else if child.is_kind("declSection") {
                    let nested = self.collect_class_members(
                        child,
                        scope,
                        source,
                        visibility_of_section(child),
                    );
                    found = merge_create_member(found, nested);
                } else if child.is_kind("ppBlock") || child.is_kind("ppDeclSection") {
                    found = merge_create_member(found, CreateMember::Unknown);
                }
            }
            i = i + 1;
        }
        found
    }
}

/// The canonical name of the module that a tree holds.
pub open spec fn module_name_of(root: SyntaxNode, source: Seq<u8>) -> Option<Seq<char>> {
    match module_from(root.children@, 0) {
        Some(m) => match root.children@[m].find(named_kind("moduleName"@)) {
            Some(k) => Some(name_of(root.children@[m].children@[k], source)),
            None => None,
        },
        None => None,
    }
}

/// The byte range of a section of the module that a tree holds.
pub open spec fn module_section(root: SyntaxNode, kind: Seq<char>) -> Option<(usize, usize)> {
    match module_from(root.children@, 0) {
        Some(m) => match root.children@[m].find(named_kind(kind)) {
            Some(k) => Some(
                (root.children@[m].children@[k].start, root.children@[m].children@[k].end),
            ),
            None => None,
        },
        None => None,
    }
}

/// The declarations of a unit, as its tree and source give them.
pub open spec fn unit_types(unit_index: usize, root: SyntaxNode, source: Seq<u8>) -> UnitModel {
    let empty = UnitModel {
        unit_index,
        module_name: module_name_of(root, source),
        scopes: Seq::empty(),
        types: Seq::empty(),
        unsupported_ranges: Seq::empty(),
        with_ranges: Seq::empty(),
        has_preprocessor_barrier: directive_in(root, source),
        pending_method_owners: Seq::empty(),
        interface_range: module_section(root, "interface"@),
        parser_incomplete: root.error,
    };
    collect(empty.with_scope(None, 0, source.len() as usize), root, 0, source, false)
}

impl UnitTypeIndex {
    /// Collects the declarations of a unit.
    pub fn build(unit_index: usize, root: &SyntaxNode, source: &[u8]) -> (r: UnitTypeIndex)
        ensures
            r@ == unit_types(unit_index, *root, source@),
    {
        let mut module_name: Option<String> = None;
        let mut interface_range: Option<(usize, usize)> = None;
        if let Some(m) = root.module_child() {
            let module = &root.children[m];
            if let Some(k) = module.named_child_of_kind("moduleName") {
                module_name = Some(canonical_name(&module.children[k], source));
            }
            if let Some(k) = module.named_child_of_kind("interface") {
                interface_range = Some((module.children[k].start, module.children[k].end));
            }
        }
        let mut index = UnitTypeIndex {
            unit_index,
            module_name,
            scopes: Vec::new(),
            types: Vec::new(),
            unsupported_ranges: Vec::new(),
            with_ranges: Vec::new(),
            has_preprocessor_barrier: contains_preprocessor_directive(root, source),
            pending_method_owners: Vec::new(),
            interface_range,
            parser_incomplete: root.error,
        };
        assert(index@ =~= UnitModel {
            unit_index,
            module_name: module_name_of(*root, source@),
            scopes: Seq::empty(),
            types: Seq::empty(),
            unsupported_ranges: Seq::empty(),
            with_ranges: Seq::empty(),
            has_preprocessor_barrier: directive_in(*root, source@),
            pending_method_owners: Seq::empty(),
            interface_range: module_section(*root, "interface"@),
            parser_incomplete: root.error,
        });
        let scope = index.new_scope(None, 0, source.len());
        index.collect_node(root, scope, source, false);
        index
    }
}

} // verus!
