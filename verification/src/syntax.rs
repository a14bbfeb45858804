//! Syntax trees as plain values, and the parser that produces them.
//!
//! A [`SyntaxTree`] holds everything that the analyses read of a parse tree:
//! for each node its grammar kind, byte range, flags, the field under which its
//! parent stores it, and its children in source order.

use vstd::prelude::*;
use tree_sitter::Tree;
use crate::text::{decode_text, same_text};
use vstd::utf8::{decode_utf8, valid_utf8};

verus! {

/// One node of a syntax tree together with its subtree.
#[derive(Debug)]
pub struct SyntaxNode {
    /// The grammar's name for the node.
    pub kind: String,
    /// Offset of the first byte.
    pub start: usize,
    /// Offset behind the last byte.
    pub end: usize,
    /// Whether the node is a named rule rather than a literal token.
    pub named: bool,
    /// Whether the node is an extra such as a comment.
    pub extra: bool,
    /// Whether the node or something below it is a syntax error.
    pub error: bool,
    /// The field under which the parent stores the node.
    pub field: Option<String>,
    /// The children in source order.
    pub children: Vec<SyntaxNode>,
}

/// A parse tree: its root node.
#[derive(Debug)]
pub struct SyntaxTree {
    pub root: SyntaxNode,
}

/// What a traversal reports of one node, in exchange form.
#[derive(Debug)]
pub struct NodeRecord {
    pub kind: String,
    pub start: usize,
    pub end: usize,
    pub named: bool,
    pub extra: bool,
    pub error: bool,
    pub field: Option<String>,
    /// Distance from the root.
    pub depth: usize,
}

/// The mathematical value of a [`NodeRecord`].
pub struct NodeFacts {
    pub kind: Seq<char>,
    pub start: usize,
    pub end: usize,
    pub named: bool,
    pub extra: bool,
    pub error: bool,
    pub field: Option<Seq<char>>,
    pub depth: int,
}

/// The text of an optional string.
pub open spec fn opt_text(o: Option<String>) -> Option<Seq<char>> {
    match o {
        Some(s) => Some(s@),
        None => None,
    }
}

impl View for NodeRecord {
    type V = NodeFacts;

    open spec fn view(&self) -> NodeFacts {
        NodeFacts {
            kind: self.kind@,
            start: self.start,
            end: self.end,
            named: self.named,
            extra: self.extra,
            error: self.error,
            field: opt_text(self.field),
            depth: self.depth as int,
        }
    }
}

impl SyntaxNode {
    /// The facts of this node alone, at a given depth.
    pub open spec fn facts(self, depth: int) -> NodeFacts {
        NodeFacts {
            kind: self.kind@,
            start: self.start,
            end: self.end,
            named: self.named,
            extra: self.extra,
            error: self.error,
            field: opt_text(self.field),
            depth,
        }
    }

    /// The subtree as the list of its nodes in pre-order.
    pub open spec fn preorder(self, depth: int) -> Seq<NodeFacts>
        decreases self, 1int, 0int,
    {
        seq![self.facts(depth)] + preorder_list(
            self.children@,
            depth + 1,
            self.children@.len() as int,
        )
    }
}

/// The pre-order lists of the first `n` nodes, one behind the other.
pub open spec fn preorder_list(nodes: Seq<SyntaxNode>, depth: int, n: int) -> Seq<NodeFacts>
    decreases nodes, 0int, n,
{
    if n <= 0 || n > nodes.len() {
        Seq::empty()
    } else {
        preorder_list(nodes, depth, n - 1) + nodes[n - 1].preorder(depth)
    }
}

/// A parse tree of the `tree_sitter` crate, carried through unread.
#[verifier::external_type_specification]
#[verifier::external_body]
pub struct ExTree(Tree);

/// The nodes that a `tree_sitter::Tree` holds, in the pre-order in which
/// `TreeCursor::goto_descendant` numbers them.
pub uninterp spec fn tree_nodes(tree: Tree) -> Seq<NodeFacts>;

/// The nodes of the tree that the Pascal grammar gives for a source text, or
/// `None` where the parser gives no tree.
pub uninterp spec fn pascal_nodes(source: Seq<u8>) -> Option<Seq<NodeFacts>>;

/// Whether the depths are those of a pre-order traversal: the root stands first
/// and alone at depth zero, and no step goes down by more than one level.
pub open spec fn preorder_depths(nodes: Seq<NodeFacts>) -> bool {
    &&& nodes.len() > 0
    &&& nodes[0].depth == 0
    &&& forall|i: int| 0 < i < nodes.len() ==> 1 <= (#[trigger] nodes[i]).depth <= nodes[i - 1].depth + 1
}

/// `tree_sitter::Parser::parse` with the language of `tree_sitter_pascal`, on a
/// new parser without an earlier tree.
///
/// The contract says that the outcome depends on the source bytes alone. No
/// time limit and no cancellation flag is set on the parser.
#[verifier::external_body]
pub(crate) fn parse_pascal(source: &[u8]) -> (r: Option<Tree>)
    ensures
        match r {
            Some(tree) => pascal_nodes(source@) == Some(tree_nodes(tree)),
            None => pascal_nodes(source@) is None,
        },
{
    let mut parser = tree_sitter::Parser::new();
    match parser.set_language(&tree_sitter_pascal::LANGUAGE.into()) {
        Ok(()) => parser.parse(source, None),
        Err(_) => None,
    }
}

/// `tree_sitter::Node::descendant_count` of the root: the number of nodes, the
/// root included.
///
/// The contract also says that the nodes come in pre-order, which is the order
/// of `TreeCursor::descendant_index`.
#[verifier::external_body]
fn node_count(tree: &Tree) -> (r: usize)
    ensures
        r == tree_nodes(*tree).len(),
        preorder_depths(tree_nodes(*tree).take(r as int)),
{
    tree.root_node().descendant_count()
}

/// `tree_sitter::TreeCursor::goto_descendant`, with what the cursor then shows:
/// the node with the given pre-order number, its field and its depth.
#[verifier::external_body]
fn node_record(tree: &Tree, index: usize) -> (r: NodeRecord)
    requires
        index < tree_nodes(*tree).len(),
    ensures
        r@ == tree_nodes(*tree)[index as int],
{
    let mut cursor = tree.walk();
    cursor.goto_descendant(index);
    NodeRecord {
        kind: cursor.node().kind().to_string(),
        start: cursor.node().start_byte(),
        end: cursor.node().end_byte(),
        named: cursor.node().is_named(),
        extra: cursor.node().is_extra(),
        error: cursor.node().has_error(),
        field: cursor.field_name().map(String::from),
        depth: cursor.depth() as usize,
    }
}

/// Reads the subtree whose root has the pre-order number `index`.
///
/// Returns the subtree and the number of the first node behind it.
#[verifier::rlimit(40)]
fn read_subtree(tree: &Tree, count: usize, index: usize) -> (r: (SyntaxNode, usize))
    requires
        index < count,
        count == tree_nodes(*tree).len(),
        preorder_depths(tree_nodes(*tree)),
    ensures
        index < r.1 <= count,
        r.0.preorder(tree_nodes(*tree)[index as int].depth) == tree_nodes(*tree).subrange(
            index as int,
            r.1 as int,
        ),
        r.1 < count ==> tree_nodes(*tree)[r.1 as int].depth <= tree_nodes(
            *tree,
        )[index as int].depth,
    decreases count - index,
{
    let record = node_record(tree, index);
    let ghost nodes = tree_nodes(*tree);
    let ghost depth = nodes[index as int].depth;
    let mut children: Vec<SyntaxNode> = Vec::new();
    let mut next: usize = index + 1;
    let mut open: bool = next < count && node_record(tree, next).depth > record.depth;
    assert(preorder_list(children@, depth + 1, 0) =~= nodes.subrange(
        index as int + 1,
        next as int,
    ));
    while open
        invariant
            index < next <= count,
            count == tree_nodes(*tree).len(),
            nodes == tree_nodes(*tree),
            preorder_depths(nodes),
            depth == nodes[index as int].depth,
            depth == record.depth,
            open == (next < count && nodes[next as int].depth > depth),
            next < count ==> nodes[next as int].depth <= depth + 1,
            preorder_list(children@, depth + 1, children@.len() as int) == nodes.subrange(
                index as int + 1,
                next as int,
            ),
        decreases count - next,
    {
        let ghost before = children@;
        let ghost start = next as int;
        let (child, after) = read_subtree(tree, count, next);
        children.push(child);
        next = after;
        open = next < count && node_record(tree, next).depth > record.depth;
        proof {
            lemma_preorder_prefix(before, children@, depth + 1, before.len() as int);
            assert(nodes.subrange(index as int + 1, next as int) =~= nodes.subrange(
                index as int + 1,
                start,
            ) + nodes.subrange(start, next as int));
        }
    }
    let result = SyntaxNode {
        kind: record.kind,
        start: record.start,
        end: record.end,
        named: record.named,
        extra: record.extra,
        error: record.error,
        field: record.field,
        children,
    };
    proof {
        assert(nodes.subrange(index as int, next as int) =~= seq![nodes[index as int]]
            + nodes.subrange(index as int + 1, next as int));
    }
    (result, next)
}

/// Lists that agree on their first `n` nodes agree on the pre-order of them.
proof fn lemma_preorder_prefix(a: Seq<SyntaxNode>, b: Seq<SyntaxNode>, depth: int, n: int)
    requires
        0 <= n <= a.len(),
        n <= b.len(),
        forall|k: int| 0 <= k < n ==> a[k] == b[k],
    ensures
        preorder_list(a, depth, n) == preorder_list(b, depth, n),
    decreases n,
{
    if n > 0 {
        lemma_preorder_prefix(a, b, depth, n - 1);
    }
}

impl Clone for SyntaxNode {
    fn clone(&self) -> (r: SyntaxNode)
        ensures
            forall|depth: int| #[trigger] r.preorder(depth) == self.preorder(depth),
        decreases self,
    {
        let mut children: Vec<SyntaxNode> = Vec::new();
        let mut i: usize = 0;
        while i < self.children.len()
            invariant
                i <= self.children@.len(),
                children@.len() == i,
                forall|k: int, depth: int|
                    0 <= k < i ==> #[trigger] children@[k].preorder(depth)
                        == self.children@[k].preorder(depth),
            decreases self.children@.len() - i,
        {
            let child = self.children[i].clone();
            children.push(child);
            i = i + 1;
        }
        let r = SyntaxNode {
            kind: self.kind.clone(),
            start: self.start,
            end: self.end,
            named: self.named,
            extra: self.extra,
            error: self.error,
            field: match &self.field {
                Some(field) => Some(field.clone()),
                None => None,
            },
            children,
        };
        proof {
            assert forall|depth: int| #[trigger] r.preorder(depth) == self.preorder(depth) by {
                lemma_same_preorder(
                    r.children@,
                    self.children@,
                    depth + 1,
                    self.children@.len() as int,
                );
            }
        }
        r
    }
}

/// Lists of subtrees with the same pre-orders have the same pre-order.
proof fn lemma_same_preorder(a: Seq<SyntaxNode>, b: Seq<SyntaxNode>, depth: int, n: int)
    requires
        0 <= n <= a.len(),
        n <= b.len(),
        forall|k: int| 0 <= k < n ==> #[trigger] a[k].preorder(depth) == b[k].preorder(depth),
    ensures
        preorder_list(a, depth, n) == preorder_list(b, depth, n),
    decreases n,
{
    if n > 0 {
        lemma_same_preorder(a, b, depth, n - 1);
        assert(a[n - 1].preorder(depth) == b[n - 1].preorder(depth));
    }
}

impl Clone for SyntaxTree {
    fn clone(&self) -> (r: SyntaxTree)
        ensures
            r.nodes() == self.nodes(),
    {
        SyntaxTree { root: self.root.clone() }
    }
}

impl SyntaxTree {
    /// The nodes of the tree in pre-order.
    pub open spec fn nodes(self) -> Seq<NodeFacts> {
        self.root.preorder(0)
    }

    /// Reads a parse tree into plain values.
    pub fn from_tree(tree: &Tree) -> (r: SyntaxTree)
        ensures
            r.nodes() == tree_nodes(*tree),
    {
        let count = node_count(tree);
        assert(tree_nodes(*tree).take(count as int) =~= tree_nodes(*tree));
        let (root, next) = read_subtree(tree, count, 0);
        assert(tree_nodes(*tree).subrange(0, next as int) =~= tree_nodes(*tree));
        SyntaxTree { root }
    }

    /// Parses Pascal source. `None` only where the parser gives no tree.
    ///
    /// The grammar has no labels made of digits, no `begin` block of a unit and no
    /// `raise` without an expression: text with one of these does not parse cleanly.
    /// The graphs know these forms, in trees that are built by hand or read from a
    /// wider grammar.
    pub fn parse(source: &[u8]) -> (r: Option<SyntaxTree>)
        ensures
            match r {
                Some(tree) => pascal_nodes(source@) == Some(tree.nodes()),
                None => pascal_nodes(source@) is None,
            },
    {
        match parse_pascal(source) {
            Some(tree) => Some(SyntaxTree::from_tree(&tree)),
            None => None,
        }
    }
}

/// What a search among the children of a node asks for.
pub struct Query {
    /// The field that the child must stand under.
    pub field: Option<Seq<char>>,
    /// The kind that the child must have.
    pub kind: Option<Seq<char>>,
    /// Whether the child must be named.
    pub named: bool,
}

/// Whether a node is what a query asks for.
pub open spec fn hit(q: Query, n: SyntaxNode) -> bool {
    &&& q.field is Some ==> opt_text(n.field) == q.field
    &&& q.kind is Some ==> n.kind@ == q.kind->0
    &&& q.named ==> n.named
}

/// The first node at or behind index `i` that a query asks for.
pub open spec fn find_from(nodes: Seq<SyntaxNode>, q: Query, i: int) -> Option<int>
    decreases nodes.len() - i,
{
    if i < 0 || i >= nodes.len() {
        None
    } else if hit(q, nodes[i]) {
        Some(i)
    } else {
        find_from(nodes, q, i + 1)
    }
}

/// How many of the first `n` nodes a query asks for.
pub open spec fn count_hits(nodes: Seq<SyntaxNode>, q: Query, n: int) -> nat
    decreases n,
{
    if n <= 0 || n > nodes.len() {
        0
    } else {
        count_hits(nodes, q, n - 1) + if hit(q, nodes[n - 1]) {
            1nat
        } else {
            0nat
        }
    }
}

pub open spec fn any_kind(kind: Seq<char>) -> Query {
    Query { field: None, kind: Some(kind), named: false }
}

pub open spec fn named_kind(kind: Seq<char>) -> Query {
    Query { field: None, kind: Some(kind), named: true }
}

pub open spec fn any_field(field: Seq<char>) -> Query {
    Query { field: Some(field), kind: None, named: false }
}

pub open spec fn named_field(field: Seq<char>) -> Query {
    Query { field: Some(field), kind: None, named: true }
}

pub open spec fn field_kind(field: Seq<char>, kind: Seq<char>) -> Query {
    Query { field: Some(field), kind: Some(kind), named: false }
}

/// A search result is an index behind the start that the query asks for.
pub broadcast proof fn lemma_find_bounds(nodes: Seq<SyntaxNode>, q: Query, i: int)
    ensures
        match #[trigger] find_from(nodes, q, i) {
            Some(k) => i <= k < nodes.len() && 0 <= k && hit(q, nodes[k]),
            None => true,
        },
    decreases nodes.len() - i,
{
    if 0 <= i < nodes.len() && !hit(q, nodes[i]) {
        lemma_find_bounds(nodes, q, i + 1);
    }
}

/// The text of a byte range of the source. A range that does not lie in the
/// source, or that is not UTF-8, has the empty text.
pub open spec fn text_at(source: Seq<u8>, start: usize, end: usize) -> Seq<char> {
    if start <= end <= source.len() && valid_utf8(source.subrange(start as int, end as int)) {
        decode_utf8(source.subrange(start as int, end as int))
    } else {
        Seq::empty()
    }
}

/// The text of a byte range of the source.
pub fn range_text(source: &[u8], start: usize, end: usize) -> (r: String)
    ensures
        r@ == text_at(source@, start, end),
{
    if start <= end && end <= source.len() {
        match decode_text(vstd::slice::slice_subrange(source, start, end)) {
            Some(text) => text,
            None => String::new(),
        }
    } else {
        String::new()
    }
}

impl SyntaxNode {
    /// The index of the first child that a query asks for.
    pub open spec fn find(self, q: Query) -> Option<int> {
        find_from(self.children@, q, 0)
    }

    /// The node's text.
    pub open spec fn text(self, source: Seq<u8>) -> Seq<char> {
        text_at(source, self.start, self.end)
    }

    /// Whether the node has the given kind.
    pub fn is_kind(&self, kind: &str) -> (r: bool)
        ensures
            r == (self.kind@ == kind@),
    {
        same_text(self.kind.as_str(), kind)
    }

    /// Whether the node stands under the given field.
    pub fn is_field(&self, field: &str) -> (r: bool)
        ensures
            r == (opt_text(self.field) == Some(field@)),
    {
        match &self.field {
            Some(name) => same_text(name.as_str(), field),
            None => false,
        }
    }

    fn matches(&self, field: Option<&str>, kind: Option<&str>, named: bool) -> (r: bool)
        ensures
            r == hit(query(field, kind, named), *self),
    {
        let field_ok: bool = match field {
            Some(name) => self.is_field(name),
            None => true,
        };
        let kind_ok: bool = match kind {
            Some(name) => self.is_kind(name),
            None => true,
        };
        field_ok && kind_ok && (!named || self.named)
    }

    /// The first child at or behind index `from` that matches.
    fn find_child(&self, field: Option<&str>, kind: Option<&str>, named: bool) -> (r: Option<usize>)
        ensures
            index_of(r) == self.find(query(field, kind, named)),
            r matches Some(k) ==> k < self.children@.len(),
    {
        let mut i: usize = 0;
        while i < self.children.len()
            invariant
                i <= self.children@.len(),
                self.find(query(field, kind, named)) == find_from(
                    self.children@,
                    query(field, kind, named),
                    i as int,
                ),
            decreases self.children@.len() - i,
        {
            if self.children[i].matches(field, kind, named) {
                return Some(i);
            }
            i = i + 1;
        }
        None
    }

    /// How many children match.
    fn count_children(&self, field: Option<&str>, kind: Option<&str>, named: bool) -> (r: usize)
        ensures
            r == count_hits(
                self.children@,
                query(field, kind, named),
                self.children@.len() as int,
            ),
    {
        let mut i: usize = 0;
        let mut count: usize = 0;
        while i < self.children.len()
            invariant
                count <= i <= self.children@.len(),
                count == count_hits(self.children@, query(field, kind, named), i as int),
            decreases self.children@.len() - i,
        {
            if self.children[i].matches(field, kind, named) {
                count = count + 1;
            }
            i = i + 1;
        }
        count
    }

    /// The index of the first child of a kind.
    pub fn child_of_kind(&self, kind: &str) -> (r: Option<usize>)
        ensures
            index_of(r) == self.find(any_kind(kind@)),
            r matches Some(k) ==> k < self.children@.len(),
    {
        self.find_child(None, Some(kind), false)
    }

    /// The index of the first child of a kind at or behind an index.
    pub fn child_of_kind_from(&self, kind: &str, from: usize) -> (r: Option<usize>)
        ensures
            index_of(r) == find_from(self.children@, any_kind(kind@), from as int),
            r matches Some(k) ==> k < self.children@.len(),
    {
        let mut i: usize = from;
        while i < self.children.len()
            invariant
                from <= i,
                find_from(self.children@, any_kind(kind@), from as int) == find_from(
                    self.children@,
                    any_kind(kind@),
                    i as int,
                ),
            decreases self.children@.len() - i,
        {
            if self.children[i].is_kind(kind) {
                return Some(i);
            }
            i = i + 1;
        }
        None
    }

    /// The index of the first named child of a kind.
    pub fn named_child_of_kind(&self, kind: &str) -> (r: Option<usize>)
        ensures
            index_of(r) == self.find(named_kind(kind@)),
            r matches Some(k) ==> k < self.children@.len(),
    {
        self.find_child(None, Some(kind), true)
    }

    /// The index of the first child under a field.
    pub fn child_by_field(&self, field: &str) -> (r: Option<usize>)
        ensures
            index_of(r) == self.find(any_field(field@)),
            r matches Some(k) ==> k < self.children@.len(),
    {
        self.find_child(Some(field), None, false)
    }

    /// The index of the first named child under a field.
    pub fn named_child_by_field(&self, field: &str) -> (r: Option<usize>)
        ensures
            index_of(r) == self.find(named_field(field@)),
            r matches Some(k) ==> k < self.children@.len(),
    {
        self.find_child(Some(field), None, true)
    }

    /// The index of the first child of a kind under a field.
    pub fn child_by_field_of_kind(&self, field: &str, kind: &str) -> (r: Option<usize>)
        ensures
            index_of(r) == self.find(field_kind(field@, kind@)),
            r matches Some(k) ==> k < self.children@.len(),
    {
        self.find_child(Some(field), Some(kind), false)
    }

    /// The index of the first named child.
    pub fn first_named(&self) -> (r: Option<usize>)
        ensures
            index_of(r) == self.find((Query { field: None, kind: None, named: true })),
            r matches Some(k) ==> k < self.children@.len(),
    {
        self.find_child(None, None, true)
    }

    /// How many named children stand under a field.
    pub fn named_children_by_field(&self, field: &str) -> (r: usize)
        ensures
            r == count_hits(self.children@, named_field(field@), self.children@.len() as int),
    {
        self.count_children(Some(field), None, true)
    }

    /// The node's text.
    pub fn node_text(&self, source: &[u8]) -> (r: String)
        ensures
            r@ == self.text(source@),
    {
        range_text(source, self.start, self.end)
    }
}

/// The query that optional search terms stand for.
pub open spec fn query(field: Option<&str>, kind: Option<&str>, named: bool) -> Query {
    Query {
        field: match field {
            Some(name) => Some(name@),
            None => None,
        },
        kind: match kind {
            Some(name) => Some(name@),
            None => None,
        },
        named,
    }
}

/// An optional index as a mathematical integer.
pub open spec fn index_of(i: Option<usize>) -> Option<int> {
    match i {
        Some(k) => Some(k as int),
        None => None,
    }
}

/// Whether a kind is one of the grammar's preprocessor kinds.
pub open spec fn preprocessor_kind(kind: Seq<char>) -> bool {
    kind.len() >= 2 && kind[0] == 'p' && kind[1] == 'p'
}

/// Whether a node of this kind and range is a preprocessor directive: one of the
/// preprocessor kinds, or a comment that starts with the bytes of `(*$`.
pub open spec fn preprocessor_at(kind: Seq<char>, start: usize, end: usize, source: Seq<u8>) -> bool {
    preprocessor_kind(kind) || (kind == "comment"@ && start <= end <= source.len() && end - start
        >= 3 && source[start as int] == 0x28u8 && source[start + 1] == 0x2au8 && source[start + 2]
        == 0x24u8)
}

/// Whether a kind is one of the grammar's preprocessor kinds.
pub fn is_preprocessor_kind(kind: &str) -> (r: bool)
    ensures
        r == preprocessor_kind(kind@),
{
    let len: usize = kind.unicode_len();
    len >= 2 && kind.get_char(0) == 'p' && kind.get_char(1) == 'p'
}

/// Whether a kind is that of a module: unit, program or library.
pub open spec fn module_kind(kind: Seq<char>) -> bool {
    kind == "unit"@ || kind == "program"@ || kind == "library"@
}

/// The first named node at or behind `i` that is a module.
pub open spec fn module_from(nodes: Seq<SyntaxNode>, i: int) -> Option<int>
    decreases nodes.len() - i,
{
    if i < 0 || i >= nodes.len() {
        None
    } else if nodes[i].named && module_kind(nodes[i].kind@) {
        Some(i)
    } else {
        module_from(nodes, i + 1)
    }
}

/// A module index lies among the nodes.
pub broadcast proof fn lemma_module_bounds(nodes: Seq<SyntaxNode>, i: int)
    ensures
        match #[trigger] module_from(nodes, i) {
            Some(k) => i <= k < nodes.len() && 0 <= k && module_kind(nodes[k].kind@),
            None => true,
        },
    decreases nodes.len() - i,
{
    if 0 <= i < nodes.len() && !(nodes[i].named && module_kind(nodes[i].kind@)) {
        lemma_module_bounds(nodes, i + 1);
    }
}

impl SyntaxNode {
    /// Whether the node is a preprocessor directive.
    pub open spec fn preprocessor(self, source: Seq<u8>) -> bool {
        preprocessor_at(self.kind@, self.start, self.end, source)
    }

    /// Whether the node is a preprocessor directive.
    pub fn is_preprocessor_node(&self, source: &[u8]) -> (r: bool)
        ensures
            r == self.preprocessor(source@),
    {
        is_preprocessor_kind(self.kind.as_str()) || (self.is_kind("comment") && self.start
            <= self.end && self.end <= source.len() && self.end - self.start >= 3
            && source[self.start] == 0x28u8 && source[self.start + 1] == 0x2au8
            && source[self.start + 2] == 0x24u8)
    }

    /// The index of the first child that is a module.
    pub fn module_child(&self) -> (r: Option<usize>)
        ensures
            index_of(r) == module_from(self.children@, 0),
            r matches Some(k) ==> k < self.children@.len(),
    {
        let mut i: usize = 0;
        while i < self.children.len()
            invariant
                i <= self.children@.len(),
                module_from(self.children@, 0) == module_from(self.children@, i as int),
            decreases self.children@.len() - i,
        {
            let child = &self.children[i];
            if child.named && (child.is_kind("unit") || child.is_kind("program") || child.is_kind(
                "library",
            )) {
                return Some(i);
            }
            i = i + 1;
        }
        None
    }
}

} // verus!
