//! Syntax trees of C++ text.
//!
//! The parser's tree is read into an arena of plain nodes in pre-order. Parents,
//! children and siblings follow from the depths of the nodes.

use crate::text::{from_utf8_lossy, lossy, opt_view, same_str, views};
use tree_sitter::Tree;
use vstd::prelude::*;
use vstd::slice::slice_subrange;

verus! {

// ---------------------------------------------------------------------------
// The parser
// ---------------------------------------------------------------------------

/// `tree_sitter::Tree`, the result of a parse.
#[verifier::external_type_specification]
#[verifier::external_body]
pub struct ExTree(tree_sitter::Tree);

/// One node as the parser describes it.
pub struct RawNode {
    /// The name of its grammar symbol.
    pub kind: String,
    /// The field under which it hangs on its parent.
    pub field: Option<String>,
    pub named: bool,
    pub is_error: bool,
    pub is_missing: bool,
    pub has_error: bool,
    /// The number of its ancestors.
    pub depth: usize,
    pub start_byte: usize,
    pub end_byte: usize,
    pub start_row: usize,
    pub start_col: usize,
    pub end_row: usize,
    pub end_col: usize,
}

/// The mathematical value of a [`RawNode`].
pub struct RawNodeView {
    pub kind: Seq<char>,
    pub field: Option<Seq<char>>,
    pub named: bool,
    pub is_error: bool,
    pub is_missing: bool,
    pub has_error: bool,
    pub depth: usize,
    pub start_byte: usize,
    pub end_byte: usize,
    pub start_row: usize,
    pub start_col: usize,
    pub end_row: usize,
    pub end_col: usize,
}

impl View for RawNode {
    type V = RawNodeView;

    open spec fn view(&self) -> RawNodeView {
        RawNodeView {
            kind: self.kind@,
            field: opt_view(self.field),
            named: self.named,
            is_error: self.is_error,
            is_missing: self.is_missing,
            has_error: self.has_error,
            depth: self.depth,
            start_byte: self.start_byte,
            end_byte: self.end_byte,
            start_row: self.start_row,
            start_col: self.start_col,
            end_row: self.end_row,
            end_col: self.end_col,
        }
    }
}

/// The nodes, in pre-order, of the tree that the C++ grammar gives for a text;
/// `None` where the parser gives none.
pub uninterp spec fn cpp_nodes(src: Seq<u8>) -> Option<Seq<RawNodeView>>;

/// The nodes of a tree, in pre-order.
pub uninterp spec fn tree_nodes(t: Tree) -> Seq<RawNodeView>;

/// Wraps `tree_sitter::Parser::parse` with the language of `tree_sitter_cpp` and
/// no earlier tree. The tree depends on the text alone: the parser is fresh, with
/// no time limit and no cancellation flag. The parser counts bytes in 32 bits, so
/// longer texts are left out.
#[verifier::external_body]
fn parse_cpp(src: &[u8]) -> (r: Option<Tree>)
    requires
        src@.len() <= u32::MAX,
    ensures
        r is Some <==> cpp_nodes(src@) is Some,
        r matches Some(t) ==> tree_nodes(t) == cpp_nodes(src@)->0,
{
    let mut parser = tree_sitter::Parser::new();
    parser.set_language(&tree_sitter_cpp::LANGUAGE.into()).ok()?;
    parser.parse(src, None)
}

/// Wraps `tree_sitter::Node::descendant_count` of the root: the number of nodes,
/// the root among them.
#[verifier::external_body]
fn node_count(t: &Tree) -> (r: usize)
    ensures
        r == tree_nodes(*t).len(),
{
    t.root_node().descendant_count()
}

/// Wraps `tree_sitter::TreeCursor::goto_descendant`, which moves a cursor to the
/// node with the given pre-order index, and reads that node off.
#[verifier::external_body]
fn node_at(t: &Tree, i: usize) -> (r: RawNode)
    requires
        i < tree_nodes(*t).len(),
    ensures
        r@ == tree_nodes(*t)[i as int],
{
    let mut c = t.walk();
    c.goto_descendant(i);
    let n = c.node();
    let (s, e) = (n.start_position(), n.end_position());
    RawNode {
        kind: n.kind().to_string(), field: c.field_name().map(|f| f.to_string()),
        named: n.is_named(), is_error: n.is_error(), is_missing: n.is_missing(),
        has_error: n.has_error(), depth: c.depth() as usize,
        start_byte: n.start_byte(), end_byte: n.end_byte(),
        start_row: s.row, start_col: s.column, end_row: e.row, end_col: e.column,
    }
}

/// The smallest node of the tree of `src` that spans the empty range at `offset`: its
/// first byte, the byte past its last, and the number of nodes under it with itself;
/// `None` where there is none.
pub uninterp spec fn smallest_node(src: Seq<u8>, offset: usize) -> Option<(usize, usize, usize)>;

/// Does a node lie around an offset, its end counted, or does it hold all of `count`
/// nodes, as the root does?
pub open spec fn spans(node: (usize, usize, usize), offset: usize, count: nat) -> bool {
    node.2 == count || node.0 <= offset <= node.1
}

/// Wraps `tree_sitter::Node::descendant_for_byte_range` on the root of the tree
/// of `src`, and reads off where the node lies and how many nodes it holds. That
/// depends on the text and the offset alone. The node is the root, or the offset lies
/// in it or at its end: the search goes down only into such nodes. The parser counts
/// bytes in 32 bits, so longer texts are left out, and of larger offsets no more is
/// said than that the result depends on them.
#[verifier::external_body]
pub(crate) fn smallest_node_at(src: &[u8], offset: usize) -> (r: Option<(usize, usize, usize)>)
    requires
        src@.len() <= u32::MAX,
    ensures
        r == smallest_node(src@, offset),
        r matches Some(x) ==> offset <= u32::MAX ==> cpp_nodes(src@) is Some && spans(
            x,
            offset,
            cpp_nodes(src@)->0.len(),
        ),
{
    let mut parser = tree_sitter::Parser::new();
    parser.set_language(&tree_sitter_cpp::LANGUAGE.into()).ok()?;
    let tree = parser.parse(src, None)?;
    let node = tree.root_node().descendant_for_byte_range(offset, offset)?;
    Some((node.start_byte(), node.end_byte(), node.descendant_count()))
}

// ---------------------------------------------------------------------------
// Nodes
// ---------------------------------------------------------------------------

/// The grammar symbols that resolution tells apart.
#[derive(Clone, Copy, Debug, PartialEq, Eq, Structural)]
pub enum NodeKind {
    FunctionDefinition,
    TemplateDeclaration,
    NamespaceDefinition,
    ClassSpecifier,
    StructSpecifier,
    UnionSpecifier,
    Declaration,
    FieldDeclaration,
    ParameterDeclaration,
    InitDeclarator,
    FunctionDeclarator,
    PointerDeclarator,
    ReferenceDeclarator,
    ArrayDeclarator,
    ParenthesizedDeclarator,
    Identifier,
    FieldIdentifier,
    TypeIdentifier,
    QualifiedIdentifier,
    DestructorName,
    OperatorName,
    FieldExpression,
    CompoundStatement,
    TypeQualifier,
    TrailingReturnType,
    Comment,
    Other,
}

/// The fields that resolution reads.
#[derive(Clone, Copy, Debug, PartialEq, Eq, Structural)]
pub enum Field {
    Type,
    Body,
    Name,
    Declarator,
    Value,
    Parameters,
    Other,
}

/// The kind of a grammar symbol, by its name.
pub open spec fn kind_named(s: Seq<char>) -> NodeKind {
    if s == "function_definition"@ {
        NodeKind::FunctionDefinition
    } else if s == "template_declaration"@ {
        NodeKind::TemplateDeclaration
    } else if s == "namespace_definition"@ {
        NodeKind::NamespaceDefinition
    } else if s == "class_specifier"@ {
        NodeKind::ClassSpecifier
    } else if s == "struct_specifier"@ {
        NodeKind::StructSpecifier
    } else if s == "union_specifier"@ {
        NodeKind::UnionSpecifier
    } else if s == "declaration"@ {
        NodeKind::Declaration
    } else if s == "field_declaration"@ {
        NodeKind::FieldDeclaration
    } else if s == "parameter_declaration"@ {
        NodeKind::ParameterDeclaration
    } else if s == "init_declarator"@ {
        NodeKind::InitDeclarator
    } else if s == "function_declarator"@ {
        NodeKind::FunctionDeclarator
    } else if s == "pointer_declarator"@ {
        NodeKind::PointerDeclarator
    } else if s == "reference_declarator"@ {
        NodeKind::ReferenceDeclarator
    } else if s == "array_declarator"@ {
        NodeKind::ArrayDeclarator
    } else if s == "parenthesized_declarator"@ {
        NodeKind::ParenthesizedDeclarator
    } else if s == "identifier"@ {
        NodeKind::Identifier
    } else if s == "field_identifier"@ {
        NodeKind::FieldIdentifier
    } else if s == "type_identifier"@ {
        NodeKind::TypeIdentifier
    } else if s == "qualified_identifier"@ {
        NodeKind::QualifiedIdentifier
    } else if s == "destructor_name"@ {
        NodeKind::DestructorName
    } else if s == "operator_name"@ {
        NodeKind::OperatorName
    } else if s == "field_expression"@ {
        NodeKind::FieldExpression
    } else if s == "compound_statement"@ {
        NodeKind::CompoundStatement
    } else if s == "type_qualifier"@ {
        NodeKind::TypeQualifier
    } else if s == "trailing_return_type"@ {
        NodeKind::TrailingReturnType
    } else if s == "comment"@ {
        NodeKind::Comment
    } else {
        NodeKind::Other
    }
}

fn kind_of_name(s: &str) -> (r: NodeKind)
    ensures
        r == kind_named(s@),
{
    if same_str(s, "function_definition") {
        NodeKind::FunctionDefinition
    } else if same_str(s, "template_declaration") {
        NodeKind::TemplateDeclaration
    } else if same_str(s, "namespace_definition") {
        NodeKind::NamespaceDefinition
    } else if same_str(s, "class_specifier") {
        NodeKind::ClassSpecifier
    } else if same_str(s, "struct_specifier") {
        NodeKind::StructSpecifier
    } else if same_str(s, "union_specifier") {
        NodeKind::UnionSpecifier
    } else if same_str(s, "declaration") {
        NodeKind::Declaration
    } else if same_str(s, "field_declaration") {
        NodeKind::FieldDeclaration
    } else if same_str(s, "parameter_declaration") {
        NodeKind::ParameterDeclaration
    } else if same_str(s, "init_declarator") {
        NodeKind::InitDeclarator
    } else if same_str(s, "function_declarator") {
        NodeKind::FunctionDeclarator
    } else if same_str(s, "pointer_declarator") {
        NodeKind::PointerDeclarator
    } else if same_str(s, "reference_declarator") {
        NodeKind::ReferenceDeclarator
    } else if same_str(s, "array_declarator") {
        NodeKind::ArrayDeclarator
    } else if same_str(s, "parenthesized_declarator") {
        NodeKind::ParenthesizedDeclarator
    } else if same_str(s, "identifier") {
        NodeKind::Identifier
    } else if same_str(s, "field_identifier") {
        NodeKind::FieldIdentifier
    } else if same_str(s, "type_identifier") {
        NodeKind::TypeIdentifier
    } else if same_str(s, "qualified_identifier") {
        NodeKind::QualifiedIdentifier
    } else if same_str(s, "destructor_name") {
        NodeKind::DestructorName
    } else if same_str(s, "operator_name") {
        NodeKind::OperatorName
    } else if same_str(s, "field_expression") {
        NodeKind::FieldExpression
    } else if same_str(s, "compound_statement") {
        NodeKind::CompoundStatement
    } else if same_str(s, "type_qualifier") {
        NodeKind::TypeQualifier
    } else if same_str(s, "trailing_return_type") {
        NodeKind::TrailingReturnType
    } else if same_str(s, "comment") {
        NodeKind::Comment
    } else {
        NodeKind::Other
    }
}

/// The field of a node, by its name.
pub open spec fn field_named(s: Option<Seq<char>>) -> Field {
    if s == Some("type"@) {
        Field::Type
    } else if s == Some("body"@) {
        Field::Body
    } else if s == Some("name"@) {
        Field::Name
    } else if s == Some("declarator"@) {
        Field::Declarator
    } else if s == Some("value"@) {
        Field::Value
    } else if s == Some("parameters"@) {
        Field::Parameters
    } else {
        Field::Other
    }
}

fn field_of_name(s: &Option<String>) -> (r: Field)
    ensures
        r == field_named(opt_view(*s)),
{
    match s {
        Some(t) => if same_str(t, "type") {
            Field::Type
        } else if same_str(t, "body") {
            Field::Body
        } else if same_str(t, "name") {
            Field::Name
        } else if same_str(t, "declarator") {
            Field::Declarator
        } else if same_str(t, "value") {
            Field::Value
        } else if same_str(t, "parameters") {
            Field::Parameters
        } else {
            Field::Other
        },
        None => Field::Other,
    }
}

/// A node of a syntax tree.
#[derive(Clone, Copy, Debug)]
pub struct SyntaxNode {
    pub kind: NodeKind,
    pub field: Field,
    pub named: bool,
    /// Is this node itself an error or a missing token?
    pub faulty: bool,
    /// Is there an error in the subtree of this node?
    pub has_error: bool,
    /// The number of ancestors.
    pub depth: usize,
    pub start_byte: usize,
    pub end_byte: usize,
    /// 0-based rows and byte columns.
    pub start_row: usize,
    pub start_col: usize,
    pub end_row: usize,
    pub end_col: usize,
}

/// What is kept of a node.
pub open spec fn syntax_node(n: RawNodeView) -> SyntaxNode {
    SyntaxNode {
        kind: kind_named(n.kind),
        field: field_named(n.field),
        named: n.named,
        faulty: n.is_error || n.is_missing,
        has_error: n.has_error,
        depth: n.depth,
        start_byte: n.start_byte,
        end_byte: n.end_byte,
        start_row: n.start_row,
        start_col: n.start_col,
        end_row: n.end_row,
        end_col: n.end_col,
    }
}

fn node_of_raw(n: &RawNode) -> (r: SyntaxNode)
    ensures
        r == syntax_node(n@),
{
    SyntaxNode {
        kind: kind_of_name(&n.kind),
        field: field_of_name(&n.field),
        named: n.named,
        faulty: n.is_error || n.is_missing,
        has_error: n.has_error,
        depth: n.depth,
        start_byte: n.start_byte,
        end_byte: n.end_byte,
        start_row: n.start_row,
        start_col: n.start_col,
        end_row: n.end_row,
        end_col: n.end_col,
    }
}

/// Does a node lie in a text of `len` bytes, on rows that can be counted from one?
pub open spec fn node_fits(n: SyntaxNode, len: nat) -> bool {
    n.start_byte <= n.end_byte <= len && n.start_row < usize::MAX && n.end_row < usize::MAX
}

/// Does no node end after its parent?
#[verifier::opaque]
pub open spec fn ends_nest(t: Seq<SyntaxNode>) -> bool {
    forall|i: int| 0 <= i < t.len() ==> ends_in_parent(t, i)
}

/// Does node `i` end no later than its parent?
pub open spec fn ends_in_parent(t: Seq<SyntaxNode>, i: int) -> bool {
    parent(t, i) matches Some(p) ==> t[i].end_byte <= t[p].end_byte
}

/// Is this the kind of a function, a template, a class or a struct?
pub open spec fn is_scope(k: NodeKind) -> bool {
    k == NodeKind::FunctionDefinition || k == NodeKind::TemplateDeclaration || k
        == NodeKind::ClassSpecifier || k == NodeKind::StructSpecifier
}

/// Is the tree not empty, with every node in a text of `len` bytes, no node starting
/// before one that precedes it or ending after its parent, and a root that is no scope?
pub open spec fn tree_fits(t: Seq<SyntaxNode>, len: nat) -> bool {
    &&& t.len() > 0
    &&& forall|i: int| 0 <= i < t.len() ==> node_fits(#[trigger] t[i], len)
    &&& forall|i: int, j: int|
        0 <= i <= j < t.len() ==> (#[trigger] t[i]).start_byte <= (#[trigger] t[j]).start_byte
    &&& ends_nest(t)
    &&& !is_scope(t[0].kind)
}

/// The tree of the given nodes; `None` if it does not fit a text of `len` bytes.
pub open spec fn fitting_tree(raw: Seq<RawNodeView>, len: nat) -> Option<Seq<SyntaxNode>> {
    let t = raw.map_values(|n: RawNodeView| syntax_node(n));
    if tree_fits(t, len) {
        Some(t)
    } else {
        None
    }
}

/// The syntax tree of a text: its nodes in pre-order; `None` where the text is too
/// long for the parser, or where it gives no tree that fits the text.
pub open spec fn parsed(src: Seq<u8>) -> Option<Seq<SyntaxNode>> {
    match cpp_nodes(src) {
        Some(raw) => if src.len() <= u32::MAX {
            fitting_tree(raw, src.len())
        } else {
            None
        },
        None => None,
    }
}

// ---------------------------------------------------------------------------
// Navigation
// ---------------------------------------------------------------------------

/// The last node at or before `j` whose depth is below `d`.
pub open spec fn last_above(t: Seq<SyntaxNode>, j: int, d: int) -> Option<int>
    decreases j + 1,
{
    if j < 0 {
        None
    } else if t[j].depth < d {
        Some(j)
    } else {
        last_above(t, j - 1, d)
    }
}

/// The parent of node `i`.
pub open spec fn parent(t: Seq<SyntaxNode>, i: int) -> Option<int> {
    last_above(t, i - 1, t[i].depth as int)
}

/// The first node at or after `j` whose depth is at most `d`, or the number of
/// nodes.
pub open spec fn first_outside(t: Seq<SyntaxNode>, j: int, d: int) -> int
    decreases t.len() - j,
{
    if j >= t.len() {
        t.len() as int
    } else if t[j].depth <= d {
        j
    } else {
        first_outside(t, j + 1, d)
    }
}

/// The end of the subtree of node `i`: the index past its last descendant.
pub open spec fn subtree_end(t: Seq<SyntaxNode>, i: int) -> int {
    first_outside(t, i + 1, t[i].depth as int)
}

pub proof fn last_above_bounds(t: Seq<SyntaxNode>, j: int, d: int)
    requires
        j < t.len(),
    ensures
        last_above(t, j, d) matches Some(k) ==> 0 <= k <= j && t[k].depth < d,
        forall|k: int|
            0 <= k <= j && (last_above(t, j, d) matches Some(p) ==> p < k)
                ==> #[trigger] t[k].depth >= d,
    decreases j + 1,
{
    if j >= 0 && t[j].depth >= d {
        last_above_bounds(t, j - 1, d);
    }
}

/// Nodes that are not above `d` can be skipped in the search for one that is.
proof fn last_above_skip(t: Seq<SyntaxNode>, j: int, k: int, d: int)
    requires
        -1 <= k <= j < t.len(),
        forall|m: int| k < m <= j ==> #[trigger] t[m].depth >= d,
    ensures
        last_above(t, j, d) == last_above(t, k, d),
    decreases j - k,
{
    if k < j {
        assert(t[j].depth >= d);
        last_above_skip(t, j - 1, k, d);
    }
}

pub proof fn first_outside_bounds(t: Seq<SyntaxNode>, j: int, d: int)
    requires
        0 <= j <= t.len(),
    ensures
        j <= first_outside(t, j, d) <= t.len(),
        forall|k: int| j <= k < first_outside(t, j, d) ==> #[trigger] t[k].depth > d,
        first_outside(t, j, d) < t.len() ==> t[first_outside(t, j, d)].depth <= d,
    decreases t.len() - j,
{
    if j < t.len() && t[j].depth > d {
        first_outside_bounds(t, j + 1, d);
    }
}

proof fn first_outside_skip(t: Seq<SyntaxNode>, j: int, k: int, d: int)
    requires
        0 <= j <= k <= t.len(),
        forall|m: int| j <= m < k ==> #[trigger] t[m].depth > d,
    ensures
        first_outside(t, j, d) == first_outside(t, k, d),
    decreases k - j,
{
    if j < k {
        assert(t[j].depth > d);
        first_outside_skip(t, j + 1, k, d);
    }
}

/// A syntax tree: its nodes in pre-order, with the links between them.
pub struct SyntaxTree {
    nodes: Vec<SyntaxNode>,
    parents: Vec<Option<usize>>,
    ends: Vec<usize>,
}

impl View for SyntaxTree {
    type V = Seq<SyntaxNode>;

    closed spec fn view(&self) -> Seq<SyntaxNode> {
        self.nodes@
    }
}

/// An index as a mathematical number.
pub open spec fn opt_int(o: Option<usize>) -> Option<int> {
    match o {
        Some(i) => Some(i as int),
        None => None,
    }
}

impl SyntaxTree {
    #[verifier::type_invariant]
    closed spec fn inv(&self) -> bool {
        &&& self.parents@.len() == self.nodes@.len()
        &&& self.ends@.len() == self.nodes@.len()
        &&& forall|i: int|
            0 <= i < self.nodes@.len() ==> opt_int(#[trigger] self.parents@[i]) == parent(
                self.nodes@,
                i,
            )
        &&& forall|i: int|
            0 <= i < self.nodes@.len() ==> #[trigger] self.ends@[i] == subtree_end(self.nodes@, i)
    }

    /// The tree of the given nodes, in pre-order.
    pub fn new(nodes: Vec<SyntaxNode>) -> (r: SyntaxTree)
        ensures
            r@ == nodes@,
    {
        let parents = parents_of(&nodes);
        let ends = ends_of(&nodes);
        SyntaxTree { nodes, parents, ends }
    }

    /// The number of nodes.
    pub fn len(&self) -> (r: usize)
        ensures
            r == self@.len(),
    {
        self.nodes.len()
    }

    /// Node `i`.
    pub fn node(&self, i: usize) -> (r: SyntaxNode)
        requires
            i < self@.len(),
        ensures
            r == self@[i as int],
    {
        self.nodes[i]
    }

    /// The parent of node `i`.
    pub fn parent(&self, i: usize) -> (r: Option<usize>)
        requires
            i < self@.len(),
        ensures
            opt_int(r) == parent(self@, i as int),
            r matches Some(p) ==> p < i,
    {
        proof {
            use_type_invariant(self);
            last_above_bounds(self.nodes@, i - 1, self.nodes@[i as int].depth as int);
        }
        self.parents[i]
    }

    fn ends_do_nest(&self) -> (r: bool)
        ensures
            r == ends_nest(self@),
    {
        proof {
            reveal(ends_nest);
        }
        let mut i: usize = 0;
        while i < self.len()
            invariant
                i <= self@.len(),
                forall|k: int| 0 <= k < i ==> ends_in_parent(self@, k),
            decreases self@.len() - i,
        {
            if let Some(p) = self.parent(i) {
                if self.node(i).end_byte > self.node(p).end_byte {
                    proof {
                        reveal(ends_nest);
                        assert(!ends_in_parent(self@, i as int));
                    }
                    return false;
                }
            }
            i += 1;
        }
        true
    }

    /// The end of the subtree of node `i`.
    pub fn subtree_end(&self, i: usize) -> (r: usize)
        requires
            i < self@.len(),
        ensures
            r == subtree_end(self@, i as int),
            i < r <= self@.len(),
    {
        proof {
            use_type_invariant(self);
            first_outside_bounds(self.nodes@, i + 1, self.nodes@[i as int].depth as int);
        }
        self.ends[i]
    }
}

fn parents_of(nodes: &Vec<SyntaxNode>) -> (r: Vec<Option<usize>>)
    ensures
        r@.len() == nodes@.len(),
        forall|i: int| 0 <= i < nodes@.len() ==> opt_int(#[trigger] r@[i]) == parent(nodes@, i),
{
    let mut out: Vec<Option<usize>> = Vec::new();
    let mut i: usize = 0;
    while i < nodes.len()
        invariant
            i <= nodes@.len(),
            out@.len() == i,
            forall|k: int| 0 <= k < i ==> opt_int(#[trigger] out@[k]) == parent(nodes@, k),
        decreases nodes@.len() - i,
    {
        let d = nodes[i].depth;
        let mut p: Option<usize> = if i > 0 { Some(i - 1) } else { None };
        loop
            invariant
                i < nodes@.len(),
                out@.len() == i,
                d == nodes@[i as int].depth,
                forall|k: int| 0 <= k < i ==> opt_int(#[trigger] out@[k]) == parent(nodes@, k),
                match p {
                    Some(j) => j < i && parent(nodes@, i as int) == last_above(
                        nodes@,
                        j as int,
                        d as int,
                    ),
                    None => parent(nodes@, i as int) is None,
                },
            ensures
                opt_int(p) == parent(nodes@, i as int),
            decreases (match p {
                Some(j) => j + 1,
                None => 0int,
            }),
        {
            match p {
                None => {
                    break ;
                },
                Some(j) => {
                    if nodes[j].depth < d {
                        break ;
                    }
                    p = out[j];
                    proof {
                        let dj = nodes@[j as int].depth as int;
                        last_above_bounds(nodes@, j - 1, dj);
                        let k: int = match p {
                            Some(q) => q as int,
                            None => -1,
                        };
                        assert(opt_int(out@[j as int]) == parent(nodes@, j as int));
                        assert forall|m: int| k < m <= j implies #[trigger] nodes@[m].depth >= d by {
                            if m < j {
                                assert(nodes@[m].depth >= dj);
                            }
                        }
                        last_above_skip(nodes@, j as int, k, d as int);
                    }
                },
            }
        }
        out.push(p);
        i += 1;
    }
    out
}

fn ends_of(nodes: &Vec<SyntaxNode>) -> (r: Vec<usize>)
    ensures
        r@.len() == nodes@.len(),
        forall|i: int| 0 <= i < nodes@.len() ==> #[trigger] r@[i] == subtree_end(nodes@, i),
{
    let n = nodes.len();
    let mut out: Vec<usize> = Vec::new();
    let mut k: usize = 0;
    while k < n
        invariant
            k <= n,
            n == nodes@.len(),
            out@.len() == k,
            forall|m: int| 0 <= m < k ==> #[trigger] out@[m] == 0,
        decreases n - k,
    {
        out.push(0);
        k += 1;
    }
    let mut i: usize = n;
    while i > 0
        invariant
            i <= n,
            n == nodes@.len(),
            out@.len() == n,
            forall|m: int| i <= m < n ==> #[trigger] out@[m] == subtree_end(nodes@, m),
        decreases i,
    {
        i -= 1;
        let d = nodes[i].depth;
        let mut j: usize = i + 1;
        while j < n && nodes[j].depth > d
            invariant
                i < j <= n,
                n == nodes@.len(),
                out@.len() == n,
                d == nodes@[i as int].depth,
                first_outside(nodes@, j as int, d as int) == subtree_end(nodes@, i as int),
                forall|m: int| i < m < n ==> #[trigger] out@[m] == subtree_end(nodes@, m),
            decreases n - j,
        {
            let next = out[j];
            proof {
                let dj = nodes@[j as int].depth as int;
                first_outside_bounds(nodes@, j + 1, dj);
                assert forall|m: int| j <= m < next implies #[trigger] nodes@[m].depth > d by {
                    if m > j {
                        assert(nodes@[m].depth > dj);
                    }
                }
                first_outside_skip(nodes@, j as int, next as int, d as int);
            }
            j = next;
        }
        out.set(i, j);
    }
    out
}

/// The verbatim text of a node.
pub open spec fn node_text(src: Seq<u8>, n: SyntaxNode) -> Seq<char> {
    lossy(src.subrange(n.start_byte as int, n.end_byte as int))
}

pub(crate) fn text_of(src: &[u8], n: SyntaxNode) -> (r: String)
    requires
        node_fits(n, src@.len()),
    ensures
        r@ == node_text(src@, n),
{
    from_utf8_lossy(slice_subrange(src, n.start_byte, n.end_byte))
}

/// Builds the tree of the given nodes, if it fits a text of `len` bytes.
pub fn tree_of_nodes(raw: &Vec<RawNode>, len: usize) -> (r: Option<SyntaxTree>)
    ensures
        opt_view(r) == fitting_tree(views(raw@), len as nat),
{
    let ghost all = views(raw@).map_values(|n: RawNodeView| syntax_node(n));
    let mut nodes: Vec<SyntaxNode> = Vec::new();
    let mut i: usize = 0;
    while i < raw.len()
        invariant
            i <= raw@.len(),
            all == views(raw@).map_values(|n: RawNodeView| syntax_node(n)),
            nodes@ =~= all.take(i as int),
            forall|k: int| 0 <= k < i ==> node_fits(#[trigger] nodes@[k], len as nat),
            forall|k: int, m: int|
                0 <= k <= m < i ==> (#[trigger] nodes@[k]).start_byte <= (
                #[trigger] nodes@[m]).start_byte,
        decreases raw@.len() - i,
    {
        assert(views(raw@)[i as int] == raw@[i as int]@);
        let node = node_of_raw(&raw[i]);
        assert(node == all[i as int]);
        if node.start_byte > node.end_byte || node.end_byte > len || node.start_row >= usize::MAX
            || node.end_row >= usize::MAX {
            assert(!node_fits(all[i as int], len as nat));
            return None;
        }
        if i > 0 && nodes[i - 1].start_byte > node.start_byte {
            assert(all[i - 1].start_byte > all[i as int].start_byte);
            return None;
        }
        nodes.push(node);
        i += 1;
    }
    assert(all.len() == raw@.len());
    assert(nodes@ =~= all);
    if nodes.len() == 0 {
        return None;
    }
    let k = nodes[0].kind;
    if k == NodeKind::FunctionDefinition || k == NodeKind::TemplateDeclaration || k
        == NodeKind::ClassSpecifier || k == NodeKind::StructSpecifier {
        return None;
    }
    let t = SyntaxTree::new(nodes);
    if t.ends_do_nest() {
        Some(t)
    } else {
        None
    }
}

/// Parses a C++ source buffer.
pub fn parse(src: &[u8]) -> (r: Option<SyntaxTree>)
    ensures
        opt_view(r) == parsed(src@),
{
    let len = src.len();
    if len > u32::MAX as usize {
        return None;
    }
    let tree = match parse_cpp(src) {
        Some(tree) => tree,
        None => return None,
    };
    let n = node_count(&tree);
    let mut raw: Vec<RawNode> = Vec::new();
    let mut i: usize = 0;
    while i < n
        invariant
            i <= n,
            n == tree_nodes(tree).len(),
            views(raw@) =~= tree_nodes(tree).take(i as int),
        decreases n - i,
    {
        let ghost before = views(raw@);
        raw.push(node_at(&tree, i));
        assert(views(raw@) =~= before.push(tree_nodes(tree)[i as int]));
        i += 1;
    }
    assert(views(raw@) =~= tree_nodes(tree));
    tree_of_nodes(&raw, len)
}

} // verus!
