//! What the nodes of a C++ syntax tree declare and define.

use crate::engine::syntax::{
    first_outside_bounds, last_above_bounds, node_text, opt_int, parent, subtree_end, text_of,
    tree_fits, Field, NodeKind, SyntaxNode, SyntaxTree,
};
use crate::model::Kind;
use crate::text::{
    after_arrows, component_start, concat, concat3, contains, ends_with, has_infix, has_suffix,
    is_empty, join, joined, last_component, last_component_of, next_of, next_of_bounds,
    occurs_at, opt_view, same_str, trim, trim_arrows, trimmed, views,
};
use vstd::prelude::*;
use vstd::string::*;

verus! {

// ---------------------------------------------------------------------------
// Children
// ---------------------------------------------------------------------------

/// The nodes that start at `c` and follow one another, subtree by subtree, up to
/// `end`.
pub open spec fn row_of(t: Seq<SyntaxNode>, c: int, end: int) -> Seq<int>
    decreases t.len() - c,
    when 0 <= c && end <= t.len()
    via row_of_decreases
{
    if c >= end {
        Seq::empty()
    } else {
        seq![c] + row_of(t, subtree_end(t, c), end)
    }
}

#[via_fn]
proof fn row_of_decreases(t: Seq<SyntaxNode>, c: int, end: int) {
    if c < end {
        first_outside_bounds(t, c + 1, t[c].depth as int);
    }
}

/// The children of node `i`, in order.
pub open spec fn children(t: Seq<SyntaxNode>, i: int) -> Seq<int> {
    row_of(t, i + 1, subtree_end(t, i))
}

proof fn row_of_bounds(t: Seq<SyntaxNode>, c: int, end: int)
    requires
        0 <= c,
        end <= t.len(),
    ensures
        forall|k: int| 0 <= k < row_of(t, c, end).len() ==> c <= #[trigger] row_of(t, c, end)[k] < end,
    decreases t.len() - c,
{
    if c < end {
        first_outside_bounds(t, c + 1, t[c].depth as int);
        let next = subtree_end(t, c);
        row_of_bounds(t, next, end);
        let all = row_of(t, c, end);
        assert forall|k: int| 0 <= k < all.len() implies c <= #[trigger] all[k] < end by {
            if k > 0 {
                assert(all[k] == row_of(t, next, end)[k - 1]);
            }
        }
    }
}

/// The children of a node come after it.
pub proof fn children_bounds(t: Seq<SyntaxNode>, i: int)
    requires
        0 <= i < t.len(),
    ensures
        forall|k: int|
            0 <= k < children(t, i).len() ==> i < #[trigger] children(t, i)[k] < t.len(),
{
    first_outside_bounds(t, i + 1, t[i].depth as int);
    row_of_bounds(t, i + 1, subtree_end(t, i));
}

/// Indices as mathematical numbers.
pub open spec fn ints(s: Seq<usize>) -> Seq<int> {
    s.map_values(|i: usize| i as int)
}

pub(crate) fn children_of(t: &SyntaxTree, i: usize) -> (r: Vec<usize>)
    requires
        i < t@.len(),
    ensures
        ints(r@) == children(t@, i as int),
        forall|k: int| 0 <= k < r@.len() ==> i < #[trigger] r@[k] < t@.len(),
{
    let end = t.subtree_end(i);
    let mut out: Vec<usize> = Vec::new();
    let mut c: usize = i + 1;
    let ghost all = children(t@, i as int);
    assert(ints(out@) + all =~= all);
    while c < end
        invariant
            i < c <= t@.len(),
            end <= t@.len(),
            all == children(t@, i as int),
            ints(out@) + row_of(t@, c as int, end as int) == all,
            forall|k: int| 0 <= k < out@.len() ==> i < #[trigger] out@[k] < t@.len(),
        decreases t@.len() - c,
    {
        let ghost before = ints(out@);
        let ghost rest = row_of(t@, c as int, end as int);
        out.push(c);
        let next = t.subtree_end(c);
        assert(rest == seq![c as int] + row_of(t@, next as int, end as int));
        assert(ints(out@) =~= before.push(c as int));
        assert(ints(out@) + row_of(t@, next as int, end as int) =~= before + rest);
        c = next;
    }
    assert(ints(out@) + row_of(t@, c as int, end as int) =~= ints(out@));
    out
}

/// The first of `s[k..]` that hangs under field `f`.
pub open spec fn first_in_field(t: Seq<SyntaxNode>, s: Seq<int>, f: Field, k: int) -> Option<int>
    decreases s.len() - k,
{
    if k < 0 || k >= s.len() {
        None
    } else if t[s[k]].field == f {
        Some(s[k])
    } else {
        first_in_field(t, s, f, k + 1)
    }
}

/// The child of node `i` under field `f`.
pub open spec fn field_child(t: Seq<SyntaxNode>, i: int, f: Field) -> Option<int> {
    first_in_field(t, children(t, i), f, 0)
}

pub(crate) fn field_child_of(t: &SyntaxTree, i: usize, f: Field) -> (r: Option<usize>)
    requires
        i < t@.len(),
    ensures
        opt_int(r) == field_child(t@, i as int, f),
        r matches Some(c) ==> i < c < t@.len(),
{
    let kids = children_of(t, i);
    let ghost s = children(t@, i as int);
    let mut k: usize = 0;
    while k < kids.len()
        invariant
            k <= kids@.len(),
            s == children(t@, i as int),
            ints(kids@) == s,
            forall|m: int| 0 <= m < kids@.len() ==> i < #[trigger] kids@[m] < t@.len(),
            first_in_field(t@, s, f, k as int) == first_in_field(t@, s, f, 0),
        decreases kids@.len() - k,
    {
        assert(s[k as int] == kids@[k as int]);
        if t.node(kids[k]).field == f {
            return Some(kids[k]);
        }
        k += 1;
    }
    None
}

/// Is any of `s[k..]` of the given kind?
pub open spec fn any_of_kind(t: Seq<SyntaxNode>, s: Seq<int>, kind: NodeKind) -> bool {
    exists|k: int| 0 <= k < s.len() && t[#[trigger] s[k]].kind == kind
}

fn has_child_of_kind(t: &SyntaxTree, i: usize, kind: NodeKind) -> (r: bool)
    requires
        i < t@.len(),
    ensures
        r == any_of_kind(t@, children(t@, i as int), kind),
{
    let kids = children_of(t, i);
    let ghost s = children(t@, i as int);
    let mut k: usize = 0;
    while k < kids.len()
        invariant
            k <= kids@.len(),
            s == children(t@, i as int),
            ints(kids@) == s,
            forall|m: int| 0 <= m < kids@.len() ==> i < #[trigger] kids@[m] < t@.len(),
            forall|m: int| 0 <= m < k ==> t@[#[trigger] s[m]].kind != kind,
        decreases kids@.len() - k,
    {
        assert(s[k as int] == kids@[k as int]);
        if t.node(kids[k]).kind == kind {
            return true;
        }
        k += 1;
    }
    false
}

// ---------------------------------------------------------------------------
// Declarators and names
// ---------------------------------------------------------------------------

/// Is this the kind of a node that is itself a name?
pub open spec fn name_kind(k: NodeKind) -> bool {
    matches!(
        k,
        NodeKind::Identifier | NodeKind::FieldIdentifier | NodeKind::TypeIdentifier
        | NodeKind::QualifiedIdentifier | NodeKind::DestructorName | NodeKind::OperatorName
    )
}

/// Is this the kind of a declarator, or of a name that can stand for one?
pub open spec fn declarator_kind(k: NodeKind) -> bool {
    name_kind(k) || matches!(
        k,
        NodeKind::FunctionDeclarator | NodeKind::PointerDeclarator | NodeKind::ReferenceDeclarator
        | NodeKind::ArrayDeclarator | NodeKind::ParenthesizedDeclarator | NodeKind::InitDeclarator
    )
}

fn is_name_kind(k: NodeKind) -> (r: bool)
    ensures
        r == name_kind(k),
{
    matches!(
        k,
        NodeKind::Identifier | NodeKind::FieldIdentifier | NodeKind::TypeIdentifier
        | NodeKind::QualifiedIdentifier | NodeKind::DestructorName | NodeKind::OperatorName
    )
}

fn is_declarator_kind(k: NodeKind) -> (r: bool)
    ensures
        r == declarator_kind(k),
{
    is_name_kind(k) || matches!(
        k,
        NodeKind::FunctionDeclarator | NodeKind::PointerDeclarator | NodeKind::ReferenceDeclarator
        | NodeKind::ArrayDeclarator | NodeKind::ParenthesizedDeclarator | NodeKind::InitDeclarator
    )
}

/// The first named declarator among `s[k..]`.
pub open spec fn first_declarator(t: Seq<SyntaxNode>, s: Seq<int>, k: int) -> Option<int>
    decreases s.len() - k,
{
    if k < 0 || k >= s.len() {
        None
    } else if t[s[k]].named && declarator_kind(t[s[k]].kind) {
        Some(s[k])
    } else {
        first_declarator(t, s, k + 1)
    }
}

/// The inner declarator of a wrapper node: the child under the `declarator`
/// field or, where the grammar labels none (as in a reference declarator), the
/// first named child that is a declarator.
pub open spec fn inner_declarator(t: Seq<SyntaxNode>, i: int) -> Option<int> {
    match field_child(t, i, Field::Declarator) {
        Some(d) => Some(d),
        None => first_declarator(t, children(t, i), 0),
    }
}

pub proof fn field_child_bounds(t: Seq<SyntaxNode>, i: int, f: Field)
    requires
        0 <= i < t.len(),
    ensures
        field_child(t, i, f) matches Some(d) ==> i < d < t.len(),
{
    children_bounds(t, i);
    first_in_field_member(t, children(t, i), f, 0);
}

proof fn first_in_field_member(t: Seq<SyntaxNode>, s: Seq<int>, f: Field, k: int)
    requires
        0 <= k,
    ensures
        first_in_field(t, s, f, k) matches Some(d) ==> exists|m: int|
            0 <= m < s.len() && #[trigger] s[m] == d,
    decreases s.len() - k,
{
    if k < s.len() {
        if t[s[k]].field != f {
            first_in_field_member(t, s, f, k + 1);
        }
    }
}

proof fn first_declarator_member(t: Seq<SyntaxNode>, s: Seq<int>, k: int)
    requires
        0 <= k,
    ensures
        first_declarator(t, s, k) matches Some(d) ==> exists|m: int|
            0 <= m < s.len() && #[trigger] s[m] == d,
    decreases s.len() - k,
{
    if k < s.len() {
        if !(t[s[k]].named && declarator_kind(t[s[k]].kind)) {
            first_declarator_member(t, s, k + 1);
        }
    }
}

pub proof fn inner_declarator_bounds(t: Seq<SyntaxNode>, i: int)
    requires
        0 <= i < t.len(),
    ensures
        inner_declarator(t, i) matches Some(d) ==> i < d < t.len(),
{
    children_bounds(t, i);
    field_child_bounds(t, i, Field::Declarator);
    first_declarator_member(t, children(t, i), 0);
}

pub(crate) fn inner_declarator_of(t: &SyntaxTree, i: usize) -> (r: Option<usize>)
    requires
        i < t@.len(),
    ensures
        opt_int(r) == inner_declarator(t@, i as int),
        r matches Some(c) ==> i < c < t@.len(),
{
    if let Some(d) = field_child_of(t, i, Field::Declarator) {
        return Some(d);
    }
    let kids = children_of(t, i);
    let ghost s = children(t@, i as int);
    let mut k: usize = 0;
    while k < kids.len()
        invariant
            k <= kids@.len(),
            s == children(t@, i as int),
            field_child(t@, i as int, Field::Declarator) is None,
            ints(kids@) == s,
            forall|m: int| 0 <= m < kids@.len() ==> i < #[trigger] kids@[m] < t@.len(),
            first_declarator(t@, s, k as int) == first_declarator(t@, s, 0),
        decreases kids@.len() - k,
    {
        assert(s[k as int] == kids@[k as int]);
        let n = t.node(kids[k]);
        if n.named && is_declarator_kind(n.kind) {
            return Some(kids[k]);
        }
        k += 1;
    }
    None
}

/// The terminal name under the declarator wrappers of node `i`.
pub open spec fn innermost_name(t: Seq<SyntaxNode>, i: int) -> Option<int>
    decreases t.len() - i,
    when 0 <= i < t.len()
    via innermost_name_decreases
{
    if name_kind(t[i].kind) {
        Some(i)
    } else {
        match inner_declarator(t, i) {
            Some(d) => innermost_name(t, d),
            None => None,
        }
    }
}

#[via_fn]
proof fn innermost_name_decreases(t: Seq<SyntaxNode>, i: int) {
    inner_declarator_bounds(t, i);
}

pub(crate) fn innermost_name_of(t: &SyntaxTree, i: usize) -> (r: Option<usize>)
    requires
        i < t@.len(),
    ensures
        opt_int(r) == innermost_name(t@, i as int),
        r matches Some(c) ==> i <= c < t@.len(),
    decreases t@.len() - i,
{
    if is_name_kind(t.node(i).kind) {
        return Some(i);
    }
    match inner_declarator_of(t, i) {
        Some(d) => innermost_name_of(t, d),
        None => None,
    }
}

/// Do pointer, reference and parenthesis wrappers around node `i` enclose a
/// function declarator?
pub open spec fn wraps_function(t: Seq<SyntaxNode>, i: int) -> bool
    decreases t.len() - i,
    when 0 <= i < t.len()
    via wraps_function_decreases
{
    match t[i].kind {
        NodeKind::FunctionDeclarator => true,
        NodeKind::PointerDeclarator
        | NodeKind::ReferenceDeclarator
        | NodeKind::ParenthesizedDeclarator => match inner_declarator(t, i) {
            Some(d) => wraps_function(t, d),
            None => false,
        },
        _ => false,
    }
}

#[via_fn]
proof fn wraps_function_decreases(t: Seq<SyntaxNode>, i: int) {
    inner_declarator_bounds(t, i);
}

/// Does a declaration declare a function? Its declarator wraps a function
/// declarator, or one of its children is one: the grammar hangs it there, under
/// no field, when an unknown macro stands before the function's name.
pub open spec fn is_prototype(t: Seq<SyntaxNode>, i: int) -> bool {
    ||| (field_child(t, i, Field::Declarator) matches Some(d) && wraps_function(t, d))
    ||| any_of_kind(t, children(t, i), NodeKind::FunctionDeclarator)
}

fn wraps_function_at(t: &SyntaxTree, i: usize) -> (r: bool)
    requires
        i < t@.len(),
    ensures
        r == wraps_function(t@, i as int),
{
    let mut cur: usize = i;
    loop
        invariant
            cur < t@.len(),
            wraps_function(t@, cur as int) == wraps_function(t@, i as int),
        decreases t@.len() - cur,
    {
        match t.node(cur).kind {
            NodeKind::FunctionDeclarator => {
                return true;
            },
            NodeKind::PointerDeclarator
            | NodeKind::ReferenceDeclarator
            | NodeKind::ParenthesizedDeclarator => {
                match inner_declarator_of(t, cur) {
                    Some(d) => {
                        cur = d;
                    },
                    None => {
                        return false;
                    },
                }
            },
            _ => {
                return false;
            },
        }
    }
}

fn is_function_prototype(t: &SyntaxTree, i: usize) -> (r: bool)
    requires
        i < t@.len(),
    ensures
        r == is_prototype(t@, i as int),
{
    if let Some(d) = field_child_of(t, i, Field::Declarator) {
        if wraps_function_at(t, d) {
            return true;
        }
    }
    has_child_of_kind(t, i, NodeKind::FunctionDeclarator)
}

/// The node that names what node `i` declares or defines.
pub open spec fn name_node(t: Seq<SyntaxNode>, i: int) -> Option<int> {
    match t[i].kind {
        NodeKind::ClassSpecifier | NodeKind::StructSpecifier => field_child(t, i, Field::Name),
        _ => match field_child(t, i, Field::Declarator) {
            Some(d) => match innermost_name(t, d) {
                Some(n) => Some(n),
                None => first_function_name(t, children(t, i), 0),
            },
            None => first_function_name(t, children(t, i), 0),
        },
    }
}

/// The name of the first function declarator among `s[k..]` that has one.
pub open spec fn first_function_name(t: Seq<SyntaxNode>, s: Seq<int>, k: int) -> Option<int>
    decreases s.len() - k,
{
    if k < 0 || k >= s.len() {
        None
    } else if t[s[k]].kind == NodeKind::FunctionDeclarator && innermost_name(t, s[k]) is Some {
        innermost_name(t, s[k])
    } else {
        first_function_name(t, s, k + 1)
    }
}

pub(crate) fn name_node_of(t: &SyntaxTree, i: usize) -> (r: Option<usize>)
    requires
        i < t@.len(),
    ensures
        opt_int(r) == name_node(t@, i as int),
        r matches Some(c) ==> c < t@.len(),
{
    match t.node(i).kind {
        NodeKind::ClassSpecifier | NodeKind::StructSpecifier => {
            return field_child_of(t, i, Field::Name);
        },
        _ => {},
    }
    if let Some(d) = field_child_of(t, i, Field::Declarator) {
        if let Some(n) = innermost_name_of(t, d) {
            return Some(n);
        }
    }
    let kids = children_of(t, i);
    let ghost s = children(t@, i as int);
    assert(name_node(t@, i as int) == first_function_name(t@, s, 0));
    let mut k: usize = 0;
    while k < kids.len()
        invariant
            k <= kids@.len(),
            ints(kids@) == s,
            forall|m: int| 0 <= m < kids@.len() ==> i < #[trigger] kids@[m] < t@.len(),
            name_node(t@, i as int) == first_function_name(t@, s, k as int),
        decreases kids@.len() - k,
    {
        assert(s[k as int] == kids@[k as int]);
        if t.node(kids[k]).kind == NodeKind::FunctionDeclarator {
            if let Some(n) = innermost_name_of(t, kids[k]) {
                return Some(n);
            }
        }
        k += 1;
    }
    None
}

/// The node whose span is reported for node `i`: the template declaration around
/// it, so that the `template<...>` prefix is part of it, or the node itself.
pub open spec fn report_node(t: Seq<SyntaxNode>, i: int) -> int {
    match parent(t, i) {
        Some(p) => if t[p].kind == NodeKind::TemplateDeclaration {
            p
        } else {
            i
        },
        None => i,
    }
}

pub(crate) fn report_node_of(t: &SyntaxTree, i: usize) -> (r: usize)
    requires
        i < t@.len(),
    ensures
        r == report_node(t@, i as int),
        r <= i,
{
    if let Some(p) = t.parent(i) {
        if t.node(p).kind == NodeKind::TemplateDeclaration {
            return p;
        }
    }
    i
}

// ---------------------------------------------------------------------------
// Classification
// ---------------------------------------------------------------------------

/// Are definitions wanted (with a body or an initializer) or declarations
/// (signature only)?
#[derive(Clone, Copy, Debug, PartialEq, Eq, Structural)]
pub enum Mode {
    Definition,
    Declaration,
}

/// Does a declaration give a value to what it declares?
pub open spec fn has_value(t: Seq<SyntaxNode>, i: int) -> bool {
    exists|k: int|
        0 <= k < children(t, i).len() && t[#[trigger] children(t, i)[k]].kind
            == NodeKind::InitDeclarator && field_child(t, children(t, i)[k], Field::Value) is Some
}

fn has_initializer(t: &SyntaxTree, i: usize) -> (r: bool)
    requires
        i < t@.len(),
    ensures
        r == has_value(t@, i as int),
{
    let kids = children_of(t, i);
    let ghost s = children(t@, i as int);
    let mut k: usize = 0;
    while k < kids.len()
        invariant
            k <= kids@.len(),
            s == children(t@, i as int),
            ints(kids@) == s,
            forall|m: int| 0 <= m < kids@.len() ==> i < #[trigger] kids@[m] < t@.len(),
            forall|m: int|
                0 <= m < k ==> !(t@[#[trigger] s[m]].kind == NodeKind::InitDeclarator
                    && field_child(t@, s[m], Field::Value) is Some),
        decreases kids@.len() - k,
    {
        assert(s[k as int] == kids@[k as int]);
        if t.node(kids[k]).kind == NodeKind::InitDeclarator && field_child_of(
            t,
            kids[k],
            Field::Value,
        ).is_some() {
            return true;
        }
        k += 1;
    }
    false
}

/// What node `i` is as a definition or a declaration; `None` if it is no such
/// thing.
pub open spec fn class_of(t: Seq<SyntaxNode>, i: int, mode: Mode) -> Option<Kind> {
    let has_body = field_child(t, i, Field::Body) is Some;
    match mode {
        Mode::Definition => match t[i].kind {
            NodeKind::FunctionDefinition => Some(Kind::Function),
            NodeKind::ClassSpecifier if has_body => Some(Kind::Class),
            NodeKind::StructSpecifier if has_body => Some(Kind::Struct),
            NodeKind::Declaration if has_value(t, i) && !is_prototype(t, i) => Some(Kind::Variable),
            _ => None,
        },
        Mode::Declaration => match t[i].kind {
            NodeKind::Declaration if is_prototype(t, i) => Some(Kind::Function),
            NodeKind::Declaration if !has_value(t, i) => Some(Kind::Variable),
            NodeKind::FieldDeclaration if is_prototype(t, i) => Some(Kind::Method),
            NodeKind::FieldDeclaration => Some(Kind::Member),
            _ => None,
        },
    }
}

pub(crate) fn classify(t: &SyntaxTree, i: usize, mode: Mode) -> (r: Option<Kind>)
    requires
        i < t@.len(),
    ensures
        r == class_of(t@, i as int, mode),
{
    match t.node(i).kind {
        NodeKind::FunctionDefinition => {
            if mode == Mode::Definition {
                Some(Kind::Function)
            } else {
                None
            }
        },
        NodeKind::ClassSpecifier => {
            if mode == Mode::Definition && field_child_of(t, i, Field::Body).is_some() {
                Some(Kind::Class)
            } else {
                None
            }
        },
        NodeKind::StructSpecifier => {
            if mode == Mode::Definition && field_child_of(t, i, Field::Body).is_some() {
                Some(Kind::Struct)
            } else {
                None
            }
        },
        NodeKind::Declaration => {
            let has_init = has_initializer(t, i);
            let is_proto = is_function_prototype(t, i);
            match mode {
                Mode::Definition => if has_init && !is_proto {
                    Some(Kind::Variable)
                } else {
                    None
                },
                Mode::Declaration => if is_proto {
                    Some(Kind::Function)
                } else if !has_init {
                    Some(Kind::Variable)
                } else {
                    None
                },
            }
        },
        NodeKind::FieldDeclaration => {
            if mode == Mode::Declaration {
                Some(
                    if is_function_prototype(t, i) {
                        Kind::Method
                    } else {
                        Kind::Member
                    },
                )
            } else {
                None
            }
        },
        _ => None,
    }
}

// ---------------------------------------------------------------------------
// Qualified names
// ---------------------------------------------------------------------------

/// The name that node `p` gives to the scope it opens. An anonymous namespace
/// gives none.
pub open spec fn scope_name(t: Seq<SyntaxNode>, src: Seq<u8>, p: int) -> Option<Seq<char>> {
    match t[p].kind {
        NodeKind::NamespaceDefinition
        | NodeKind::ClassSpecifier
        | NodeKind::StructSpecifier => match field_child(t, p, Field::Name) {
            Some(n) => Some(node_text(src, t[n])),
            None => None,
        },
        _ => None,
    }
}

/// The names of the scopes around node `i`, outermost first.
pub open spec fn scopes(t: Seq<SyntaxNode>, src: Seq<u8>, i: int) -> Seq<Seq<char>>
    decreases i,
{
    match parent(t, i) {
        Some(p) if 0 <= p < i => match scope_name(t, src, p) {
            Some(n) => scopes(t, src, p).push(n),
            None => scopes(t, src, p),
        },
        _ => Seq::empty(),
    }
}

fn scopes_of(t: &SyntaxTree, src: &[u8], i: usize) -> (r: Vec<String>)
    requires
        i < t@.len(),
        tree_fits(t@, src@.len()),
    ensures
        views(r@) == scopes(t@, src@, i as int),
    decreases i,
{
    match t.parent(i) {
        Some(p) => {
            let mut out = scopes_of(t, src, p);
            let ghost outer = views(out@);
            match t.node(p).kind {
                NodeKind::NamespaceDefinition
                | NodeKind::ClassSpecifier
                | NodeKind::StructSpecifier => {
                    if let Some(n) = field_child_of(t, p, Field::Name) {
                        out.push(text_of(src, t.node(n)));
                        assert(views(out@) =~= outer.push(node_text(src@, t@[n as int])));
                    }
                },
                _ => {},
            }
            out
        },
        None => {
            let out: Vec<String> = Vec::new();
            assert(views(out@) =~= Seq::empty());
            out
        },
    }
}

/// The qualified name of something called `bare`, written with the explicit
/// qualification `explicit` if any, inside `scopes`; `None` for a bare name in no
/// scope.
pub open spec fn qualified_in(
    scopes: Seq<Seq<char>>,
    bare: Seq<char>,
    explicit: Option<Seq<char>>,
) -> Option<Seq<char>> {
    let written = match explicit {
        Some(e) => e,
        None => bare,
    };
    if scopes.len() > 0 {
        Some(joined(scopes, "::"@) + "::"@ + written)
    } else {
        explicit
    }
}

pub(crate) fn qualify(
    t: &SyntaxTree,
    src: &[u8],
    i: usize,
    bare: &str,
    explicit: Option<String>,
) -> (r: Option<String>)
    requires
        i < t@.len(),
        tree_fits(t@, src@.len()),
    ensures
        opt_view(r) == qualified_in(scopes(t@, src@, i as int), bare@, opt_view(explicit)),
{
    let parts = scopes_of(t, src, i);
    assert(views(parts@).len() == parts@.len());
    if parts.len() == 0 {
        return explicit;
    }
    let ns = join(&parts, "::");
    match explicit {
        Some(e) => Some(concat3(&ns, "::", &e)),
        None => Some(concat3(&ns, "::", bare)),
    }
}

/// Does a construct called `bare`, with the qualified name `qualified`, answer to
/// `target`? The last component must agree; of a qualified target, the qualified
/// name must be the target or end with it after a `::`.
pub open spec fn name_matches(
    target: Seq<char>,
    bare: Seq<char>,
    qualified: Option<Seq<char>>,
) -> bool {
    &&& bare == last_component(target)
    &&& has_infix(target, "::"@) ==> (qualified matches Some(q) && (q == target || has_suffix(
        q,
        "::"@ + target,
    )))
}

pub(crate) fn is_name_match(target: &str, bare: &str, qualified: &Option<String>) -> (r: bool)
    ensures
        r == name_matches(target@, bare@, opt_view(*qualified)),
{
    let target_bare = last_component_of(target);
    if !same_str(bare, &target_bare) {
        return false;
    }
    if contains(target, "::") {
        match qualified {
            Some(q) => same_str(q, target) || ends_with(q, &concat("::", target)),
            None => false,
        }
    } else {
        true
    }
}

/// A qualified target matches whole components only: where a qualified name that
/// matches ends with the target, what stands before it is empty or ends with
/// `::`. So `Calc::square` never matches `MiniCalc::square`.
pub proof fn matches_are_component_aligned(
    target: Seq<char>,
    bare: Seq<char>,
    before: Seq<char>,
)
    requires
        has_infix(target, "::"@),
        name_matches(target, bare, Some(before + target)),
    ensures
        before.len() == 0 || has_suffix(before, "::"@),
{
    let q = before + target;
    let sep = "::"@;
    if q == target {
        assert(before.len() == 0);
    } else {
        let tail = sep + target;
        let at = q.len() - tail.len();
        assert(q.subrange(at, at + tail.len()) == tail);
        assert(before.subrange(at, at + sep.len()) =~= tail.take(sep.len() as int)) by {
            assert forall|k: int| 0 <= k < sep.len() implies before[at + k] == sep[k] by {
                assert(q.subrange(at, at + tail.len())[k] == tail[k]);
            }
        }
        assert(tail.take(sep.len() as int) =~= sep);
    }
}

/// A target matches what it names, and whatever is qualified further.
pub proof fn suffixes_match(target: Seq<char>, scope: Seq<char>)
    ensures
        name_matches(target, last_component(target), Some(target)),
        name_matches(target, last_component(target), Some(scope + "::"@ + target)),
{
    let q = scope + "::"@ + target;
    let tail = "::"@ + target;
    assert(q.subrange(q.len() - tail.len(), q.len() as int) =~= tail);
}

/// A bare target matches by its name alone, whatever the scopes.
pub proof fn bare_targets_match_in_every_scope(
    target: Seq<char>,
    bare: Seq<char>,
    qualified: Option<Seq<char>>,
)
    requires
        !has_infix(target, "::"@),
    ensures
        name_matches(target, bare, qualified) <==> bare == target,
{
    component_of_bare(target, target.len() as int);
    assert(target.skip(0) =~= target);
}

proof fn component_of_bare(s: Seq<char>, e: int)
    requires
        0 <= e <= s.len(),
        !has_infix(s, "::"@),
    ensures
        component_start(s, e) == 0,
    decreases e,
{
    if e >= 2 {
        reveal_strlit("::");
        if s[e - 2] == ':' && s[e - 1] == ':' {
            assert(s.subrange(e - 2, e) =~= "::"@);
            assert(occurs_at(s, "::"@, e - 2));
        }
        component_of_bare(s, e - 1);
    }
}

// ---------------------------------------------------------------------------
// Types
// ---------------------------------------------------------------------------

/// The function declarator under pointer, reference, parenthesis and initializer
/// wrappers.
pub open spec fn function_declarator(t: Seq<SyntaxNode>, i: int) -> Option<int>
    decreases t.len() - i,
    when 0 <= i < t.len()
    via function_declarator_decreases
{
    match t[i].kind {
        NodeKind::FunctionDeclarator => Some(i),
        NodeKind::PointerDeclarator
        | NodeKind::ReferenceDeclarator
        | NodeKind::ParenthesizedDeclarator
        | NodeKind::InitDeclarator => match inner_declarator(t, i) {
            Some(d) => function_declarator(t, d),
            None => None,
        },
        _ => None,
    }
}

#[via_fn]
proof fn function_declarator_decreases(t: Seq<SyntaxNode>, i: int) {
    inner_declarator_bounds(t, i);
}

fn find_function_declarator(t: &SyntaxTree, i: usize) -> (r: Option<usize>)
    requires
        i < t@.len(),
    ensures
        opt_int(r) == function_declarator(t@, i as int),
        r matches Some(d) ==> d < t@.len(),
{
    let mut cur: usize = i;
    loop
        invariant
            cur < t@.len(),
            function_declarator(t@, cur as int) == function_declarator(t@, i as int),
        decreases t@.len() - cur,
    {
        match t.node(cur).kind {
            NodeKind::FunctionDeclarator => {
                return Some(cur);
            },
            NodeKind::PointerDeclarator
            | NodeKind::ReferenceDeclarator
            | NodeKind::ParenthesizedDeclarator
            | NodeKind::InitDeclarator => {
                match inner_declarator_of(t, cur) {
                    Some(d) => {
                        cur = d;
                    },
                    None => {
                        return None;
                    },
                }
            },
            _ => {
                return None;
            },
        }
    }
}

/// The pointer and reference markers (`*`, `&`, `&&`) around a declarator.
pub open spec fn markers(t: Seq<SyntaxNode>, src: Seq<u8>, i: int) -> Seq<char>
    decreases t.len() - i,
    when 0 <= i < t.len()
    via markers_decreases
{
    let inner = match inner_declarator(t, i) {
        Some(d) => markers(t, src, d),
        None => Seq::empty(),
    };
    match t[i].kind {
        NodeKind::PointerDeclarator => seq!['*'] + inner,
        NodeKind::ReferenceDeclarator => {
            let kids = children(t, i);
            if kids.len() > 0 {
                node_text(src, t[kids[0]]) + inner
            } else {
                seq!['&'] + inner
            }
        },
        _ => Seq::empty(),
    }
}

#[via_fn]
proof fn markers_decreases(t: Seq<SyntaxNode>, src: Seq<u8>, i: int) {
    inner_declarator_bounds(t, i);
}

fn pointer_markers(t: &SyntaxTree, src: &[u8], i: usize) -> (r: String)
    requires
        i < t@.len(),
        tree_fits(t@, src@.len()),
    ensures
        r@ == markers(t@, src@, i as int),
{
    let mut out = String::new();
    let mut cur: usize = i;
    assert(out@ + markers(t@, src@, i as int) =~= markers(t@, src@, i as int));
    loop
        invariant
            cur < t@.len(),
            tree_fits(t@, src@.len()),
            out@ + markers(t@, src@, cur as int) == markers(t@, src@, i as int),
        decreases t@.len() - cur,
    {
        let ghost before = out@;
        let ghost whole = markers(t@, src@, cur as int);
        match t.node(cur).kind {
            NodeKind::PointerDeclarator => {
                out.push('*');
            },
            NodeKind::ReferenceDeclarator => {
                let kids = children_of(t, cur);
                assert(ints(kids@).len() == kids@.len());
                if kids.len() > 0 {
                    assert(ints(kids@)[0] == kids@[0]);
                    out.append(&text_of(src, t.node(kids[0])));
                } else {
                    out.push('&');
                }
            },
            _ => {
                assert(out@ + whole =~= out@);
                return out;
            },
        }
        match inner_declarator_of(t, cur) {
            Some(d) => {
                assert(out@ + markers(t@, src@, d as int) =~= before + whole);
                cur = d;
            },
            None => {
                assert(out@ =~= before + whole);
                return out;
            },
        }
    }
}

/// The type qualifiers among `s[..k]`, separated by spaces.
pub open spec fn qualifiers(t: Seq<SyntaxNode>, src: Seq<u8>, s: Seq<int>, k: int) -> Seq<char>
    decreases k,
{
    if k <= 0 {
        Seq::empty()
    } else {
        let before = qualifiers(t, src, s, k - 1);
        let n = t[s[k - 1]];
        if n.kind == NodeKind::TypeQualifier {
            if before.len() > 0 {
                before.push(' ') + trimmed(node_text(src, n))
            } else {
                trimmed(node_text(src, n))
            }
        } else {
            before
        }
    }
}

/// The type of a declaration, as `[qualifiers] base [*&]`.
pub open spec fn rendered(t: Seq<SyntaxNode>, src: Seq<u8>, i: int) -> Option<Seq<char>> {
    match field_child(t, i, Field::Type) {
        Some(ty) => {
            let prefix = qualifiers(t, src, children(t, i), children(t, i).len() as int);
            let suffix = match field_child(t, i, Field::Declarator) {
                Some(d) => markers(t, src, d),
                None => Seq::empty(),
            };
            let lead = if prefix.len() > 0 {
                prefix.push(' ')
            } else {
                Seq::empty()
            };
            let tail = if suffix.len() > 0 {
                seq![' '] + suffix
            } else {
                Seq::empty()
            };
            Some(lead + trimmed(node_text(src, t[ty])) + tail)
        },
        None => None,
    }
}

fn qualifiers_of(t: &SyntaxTree, src: &[u8], i: usize) -> (r: String)
    requires
        i < t@.len(),
        tree_fits(t@, src@.len()),
    ensures
        r@ == qualifiers(t@, src@, children(t@, i as int), children(t@, i as int).len() as int),
{
    let kids = children_of(t, i);
    let ghost s = children(t@, i as int);
    let mut prefix = String::new();
    let mut empty = true;
    let mut k: usize = 0;
    while k < kids.len()
        invariant
            k <= kids@.len(),
            ints(kids@) == s,
            tree_fits(t@, src@.len()),
            forall|m: int| 0 <= m < kids@.len() ==> i < #[trigger] kids@[m] < t@.len(),
            prefix@ =~= qualifiers(t@, src@, s, k as int),
            empty == (prefix@.len() == 0),
        decreases kids@.len() - k,
    {
        assert(s[k as int] == kids@[k as int]);
        let n = t.node(kids[k]);
        if n.kind == NodeKind::TypeQualifier {
            if !empty {
                prefix.push(' ');
            }
            prefix.append(&trim(&text_of(src, n)));
            empty = is_empty(&prefix);
        }
        k += 1;
    }
    prefix
}

fn rendered_type(t: &SyntaxTree, src: &[u8], i: usize) -> (r: Option<String>)
    requires
        i < t@.len(),
        tree_fits(t@, src@.len()),
    ensures
        opt_view(r) == rendered(t@, src@, i as int),
{
    let ty = match field_child_of(t, i, Field::Type) {
        Some(ty) => ty,
        None => return None,
    };
    let base = trim(&text_of(src, t.node(ty)));
    let prefix = qualifiers_of(t, src, i);
    let suffix = match field_child_of(t, i, Field::Declarator) {
        Some(d) => pointer_markers(t, src, d),
        None => String::new(),
    };
    let mut out = String::new();
    if !is_empty(&prefix) {
        out.append(&prefix);
        out.push(' ');
    }
    out.append(&base);
    if !is_empty(&suffix) {
        out.push(' ');
        out.append(&suffix);
    }
    assert(out@ =~= rendered(t@, src@, i as int)->0);
    Some(out)
}

/// The trailing return type (`-> T`) among `s[k..]`.
pub open spec fn trailing_in(t: Seq<SyntaxNode>, src: Seq<u8>, s: Seq<int>, k: int) -> Option<
    Seq<char>,
>
    decreases s.len() - k,
{
    if k < 0 || k >= s.len() {
        None
    } else if t[s[k]].kind == NodeKind::TrailingReturnType {
        let text = node_text(src, t[s[k]]);
        Some(trimmed(text.skip(after_arrows(text, 0))))
    } else {
        trailing_in(t, src, s, k + 1)
    }
}

fn trailing_return(t: &SyntaxTree, src: &[u8], func: usize) -> (r: Option<String>)
    requires
        func < t@.len(),
        tree_fits(t@, src@.len()),
    ensures
        opt_view(r) == trailing_in(t@, src@, children(t@, func as int), 0),
{
    let kids = children_of(t, func);
    let ghost s = children(t@, func as int);
    let mut k: usize = 0;
    while k < kids.len()
        invariant
            k <= kids@.len(),
            ints(kids@) == s,
            s == children(t@, func as int),
            tree_fits(t@, src@.len()),
            forall|m: int| 0 <= m < kids@.len() ==> func < #[trigger] kids@[m] < t@.len(),
            trailing_in(t@, src@, s, k as int) == trailing_in(t@, src@, s, 0),
        decreases kids@.len() - k,
    {
        assert(s[k as int] == kids@[k as int]);
        let n = t.node(kids[k]);
        if n.kind == NodeKind::TrailingReturnType {
            return Some(trim(&trim_arrows(&text_of(src, n))));
        }
        k += 1;
    }
    None
}

/// The types of the parameters among `s[..k]`.
pub open spec fn parameter_types(t: Seq<SyntaxNode>, src: Seq<u8>, s: Seq<int>, k: int) -> Seq<
    Seq<char>,
>
    decreases k,
{
    if k <= 0 {
        Seq::empty()
    } else {
        let before = parameter_types(t, src, s, k - 1);
        if t[s[k - 1]].kind == NodeKind::ParameterDeclaration {
            match rendered(t, src, s[k - 1]) {
                Some(ty) => before.push(ty),
                None => before,
            }
        } else {
            before
        }
    }
}

fn parameter_types_of(t: &SyntaxTree, src: &[u8], params: usize) -> (r: Vec<String>)
    requires
        params < t@.len(),
        tree_fits(t@, src@.len()),
    ensures
        views(r@) == parameter_types(
            t@,
            src@,
            children(t@, params as int),
            children(t@, params as int).len() as int,
        ),
{
    let kids = children_of(t, params);
    let ghost s = children(t@, params as int);
    let mut out: Vec<String> = Vec::new();
    let mut k: usize = 0;
    while k < kids.len()
        invariant
            k <= kids@.len(),
            ints(kids@) == s,
            tree_fits(t@, src@.len()),
            forall|m: int| 0 <= m < kids@.len() ==> params < #[trigger] kids@[m] < t@.len(),
            views(out@) =~= parameter_types(t@, src@, s, k as int),
        decreases kids@.len() - k,
    {
        assert(s[k as int] == kids@[k as int]);
        if t.node(kids[k]).kind == NodeKind::ParameterDeclaration {
            if let Some(ty) = rendered_type(t, src, kids[k]) {
                let ghost before = views(out@);
                out.push(ty);
                assert(views(out@) =~= before.push(ty@));
            }
        }
        k += 1;
    }
    out
}

/// The type of what a declaration declares: `ret(param, ...)` of a function, the
/// declared type of a variable.
pub open spec fn spelling(t: Seq<SyntaxNode>, src: Seq<u8>, i: int) -> Option<Seq<char>> {
    match field_child(t, i, Field::Declarator) {
        Some(d) => match function_declarator(t, d) {
            Some(func) => match field_child(t, func, Field::Parameters) {
                Some(params) => {
                    let kids = children(t, params);
                    let types = parameter_types(t, src, kids, kids.len() as int);
                    let ret = match trailing_in(t, src, children(t, func), 0) {
                        Some(r) => r,
                        None => match rendered(t, src, i) {
                            Some(r) => r,
                            None => Seq::empty(),
                        },
                    };
                    Some(trimmed(ret).push('(') + joined(types, ", "@) + seq![')'])
                },
                None => None,
            },
            None => rendered(t, src, i),
        },
        None => None,
    }
}

pub(crate) fn type_spelling(t: &SyntaxTree, src: &[u8], i: usize) -> (r: Option<String>)
    requires
        i < t@.len(),
        tree_fits(t@, src@.len()),
    ensures
        opt_view(r) == spelling(t@, src@, i as int),
{
    let d = match field_child_of(t, i, Field::Declarator) {
        Some(d) => d,
        None => return None,
    };
    let func = match find_function_declarator(t, d) {
        Some(f) => f,
        None => return rendered_type(t, src, i),
    };
    let ret = match trailing_return(t, src, func) {
        Some(r) => r,
        None => match rendered_type(t, src, i) {
            Some(r) => r,
            None => String::new(),
        },
    };
    let params = match field_child_of(t, func, Field::Parameters) {
        Some(p) => p,
        None => return None,
    };
    let types = parameter_types_of(t, src, params);
    let mut out = trim(&ret);
    out.push('(');
    out.append(&join(&types, ", "));
    out.push(')');
    assert(out@ =~= spelling(t@, src@, i as int)->0);
    Some(out)
}

// ---------------------------------------------------------------------------
// Leading comments
// ---------------------------------------------------------------------------

/// The comment block immediately above a node: its text and where it starts.
pub struct LeadingDoc {
    pub text: String,
    /// Byte offset of the first character of the topmost comment.
    pub start_byte: usize,
    /// 1-based line of `start_byte`.
    pub start_line: usize,
    /// 0-based byte column of `start_byte` within its line.
    pub start_col: usize,
}

/// The mathematical value of a [`LeadingDoc`].
pub struct LeadingDocView {
    pub text: Seq<char>,
    pub start_byte: usize,
    pub start_line: usize,
    pub start_col: usize,
}

impl View for LeadingDoc {
    type V = LeadingDocView;

    open spec fn view(&self) -> LeadingDocView {
        LeadingDocView {
            text: self.text@,
            start_byte: self.start_byte,
            start_line: self.start_line,
            start_col: self.start_col,
        }
    }
}

/// The comments, topmost first, that run up to `anchor` without a gap just before
/// position `k` of the row of siblings `s`. A field declaration on `row`, the row
/// of the node that the comments belong to, is stepped over: it is the fragment of
/// a declaration that a macro has split.
pub open spec fn comments_above(
    t: Seq<SyntaxNode>,
    s: Seq<int>,
    k: int,
    row: int,
    anchor: int,
) -> Seq<int>
    decreases k,
{
    if k <= 0 {
        Seq::empty()
    } else {
        let n = t[s[k - 1]];
        if n.kind == NodeKind::Comment {
            if n.end_row + 1 < anchor {
                Seq::empty()
            } else {
                comments_above(t, s, k - 1, row, n.start_row as int).push(s[k - 1])
            }
        } else if n.kind == NodeKind::FieldDeclaration && n.start_row == row {
            comments_above(t, s, k - 1, row, anchor)
        } else {
            Seq::empty()
        }
    }
}

/// The comments that lead node `i`.
pub open spec fn leading_comments(t: Seq<SyntaxNode>, i: int) -> Seq<int> {
    match parent(t, i) {
        Some(p) => {
            let s = children(t, p);
            comments_above(t, s, next_of(s, i, 0), t[i].start_row as int, t[i].start_row as int)
        },
        None => Seq::empty(),
    }
}

/// The leading comment block of node `i`; `None` if there is none.
pub open spec fn doc_above(t: Seq<SyntaxNode>, src: Seq<u8>, i: int) -> Option<LeadingDocView> {
    let comments = leading_comments(t, i);
    if comments.len() == 0 {
        None
    } else {
        let top = t[comments[0]];
        Some(
            LeadingDocView {
                text: joined(comments.map_values(|c: int| node_text(src, t[c])), "\n"@),
                start_byte: top.start_byte,
                start_line: (top.start_row + 1) as usize,
                start_col: top.start_col,
            },
        )
    }
}

/// The comments that [`comments_above`] gives are siblings before position `k`.
proof fn comments_above_members(t: Seq<SyntaxNode>, s: Seq<int>, k: int, row: int, anchor: int)
    requires
        0 <= k <= s.len(),
    ensures
        forall|m: int|
            0 <= m < comments_above(t, s, k, row, anchor).len() ==> exists|j: int|
                0 <= j < k && s[j] == #[trigger] comments_above(t, s, k, row, anchor)[m],
    decreases k,
{
    if k > 0 {
        let n = t[s[k - 1]];
        let all = comments_above(t, s, k, row, anchor);
        if n.kind == NodeKind::Comment && n.end_row + 1 >= anchor {
            comments_above_members(t, s, k - 1, row, n.start_row as int);
            let rest = comments_above(t, s, k - 1, row, n.start_row as int);
            assert forall|m: int| 0 <= m < all.len() implies exists|j: int|
                0 <= j < k && s[j] == #[trigger] all[m] by {
                if m < rest.len() {
                    assert(all[m] == rest[m]);
                    let j = choose|j: int| 0 <= j < k - 1 && s[j] == rest[m];
                    assert(s[j] == all[m]);
                } else {
                    assert(s[k - 1] == all[m]);
                }
            }
        } else if n.kind == NodeKind::FieldDeclaration && n.start_row == row {
            comments_above_members(t, s, k - 1, row, anchor);
            let rest = comments_above(t, s, k - 1, row, anchor);
            assert forall|m: int| 0 <= m < all.len() implies exists|j: int|
                0 <= j < k && s[j] == #[trigger] all[m] by {
                let j = choose|j: int| 0 <= j < k - 1 && s[j] == rest[m];
                assert(s[j] == all[m]);
            }
        }
    }
}

fn comments_above_at(
    t: &SyntaxTree,
    s: &Vec<usize>,
    k: usize,
    row: usize,
    anchor: usize,
) -> (r: Vec<usize>)
    requires
        k <= s@.len(),
        forall|m: int| 0 <= m < s@.len() ==> #[trigger] s@[m] < t@.len(),
        forall|m: int| 0 <= m < t@.len() ==> (#[trigger] t@[m]).end_row < usize::MAX,
    ensures
        ints(r@) == comments_above(t@, ints(s@), k as int, row as int, anchor as int),
        forall|m: int| 0 <= m < r@.len() ==> #[trigger] r@[m] < t@.len(),
    decreases k,
{
    if k == 0 {
        let out: Vec<usize> = Vec::new();
        assert(ints(out@) =~= Seq::empty());
        return out;
    }
    assert(ints(s@)[k - 1] == s@[k - 1]);
    let n = t.node(s[k - 1]);
    if n.kind == NodeKind::Comment {
        if n.end_row + 1 < anchor {
            let out: Vec<usize> = Vec::new();
            assert(ints(out@) =~= Seq::empty());
            out
        } else {
            let mut out = comments_above_at(t, s, k - 1, row, n.start_row);
            let ghost before = ints(out@);
            out.push(s[k - 1]);
            assert(ints(out@) =~= before.push(s@[k - 1] as int));
            out
        }
    } else if n.kind == NodeKind::FieldDeclaration && n.start_row == row {
        comments_above_at(t, s, k - 1, row, anchor)
    } else {
        let out: Vec<usize> = Vec::new();
        assert(ints(out@) =~= Seq::empty());
        out
    }
}

fn position_of(s: &Vec<usize>, x: usize) -> (r: usize)
    ensures
        r == next_of(ints(s@), x as int, 0),
        r <= s@.len(),
{
    let mut k: usize = 0;
    while k < s.len() && s[k] != x
        invariant
            k <= s@.len(),
            next_of(ints(s@), x as int, k as int) == next_of(ints(s@), x as int, 0),
        decreases s@.len() - k,
    {
        assert(ints(s@)[k as int] == s@[k as int]);
        k += 1;
    }
    assert(ints(s@).len() == s@.len());
    assert(k < s@.len() ==> ints(s@)[k as int] == s@[k as int]);
    k
}

/// The contiguous comment block immediately above node `i`.
pub(crate) fn leading_doc(t: &SyntaxTree, src: &[u8], i: usize) -> (r: Option<LeadingDoc>)
    requires
        i < t@.len(),
        tree_fits(t@, src@.len()),
    ensures
        opt_view(r) == doc_above(t@, src@, i as int),
{
    let p = match t.parent(i) {
        Some(p) => p,
        None => return None,
    };
    let row = t.node(i).start_row;
    let siblings = children_of(t, p);
    let k = position_of(&siblings, i);
    let comments = comments_above_at(t, &siblings, k, row, row);
    let ghost cs = leading_comments(t@, i as int);
    assert(ints(comments@) == cs);
    assert(cs.len() == comments@.len());
    if comments.len() == 0 {
        return None;
    }
    let ghost texts = cs.map_values(|c: int| node_text(src@, t@[c]));
    let mut parts: Vec<String> = Vec::new();
    let mut m: usize = 0;
    while m < comments.len()
        invariant
            m <= comments@.len(),
            ints(comments@) == cs,
            tree_fits(t@, src@.len()),
            forall|j: int| 0 <= j < comments@.len() ==> #[trigger] comments@[j] < t@.len(),
            texts == cs.map_values(|c: int| node_text(src@, t@[c])),
            views(parts@) =~= texts.take(m as int),
        decreases comments@.len() - m,
    {
        assert(cs[m as int] == comments@[m as int]);
        let ghost before = views(parts@);
        parts.push(text_of(src, t.node(comments[m])));
        assert(views(parts@) =~= before.push(texts[m as int]));
        m += 1;
    }
    assert(texts.take(m as int) =~= texts);
    assert(cs[0] == comments@[0]);
    let top = t.node(comments[0]);
    Some(
        LeadingDoc {
            text: join(&parts, "\n"),
            start_byte: top.start_byte,
            start_line: top.start_row + 1,
            start_col: top.start_col,
        },
    )
}

proof fn row_of_ascends(t: Seq<SyntaxNode>, c: int, end: int)
    requires
        0 <= c,
        end <= t.len(),
    ensures
        forall|j: int, k: int|
            0 <= j < k < row_of(t, c, end).len() ==> #[trigger] row_of(t, c, end)[j]
                < #[trigger] row_of(t, c, end)[k],
    decreases t.len() - c,
{
    if c < end {
        first_outside_bounds(t, c + 1, t[c].depth as int);
        let next = subtree_end(t, c);
        row_of_ascends(t, next, end);
        row_of_bounds(t, next, end);
        let all = row_of(t, c, end);
        let rest = row_of(t, next, end);
        assert forall|j: int, k: int| 0 <= j < k < all.len() implies #[trigger] all[j]
            < #[trigger] all[k] by {
            assert(all[k] == rest[k - 1]);
            if j > 0 {
                assert(all[j] == rest[j - 1]);
            }
        }
    }
}

proof fn row_of_reaches(t: Seq<SyntaxNode>, c: int, end: int, i: int)
    requires
        0 <= c <= i < end <= t.len(),
        forall|m: int| c <= m < i ==> #[trigger] t[m].depth >= t[i].depth,
    ensures
        row_of(t, c, end).contains(i),
    decreases t.len() - c,
{
    let all = row_of(t, c, end);
    if c == i {
        assert(all[0] == i);
    } else {
        first_outside_bounds(t, c + 1, t[c].depth as int);
        let next = subtree_end(t, c);
        assert(next <= i) by {
            if next > i {
                assert(t[i].depth > t[c].depth);
                assert(t[c].depth >= t[i].depth);
            }
        }
        row_of_reaches(t, next, end, i);
        let rest = row_of(t, next, end);
        let k = choose|k: int| 0 <= k < rest.len() && rest[k] == i;
        assert(all[k + 1] == i);
    }
}

/// A node is among the children of its parent, which come before and after it in
/// order.
pub proof fn node_is_child_of_parent(t: Seq<SyntaxNode>, i: int)
    requires
        0 <= i < t.len(),
        parent(t, i) is Some,
    ensures
        0 <= parent(t, i)->0 < i,
        children(t, parent(t, i)->0).contains(i),
        forall|j: int, k: int|
            0 <= j < k < children(t, parent(t, i)->0).len() ==> #[trigger] children(
                t,
                parent(t, i)->0,
            )[j] < #[trigger] children(t, parent(t, i)->0)[k],
{
    let p = parent(t, i)->0;
    let d = t[i].depth as int;
    last_above_bounds(t, i - 1, d);
    let dp = t[p].depth as int;
    first_outside_bounds(t, p + 1, dp);
    let end = subtree_end(t, p);
    assert(i < end) by {
        if end <= i {
            assert(t[end].depth <= dp);
            if end < i {
                assert(t[end].depth >= d);
            }
        }
    }
    assert forall|m: int| p + 1 <= m < i implies #[trigger] t[m].depth >= t[i].depth by {}
    row_of_reaches(t, p + 1, end, i);
    row_of_ascends(t, p + 1, end);
}

/// A leading comment block starts no later than the node it leads.
pub proof fn doc_starts_before(t: Seq<SyntaxNode>, src: Seq<u8>, i: int)
    requires
        0 <= i < t.len(),
        tree_fits(t, src.len()),
    ensures
        doc_above(t, src, i) matches Some(d) ==> d.start_byte <= t[i].start_byte,
{
    let comments = leading_comments(t, i);
    if comments.len() > 0 {
        node_is_child_of_parent(t, i);
        let p = parent(t, i)->0;
        let s = children(t, p);
        let k = next_of(s, i, 0);
        let row = t[i].start_row as int;
        next_of_bounds(s, i, 0);
        comments_above_members(t, s, k, row, row);
        let j = choose|j: int| 0 <= j < k && s[j] == comments[0];
        children_bounds(t, p);
        let at = choose|at: int| 0 <= at < s.len() && s[at] == i;
        assert(k <= at);
        assert(s[j] < s[k]);
    }
}

} // verus!
