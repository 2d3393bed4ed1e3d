//! Parents, children and scopes in a syntax tree, described by depth alone.

use crate::engine::outline::{
    children, children_bounds, field_child, first_in_field, node_is_child_of_parent, report_node,
    row_of,
};
use crate::engine::syntactic::{enclosing_class, enclosing_function};
use crate::engine::syntax::{
    first_outside_bounds, last_above, last_above_bounds, parent, subtree_end, Field, NodeKind,
    SyntaxNode,
};
use vstd::prelude::*;

verus! {

/// Is node `i` under node `a`: does it follow `a`, with nothing from there on that is no
/// deeper than `a`?
pub open spec fn is_under(t: Seq<SyntaxNode>, a: int, i: int) -> bool {
    0 <= a < i < t.len() && forall|m: int| a < m <= i ==> (#[trigger] t[m]).depth > t[a].depth
}

/// Is `a` the node `i`, or is `i` under it?
pub open spec fn is_at_or_above(t: Seq<SyntaxNode>, a: int, i: int) -> bool {
    a == i || is_under(t, a, i)
}

/// Is node `c` directly under node `p`: under it, and under nothing that is itself under
/// it?
pub open spec fn is_directly_under(t: Seq<SyntaxNode>, p: int, c: int) -> bool {
    is_under(t, p, c) && forall|x: int| #[trigger] is_under(t, p, x) ==> !is_under(t, x, c)
}

/// The parent of a node is the last node that it is under; a node under none has no
/// parent.
pub proof fn parents_are_nearest(t: Seq<SyntaxNode>, i: int)
    requires
        0 <= i < t.len(),
    ensures
        match parent(t, i) {
            Some(p) => is_under(t, p, i) && forall|a: int| #[trigger]
                is_under(t, a, i) ==> is_at_or_above(t, a, p),
            None => forall|a: int| !#[trigger] is_under(t, a, i),
        },
{
    let d = t[i].depth as int;
    last_above_bounds(t, i - 1, d);
    match parent(t, i) {
        Some(p) => {
            assert forall|a: int| #[trigger] is_under(t, a, i) implies is_at_or_above(t, a, p) by {
                assert(t[i].depth > t[a].depth);
                if a > p {
                    assert(t[a].depth >= d);
                }
            }
        },
        None => {
            assert forall|a: int| !#[trigger] is_under(t, a, i) by {
                if is_under(t, a, i) {
                    assert(t[i].depth > t[a].depth);
                    assert(t[a].depth >= d);
                }
            }
        },
    }
}

/// The subtree of a node holds it and what is under it.
pub proof fn subtrees_hold_what_is_under(t: Seq<SyntaxNode>, a: int, i: int)
    requires
        0 <= a < t.len(),
    ensures
        a < subtree_end(t, a) <= t.len(),
        a < i < subtree_end(t, a) <==> is_under(t, a, i),
{
    first_outside_bounds(t, a + 1, t[a].depth as int);
    let e = subtree_end(t, a);
    if is_under(t, a, i) && i >= e {
        assert(t[e].depth > t[a].depth);
    }
}

proof fn last_above_is(t: Seq<SyntaxNode>, j: int, d: int, p: int)
    requires
        0 <= p <= j < t.len(),
        t[p].depth < d,
        forall|m: int| p < m <= j ==> (#[trigger] t[m]).depth >= d,
    ensures
        last_above(t, j, d) == Some(p),
    decreases j,
{
    if j > p {
        last_above_is(t, j - 1, d, p);
    }
}

proof fn row_has_parent(t: Seq<SyntaxNode>, p: int, c: int, end: int, k: int)
    requires
        0 <= p < c,
        end <= t.len(),
        c < end ==> forall|m: int| p < m < c ==> (#[trigger] t[m]).depth >= t[c].depth,
        forall|m: int| p < m < end ==> (#[trigger] t[m]).depth > t[p].depth,
        0 <= k < row_of(t, c, end).len(),
    ensures
        parent(t, row_of(t, c, end)[k]) == Some(p),
    decreases t.len() - c,
{
    if c < end {
        first_outside_bounds(t, c + 1, t[c].depth as int);
        let next = subtree_end(t, c);
        if k == 0 {
            last_above_is(t, c - 1, t[c].depth as int, p);
        } else {
            if next < end {
                assert forall|m: int| p < m < next implies (#[trigger] t[m]).depth >= t[next].depth by {
                    if m < c {
                        assert(t[m].depth >= t[c].depth);
                    }
                }
            }
            row_has_parent(t, p, next, end, k - 1);
            assert(row_of(t, c, end)[k] == row_of(t, next, end)[k - 1]);
        }
    }
}

/// The children of a node are the nodes whose parent it is, in the order in which they
/// stand.
pub proof fn children_are_those_with_this_parent(t: Seq<SyntaxNode>, p: int)
    requires
        0 <= p < t.len(),
    ensures
        forall|c: int| #[trigger]
            children(t, p).contains(c) <==> 0 <= c < t.len() && parent(t, c) == Some(p),
        forall|j: int, k: int|
            0 <= j < k < children(t, p).len() ==> #[trigger] children(t, p)[j]
                < #[trigger] children(t, p)[k],
{
    let s = children(t, p);
    let end = subtree_end(t, p);
    first_outside_bounds(t, p + 1, t[p].depth as int);
    children_bounds(t, p);
    assert forall|c: int| #[trigger] s.contains(c) <==> 0 <= c < t.len() && parent(t, c) == Some(
        p,
    ) by {
        if s.contains(c) {
            let k = choose|k: int| 0 <= k < s.len() && s[k] == c;
            row_has_parent(t, p, p + 1, end, k);
        }
        if 0 <= c < t.len() && parent(t, c) == Some(p) {
            node_is_child_of_parent(t, c);
        }
    }
    if s.len() > 0 {
        let c = s[0];
        row_has_parent(t, p, p + 1, end, 0);
        node_is_child_of_parent(t, c);
    }
}

proof fn first_in_field_is_first(t: Seq<SyntaxNode>, s: Seq<int>, f: Field, k: int)
    requires
        0 <= k <= s.len(),
    ensures
        match first_in_field(t, s, f, k) {
            Some(d) => exists|m: int|
                k <= m < s.len() && #[trigger] s[m] == d && t[d].field == f && forall|j: int|
                    k <= j < m ==> t[#[trigger] s[j]].field != f,
            None => forall|j: int| k <= j < s.len() ==> t[#[trigger] s[j]].field != f,
        },
    decreases s.len() - k,
{
    if k < s.len() {
        if t[s[k]].field != f {
            first_in_field_is_first(t, s, f, k + 1);
            if let Some(d) = first_in_field(t, s, f, k + 1) {
                let m = choose|m: int|
                    k + 1 <= m < s.len() && #[trigger] s[m] == d && t[d].field == f && forall|j: int|
                        k + 1 <= j < m ==> t[#[trigger] s[j]].field != f;
                assert(s[m] == d);
            }
        } else {
            assert(s[k] == first_in_field(t, s, f, k)->0);
        }
    }
}

/// Does node `x` hang under field `f` of node `i`?
pub open spec fn hangs_in(t: Seq<SyntaxNode>, x: int, i: int, f: Field) -> bool {
    0 <= x < t.len() && parent(t, x) == Some(i) && t[x].field == f
}

/// The child under a field is the first node in that field whose parent is the given
/// one; there is none only if no such node is.
pub proof fn fields_name_the_first_child(t: Seq<SyntaxNode>, i: int, f: Field)
    requires
        0 <= i < t.len(),
    ensures
        match field_child(t, i, f) {
            Some(c) => i < c && hangs_in(t, c, i, f) && forall|x: int| #[trigger]
                hangs_in(t, x, i, f) ==> c <= x,
            None => forall|x: int| !#[trigger] hangs_in(t, x, i, f),
        },
{
    let s = children(t, i);
    children_are_those_with_this_parent(t, i);
    children_bounds(t, i);
    first_in_field_is_first(t, s, f, 0);
    assert forall|x: int| #[trigger] hangs_in(t, x, i, f) implies (match field_child(t, i, f) {
        Some(c) => c <= x,
        None => false,
    }) by {
        child_in_field(t, i, f, x);
    }
    if let Some(c) = field_child(t, i, f) {
        let m = choose|m: int|
            0 <= m < s.len() && #[trigger] s[m] == c && t[c].field == f && forall|j: int|
                0 <= j < m ==> t[#[trigger] s[j]].field != f;
        assert(s.contains(c));
    }
}

proof fn first_in_field_reaches(t: Seq<SyntaxNode>, s: Seq<int>, f: Field, k: int, j: int)
    requires
        0 <= k <= j < s.len(),
        t[s[j]].field == f,
        forall|a: int, b: int| 0 <= a < b < s.len() ==> #[trigger] s[a] < #[trigger] s[b],
    ensures
        first_in_field(t, s, f, k) is Some,
        first_in_field(t, s, f, k)->0 <= s[j],
    decreases j - k,
{
    if k < j && t[s[k]].field != f {
        first_in_field_reaches(t, s, f, k + 1, j);
    }
}

proof fn child_in_field(t: Seq<SyntaxNode>, i: int, f: Field, x: int)
    requires
        0 <= i < t.len(),
        hangs_in(t, x, i, f),
    ensures
        match field_child(t, i, f) {
            Some(c) => c <= x,
            None => false,
        },
{
    let s = children(t, i);
    node_is_child_of_parent(t, x);
    let j = choose|j: int| 0 <= j < s.len() && s[j] == x;
    first_in_field_reaches(t, s, f, 0, j);
}

// ---------------------------------------------------------------------------
// Scopes
// ---------------------------------------------------------------------------

/// Is this the kind of a class or a struct?
pub open spec fn class_or_struct(k: NodeKind) -> bool {
    k == NodeKind::ClassSpecifier || k == NodeKind::StructSpecifier
}

/// Is this the kind of a function definition or a template?
pub open spec fn function_or_template(k: NodeKind) -> bool {
    k == NodeKind::FunctionDefinition || k == NodeKind::TemplateDeclaration
}

/// Is `c` the nearest class or struct at or above node `i`?
pub open spec fn nearest_class(t: Seq<SyntaxNode>, i: int, c: int) -> bool {
    &&& is_at_or_above(t, c, i)
    &&& class_or_struct(t[c].kind)
    &&& forall|x: int| #[trigger]
        is_at_or_above(t, x, i) && class_or_struct(t[x].kind) ==> is_at_or_above(t, x, c)
}

/// Is `f` the nearest function definition or template at or above node `i`?
pub open spec fn nearest_function(t: Seq<SyntaxNode>, i: int, f: int) -> bool {
    &&& is_at_or_above(t, f, i)
    &&& function_or_template(t[f].kind)
    &&& forall|x: int| #[trigger]
        is_at_or_above(t, x, i) && function_or_template(t[x].kind) ==> is_at_or_above(t, x, f)
}

pub(crate) proof fn under_is_transitive(t: Seq<SyntaxNode>, a: int, b: int, c: int)
    requires
        is_at_or_above(t, a, b),
        is_at_or_above(t, b, c),
        0 <= b < t.len(),
    ensures
        is_at_or_above(t, a, c),
{
    if a != b && b != c {
        assert(t[b].depth > t[a].depth);
        assert forall|m: int| a < m <= c implies (#[trigger] t[m]).depth > t[a].depth by {
            if m > b {
                assert(t[m].depth > t[b].depth);
            }
        }
    }
}

/// The class or struct found for a node is the nearest one: the node itself or one that
/// it is under, with every other such class or struct at it or around it. None is found
/// only if there is none.
pub proof fn classes_found_are_nearest(t: Seq<SyntaxNode>, i: int)
    requires
        0 <= i < t.len(),
    ensures
        match enclosing_class(t, i) {
            Some(c) => nearest_class(t, i, c),
            None => forall|x: int| #[trigger]
                is_at_or_above(t, x, i) ==> !class_or_struct(t[x].kind),
        },
    decreases i,
{
    parents_are_nearest(t, i);
    if !class_or_struct(t[i].kind) {
        if let Some(p) = parent(t, i) {
            classes_found_are_nearest(t, p);
            assert forall|x: int| #[trigger] is_at_or_above(t, x, i) && x != i implies is_at_or_above(
                t,
                x,
                p,
            ) by {
                assert(is_under(t, x, i));
            }
            if let Some(c) = enclosing_class(t, p) {
                under_is_transitive(t, c, p, i);
            }
        } else {
            assert forall|x: int| #[trigger] is_at_or_above(t, x, i) implies !class_or_struct(
                t[x].kind,
            ) by {
                if x != i {
                    assert(is_under(t, x, i));
                }
            }
        }
    }
}

/// The function or template found for a node is the nearest one: the node itself or one
/// that it is under, with every other such function or template at it or around it. None
/// is found only if there is none.
pub proof fn functions_found_are_nearest(t: Seq<SyntaxNode>, i: int)
    requires
        0 <= i < t.len(),
    ensures
        match enclosing_function(t, i) {
            Some(f) => nearest_function(t, i, f),
            None => forall|x: int| #[trigger]
                is_at_or_above(t, x, i) ==> !function_or_template(t[x].kind),
        },
    decreases i,
{
    parents_are_nearest(t, i);
    if !function_or_template(t[i].kind) {
        if let Some(p) = parent(t, i) {
            functions_found_are_nearest(t, p);
            assert forall|x: int| #[trigger] is_at_or_above(t, x, i) && x != i implies is_at_or_above(
                t,
                x,
                p,
            ) by {
                assert(is_under(t, x, i));
            }
            if let Some(f) = enclosing_function(t, p) {
                under_is_transitive(t, f, p, i);
            }
        } else {
            assert forall|x: int| #[trigger] is_at_or_above(t, x, i) implies !function_or_template(
                t[x].kind,
            ) by {
                if x != i {
                    assert(is_under(t, x, i));
                }
            }
        }
    }
}

/// What is reported of a node is the node itself, or the template directly around it.
pub proof fn templates_are_reported_whole(t: Seq<SyntaxNode>, i: int)
    requires
        0 <= i < t.len(),
    ensures
        ({
            let r = report_node(t, i);
            &&& r == i || (is_under(t, r, i) && t[r].kind == NodeKind::TemplateDeclaration
                && forall|a: int| #[trigger] is_under(t, a, i) ==> is_at_or_above(t, a, r))
            &&& r == i ==> forall|a: int|
                #![trigger is_under(t, a, i)]
                is_under(t, a, i) && t[a].kind == NodeKind::TemplateDeclaration ==> exists|b: int| #[trigger]
                    is_under(t, b, i) && is_under(t, a, b)
        }),
{
    parents_are_nearest(t, i);
    let r = report_node(t, i);
    if r == i {
        assert forall|a: int|
            #![trigger is_under(t, a, i)]
            is_under(t, a, i) && t[a].kind == NodeKind::TemplateDeclaration implies exists|b: int| #[trigger]
                is_under(t, b, i) && is_under(t, a, b) by {
            let p = parent(t, i)->0;
            assert(is_at_or_above(t, a, p));
            assert(is_under(t, p, i) && is_under(t, a, p));
        }
    }
}

} // verus!
