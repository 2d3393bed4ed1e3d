//! What nodes declare, what they are called, and which comments belong to them.

use crate::engine::outline::{
    any_of_kind, children, class_of, comments_above, declarator_kind, doc_above, field_child,
    field_child_bounds, first_declarator, first_function_name, has_value, inner_declarator,
    inner_declarator_bounds, innermost_name, is_prototype, leading_comments, name_node,
    node_is_child_of_parent, scope_name, scopes, wraps_function, Mode,
};
use crate::engine::syntax::{node_text, parent, Field, NodeKind, SyntaxNode};
use crate::laws::nodes::{
    children_are_those_with_this_parent, fields_name_the_first_child, hangs_in, is_at_or_above,
    is_under, parents_are_nearest,
};
use crate::model::Kind;
use crate::text::{next_of, next_of_bounds};
use vstd::prelude::*;

verus! {

// ---------------------------------------------------------------------------
// Comments
// ---------------------------------------------------------------------------

/// Is node `x` a field declaration that starts on `row`?
pub open spec fn is_fragment(t: Seq<SyntaxNode>, x: int, row: int) -> bool {
    t[x].kind == NodeKind::FieldDeclaration && t[x].start_row == row
}

/// Does nothing but field declarations on `row` stand between positions `a` and `b` of
/// the siblings `s`?
pub open spec fn adjoins(t: Seq<SyntaxNode>, s: Seq<int>, a: int, b: int, row: int) -> bool {
    0 <= a < b < s.len() && forall|m: int| a < m < b ==> is_fragment(t, #[trigger] s[m], row)
}

/// Is node `upper` a comment that ends on the row above that on which `lower` starts, or
/// later?
pub open spec fn comments_on(t: Seq<SyntaxNode>, upper: int, lower: int) -> bool {
    t[upper].kind == NodeKind::Comment && t[upper].end_row + 1 >= t[lower].start_row
}

/// Are `cs` the siblings at the positions `at`, which end at `k`, each a comment on the
/// next and adjoining it?
pub open spec fn comment_chain(
    t: Seq<SyntaxNode>,
    s: Seq<int>,
    k: int,
    row: int,
    cs: Seq<int>,
    at: Seq<int>,
) -> bool {
    &&& at.len() == cs.len() + 1
    &&& at.last() == k
    &&& forall|m: int|
        0 <= m < cs.len() ==> adjoins(t, s, #[trigger] at[m], at[m + 1], row) && cs[m] == s[at[m]]
            && comments_on(t, s[at[m]], s[at[m + 1]])
}

/// Is there no comment that adjoins the topmost of the positions `at` and is on it?
pub open spec fn nothing_above(t: Seq<SyntaxNode>, s: Seq<int>, row: int, at: Seq<int>) -> bool {
    forall|j: int| #[trigger]
        adjoins(t, s, j, at[0], row) ==> !comments_on(t, s[j], s[at[0]])
}

proof fn run_above(t: Seq<SyntaxNode>, s: Seq<int>, k: int, low: int, row: int) -> (at: Seq<int>)
    requires
        0 <= k <= low < s.len(),
        forall|m: int| k <= m < low ==> is_fragment(t, #[trigger] s[m], row),
    ensures
        comment_chain(
            t,
            s,
            low,
            row,
            comments_above(t, s, k, row, t[s[low]].start_row as int),
            at,
        ),
        nothing_above(t, s, row, at),
    decreases k,
{
    let anchor = t[s[low]].start_row as int;
    let cs = comments_above(t, s, k, row, anchor);
    if k > 0 {
        let n = t[s[k - 1]];
        if n.kind == NodeKind::Comment && n.end_row + 1 >= anchor {
            let rest = run_above(t, s, k - 1, k - 1, row);
            let before = comments_above(t, s, k - 1, row, n.start_row as int);
            let at = rest.push(low);
            assert(cs =~= before.push(s[k - 1]));
            assert forall|m: int| 0 <= m < cs.len() implies adjoins(
                t,
                s,
                #[trigger] at[m],
                at[m + 1],
                row,
            ) && cs[m] == s[at[m]] && comments_on(t, s[at[m]], s[at[m + 1]]) by {
                if m < before.len() {
                    assert(at[m] == rest[m] && at[m + 1] == rest[m + 1]);
                    assert(cs[m] == before[m]);
                } else {
                    assert(at[m] == k - 1);
                }
            }
            assert(at[0] == rest[0]);
            at
        } else if n.kind == NodeKind::FieldDeclaration && n.start_row == row {
            run_above(t, s, k - 1, low, row)
        } else {
            let at = seq![low];
            assert forall|j: int| #[trigger] adjoins(t, s, j, at[0], row) implies !comments_on(
                t,
                s[j],
                s[at[0]],
            ) by {
                if j < k - 1 {
                    assert(is_fragment(t, s[k - 1], row));
                } else if j >= k {
                    assert(is_fragment(t, s[j], row));
                }
            }
            at
        }
    } else {
        let at = seq![low];
        assert forall|j: int| #[trigger] adjoins(t, s, j, at[0], row) implies !comments_on(
            t,
            s[j],
            s[at[0]],
        ) by {
            assert(is_fragment(t, s[j], row));
        }
        at
    }
}

/// The comments that lead a node are the whole run that ends at it: among its siblings,
/// each ends on the row above the next one or later, the last above the node itself, and
/// no further comment stands so above the first. Fragments of a declaration that start
/// on the node's own row do not break the run.
pub proof fn leading_comments_are_the_whole_run(t: Seq<SyntaxNode>, i: int)
    requires
        0 <= i < t.len(),
    ensures
        match parent(t, i) {
            Some(p) => {
                let s = children(t, p);
                exists|k: int, at: Seq<int>|
                    0 <= k < s.len() && s[k] == i && #[trigger] comment_chain(
                        t,
                        s,
                        k,
                        t[i].start_row as int,
                        leading_comments(t, i),
                        at,
                    ) && nothing_above(t, s, t[i].start_row as int, at)
            },
            None => leading_comments(t, i).len() == 0,
        },
{
    if let Some(p) = parent(t, i) {
        let s = children(t, p);
        node_is_child_of_parent(t, i);
        let k = next_of(s, i, 0);
        next_of_bounds(s, i, 0);
        let x = choose|x: int| 0 <= x < s.len() && s[x] == i;
        assert(s[k] == i);
        let at = run_above(t, s, k, k, t[i].start_row as int);
        assert(comment_chain(t, s, k, t[i].start_row as int, leading_comments(t, i), at));
    }
}

/// The doc of a node starts where the first of its leading comments does, and there is
/// one whenever there are such comments.
pub proof fn docs_start_at_the_first_comment(t: Seq<SyntaxNode>, src: Seq<u8>, i: int)
    requires
        0 <= i < t.len(),
    ensures
        doc_above(t, src, i) is Some <==> leading_comments(t, i).len() > 0,
        doc_above(t, src, i) matches Some(d) ==> {
            let top = t[leading_comments(t, i)[0]];
            &&& d.start_byte == top.start_byte
            &&& d.start_col == top.start_col
            &&& top.start_row < usize::MAX ==> d.start_line == top.start_row + 1
        },
        doc_above(t, src, i) matches Some(d) ==> d.text == crate::text::joined(
            Seq::new(
                leading_comments(t, i).len(),
                |m: int| node_text(src, t[leading_comments(t, i)[m]]),
            ),
            "\n"@,
        ),
{
    let cs = leading_comments(t, i);
    assert(cs.map_values(|c: int| node_text(src, t[c])) =~= Seq::new(
        cs.len(),
        |m: int| node_text(src, t[cs[m]]),
    ));
}

// ---------------------------------------------------------------------------
// Functions, variables and members
// ---------------------------------------------------------------------------

/// Is this the kind of a pointer, reference or parenthesis around a declarator?
pub open spec fn wrapper_kind(k: NodeKind) -> bool {
    k == NodeKind::PointerDeclarator || k == NodeKind::ReferenceDeclarator || k
        == NodeKind::ParenthesizedDeclarator
}

/// Do the nodes `w` lead from `d` inward, declarator by declarator?
pub open spec fn leads_inward(t: Seq<SyntaxNode>, d: int, w: Seq<int>) -> bool {
    &&& w.len() > 0
    &&& w[0] == d
    &&& forall|m: int| 0 <= m < w.len() ==> 0 <= #[trigger] w[m] < t.len()
    &&& forall|m: int|
        0 <= m < w.len() - 1 ==> inner_declarator(t, #[trigger] w[m]) == Some(w[m + 1])
}

/// Do the nodes `w` lead from `d` through wrappers to a function declarator?
pub open spec fn leads_to_function(t: Seq<SyntaxNode>, d: int, w: Seq<int>) -> bool {
    &&& leads_inward(t, d, w)
    &&& forall|m: int| 0 <= m < w.len() - 1 ==> wrapper_kind(t[#[trigger] w[m]].kind)
    &&& t[w.last()].kind == NodeKind::FunctionDeclarator
}

/// Does node `i` declare a function: does its declarator lead to a function declarator,
/// or is one directly under it?
pub open spec fn declares_function(t: Seq<SyntaxNode>, i: int) -> bool {
    ||| exists|d: int, w: Seq<int>|
        field_child(t, i, Field::Declarator) == Some(d) && #[trigger] leads_to_function(t, d, w)
    ||| exists|c: int|
        0 <= c < t.len() && parent(t, c) == Some(i) && (#[trigger] t[c]).kind
            == NodeKind::FunctionDeclarator
}

proof fn wrapped_function_is_reached(t: Seq<SyntaxNode>, d: int) -> (w: Seq<int>)
    requires
        0 <= d < t.len(),
        wraps_function(t, d),
    ensures
        leads_to_function(t, d, w),
    decreases t.len() - d,
{
    if t[d].kind == NodeKind::FunctionDeclarator {
        seq![d]
    } else {
        inner_declarator_bounds(t, d);
        let e = inner_declarator(t, d)->0;
        let rest = wrapped_function_is_reached(t, e);
        let w = seq![d] + rest;
        assert forall|m: int| 0 <= m < w.len() implies 0 <= #[trigger] w[m] < t.len() by {
            if m > 0 {
                assert(w[m] == rest[m - 1]);
            }
        }
        assert forall|m: int| 0 <= m < w.len() - 1 implies inner_declarator(t, #[trigger] w[m])
            == Some(w[m + 1]) && wrapper_kind(t[w[m]].kind) by {
            assert(w[m + 1] == rest[m]);
            if m > 0 {
                assert(w[m] == rest[m - 1]);
            }
        }
        assert(w.last() == rest.last());
        w
    }
}

proof fn reached_function_is_wrapped(t: Seq<SyntaxNode>, d: int, w: Seq<int>)
    requires
        leads_to_function(t, d, w),
    ensures
        wraps_function(t, d),
    decreases w.len(),
{
    if w.len() > 1 {
        let rest = w.skip(1);
        assert(wrapper_kind(t[w[0]].kind));
        assert(inner_declarator(t, w[0]) == Some(w[1]));
        assert forall|m: int| 0 <= m < rest.len() implies 0 <= #[trigger] rest[m] < t.len() by {
            assert(rest[m] == w[m + 1]);
        }
        assert forall|m: int| 0 <= m < rest.len() - 1 implies inner_declarator(
            t,
            #[trigger] rest[m],
        ) == Some(rest[m + 1]) && wrapper_kind(t[rest[m]].kind) by {
            assert(rest[m] == w[m + 1] && rest[m + 1] == w[m + 2]);
        }
        assert(rest.last() == w.last());
        reached_function_is_wrapped(t, w[1], rest);
    }
}

/// A declaration is taken for a prototype if and only if it declares a function.
pub proof fn prototypes_declare_functions(t: Seq<SyntaxNode>, i: int)
    requires
        0 <= i < t.len(),
    ensures
        is_prototype(t, i) <==> declares_function(t, i),
{
    let s = children(t, i);
    children_are_those_with_this_parent(t, i);
    field_child_bounds(t, i, Field::Declarator);
    if is_prototype(t, i) {
        if any_of_kind(t, s, NodeKind::FunctionDeclarator) {
            let k = choose|k: int|
                0 <= k < s.len() && t[#[trigger] s[k]].kind == NodeKind::FunctionDeclarator;
            assert(s.contains(s[k]));
            assert(t[s[k]].kind == NodeKind::FunctionDeclarator);
        } else {
            let d = field_child(t, i, Field::Declarator)->0;
            let w = wrapped_function_is_reached(t, d);
            assert(leads_to_function(t, d, w));
        }
    }
    if declares_function(t, i) {
        if exists|c: int|
            0 <= c < t.len() && parent(t, c) == Some(i) && (#[trigger] t[c]).kind
                == NodeKind::FunctionDeclarator {
            let c = choose|c: int|
                0 <= c < t.len() && parent(t, c) == Some(i) && (#[trigger] t[c]).kind
                    == NodeKind::FunctionDeclarator;
            assert(s.contains(c));
            let k = choose|k: int| 0 <= k < s.len() && s[k] == c;
            assert(t[s[k]].kind == NodeKind::FunctionDeclarator);
        } else {
            let (d, w) = choose|d: int, w: Seq<int>|
                field_child(t, i, Field::Declarator) == Some(d) && #[trigger] leads_to_function(
                    t,
                    d,
                    w,
                );
            reached_function_is_wrapped(t, d, w);
        }
    }
}

/// Is there an initializer with a value directly under node `i`?
pub open spec fn is_initialized(t: Seq<SyntaxNode>, i: int) -> bool {
    exists|c: int, v: int|
        0 <= c < t.len() && parent(t, c) == Some(i) && t[c].kind == NodeKind::InitDeclarator
            && #[trigger] hangs_in(t, v, c, Field::Value)
}

proof fn values_are_initializers(t: Seq<SyntaxNode>, i: int)
    requires
        0 <= i < t.len(),
    ensures
        has_value(t, i) <==> is_initialized(t, i),
{
    let s = children(t, i);
    children_are_those_with_this_parent(t, i);
    if has_value(t, i) {
        let k = choose|k: int|
            0 <= k < s.len() && t[#[trigger] s[k]].kind == NodeKind::InitDeclarator && field_child(
                t,
                s[k],
                Field::Value,
            ) is Some;
        assert(s.contains(s[k]));
        fields_name_the_first_child(t, s[k], Field::Value);
        assert(hangs_in(t, field_child(t, s[k], Field::Value)->0, s[k], Field::Value));
    }
    if is_initialized(t, i) {
        let (c, v) = choose|c: int, v: int|
            0 <= c < t.len() && parent(t, c) == Some(i) && t[c].kind == NodeKind::InitDeclarator
                && #[trigger] hangs_in(t, v, c, Field::Value);
        assert(s.contains(c));
        let k = choose|k: int| 0 <= k < s.len() && s[k] == c;
        fields_name_the_first_child(t, c, Field::Value);
        assert(t[s[k]].kind == NodeKind::InitDeclarator);
    }
}

/// Has node `i` a body?
pub open spec fn has_body(t: Seq<SyntaxNode>, i: int) -> bool {
    exists|b: int| #[trigger] hangs_in(t, b, i, Field::Body)
}

/// What a node is as a definition: a function, a class or struct with a body, or a
/// variable that is given a value.
pub open spec fn is_definition(t: Seq<SyntaxNode>, i: int, kind: Kind) -> bool {
    ||| t[i].kind == NodeKind::FunctionDefinition && kind == Kind::Function
    ||| t[i].kind == NodeKind::ClassSpecifier && has_body(t, i) && kind == Kind::Class
    ||| t[i].kind == NodeKind::StructSpecifier && has_body(t, i) && kind == Kind::Struct
    ||| t[i].kind == NodeKind::Declaration && is_initialized(t, i) && !declares_function(t, i) && kind
        == Kind::Variable
}

/// What a node is as a declaration: a function or a variable without a value outside
/// classes, a method or a data member inside.
pub open spec fn is_declaration(t: Seq<SyntaxNode>, i: int, kind: Kind) -> bool {
    ||| t[i].kind == NodeKind::Declaration && declares_function(t, i) && kind == Kind::Function
    ||| t[i].kind == NodeKind::Declaration && !declares_function(t, i) && !is_initialized(t, i)
        && kind == Kind::Variable
    ||| t[i].kind == NodeKind::FieldDeclaration && declares_function(t, i) && kind == Kind::Method
    ||| t[i].kind == NodeKind::FieldDeclaration && !declares_function(t, i) && kind == Kind::Member
}

/// Every definition and every declaration is recognized for what it is, and nothing
/// else is: in particular each field declaration is a method or a data member.
pub proof fn nodes_are_recognized(t: Seq<SyntaxNode>, i: int, kind: Kind)
    requires
        0 <= i < t.len(),
    ensures
        class_of(t, i, Mode::Definition) == Some(kind) <==> is_definition(t, i, kind),
        class_of(t, i, Mode::Declaration) == Some(kind) <==> is_declaration(t, i, kind),
        t[i].kind == NodeKind::FieldDeclaration ==> class_of(t, i, Mode::Declaration) is Some,
{
    prototypes_declare_functions(t, i);
    values_are_initializers(t, i);
    fields_name_the_first_child(t, i, Field::Body);
    if let Some(b) = field_child(t, i, Field::Body) {
        assert(hangs_in(t, b, i, Field::Body));
    }
}

// ---------------------------------------------------------------------------
// Names
// ---------------------------------------------------------------------------

/// Do the nodes `w` lead from `i` inward to the name `n`, the first name on the way?
pub open spec fn leads_to_name(t: Seq<SyntaxNode>, i: int, w: Seq<int>, n: int) -> bool {
    &&& leads_inward(t, i, w)
    &&& forall|m: int| 0 <= m < w.len() - 1 ==> !is_name(t[#[trigger] w[m]].kind)
    &&& w.last() == n
    &&& is_name(t[n].kind)
}

/// Is this the kind of a name: plain, of a field, of a type, qualified, of a destructor
/// or of an operator?
pub open spec fn is_name(k: NodeKind) -> bool {
    ||| k == NodeKind::Identifier
    ||| k == NodeKind::FieldIdentifier
    ||| k == NodeKind::TypeIdentifier
    ||| k == NodeKind::QualifiedIdentifier
    ||| k == NodeKind::DestructorName
    ||| k == NodeKind::OperatorName
}

/// The name under a declarator is the first name on the way inward, whatever wraps it.
pub proof fn names_are_reached_through_wrappers(t: Seq<SyntaxNode>, i: int, n: int)
    requires
        0 <= i < t.len(),
    ensures
        innermost_name(t, i) == Some(n) <==> exists|w: Seq<int>| #[trigger]
            leads_to_name(t, i, w, n),
    decreases t.len() - i,
{
    inner_declarator_bounds(t, i);
    if innermost_name(t, i) == Some(n) {
        if is_name(t[i].kind) {
            assert(leads_to_name(t, i, seq![i], n));
        } else {
            let d = inner_declarator(t, i)->0;
            names_are_reached_through_wrappers(t, d, n);
            let rest = choose|w: Seq<int>| #[trigger] leads_to_name(t, d, w, n);
            let w = seq![i] + rest;
            assert forall|m: int| 0 <= m < w.len() implies 0 <= #[trigger] w[m] < t.len() by {
                if m > 0 {
                    assert(w[m] == rest[m - 1]);
                }
            }
            assert forall|m: int| 0 <= m < w.len() - 1 implies inner_declarator(
                t,
                #[trigger] w[m],
            ) == Some(w[m + 1]) && !is_name(t[w[m]].kind) by {
                assert(w[m + 1] == rest[m]);
                if m > 0 {
                    assert(w[m] == rest[m - 1]);
                }
            }
            assert(w.last() == rest.last());
            assert(leads_to_name(t, i, w, n));
        }
    }
    if exists|w: Seq<int>| #[trigger] leads_to_name(t, i, w, n) {
        let w = choose|w: Seq<int>| #[trigger] leads_to_name(t, i, w, n);
        if w.len() > 1 {
            assert(!is_name(t[w[0]].kind));
            assert(inner_declarator(t, w[0]) == Some(w[1]));
            let rest = w.skip(1);
            assert forall|m: int| 0 <= m < rest.len() implies 0 <= #[trigger] rest[m] < t.len() by {
                assert(rest[m] == w[m + 1]);
            }
            assert forall|m: int| 0 <= m < rest.len() - 1 implies inner_declarator(
                t,
                #[trigger] rest[m],
            ) == Some(rest[m + 1]) && !is_name(t[rest[m]].kind) by {
                assert(rest[m] == w[m + 1] && rest[m + 1] == w[m + 2]);
            }
            assert(rest.last() == w.last());
            assert(leads_to_name(t, w[1], rest, n));
            names_are_reached_through_wrappers(t, w[1], n);
        }
    }
}

/// Can node `x`, directly under a wrapper, be the declarator that it wraps?
pub open spec fn is_wrapped(t: Seq<SyntaxNode>, x: int, i: int) -> bool {
    0 <= x < t.len() && parent(t, x) == Some(i) && t[x].named && (is_name(t[x].kind) || wrapper_kind(
        t[x].kind,
    ) || t[x].kind == NodeKind::FunctionDeclarator || t[x].kind == NodeKind::ArrayDeclarator
        || t[x].kind == NodeKind::InitDeclarator)
}

proof fn first_declarator_is_first(t: Seq<SyntaxNode>, s: Seq<int>, k: int)
    requires
        0 <= k <= s.len(),
    ensures
        match first_declarator(t, s, k) {
            Some(d) => exists|m: int|
                k <= m < s.len() && #[trigger] s[m] == d && t[d].named && declarator_kind(t[d].kind)
                    && forall|j: int|
                    k <= j < m ==> !(t[#[trigger] s[j]].named && declarator_kind(t[s[j]].kind)),
            None => forall|j: int|
                k <= j < s.len() ==> !(t[#[trigger] s[j]].named && declarator_kind(t[s[j]].kind)),
        },
    decreases s.len() - k,
{
    if k < s.len() {
        if !(t[s[k]].named && declarator_kind(t[s[k]].kind)) {
            first_declarator_is_first(t, s, k + 1);
            if let Some(d) = first_declarator(t, s, k + 1) {
                let m = choose|m: int|
                    k + 1 <= m < s.len() && #[trigger] s[m] == d && t[d].named && declarator_kind(
                        t[d].kind,
                    ) && forall|j: int|
                        k + 1 <= j < m ==> !(t[#[trigger] s[j]].named && declarator_kind(
                            t[s[j]].kind,
                        ));
                assert(s[m] == d);
            }
        } else {
            assert(s[k] == first_declarator(t, s, k)->0);
        }
    }
}

/// What a wrapper wraps is the node in its declarator field or, where there is none, the
/// first named declarator directly under it.
pub proof fn wrappers_wrap_their_declarator(t: Seq<SyntaxNode>, i: int)
    requires
        0 <= i < t.len(),
    ensures
        match (field_child(t, i, Field::Declarator), inner_declarator(t, i)) {
            (Some(d), e) => e == Some(d),
            (None, Some(d)) => is_wrapped(t, d, i) && forall|x: int| #[trigger]
                is_wrapped(t, x, i) ==> d <= x,
            (None, None) => forall|x: int| !#[trigger] is_wrapped(t, x, i),
        },
{
    let s = children(t, i);
    children_are_those_with_this_parent(t, i);
    first_declarator_is_first(t, s, 0);
    if field_child(t, i, Field::Declarator) is None {
        assert forall|x: int| #[trigger] is_wrapped(t, x, i) implies (match inner_declarator(t, i) {
            Some(d) => d <= x,
            None => false,
        }) by {
            assert(s.contains(x));
            let j = choose|j: int| 0 <= j < s.len() && s[j] == x;
            assert(t[s[j]].named && declarator_kind(t[s[j]].kind));
            if let Some(d) = inner_declarator(t, i) {
                let m = choose|m: int|
                    0 <= m < s.len() && #[trigger] s[m] == d && t[d].named && declarator_kind(
                        t[d].kind,
                    ) && forall|j: int|
                        0 <= j < m ==> !(t[#[trigger] s[j]].named && declarator_kind(t[s[j]].kind));
                assert(m <= j);
            }
        }
        if let Some(d) = inner_declarator(t, i) {
            let m = choose|m: int|
                0 <= m < s.len() && #[trigger] s[m] == d && t[d].named && declarator_kind(t[d].kind)
                    && forall|j: int|
                    0 <= j < m ==> !(t[#[trigger] s[j]].named && declarator_kind(t[s[j]].kind));
            assert(s.contains(d));
        }
    }
}

proof fn first_function_name_is_first(t: Seq<SyntaxNode>, s: Seq<int>, k: int)
    requires
        0 <= k <= s.len(),
    ensures
        match first_function_name(t, s, k) {
            Some(n) => exists|m: int|
                k <= m < s.len() && t[#[trigger] s[m]].kind == NodeKind::FunctionDeclarator
                    && innermost_name(t, s[m]) == Some(n),
            None => forall|j: int|
                k <= j < s.len() && t[#[trigger] s[j]].kind == NodeKind::FunctionDeclarator
                    ==> innermost_name(t, s[j]) is None,
        },
    decreases s.len() - k,
{
    if k < s.len() {
        if t[s[k]].kind == NodeKind::FunctionDeclarator && innermost_name(t, s[k]) is Some {
            assert(t[s[k]].kind == NodeKind::FunctionDeclarator);
        } else {
            first_function_name_is_first(t, s, k + 1);
        }
    }
}

/// A class or struct is called by the node in its name field. Anything else is called by
/// the name that its declarator leads to; failing that, by the name that a function
/// declarator directly under it leads to.
pub proof fn names_are_found(t: Seq<SyntaxNode>, i: int)
    requires
        0 <= i < t.len(),
    ensures
        t[i].kind == NodeKind::ClassSpecifier || t[i].kind == NodeKind::StructSpecifier
            ==> name_node(t, i) == field_child(t, i, Field::Name),
        t[i].kind != NodeKind::ClassSpecifier && t[i].kind != NodeKind::StructSpecifier ==> ({
            let declared = match field_child(t, i, Field::Declarator) {
                Some(d) => innermost_name(t, d),
                None => None,
            };
            &&& declared is Some ==> name_node(t, i) == declared
            &&& declared is None ==> match name_node(t, i) {
                Some(n) => exists|c: int|
                    0 <= c < t.len() && parent(t, c) == Some(i) && (#[trigger] t[c]).kind
                        == NodeKind::FunctionDeclarator && innermost_name(t, c) == Some(n),
                None => forall|c: int|
                    0 <= c < t.len() && parent(t, c) == Some(i) && (#[trigger] t[c]).kind
                        == NodeKind::FunctionDeclarator ==> innermost_name(t, c) is None,
            }
        }),
{
    let s = children(t, i);
    children_are_those_with_this_parent(t, i);
    first_function_name_is_first(t, s, 0);
    match first_function_name(t, s, 0) {
        Some(n) => {
            let m = choose|m: int|
                0 <= m < s.len() && t[#[trigger] s[m]].kind == NodeKind::FunctionDeclarator
                    && innermost_name(t, s[m]) == Some(n);
            assert(s.contains(s[m]));
            assert(t[s[m]].kind == NodeKind::FunctionDeclarator);
        },
        None => {
            assert forall|c: int|
                0 <= c < t.len() && parent(t, c) == Some(i) && (#[trigger] t[c]).kind
                    == NodeKind::FunctionDeclarator implies innermost_name(t, c) is None by {
                assert(s.contains(c));
                let j = choose|j: int| 0 <= j < s.len() && s[j] == c;
                assert(t[s[j]].kind == NodeKind::FunctionDeclarator);
            }
        },
    }
}

// ---------------------------------------------------------------------------
// Scopes
// ---------------------------------------------------------------------------

/// Is node `x` a namespace, class or struct with the given name?
pub open spec fn is_named_scope(t: Seq<SyntaxNode>, src: Seq<u8>, x: int, name: Seq<char>) -> bool {
    &&& t[x].kind == NodeKind::NamespaceDefinition || t[x].kind == NodeKind::ClassSpecifier || t[x].kind
        == NodeKind::StructSpecifier
    &&& field_child(t, x, Field::Name) matches Some(n) && name == node_text(src, t[n])
}

/// Are `names` the names of the nodes `a`, which are all the named scopes that node `i`
/// is under, from the outside in?
pub open spec fn are_scopes_around(
    t: Seq<SyntaxNode>,
    src: Seq<u8>,
    i: int,
    names: Seq<Seq<char>>,
    a: Seq<int>,
) -> bool {
    &&& a.len() == names.len()
    &&& forall|m: int|
        0 <= m < a.len() ==> is_under(t, #[trigger] a[m], i) && is_named_scope(
            t,
            src,
            a[m],
            names[m],
        )
    &&& forall|m: int, n: int| 0 <= m < n < a.len() ==> #[trigger] a[m] < #[trigger] a[n]
    &&& forall|x: int, name: Seq<char>| #[trigger]
        is_named_scope(t, src, x, name) && is_under(t, x, i) ==> a.contains(x)
}

proof fn scopes_around(t: Seq<SyntaxNode>, src: Seq<u8>, i: int) -> (a: Seq<int>)
    requires
        0 <= i < t.len(),
    ensures
        are_scopes_around(t, src, i, scopes(t, src, i), a),
    decreases i,
{
    parents_are_nearest(t, i);
    match parent(t, i) {
        Some(p) => {
            let outer = scopes_around(t, src, p);
            let names = scopes(t, src, p);
            let all = scopes(t, src, i);
            let a = match scope_name(t, src, p) {
                Some(_) => outer.push(p),
                None => outer,
            };
            assert forall|m: int| 0 <= m < a.len() implies is_under(t, #[trigger] a[m], i)
                && is_named_scope(t, src, a[m], all[m]) by {
                if m < outer.len() {
                    assert(a[m] == outer[m]);
                    assert(all[m] == names[m]);
                    crate::laws::nodes::under_is_transitive(t, a[m], p, i);
                } else {
                    assert(is_named_scope(t, src, p, scope_name(t, src, p)->0));
                }
            }
            assert forall|m: int, n: int| 0 <= m < n < a.len() implies #[trigger] a[m]
                < #[trigger] a[n] by {
                assert(a[m] == outer[m]);
                assert(is_under(t, outer[m], p));
            }
            assert forall|x: int, name: Seq<char>| #[trigger]
                is_named_scope(t, src, x, name) && is_under(t, x, i) implies a.contains(x) by {
                assert(is_at_or_above(t, x, p));
                if x == p {
                    assert(scope_name(t, src, p) is Some);
                    assert(a[a.len() - 1] == p);
                } else {
                    assert(outer.contains(x));
                    let m = choose|m: int| 0 <= m < outer.len() && outer[m] == x;
                    assert(a[m] == x);
                }
            }
            a
        },
        None => {
            assert forall|x: int, name: Seq<char>| #[trigger]
                is_named_scope(t, src, x, name) && is_under(t, x, i) implies false by {
                assert(!is_under(t, x, i));
            }
            Seq::empty()
        },
    }
}

/// The scopes that qualify a node are all the namespaces, classes and structs with a
/// name that it is under, from the outside in.
pub proof fn scopes_are_all_that_is_around(t: Seq<SyntaxNode>, src: Seq<u8>, i: int)
    requires
        0 <= i < t.len(),
    ensures
        exists|a: Seq<int>| #[trigger] are_scopes_around(t, src, i, scopes(t, src, i), a),
{
    let a = scopes_around(t, src, i);
}

} // verus!
