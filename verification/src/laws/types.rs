//! The kinds of nodes, and the types of what is declared.

use crate::engine::outline::{
    children, field_child, function_declarator, inner_declarator, inner_declarator_bounds,
    markers, parameter_types, qualifiers, rendered, spelling, trailing_in,
};
use crate::engine::syntax::{
    field_named, kind_named, node_text, syntax_node, Field, NodeKind, RawNodeView, SyntaxNode,
};
use crate::laws::declarations::{leads_inward, wrapper_kind};
use crate::text::{after_arrows, joined, trimmed};
use vstd::prelude::*;

verus! {

// ---------------------------------------------------------------------------
// Kinds
// ---------------------------------------------------------------------------

proof fn long_names_are_told_apart()
    ensures
        "function_definition"@.len() == 19,
        "template_declaration"@.len() == 20,
        "namespace_definition"@.len() == 20,
        "class_specifier"@.len() == 15,
        "struct_specifier"@.len() == 16,
        "union_specifier"@.len() == 15,
        "declaration"@.len() == 11,
        "field_declaration"@.len() == 17,
        "parameter_declaration"@.len() == 21,
        "init_declarator"@.len() == 15,
        "function_declarator"@.len() == 19,
        "pointer_declarator"@.len() == 18,
        "reference_declarator"@.len() == 20,
        "array_declarator"@.len() == 16,
        "parenthesized_declarator"@.len() == 24,
        "identifier"@.len() == 10,
        "field_identifier"@.len() == 16,
        "type_identifier"@.len() == 15,
        "qualified_identifier"@.len() == 20,
        "destructor_name"@.len() == 15,
        "operator_name"@.len() == 13,
        "field_expression"@.len() == 16,
        "compound_statement"@.len() == 18,
        "type_qualifier"@.len() == 14,
        "trailing_return_type"@.len() == 20,
        "comment"@.len() == 7,
        "function_definition"@[9] == 'd' && "function_definition"@[11] == 'f',
        "function_declarator"@[9] == 'd' && "function_declarator"@[11] == 'c',
        "template_declaration"@[0] == 't' && "template_declaration"@[1] == 'e',
        "namespace_definition"@[0] == 'n',
        "reference_declarator"@[0] == 'r',
        "qualified_identifier"@[0] == 'q',
        "trailing_return_type"@[0] == 't' && "trailing_return_type"@[1] == 'r',
        "class_specifier"@[0] == 'c',
        "union_specifier"@[0] == 'u',
        "init_declarator"@[0] == 'i',
        "type_identifier"@[0] == 't',
        "destructor_name"@[0] == 'd',
        "struct_specifier"@[0] == 's',
        "array_declarator"@[0] == 'a',
        "field_identifier"@[0] == 'f' && "field_identifier"@[6] == 'i',
        "field_expression"@[0] == 'f' && "field_expression"@[6] == 'e',
        "pointer_declarator"@[0] == 'p',
        "compound_statement"@[0] == 'c',
{
    reveal_strlit("function_definition");
    reveal_strlit("template_declaration");
    reveal_strlit("namespace_definition");
    reveal_strlit("class_specifier");
    reveal_strlit("struct_specifier");
    reveal_strlit("union_specifier");
    reveal_strlit("declaration");
    reveal_strlit("field_declaration");
    reveal_strlit("parameter_declaration");
    reveal_strlit("init_declarator");
    reveal_strlit("function_declarator");
    reveal_strlit("pointer_declarator");
    reveal_strlit("reference_declarator");
    reveal_strlit("array_declarator");
    reveal_strlit("parenthesized_declarator");
    reveal_strlit("identifier");
    reveal_strlit("field_identifier");
    reveal_strlit("type_identifier");
    reveal_strlit("qualified_identifier");
    reveal_strlit("destructor_name");
    reveal_strlit("operator_name");
    reveal_strlit("field_expression");
    reveal_strlit("compound_statement");
    reveal_strlit("type_qualifier");
    reveal_strlit("trailing_return_type");
    reveal_strlit("comment");
}

/// Each symbol of the grammar that matters is known by its name.
pub proof fn symbols_are_known_by_name()
    ensures
        kind_named("function_definition"@) == NodeKind::FunctionDefinition,
        kind_named("template_declaration"@) == NodeKind::TemplateDeclaration,
        kind_named("namespace_definition"@) == NodeKind::NamespaceDefinition,
        kind_named("class_specifier"@) == NodeKind::ClassSpecifier,
        kind_named("struct_specifier"@) == NodeKind::StructSpecifier,
        kind_named("union_specifier"@) == NodeKind::UnionSpecifier,
        kind_named("declaration"@) == NodeKind::Declaration,
        kind_named("field_declaration"@) == NodeKind::FieldDeclaration,
        kind_named("parameter_declaration"@) == NodeKind::ParameterDeclaration,
        kind_named("init_declarator"@) == NodeKind::InitDeclarator,
        kind_named("function_declarator"@) == NodeKind::FunctionDeclarator,
        kind_named("pointer_declarator"@) == NodeKind::PointerDeclarator,
        kind_named("reference_declarator"@) == NodeKind::ReferenceDeclarator,
        kind_named("array_declarator"@) == NodeKind::ArrayDeclarator,
        kind_named("parenthesized_declarator"@) == NodeKind::ParenthesizedDeclarator,
        kind_named("identifier"@) == NodeKind::Identifier,
        kind_named("field_identifier"@) == NodeKind::FieldIdentifier,
        kind_named("type_identifier"@) == NodeKind::TypeIdentifier,
        kind_named("qualified_identifier"@) == NodeKind::QualifiedIdentifier,
        kind_named("destructor_name"@) == NodeKind::DestructorName,
        kind_named("operator_name"@) == NodeKind::OperatorName,
        kind_named("field_expression"@) == NodeKind::FieldExpression,
        kind_named("compound_statement"@) == NodeKind::CompoundStatement,
        kind_named("type_qualifier"@) == NodeKind::TypeQualifier,
        kind_named("trailing_return_type"@) == NodeKind::TrailingReturnType,
        kind_named("comment"@) == NodeKind::Comment,
{
    long_names_are_told_apart();
}

/// No two symbols share a kind of their own.
pub proof fn kinds_are_of_one_symbol(a: Seq<char>, b: Seq<char>)
    requires
        kind_named(a) == kind_named(b),
        kind_named(a) != NodeKind::Other,
    ensures
        a == b,
{
}

/// The fields that matter are known by their names.
pub proof fn fields_are_known_by_name()
    ensures
        field_named(Some("type"@)) == Field::Type,
        field_named(Some("body"@)) == Field::Body,
        field_named(Some("name"@)) == Field::Name,
        field_named(Some("declarator"@)) == Field::Declarator,
        field_named(Some("value"@)) == Field::Value,
        field_named(Some("parameters"@)) == Field::Parameters,
        field_named(None) == Field::Other,
{
    reveal_strlit("type");
    reveal_strlit("body");
    reveal_strlit("name");
    reveal_strlit("declarator");
    reveal_strlit("value");
    reveal_strlit("parameters");
    assert("type"@[0] == 't' && "body"@[0] == 'b' && "name"@[0] == 'n');
    assert("declarator"@[0] == 'd' && "parameters"@[0] == 'p');
    assert("type"@.len() == 4 && "body"@.len() == 4 && "name"@.len() == 4);
    assert("value"@.len() == 5 && "declarator"@.len() == 10 && "parameters"@.len() == 10);
}

/// A node of the tree is where and how deep the parser says, and faulty if the parser
/// says that it is an error or missing.
pub proof fn nodes_are_taken_over(n: RawNodeView)
    ensures
        ({
            let x = syntax_node(n);
            &&& x.start_byte == n.start_byte && x.end_byte == n.end_byte
            &&& x.start_row == n.start_row && x.end_row == n.end_row
            &&& x.start_col == n.start_col && x.end_col == n.end_col
            &&& x.depth == n.depth && x.named == n.named && x.has_error == n.has_error
            &&& x.faulty <==> n.is_error || n.is_missing
        }),
{
}

// ---------------------------------------------------------------------------
// Types
// ---------------------------------------------------------------------------

/// The markers in a type are one for each pointer or reference on the way inward: a star,
/// or what the reference starts with.
pub proof fn markers_stand_for_pointers_and_references(t: Seq<SyntaxNode>, src: Seq<u8>, i: int)
    requires
        0 <= i < t.len(),
    ensures
        ({
            let inner = match inner_declarator(t, i) {
                Some(d) => markers(t, src, d),
                None => Seq::empty(),
            };
            &&& t[i].kind == NodeKind::PointerDeclarator ==> markers(t, src, i) == seq!['*'] + inner
            &&& t[i].kind == NodeKind::ReferenceDeclarator && children(t, i).len() > 0 ==> markers(
                t,
                src,
                i,
            ) == node_text(src, t[children(t, i)[0]]) + inner
            &&& t[i].kind != NodeKind::PointerDeclarator && t[i].kind
                != NodeKind::ReferenceDeclarator ==> markers(t, src, i).len() == 0
        }),
{
    inner_declarator_bounds(t, i);
}

/// The nodes of `s` that are type qualifiers.
pub open spec fn qualifiers_in(t: Seq<SyntaxNode>, s: Seq<int>) -> Seq<int> {
    s.filter(|x: int| t[x].kind == NodeKind::TypeQualifier)
}

proof fn qualifiers_join(t: Seq<SyntaxNode>, src: Seq<u8>, s: Seq<int>, k: int)
    requires
        0 <= k <= s.len(),
        forall|j: int|
            0 <= j < s.len() && t[#[trigger] s[j]].kind == NodeKind::TypeQualifier ==> trimmed(
                node_text(src, t[s[j]]),
            ).len() > 0,
    ensures
        qualifiers(t, src, s, k) == joined(
            qualifiers_in(t, s.take(k)).map_values(|x: int| trimmed(node_text(src, t[x]))),
            " "@,
        ),
        qualifiers(t, src, s, k).len() > 0 <==> qualifiers_in(t, s.take(k)).len() > 0,
    decreases k,
{
    reveal(Seq::filter);
    reveal_strlit(" ");
    let text = |x: int| trimmed(node_text(src, t[x]));
    if k > 0 {
        qualifiers_join(t, src, s, k - 1);
        let before = qualifiers_in(t, s.take(k - 1));
        let all = qualifiers_in(t, s.take(k));
        assert(s.take(k).drop_last() =~= s.take(k - 1));
        assert(s.take(k).last() == s[k - 1]);
        let n = t[s[k - 1]];
        if n.kind == NodeKind::TypeQualifier {
            let x = trimmed(node_text(src, n));
            assert(all =~= before.push(s[k - 1]));
            assert(all.map_values(text) =~= before.map_values(text).push(x));
            if before.len() > 0 {
                assert(before.map_values(text).push(x).drop_last() =~= before.map_values(text));
                assert(qualifiers(t, src, s, k) =~= joined(before.map_values(text), " "@) + " "@ + x);
            } else {
                assert(before.map_values(text).push(x) =~= seq![x]);
            }
        }
    } else {
        assert(s.take(0) =~= Seq::empty());
        assert(qualifiers_in(t, s.take(0)).map_values(text) =~= Seq::empty());
    }
}

/// The qualifiers of a type are all of them, in order, with a space between.
pub proof fn qualifiers_are_all_there(t: Seq<SyntaxNode>, src: Seq<u8>, s: Seq<int>)
    requires
        forall|j: int|
            0 <= j < s.len() && t[#[trigger] s[j]].kind == NodeKind::TypeQualifier ==> trimmed(
                node_text(src, t[s[j]]),
            ).len() > 0,
    ensures
        qualifiers(t, src, s, s.len() as int) == joined(
            qualifiers_in(t, s).map_values(|x: int| trimmed(node_text(src, t[x]))),
            " "@,
        ),
{
    qualifiers_join(t, src, s, s.len() as int);
    assert(s.take(s.len() as int) =~= s);
}

/// A type is written as its qualifiers, its own text and its markers, with spaces
/// between; there is none without a node for it.
pub proof fn types_are_written_out(t: Seq<SyntaxNode>, src: Seq<u8>, i: int)
    ensures
        field_child(t, i, Field::Type) is None ==> rendered(t, src, i) is None,
        field_child(t, i, Field::Type) matches Some(ty) ==> ({
            let before = qualifiers(t, src, children(t, i), children(t, i).len() as int);
            let after = match field_child(t, i, Field::Declarator) {
                Some(d) => markers(t, src, d),
                None => Seq::empty(),
            };
            let own = trimmed(node_text(src, t[ty]));
            &&& rendered(t, src, i) is Some
            &&& before.len() == 0 && after.len() == 0 ==> rendered(t, src, i)->0 == own
            &&& before.len() > 0 && after.len() == 0 ==> rendered(t, src, i)->0 == before + seq![' ']
                + own
            &&& before.len() == 0 && after.len() > 0 ==> rendered(t, src, i)->0 == own + seq![' ']
                + after
            &&& before.len() > 0 && after.len() > 0 ==> rendered(t, src, i)->0 == before + seq![' ']
                + own + seq![' '] + after
        }),
{
    if let Some(ty) = field_child(t, i, Field::Type) {
        let before = qualifiers(t, src, children(t, i), children(t, i).len() as int);
        let after = match field_child(t, i, Field::Declarator) {
            Some(d) => markers(t, src, d),
            None => Seq::empty(),
        };
        let own = trimmed(node_text(src, t[ty]));
        let r = rendered(t, src, i)->0;
        if before.len() == 0 && after.len() == 0 {
            assert(r =~= own);
        } else if before.len() > 0 && after.len() == 0 {
            assert(r =~= before + seq![' '] + own);
        } else if before.len() == 0 {
            assert(r =~= own + seq![' '] + after);
        } else {
            assert(r =~= before + seq![' '] + own + seq![' '] + after);
        }
    }
}

/// Is node `x` a parameter with a type?
pub open spec fn is_typed_parameter(t: Seq<SyntaxNode>, src: Seq<u8>, x: int) -> bool {
    t[x].kind == NodeKind::ParameterDeclaration && rendered(t, src, x) is Some
}

proof fn parameters_in(t: Seq<SyntaxNode>, src: Seq<u8>, s: Seq<int>, k: int)
    requires
        0 <= k <= s.len(),
    ensures
        parameter_types(t, src, s, k) == s.take(k).filter(
            |x: int| is_typed_parameter(t, src, x),
        ).map_values(|x: int| rendered(t, src, x)->0),
    decreases k,
{
    reveal(Seq::filter);
    let pick = |x: int| is_typed_parameter(t, src, x);
    let ty = |x: int| rendered(t, src, x)->0;
    if k > 0 {
        parameters_in(t, src, s, k - 1);
        assert(s.take(k).drop_last() =~= s.take(k - 1));
        assert(s.take(k).last() == s[k - 1]);
        let before = s.take(k - 1).filter(pick);
        if is_typed_parameter(t, src, s[k - 1]) {
            assert(before.push(s[k - 1]).map_values(ty) =~= before.map_values(ty).push(
                rendered(t, src, s[k - 1])->0,
            ));
        }
    } else {
        assert(s.take(0) =~= Seq::empty());
        assert(s.take(0).filter(pick).map_values(ty) =~= Seq::empty());
    }
}

/// The types of the parameters are those of all parameters, in order.
pub proof fn parameters_are_all_there(t: Seq<SyntaxNode>, src: Seq<u8>, s: Seq<int>)
    ensures
        parameter_types(t, src, s, s.len() as int) == s.filter(
            |x: int| is_typed_parameter(t, src, x),
        ).map_values(|x: int| rendered(t, src, x)->0),
{
    parameters_in(t, src, s, s.len() as int);
    assert(s.take(s.len() as int) =~= s);
}

proof fn trailing_is_first(t: Seq<SyntaxNode>, src: Seq<u8>, s: Seq<int>, k: int)
    requires
        0 <= k <= s.len(),
    ensures
        match trailing_in(t, src, s, k) {
            Some(r) => exists|m: int|
                k <= m < s.len() && t[#[trigger] s[m]].kind == NodeKind::TrailingReturnType && r
                    == without_arrow(node_text(src, t[s[m]])) && forall|j: int|
                    k <= j < m ==> t[#[trigger] s[j]].kind != NodeKind::TrailingReturnType,
            None => forall|j: int|
                k <= j < s.len() ==> t[#[trigger] s[j]].kind != NodeKind::TrailingReturnType,
        },
    decreases s.len() - k,
{
    if k < s.len() {
        if t[s[k]].kind == NodeKind::TrailingReturnType {
            assert(t[s[k]].kind == NodeKind::TrailingReturnType);
        } else {
            trailing_is_first(t, src, s, k + 1);
            if let Some(r) = trailing_in(t, src, s, k + 1) {
                let m = choose|m: int|
                    k + 1 <= m < s.len() && t[#[trigger] s[m]].kind
                        == NodeKind::TrailingReturnType && r == without_arrow(
                        node_text(src, t[s[m]]),
                    ) && forall|j: int|
                        k + 1 <= j < m ==> t[#[trigger] s[j]].kind != NodeKind::TrailingReturnType;
                assert(t[s[m]].kind == NodeKind::TrailingReturnType);
            }
        }
    }
}

/// A text without the arrows in front, trimmed.
pub open spec fn without_arrow(text: Seq<char>) -> Seq<char> {
    trimmed(text.skip(after_arrows(text, 0)))
}

/// An arrow in front is taken off.
pub proof fn arrows_are_taken_off(rest: Seq<char>)
    requires
        rest.len() == 0 || rest[0] != '-',
    ensures
        without_arrow(seq!['-', '>'] + rest) == trimmed(rest),
        without_arrow(rest) == trimmed(rest),
{
    let text = seq!['-', '>'] + rest;
    assert(after_arrows(text, 2) == 2) by {
        if text.len() > 2 {
            assert(text[2] == rest[0]);
        }
    }
    assert(after_arrows(text, 0) == 2);
    assert(text.skip(2) =~= rest);
    assert(after_arrows(rest, 0) == 0);
    assert(rest.skip(0) =~= rest);
}

/// Do the nodes `w` lead from `d`, through wrappers and initializers, to the function
/// declarator `f`?
pub open spec fn leads_to_declarator(t: Seq<SyntaxNode>, d: int, w: Seq<int>, f: int) -> bool {
    &&& leads_inward(t, d, w)
    &&& forall|m: int|
        0 <= m < w.len() - 1 ==> wrapper_kind(t[#[trigger] w[m]].kind) || t[w[m]].kind
            == NodeKind::InitDeclarator
    &&& w.last() == f
    &&& t[f].kind == NodeKind::FunctionDeclarator
}

proof fn declarator_is_reached(t: Seq<SyntaxNode>, d: int) -> (w: Seq<int>)
    requires
        0 <= d < t.len(),
        function_declarator(t, d) is Some,
    ensures
        leads_to_declarator(t, d, w, function_declarator(t, d)->0),
    decreases t.len() - d,
{
    if t[d].kind == NodeKind::FunctionDeclarator {
        seq![d]
    } else {
        inner_declarator_bounds(t, d);
        let e = inner_declarator(t, d)->0;
        let rest = declarator_is_reached(t, e);
        let w = seq![d] + rest;
        assert forall|m: int| 0 <= m < w.len() implies 0 <= #[trigger] w[m] < t.len() by {
            if m > 0 {
                assert(w[m] == rest[m - 1]);
            }
        }
        assert forall|m: int| 0 <= m < w.len() - 1 implies inner_declarator(t, #[trigger] w[m])
            == Some(w[m + 1]) && (wrapper_kind(t[w[m]].kind) || t[w[m]].kind
            == NodeKind::InitDeclarator) by {
            assert(w[m + 1] == rest[m]);
            if m > 0 {
                assert(w[m] == rest[m - 1]);
            }
        }
        assert(w.last() == rest.last());
        w
    }
}

proof fn reached_declarator_is_found(t: Seq<SyntaxNode>, d: int, w: Seq<int>, f: int)
    requires
        leads_to_declarator(t, d, w, f),
    ensures
        function_declarator(t, d) == Some(f),
    decreases w.len(),
{
    if w.len() > 1 {
        let rest = w.skip(1);
        assert(wrapper_kind(t[w[0]].kind) || t[w[0]].kind == NodeKind::InitDeclarator);
        assert(inner_declarator(t, w[0]) == Some(w[1]));
        assert forall|m: int| 0 <= m < rest.len() implies 0 <= #[trigger] rest[m] < t.len() by {
            assert(rest[m] == w[m + 1]);
        }
        assert forall|m: int| 0 <= m < rest.len() - 1 implies inner_declarator(
            t,
            #[trigger] rest[m],
        ) == Some(rest[m + 1]) && (wrapper_kind(t[rest[m]].kind) || t[rest[m]].kind
            == NodeKind::InitDeclarator) by {
            assert(rest[m] == w[m + 1] && rest[m + 1] == w[m + 2]);
        }
        assert(rest.last() == w.last());
        reached_declarator_is_found(t, w[1], rest, f);
    }
}

/// The type of a function is what it returns, by a trailing return type if it has one,
/// and the types of its parameters; the type of anything else is as it is written.
pub proof fn spellings_follow_the_declarator(
    t: Seq<SyntaxNode>,
    src: Seq<u8>,
    i: int,
    d: int,
    w: Seq<int>,
    f: int,
)
    requires
        field_child(t, i, Field::Declarator) == Some(d),
        0 <= d < t.len(),
    ensures
        leads_to_declarator(t, d, w, f) ==> (match field_child(t, f, Field::Parameters) {
            Some(params) => {
                let kids = children(t, params);
                let types = parameter_types(t, src, kids, kids.len() as int);
                let returned = match trailing_in(t, src, children(t, f), 0) {
                    Some(r) => r,
                    None => match rendered(t, src, i) {
                        Some(r) => r,
                        None => Seq::empty(),
                    },
                };
                spelling(t, src, i) == Some(
                    trimmed(returned) + seq!['('] + joined(types, ", "@) + seq![')'],
                )
            },
            None => spelling(t, src, i) is None,
        }),
        (forall|v: Seq<int>, g: int| !#[trigger] leads_to_declarator(t, d, v, g)) ==> spelling(
            t,
            src,
            i,
        ) == rendered(t, src, i),
{
    if leads_to_declarator(t, d, w, f) {
        reached_declarator_is_found(t, d, w, f);
        if let Some(params) = field_child(t, f, Field::Parameters) {
            let kids = children(t, params);
            let types = parameter_types(t, src, kids, kids.len() as int);
            let returned = match trailing_in(t, src, children(t, f), 0) {
                Some(r) => r,
                None => match rendered(t, src, i) {
                    Some(r) => r,
                    None => Seq::empty(),
                },
            };
            assert(trimmed(returned).push('(') + joined(types, ", "@) + seq![')'] =~= trimmed(
                returned,
            ) + seq!['('] + joined(types, ", "@) + seq![')']);
        }
    }
    if function_declarator(t, d) is Some {
        let v = declarator_is_reached(t, d);
        assert(leads_to_declarator(t, d, v, function_declarator(t, d)->0));
    }
}

/// The trailing return type is the first there is, without its arrow.
pub proof fn trailing_types_are_the_first(t: Seq<SyntaxNode>, src: Seq<u8>, s: Seq<int>)
    ensures
        match trailing_in(t, src, s, 0) {
            Some(r) => exists|m: int|
                0 <= m < s.len() && t[#[trigger] s[m]].kind == NodeKind::TrailingReturnType && r
                    == without_arrow(node_text(src, t[s[m]])) && forall|j: int|
                    0 <= j < m ==> t[#[trigger] s[j]].kind != NodeKind::TrailingReturnType,
            None => forall|j: int|
                0 <= j < s.len() ==> t[#[trigger] s[j]].kind != NodeKind::TrailingReturnType,
        },
{
    trailing_is_first(t, src, s, 0);
}

} // verus!
