//! What definitions and declarations are found, and which references are kept.

use crate::ascii::NEWLINE;
use crate::engine::macros::{defines, has_macros, neutral};
use crate::engine::outline::{
    class_of, doc_above, field_child, leading_comments, name_matches, name_node, qualified_in,
    report_node, scopes, spelling, Mode,
};
use crate::engine::syntactic::{
    class_macro, class_macros, compatible, distinct_files, distinct_files_come_from_candidates,
    distinct_files_cover, excluded, fault_count, is_in, keeps_line, mentions, occurrence,
    outermost_qualified, reading, reference_name, resolution_at, resolutions_in, same_extent,
    verdicts, without_repeats, without_repeats_keeps_order, Macros,
};
use crate::engine::syntax::{
    ends_in_parent, ends_nest, node_text, parent, parsed, subtree_end, tree_fits, Field, NodeKind,
    SyntaxNode,
};
use crate::laws::declarations::{
    docs_start_at_the_first_comment, is_declaration, is_definition, nodes_are_recognized,
};
use crate::laws::nodes::{
    is_at_or_above, is_under, parents_are_nearest, subtrees_hold_what_is_under,
    under_is_transitive,
};
use crate::model::{Kind, Resolution, ResolutionView, Status};
use crate::order::{in_order, in_order_sorts};
use crate::paths::{has_path, same_path};
use crate::search::CandidateView;
use crate::sources::{contents, same_path_same_contents, SourceFileView};
use crate::text::{has_infix, has_suffix, joined, last_component, next_of, trimmed};
use vstd::prelude::*;

verus! {

// ---------------------------------------------------------------------------
// One node
// ---------------------------------------------------------------------------

/// Is node `i` of the sort that is asked for?
pub open spec fn is_sought(t: Seq<SyntaxNode>, i: int, mode: Mode, kind: Kind) -> bool {
    match mode {
        Mode::Definition => is_definition(t, i, kind),
        Mode::Declaration => is_declaration(t, i, kind),
    }
}

/// The name that node `n` writes, without what qualifies it.
pub open spec fn bare_name(t: Seq<SyntaxNode>, src: Seq<u8>, n: int) -> Seq<char> {
    if t[n].kind == NodeKind::QualifiedIdentifier {
        last_component(node_text(src, t[n]))
    } else {
        node_text(src, t[n])
    }
}

/// The qualified name of node `i`, called by node `n`: what it is in, and the name as it
/// is written.
pub open spec fn full_name(t: Seq<SyntaxNode>, src: Seq<u8>, i: int, n: int) -> Option<Seq<char>> {
    qualified_in(
        scopes(t, src, i),
        bare_name(t, src, n),
        if t[n].kind == NodeKind::QualifiedIdentifier {
            Some(node_text(src, t[n]))
        } else {
            None
        },
    )
}

/// Does node `i` carry a name that answers to the target?
pub open spec fn answers(t: Seq<SyntaxNode>, src: Seq<u8>, i: int, target: Seq<char>) -> bool {
    name_node(t, i) matches Some(n) && node_text(src, t[n]).len() > 0 && name_matches(
        target,
        bare_name(t, src, n),
        full_name(t, src, i, n),
    )
}

/// Where the text of node `i` starts: at the first of the comments that lead what is
/// reported of it or, without any, at that itself.
pub open spec fn text_start(t: Seq<SyntaxNode>, i: int) -> int {
    let r = report_node(t, i);
    let cs = leading_comments(t, r);
    if cs.len() > 0 {
        t[cs[0]].start_byte as int
    } else {
        t[r].start_byte as int
    }
}

/// Where the text of node `i` ends.
pub open spec fn text_end(t: Seq<SyntaxNode>, i: int) -> int {
    t[report_node(t, i)].end_byte as int
}

/// A node gives a resolution if and only if it is of the sort that is asked for and
/// carries a name that answers to the target.
pub proof fn nodes_that_answer_are_resolved(
    t: Seq<SyntaxNode>,
    src: Seq<u8>,
    i: int,
    target: Seq<char>,
    mode: Mode,
    path: Seq<char>,
)
    requires
        0 <= i < t.len(),
    ensures
        resolution_at(t, src, i, target, mode, path) is Some <==> answers(t, src, i, target) && (
        exists|kind: Kind| #[trigger] is_sought(t, i, mode, kind)),
{
    if let Some(kind) = class_of(t, i, mode) {
        nodes_are_recognized(t, i, kind);
        assert(is_sought(t, i, mode, kind));
    }
    if exists|kind: Kind| #[trigger] is_sought(t, i, mode, kind) {
        let kind = choose|kind: Kind| #[trigger] is_sought(t, i, mode, kind);
        nodes_are_recognized(t, i, kind);
    }
}

/// A resolution says what its node is and is called, and carries the node's text from
/// the first comment that leads it to its end, byte for byte; of a declaration also the
/// signature and the type.
pub proof fn resolutions_describe_their_node(
    t: Seq<SyntaxNode>,
    src: Seq<u8>,
    i: int,
    target: Seq<char>,
    mode: Mode,
    path: Seq<char>,
)
    requires
        0 <= i < t.len(),
        tree_fits(t, src.len()),
        resolution_at(t, src, i, target, mode, path) is Some,
    ensures
        ({
            let r = resolution_at(t, src, i, target, mode, path)->0;
            let report = report_node(t, i);
            let n = name_node(t, i)->0;
            let from = text_start(t, i);
            let to = text_end(t, i);
            let cs = leading_comments(t, report);
            let span = r.source_ref.span;
            &&& r.source_ref.file_path == path
            &&& span.start_byte == from && span.end_byte == to
            &&& r.content_bytes == src.subrange(from, to)
            &&& span.end_line == t[report].end_row + 1 && span.end_col == t[report].end_col
            &&& cs.len() == 0 ==> span.start_line == t[report].start_row + 1 && span.start_col
                == t[report].start_col && r.symbol.doc is None
            &&& cs.len() > 0 ==> span.start_col == t[cs[0]].start_col && r.symbol.doc == Some(
                doc_above(t, src, report)->0.text,
            ) && (t[cs[0]].start_row < usize::MAX ==> span.start_line == t[cs[0]].start_row + 1)
            &&& r.symbol.name == bare_name(t, src, n)
            &&& r.symbol.qualified_name == full_name(t, src, i, n)
            &&& t[report].kind == NodeKind::TemplateDeclaration ==> r.symbol.kind == Kind::Template
            &&& t[report].kind != NodeKind::TemplateDeclaration ==> is_sought(
                t,
                i,
                mode,
                r.symbol.kind,
            )
            &&& mode == Mode::Declaration ==> r.symbol.signature == Some(
                trimmed(node_text(src, t[i])),
            ) && r.symbol.type_spelling == spelling(t, src, i)
            &&& mode == Mode::Definition ==> r.symbol.signature is None && r.symbol.type_spelling is None
            &&& r.status == Status::Resolved && r.engine == "tree-sitter"@ && r.confidence == 80
        }),
{
    let kind = class_of(t, i, mode)->0;
    nodes_are_recognized(t, i, kind);
    parents_are_nearest(t, i);
    docs_start_at_the_first_comment(t, src, report_node(t, i));
}

// ---------------------------------------------------------------------------
// All files
// ---------------------------------------------------------------------------

proof fn repeats_are_represented(s: Seq<ResolutionView>, j: int) -> (m: int)
    requires
        0 <= j < s.len(),
    ensures
        0 <= m < without_repeats(s).len(),
        same_extent(s[j], without_repeats(s)[m]),
    decreases s.len(),
{
    let kept = without_repeats(s.drop_last());
    let all = without_repeats(s);
    if j < s.len() - 1 {
        assert(s.drop_last()[j] == s[j]);
        let m = repeats_are_represented(s.drop_last(), j);
        assert(all[m] == kept[m]);
        m
    } else {
        all.len() - 1
    }
}

proof fn node_is_among(
    t: Seq<SyntaxNode>,
    src: Seq<u8>,
    target: Seq<char>,
    mode: Mode,
    path: Seq<char>,
    i: int,
    k: int,
) -> (m: int)
    requires
        0 <= i < k,
        resolution_at(t, src, i, target, mode, path) is Some,
    ensures
        0 <= m < resolutions_in(t, src, target, mode, path, k).len(),
        resolutions_in(t, src, target, mode, path, k)[m] == resolution_at(
            t,
            src,
            i,
            target,
            mode,
            path,
        )->0,
    decreases k,
{
    let before = resolutions_in(t, src, target, mode, path, k - 1);
    if i == k - 1 {
        before.len() as int
    } else {
        node_is_among(t, src, target, mode, path, i, k - 1)
    }
}

proof fn file_is_among(
    e: Macros,
    paths: Seq<Seq<char>>,
    target: Seq<char>,
    mode: Mode,
    files: Seq<SourceFileView>,
    j: int,
    k: int,
    x: int,
) -> (m: int)
    requires
        0 <= j < k,
        0 <= x < e.file_resolutions(paths[j], target, mode, files).len(),
    ensures
        0 <= m < e.all_resolutions(paths, target, mode, files, k).len(),
        e.all_resolutions(paths, target, mode, files, k)[m] == e.file_resolutions(
            paths[j],
            target,
            mode,
            files,
        )[x],
    decreases k,
{
    let before = e.all_resolutions(paths, target, mode, files, k - 1);
    if j == k - 1 {
        before.len() + x
    } else {
        file_is_among(e, paths, target, mode, files, j, k - 1, x)
    }
}

/// Every node that answers to the target, of the sort that is asked for, in a file with
/// a candidate is among what is found: one resolution covers its text, from the first
/// comment that leads it to its end.
pub proof fn every_node_that_answers_is_found(
    e: Macros,
    target: Seq<char>,
    candidates: Seq<CandidateView>,
    mode: Mode,
    files: Seq<SourceFileView>,
    path: Seq<char>,
    i: int,
    kind: Kind,
)
    requires
        is_in(candidates, path),
        contents(files, path) is Some,
        e.reads(contents(files, path)->0) is Some,
        ({
            let src = contents(files, path)->0;
            let t = e.reads(src)->0.tree;
            0 <= i < t.len() && is_sought(t, i, mode, kind) && answers(t, src, i, target)
        }),
    ensures
        ({
            let t = e.reads(contents(files, path)->0)->0.tree;
            let found = e.resolved(target, candidates, mode, files);
            exists|m: int|
                0 <= m < found.len() && same_path((#[trigger] found[m]).source_ref.file_path, path)
                    && found[m].source_ref.span.start_byte == text_start(t, i)
                    && found[m].source_ref.span.end_byte == text_end(t, i)
        }),
{
    let n = candidates.len() as int;
    let src = contents(files, path)->0;
    let t = e.reads(src)->0.tree;
    let paths = distinct_files(candidates, n);
    let c = choose|c: int|
        0 <= c < candidates.len() && same_path((#[trigger] candidates[c]).file_path, path);
    distinct_files_cover(candidates, n);
    assert(has_path(paths, candidates[c].file_path));
    let j = choose|j: int|
        0 <= j < paths.len() && same_path(#[trigger] paths[j], candidates[c].file_path);
    same_path_same_contents(files, paths[j], path);
    nodes_that_answer_are_resolved(t, src, i, target, mode, paths[j]);
    crate::engine::syntactic::reading_fits(src, e.global, e.annotation);
    let r = resolution_at(t, src, i, target, mode, paths[j])->0;
    resolutions_describe_their_node(t, src, i, target, mode, paths[j]);
    let x = node_is_among(t, src, target, mode, paths[j], i, t.len() as int);
    let y = file_is_among(e, paths, target, mode, files, j, paths.len() as int, x);
    let all = e.all_resolutions(paths, target, mode, files, paths.len() as int);
    let sorted = in_order::<Resolution>(all);
    in_order_sorts::<Resolution>(all);
    assert(all.contains(all[y]));
    vstd::seq_lib::to_multiset_contains(all, r);
    vstd::seq_lib::to_multiset_contains(sorted, r);
    let z = choose|z: int| 0 <= z < sorted.len() && sorted[z] == r;
    let m = repeats_are_represented(sorted, z);
    let found = e.resolved(target, candidates, mode, files);
    assert(same_path(found[m].source_ref.file_path, path));
}

proof fn found_in_file(
    t: Seq<SyntaxNode>,
    src: Seq<u8>,
    target: Seq<char>,
    mode: Mode,
    path: Seq<char>,
    k: int,
    m: int,
) -> (i: int)
    requires
        0 <= k <= t.len(),
        0 <= m < resolutions_in(t, src, target, mode, path, k).len(),
    ensures
        0 <= i < k,
        resolution_at(t, src, i, target, mode, path) == Some(
            resolutions_in(t, src, target, mode, path, k)[m],
        ),
    decreases k,
{
    let before = resolutions_in(t, src, target, mode, path, k - 1);
    if m < before.len() {
        found_in_file(t, src, target, mode, path, k - 1, m)
    } else {
        k - 1
    }
}

proof fn found_in_files(
    e: Macros,
    paths: Seq<Seq<char>>,
    target: Seq<char>,
    mode: Mode,
    files: Seq<SourceFileView>,
    k: int,
    m: int,
) -> (r: (int, int))
    requires
        0 <= k <= paths.len(),
        0 <= m < e.all_resolutions(paths, target, mode, files, k).len(),
    ensures
        0 <= r.0 < k,
        contents(files, paths[r.0]) is Some,
        e.reads(contents(files, paths[r.0])->0) is Some,
        0 <= r.1 < e.reads(contents(files, paths[r.0])->0)->0.tree.len(),
        resolution_at(
            e.reads(contents(files, paths[r.0])->0)->0.tree,
            contents(files, paths[r.0])->0,
            r.1,
            target,
            mode,
            paths[r.0],
        ) == Some(e.all_resolutions(paths, target, mode, files, k)[m]),
    decreases k,
{
    let before = e.all_resolutions(paths, target, mode, files, k - 1);
    let more = e.file_resolutions(paths[k - 1], target, mode, files);
    if m < before.len() {
        found_in_files(e, paths, target, mode, files, k - 1, m)
    } else {
        assert(e.all_resolutions(paths, target, mode, files, k)[m] == more[m - before.len()]);
        let src = contents(files, paths[k - 1])->0;
        let t = e.reads(src)->0.tree;
        let i = found_in_file(
            t,
            src,
            target,
            mode,
            paths[k - 1],
            t.len() as int,
            m - before.len(),
        );
        (k - 1, i)
    }
}

/// Is `r` what a node that answers to the target gives, in the file at `path`?
pub open spec fn is_found_at(
    e: Macros,
    r: ResolutionView,
    target: Seq<char>,
    mode: Mode,
    files: Seq<SourceFileView>,
    path: Seq<char>,
    i: int,
) -> bool {
    contents(files, path) matches Some(src) && (e.reads(src) matches Some(reading) && {
        let t = reading.tree;
        &&& 0 <= i < t.len()
        &&& answers(t, src, i, target)
        &&& exists|kind: Kind| #[trigger] is_sought(t, i, mode, kind)
        &&& r.source_ref.span.start_byte == text_start(t, i)
        &&& r.source_ref.span.end_byte == text_end(t, i)
        &&& r.content_bytes == src.subrange(text_start(t, i), text_end(t, i))
    })
}

/// Nothing else is found: every resolution is that of a node that answers to the target,
/// of the sort that is asked for, in a file with a candidate.
pub proof fn only_nodes_that_answer_are_found(
    e: Macros,
    target: Seq<char>,
    candidates: Seq<CandidateView>,
    mode: Mode,
    files: Seq<SourceFileView>,
    m: int,
)
    requires
        0 <= m < e.resolved(target, candidates, mode, files).len(),
    ensures
        ({
            let r = e.resolved(target, candidates, mode, files)[m];
            &&& mentions(candidates, r.source_ref.file_path)
            &&& exists|i: int| #[trigger]
                is_found_at(e, r, target, mode, files, r.source_ref.file_path, i)
        }),
{
    let n = candidates.len() as int;
    let paths = distinct_files(candidates, n);
    let all = e.all_resolutions(paths, target, mode, files, paths.len() as int);
    let sorted = in_order::<Resolution>(all);
    let r = e.resolved(target, candidates, mode, files)[m];
    in_order_sorts::<Resolution>(all);
    without_repeats_keeps_order(sorted);
    assert(sorted.contains(r));
    vstd::seq_lib::to_multiset_contains(sorted, r);
    vstd::seq_lib::to_multiset_contains(all, r);
    let y = choose|y: int| 0 <= y < all.len() && all[y] == r;
    let (j, i) = found_in_files(e, paths, target, mode, files, paths.len() as int, y);
    distinct_files_come_from_candidates(candidates, n);
    assert(mentions(candidates, paths[j]));
    let src = contents(files, paths[j])->0;
    let t = e.reads(src)->0.tree;
    crate::engine::syntactic::reading_fits(src, e.global, e.annotation);
    resolutions_describe_their_node(t, src, i, target, mode, paths[j]);
    nodes_that_answer_are_resolved(t, src, i, target, mode, paths[j]);
    assert(is_found_at(e, r, target, mode, files, r.source_ref.file_path, i));
}

// ---------------------------------------------------------------------------
// Reading a file
// ---------------------------------------------------------------------------

/// The number of errors and missing tokens in a tree.
pub open spec fn faults(t: Seq<SyntaxNode>) -> nat {
    t.filter(|n: SyntaxNode| n.faulty).len()
}

proof fn faults_are_counted(t: Seq<SyntaxNode>, k: int)
    requires
        0 <= k <= t.len(),
    ensures
        fault_count(t, k) == faults(t.take(k)),
    decreases k,
{
    reveal(Seq::filter);
    if k > 0 {
        faults_are_counted(t, k - 1);
        assert(t.take(k).drop_last() =~= t.take(k - 1));
        assert(t.take(k).last() == t[k - 1]);
    }
}

/// The macros that make the parser misread a class are those that stand before a class
/// name, in what looks like a function with a body whose type is a class without one.
pub proof fn class_macros_are_all_found(t: Seq<SyntaxNode>, src: Seq<u8>, k: int, x: Seq<char>)
    requires
        0 <= k <= t.len(),
    ensures
        class_macros(t, src, k).contains(x) <==> exists|i: int|
            0 <= i < k && (#[trigger] class_macro(t, i) matches Some(n) && x == node_text(src, t[n])),
    decreases k,
{
    if k > 0 {
        class_macros_are_all_found(t, src, k - 1, x);
        if let Some(n) = class_macro(t, k - 1) {
            if x == node_text(src, t[n]) {
                assert(class_macro(t, k - 1) is Some);
            }
        }
    }
}

/// A class is misread where a function with a body is called by a plain name and its type
/// is a class, struct or union without a body; the macro is the name of that type.
pub proof fn misread_classes_are_recognized(t: Seq<SyntaxNode>, i: int, n: int)
    ensures
        class_macro(t, i) == Some(n) <==> {
            let ty = field_child(t, i, Field::Type);
            let d = field_child(t, i, Field::Declarator);
            let b = field_child(t, i, Field::Body);
            &&& t[i].kind == NodeKind::FunctionDefinition
            &&& ty is Some && d is Some && b is Some
            &&& t[ty->0].kind == NodeKind::ClassSpecifier || t[ty->0].kind
                == NodeKind::StructSpecifier || t[ty->0].kind == NodeKind::UnionSpecifier
            &&& field_child(t, ty->0, Field::Body) is None
            &&& t[d->0].kind == NodeKind::Identifier
            &&& t[b->0].kind == NodeKind::CompoundStatement
            &&& field_child(t, ty->0, Field::Name) == Some(n)
        },
{
}

/// A file is read as it is, unless its tree has errors or misreads a class and there are
/// macros to blank. Then a copy with the macros blanked is read, and taken if its tree
/// has fewer faults or, where a class was misread, no more.
pub proof fn readings_have_the_fewest_faults(
    src: Seq<u8>,
    global: Set<Seq<char>>,
    annotation: Set<Seq<char>>,
)
    ensures
        reading(src, global, annotation) is Some <==> parsed(src) is Some,
        reading(src, global, annotation) matches Some(r) ==> {
            let t = parsed(src)->0;
            let found = class_macros(t, src, t.len() as int);
            let misread = found != Set::<Seq<char>>::empty();
            let g = global.union(found);
            let a = annotation.union(defines(src));
            let copy = neutral(src, g, a);
            let tried = (t[0].has_error || misread) && has_macros(src, g, a) && parsed(copy) is Some;
            let better = faults(parsed(copy)->0) < faults(t) || (faults(parsed(copy)->0)
                == faults(t) && misread);
            if tried && better {
                r.buffer == copy && r.tree == parsed(copy)->0
            } else {
                r.buffer == src && r.tree == t
            }
        },
{
    if let Some(r) = reading(src, global, annotation) {
        let t = parsed(src)->0;
        let found = class_macros(t, src, t.len() as int);
        let copy = neutral(src, global.union(found), annotation.union(defines(src)));
        faults_are_counted(t, t.len() as int);
        assert(t.take(t.len() as int) =~= t);
        if let Some(c) = parsed(copy) {
            faults_are_counted(c, c.len() as int);
            assert(c.take(c.len() as int) =~= c);
        }
    }
}

/// Blanking never adds faults: the tree that is read has no more than that of the file
/// as it stands.
pub proof fn readings_do_not_add_faults(
    src: Seq<u8>,
    global: Set<Seq<char>>,
    annotation: Set<Seq<char>>,
)
    ensures
        reading(src, global, annotation) matches Some(r) ==> faults(r.tree) <= faults(
            parsed(src)->0,
        ),
{
    readings_have_the_fewest_faults(src, global, annotation);
}

/// The text of a node is what its bytes decode to: encoded again it is those bytes,
/// where they are text at all.
pub proof fn node_texts_are_their_bytes(src: Seq<u8>, n: SyntaxNode)
    requires
        n.start_byte <= n.end_byte <= src.len(),
        vstd::utf8::valid_utf8(src.subrange(n.start_byte as int, n.end_byte as int)),
    ensures
        vstd::utf8::encode_utf8(node_text(src, n)) == src.subrange(
            n.start_byte as int,
            n.end_byte as int,
        ),
{
    vstd::utf8::decode_utf8_encode_utf8(src.subrange(n.start_byte as int, n.end_byte as int));
}

/// A qualified name is the scopes, from the outside in, and the name as it is written,
/// with `::` between; a name in no scope is qualified only as it is written.
pub proof fn names_are_qualified_by_their_scopes(
    scopes: Seq<Seq<char>>,
    bare: Seq<char>,
    explicit: Option<Seq<char>>,
)
    ensures
        scopes.len() == 0 ==> qualified_in(scopes, bare, explicit) == explicit,
        scopes.len() > 0 && explicit is None ==> qualified_in(scopes, bare, explicit) == Some(
            joined(scopes.push(bare), "::"@),
        ),
        scopes.len() > 0 && explicit is Some ==> qualified_in(scopes, bare, explicit) == Some(
            joined(scopes.push(explicit->0), "::"@),
        ),
{
    assert(scopes.push(bare).drop_last() =~= scopes);
    if let Some(e) = explicit {
        assert(scopes.push(e).drop_last() =~= scopes);
    }
}

// ---------------------------------------------------------------------------
// References
// ---------------------------------------------------------------------------

/// Is node `i` a use of the name `bare` that starts in `from..to`: an identifier, plain
/// or of a field, that is not a mere scope in front of another name?
pub open spec fn is_use(
    t: Seq<SyntaxNode>,
    src: Seq<u8>,
    i: int,
    from: int,
    to: int,
    bare: Seq<char>,
) -> bool {
    &&& 0 <= i < t.len()
    &&& t[i].kind == NodeKind::Identifier || t[i].kind == NodeKind::FieldIdentifier
    &&& from <= t[i].start_byte < to
    &&& node_text(src, t[i]) == bare
    &&& parent(t, i) matches Some(p) ==> t[p].kind == NodeKind::QualifiedIdentifier ==> field_child(
        t,
        p,
        Field::Name,
    ) == Some(i)
}

/// Is the use at node `i` known to be of something else than the target?
pub open spec fn is_elsewhere(t: Seq<SyntaxNode>, src: Seq<u8>, i: int, target: Seq<char>) -> bool {
    reference_name(t, src, i, last_component(target)) matches Some(q) && !compatible(target, q)
}

proof fn ends_nest_under(t: Seq<SyntaxNode>, len: nat, a: int, i: int)
    requires
        tree_fits(t, len),
        is_under(t, a, i),
    ensures
        t[i].end_byte <= t[a].end_byte,
    decreases i,
{
    parents_are_nearest(t, i);
    let p = parent(t, i)->0;
    reveal(ends_nest);
    assert(ends_in_parent(t, i));
    assert(is_at_or_above(t, a, p));
    if a != p {
        ends_nest_under(t, len, a, p);
    }
}

proof fn verdicts_count(
    t: Seq<SyntaxNode>,
    src: Seq<u8>,
    from: int,
    to: int,
    target: Seq<char>,
    i: int,
)
    requires
        tree_fits(t, src.len()),
        last_component(target).len() > 0,
        0 <= i,
    ensures
        ({
            let bare = last_component(target);
            let v = verdicts(t, src, from, to, bare, target, i);
            &&& 0 <= v.1 <= v.0
            &&& v.0 > 0 <==> exists|j: int| i <= j && #[trigger] is_use(t, src, j, from, to, bare)
            &&& v.1 < v.0 <==> exists|j: int|
                i <= j && #[trigger] is_use(t, src, j, from, to, bare) && !is_elsewhere(
                    t,
                    src,
                    j,
                    target,
                )
        }),
    decreases t.len() - i,
{
    let bare = last_component(target);
    if i < t.len() {
        if t[i].end_byte <= from || t[i].start_byte >= to {
            let next = subtree_end(t, i);
            subtrees_hold_what_is_under(t, i, i);
            verdicts_count(t, src, from, to, target, next);
            assert forall|j: int| i <= j < next implies !#[trigger] is_use(
                t,
                src,
                j,
                from,
                to,
                bare,
            ) by {
                subtrees_hold_what_is_under(t, i, j);
                if j > i {
                    ends_nest_under(t, src.len(), i, j);
                    assert(t[i].start_byte <= t[j].start_byte);
                }
                if is_use(t, src, j, from, to, bare) {
                    empty_nodes_have_no_text(src, t[j]);
                }
            }
        } else {
            verdicts_count(t, src, from, to, target, i + 1);
            assert(occurrence(t, src, i, from, to, bare) == is_use(t, src, i, from, to, bare));
            assert(excluded(t, src, i, bare, target) == is_elsewhere(t, src, i, target));
        }
    }
}

proof fn empty_nodes_have_no_text(src: Seq<u8>, n: SyntaxNode)
    requires
        n.start_byte <= src.len(),
    ensures
        n.start_byte == n.end_byte ==> node_text(src, n).len() == 0,
{
    if n.start_byte == n.end_byte {
        assert(src.subrange(n.start_byte as int, n.end_byte as int) =~= Seq::empty());
    }
}

/// A line with hits is dropped only if the name is used on it and every use of it there
/// is known to be of something else than the target. Whatever cannot be placed is kept.
pub proof fn lines_are_dropped_only_if_all_uses_are_elsewhere(
    t: Seq<SyntaxNode>,
    src: Seq<u8>,
    line_start: int,
    target: Seq<char>,
)
    requires
        tree_fits(t, src.len()),
        last_component(target).len() > 0,
    ensures
        ({
            let to = next_of(src, NEWLINE, line_start);
            let bare = last_component(target);
            !keeps_line(t, src, line_start, target) <==> {
                &&& exists|j: int| #[trigger] is_use(t, src, j, line_start, to, bare)
                &&& forall|j: int| #[trigger]
                    is_use(t, src, j, line_start, to, bare) ==> is_elsewhere(t, src, j, target)
            }
        }),
{
    let to = next_of(src, NEWLINE, line_start);
    verdicts_count(t, src, line_start, to, target, 0);
}

/// The scope of a use is known where it is written out, and then it is all that is
/// written; and where the use declares a member of what it is in. A member access or a
/// plain use is of unknown scope.
pub proof fn only_explicit_uses_and_members_are_placed(
    t: Seq<SyntaxNode>,
    src: Seq<u8>,
    i: int,
    bare: Seq<char>,
)
    requires
        0 <= i < t.len(),
    ensures
        match parent(t, i) {
            Some(p) => if t[p].kind == NodeKind::QualifiedIdentifier {
                exists|q: int|
                    #![trigger t[q]]
                    is_outermost_qualified(t, p, q) && reference_name(t, src, i, bare) == Some(
                        node_text(src, t[q]),
                    )
            } else if t[p].kind != NodeKind::FieldExpression && t[i].kind
                == NodeKind::FieldIdentifier {
                reference_name(t, src, i, bare) == qualified_in(scopes(t, src, i), bare, None)
            } else {
                reference_name(t, src, i, bare) is None
            },
            None => reference_name(t, src, i, bare) is None,
        },
{
    parents_are_nearest(t, i);
    if let Some(p) = parent(t, i) {
        if t[p].kind == NodeKind::QualifiedIdentifier {
            outermost_is_outermost(t, p);
            let q = outermost_qualified(t, p);
            assert(node_text(src, t[q]) == node_text(src, t[q]));
        }
    }
}

/// Is `q` the outermost of the qualified identifiers nested around `p`: is everything
/// from it down to `p` one, and not what is directly around it?
pub open spec fn is_outermost_qualified(t: Seq<SyntaxNode>, p: int, q: int) -> bool {
    &&& is_at_or_above(t, q, p)
    &&& forall|x: int| #[trigger]
        is_at_or_above(t, x, p) && is_at_or_above(t, q, x) ==> t[x].kind
            == NodeKind::QualifiedIdentifier
    &&& parent(t, q) matches Some(g) ==> t[g].kind != NodeKind::QualifiedIdentifier
}

proof fn outermost_is_outermost(t: Seq<SyntaxNode>, p: int)
    requires
        0 <= p < t.len(),
        t[p].kind == NodeKind::QualifiedIdentifier,
    ensures
        is_outermost_qualified(t, p, outermost_qualified(t, p)),
    decreases p,
{
    parents_are_nearest(t, p);
    let q = outermost_qualified(t, p);
    match parent(t, p) {
        Some(g) if t[g].kind == NodeKind::QualifiedIdentifier => {
            outermost_is_outermost(t, g);
            under_is_transitive(t, q, g, p);
            assert forall|x: int| #[trigger] is_at_or_above(t, x, p) && is_at_or_above(t, q, x) implies t[x].kind
                == NodeKind::QualifiedIdentifier by {
                if x != p {
                    assert(is_under(t, x, p));
                    assert(is_at_or_above(t, x, g));
                }
            }
        },
        _ => {
            assert forall|x: int| #[trigger] is_at_or_above(t, x, p) && is_at_or_above(t, q, x) implies t[x].kind
                == NodeKind::QualifiedIdentifier by {
                assert(x == p);
            }
        },
    }
}

/// Names are compatible only if they are equal, or if one is the other with scopes in
/// front; and whenever that is so.
pub proof fn compatible_names_share_their_scopes(a: Seq<char>, b: Seq<char>)
    requires
        has_infix(a, "::"@),
        has_infix(b, "::"@),
        last_component(a) == last_component(b),
    ensures
        compatible(a, b) <==> a == b || has_suffix(a, "::"@ + b) || has_suffix(b, "::"@ + a),
{
}

/// A hit is kept unless its file can be read and parsed and its line is dropped.
pub proof fn hits_are_kept_unless_their_line_is_dropped(
    e: Macros,
    target: Seq<char>,
    c: CandidateView,
    files: Seq<SourceFileView>,
)
    ensures
        e.keeps(target, c, files) <==> !(contents(files, c.file_path) is Some && e.reads(
            contents(files, c.file_path)->0,
        ) is Some && !keeps_line(
            e.reads(contents(files, c.file_path)->0)->0.tree,
            contents(files, c.file_path)->0,
            c.byte_offset as int,
            target,
        )),
{
}

} // verus!
