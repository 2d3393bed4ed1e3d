//! What the semantic backend resolves.

use crate::engine::outline::Mode;
use crate::engine::semantic::{
    answers_to, byte_at, comment_line, comment_run, comment_start, entity_qualified_name,
    entity_resolution, has_start, kept_arguments, line_exists, line_text, model_kind, places_fit,
    scope_names, unit_entities, unit_resolutions, units_resolutions, EntityKind, SemanticEngine,
    SemanticEntityView, SemanticScopeView, SemanticUnitView,
};
use crate::engine::syntactic::distinct_files;
use crate::laws::answers::is_selection;
use crate::model::{Kind, Resolution, ResolutionView};
use crate::order::in_order_sorts;
use crate::paths::same_path;
use crate::search::CandidateView;
use crate::sources::{contents, SourceFileView};
use crate::text::{after_space, has_infix, has_prefix, has_suffix, joined, line_start, views};
use crate::laws::texts::{after_space_skips, all_space};
use vstd::prelude::*;
use vstd::utf8::{decode_utf8, valid_utf8};

verus! {

// ---------------------------------------------------------------------------
// Names
// ---------------------------------------------------------------------------

/// Is parent `j` a named namespace, class or struct inside the translation unit?
pub open spec fn is_named_scope(parents: Seq<SemanticScopeView>, j: int) -> bool {
    &&& 0 <= j < parents.len()
    &&& parents[j].name is Some
    &&& parents[j].kind == EntityKind::Namespace || parents[j].kind == EntityKind::ClassDecl
        || parents[j].kind == EntityKind::StructDecl || parents[j].kind == EntityKind::ClassTemplate
    &&& forall|m: int| 0 <= m <= j ==> (#[trigger] parents[m]).kind != EntityKind::TranslationUnit
}

/// Are `names` the names of the parents at the positions `at`, which are all the named
/// scopes, from the outside in?
pub open spec fn are_scope_names(
    parents: Seq<SemanticScopeView>,
    from: int,
    names: Seq<Seq<char>>,
    at: Seq<int>,
) -> bool {
    &&& at.len() == names.len()
    &&& forall|m: int|
        0 <= m < at.len() ==> from <= #[trigger] at[m] && is_named_scope(parents, at[m])
            && parents[at[m]].name == Some(names[m])
    &&& forall|m: int, n: int| 0 <= m < n < at.len() ==> #[trigger] at[m] > #[trigger] at[n]
    &&& forall|j: int| #[trigger] is_named_scope(parents, j) && j >= from ==> at.contains(j)
}

proof fn scope_names_at(parents: Seq<SemanticScopeView>, i: int) -> (at: Seq<int>)
    requires
        0 <= i <= parents.len(),
        forall|m: int| 0 <= m < i ==> (#[trigger] parents[m]).kind != EntityKind::TranslationUnit,
    ensures
        are_scope_names(parents, i, scope_names(parents, i), at),
    decreases parents.len() - i,
{
    if i < parents.len() && parents[i].kind != EntityKind::TranslationUnit {
        let outer = scope_names_at(parents, i + 1);
        let names = scope_names(parents, i);
        let rest = scope_names(parents, i + 1);
        if is_named_scope(parents, i) {
            let at = outer.push(i);
            assert(names =~= rest.push(parents[i].name->0));
            assert forall|m: int| 0 <= m < at.len() implies i <= #[trigger] at[m] && is_named_scope(
                parents,
                at[m],
            ) && parents[at[m]].name == Some(names[m]) by {
                if m < outer.len() {
                    assert(at[m] == outer[m]);
                }
            }
            assert forall|m: int, n: int| 0 <= m < n < at.len() implies #[trigger] at[m]
                > #[trigger] at[n] by {
                assert(at[m] == outer[m]);
                if n < outer.len() {
                    assert(at[n] == outer[n]);
                }
            }
            assert forall|j: int| #[trigger] is_named_scope(parents, j) && j >= i implies at.contains(
                j,
            ) by {
                if j == i {
                    assert(at[at.len() - 1] == i);
                } else {
                    assert(outer.contains(j));
                    let m = choose|m: int| 0 <= m < outer.len() && outer[m] == j;
                    assert(at[m] == j);
                }
            }
            at
        } else {
            assert(names =~= rest);
            assert forall|j: int| #[trigger] is_named_scope(parents, j) && j >= i implies outer.contains(
                j,
            ) by {
                assert(j != i);
            }
            outer
        }
    } else {
        assert forall|j: int| #[trigger] is_named_scope(parents, j) && j >= i implies false by {
            if i < parents.len() {
                assert(parents[i].kind != EntityKind::TranslationUnit);
            }
        }
        Seq::empty()
    }
}

/// The scopes in the qualified name of an entity are all its named parents up to the
/// translation unit, from the outside in.
pub proof fn entity_scopes_are_all_that_is_around(parents: Seq<SemanticScopeView>)
    ensures
        exists|at: Seq<int>| #[trigger]
            are_scope_names(parents, 0, scope_names(parents, 0), at),
{
    let at = scope_names_at(parents, 0);
}

/// An entity answers to a bare target by its name; to a qualified one by its qualified
/// name, whole or from some component on.
pub proof fn entities_answer_by_name(e: SemanticEntityView, target: Seq<char>)
    ensures
        !has_infix(target, "::"@) && e.name is Some ==> (answers_to(e, target) <==> e.name == Some(
            target,
        )),
        has_infix(target, "::"@) ==> (answers_to(e, target) <==> e.name is Some && {
            let q = joined(scope_names(e.parents, 0).push(e.name->0), "::"@);
            q == target || has_suffix(q, "::"@ + target)
        }),
{
    if !has_infix(target, "::"@) {
        crate::engine::outline::bare_targets_match_in_every_scope(target, target, None);
    }
}

/// An entity in a named scope has a qualified name, made of the scopes and its own name;
/// any other has none.
pub proof fn entities_are_qualified_by_their_scopes(e: SemanticEntityView)
    ensures
        match entity_qualified_name(e) {
            Some(q) => e.name is Some && scope_names(e.parents, 0).len() > 0 && q == joined(
                scope_names(e.parents, 0),
                "::"@,
            ) + "::"@ + e.name->0,
            None => e.name is None || scope_names(e.parents, 0).len() == 0,
        },
{
    if let Some(name) = e.name {
        let outer = scope_names(e.parents, 0);
        let parts = outer.push(name);
        assert(parts.drop_last() =~= outer);
        assert(parts.last() == name);
    }
}

/// Entities are what they are called in the model; what has no counterpart counts as a
/// function where declarations are sought and as a variable where definitions are.
pub proof fn entity_kinds_have_counterparts(mode: Mode)
    ensures
        model_kind(EntityKind::FunctionDecl, mode) == Kind::Function,
        model_kind(EntityKind::Method, mode) == Kind::Method,
        model_kind(EntityKind::Constructor, mode) == Kind::Method,
        model_kind(EntityKind::Destructor, mode) == Kind::Method,
        model_kind(EntityKind::VarDecl, mode) == Kind::Variable,
        model_kind(EntityKind::FieldDecl, mode) == Kind::Member,
        model_kind(EntityKind::ClassDecl, mode) == Kind::Class,
        model_kind(EntityKind::StructDecl, mode) == Kind::Struct,
        model_kind(EntityKind::FunctionTemplate, mode) == Kind::Template,
        model_kind(EntityKind::ClassTemplate, mode) == Kind::Template,
        model_kind(EntityKind::MacroDefinition, mode) == Kind::Macro,
        model_kind(EntityKind::Other, Mode::Declaration) == Kind::Function,
        model_kind(EntityKind::Other, Mode::Definition) == Kind::Variable,
{
}

// ---------------------------------------------------------------------------
// Texts
// ---------------------------------------------------------------------------

/// Does a text, after whitespace, begin as a comment does or goes on?
pub open spec fn begins_as_comment(t: Seq<char>) -> bool {
    exists|a: Seq<char>, b: Seq<char>|
        t == #[trigger] (a + b) && all_space(a) && (has_prefix(b, "//"@) || has_prefix(b, "/*"@)
            || has_prefix(b, "*"@))
}

/// A line counts as a comment if it is text that begins as one, after whitespace.
pub proof fn comment_lines_begin_as_comments(src: Seq<u8>, line: int)
    ensures
        comment_line(src, line) ==> valid_utf8(line_text(src, line)) && begins_as_comment(
            decode_utf8(line_text(src, line)),
        ),
{
    let bytes = line_text(src, line);
    let t = if valid_utf8(bytes) { decode_utf8(bytes) } else { Seq::empty() };
    let i = after_space(t, 0);
    after_space_skips(t, 0);
    if comment_line(src, line) {
        let a = t.take(i);
        let b = t.skip(i);
        assert(t =~= a + b);
        assert(all_space(a));
        if !valid_utf8(bytes) {
            reveal_strlit("//");
            reveal_strlit("/*");
            reveal_strlit("*");
            assert(b.len() == 0);
        }
    }
}

/// Every line of text that begins as a comment counts as one.
pub proof fn comments_are_recognized(src: Seq<u8>, line: int, a: Seq<char>, b: Seq<char>)
    requires
        valid_utf8(line_text(src, line)),
        decode_utf8(line_text(src, line)) == a + b,
        all_space(a),
        b.len() > 0,
        !crate::text::whitespace(b[0]),
        has_prefix(b, "//"@) || has_prefix(b, "/*"@) || has_prefix(b, "*"@),
    ensures
        comment_line(src, line),
{
    let t = a + b;
    let i = after_space(t, 0);
    after_space_skips(t, 0);
    assert(i == a.len()) by {
        if i < a.len() {
            assert(t[i] == a[i]);
        }
        if i > a.len() {
            assert(t[a.len() as int] == b[0]);
        }
    }
    assert(t.skip(i) =~= b);
}

proof fn comment_run_is_whole(src: Seq<u8>, line: int)
    requires
        0 <= line,
    ensures
        1 <= comment_run(src, line) <= line + 1,
        forall|m: int| comment_run(src, line) <= m <= line ==> #[trigger] comment_line(src, m),
        comment_run(src, line) > 1 ==> !comment_line(src, comment_run(src, line) - 1),
    decreases line,
{
    if line >= 1 && comment_line(src, line) {
        comment_run_is_whole(src, line - 1);
    }
}

/// The comments above a line are the whole run of comment lines that ends just above
/// it: it starts at the first line of the text, or below a line that is no comment.
pub proof fn comments_above_are_the_whole_run(src: Seq<u8>, decl: int)
    requires
        1 <= decl,
    ensures
        match comment_start(src, decl) {
            Some(p) => 1 <= p.1 < decl && p.0 == line_start(src, p.1) && (forall|m: int|
                p.1 <= m < decl ==> #[trigger] comment_line(src, m)) && (p.1 > 1 ==> !comment_line(
                src,
                p.1 - 1,
            )),
            None => decl == 1 || !comment_line(src, decl - 1) || !line_exists(src, decl),
        },
{
    comment_run_is_whole(src, decl - 1);
}

/// An entity is resolved if it is what is sought and has a place in a file that is at
/// hand; what it gives is the text from the comments above it, or from its own start, to
/// its end.
pub proof fn entities_are_resolved_where_they_stand(
    e: SemanticEntityView,
    mode: Mode,
    files: Seq<SourceFileView>,
)
    ensures
        ({
            let at_hand = e.file is Some && e.start is Some && e.end is Some && contents(
                files,
                e.file->0,
            ) is Some;
            let src = contents(files, e.file->0)->0;
            let start = e.start->0;
            let end = e.end->0;
            let from = byte_at(src, start.0 as int, start.1 as int);
            let to = byte_at(src, end.0 as int, end.1 as int);
            let fits = places_fit(start, end, src.len()) && from is Some && to is Some && from->0
                < to->0 <= src.len();
            &&& entity_resolution(e, mode, files) is Some <==> at_hand && fits && (e.is_definition
                <==> mode == Mode::Definition)
            &&& entity_resolution(e, mode, files) matches Some(r) ==> {
                let first = match comment_start(src, start.0 as int) {
                    Some(p) => p.0,
                    None => from->0,
                };
                &&& r.source_ref.file_path == e.file->0
                &&& r.content_bytes == src.subrange(first, to->0)
                &&& r.source_ref.span.start_byte == first as usize
                &&& r.source_ref.span.end_byte == to->0 as usize
                &&& r.source_ref.span.end_line == end.0
                &&& e.name matches Some(n) ==> r.symbol.name == n
                &&& r.symbol.kind == model_kind(e.kind, mode)
                &&& r.symbol.doc == e.comment
                &&& r.symbol.qualified_name == entity_qualified_name(e)
                &&& mode == Mode::Declaration ==> r.symbol.signature == e.display_name
                    && r.symbol.type_spelling == e.type_spelling
            }
        }),
{
}

/// A place is found by the start of its line and its column, both counted from one.
pub proof fn places_are_lines_and_columns(src: Seq<u8>, line: int, col: int)
    requires
        1 <= line,
        1 <= col,
    ensures
        match byte_at(src, line, col) {
            Some(i) => crate::text::line_at(src, 1, 0, line) is Some && (i == line_start(src, line)
                + col - 1 || (i == src.len() && line_start(src, line) + col - 1 > src.len())),
            None => crate::text::line_at(src, 1, 0, line) is None,
        },
{
}

// ---------------------------------------------------------------------------
// Units
// ---------------------------------------------------------------------------

/// Do two resolutions start at the same place?
pub open spec fn same_start(a: ResolutionView, b: ResolutionView) -> bool {
    a.source_ref.span.start_byte == b.source_ref.span.start_byte && same_path(
        a.source_ref.file_path,
        b.source_ref.file_path,
    )
}

/// Is `r` what one of the entities that answer to the target gives?
pub open spec fn is_of_an_entity(
    r: ResolutionView,
    entities: Seq<SemanticEntityView>,
    target: Seq<char>,
    mode: Mode,
    files: Seq<SourceFileView>,
) -> bool {
    exists|j: int|
        0 <= j < entities.len() && answers_to(#[trigger] entities[j], target) && entity_resolution(
            entities[j],
            mode,
            files,
        ) == Some(r)
}

proof fn unit_is_resolved(
    entities: Seq<SemanticEntityView>,
    target: Seq<char>,
    mode: Mode,
    files: Seq<SourceFileView>,
    k: int,
)
    requires
        0 <= k <= entities.len(),
    ensures
        ({
            let rs = unit_resolutions(entities, target, mode, files, k);
            &&& forall|m: int|
                0 <= m < rs.len() ==> is_of_an_entity(
                    #[trigger] rs[m],
                    entities,
                    target,
                    mode,
                    files,
                )
            &&& forall|m: int, n: int|
                0 <= m < n < rs.len() ==> !same_start(#[trigger] rs[m], #[trigger] rs[n])
            &&& forall|j: int|
                #![trigger entities[j]]
                0 <= j < k && answers_to(entities[j], target) ==> (entity_resolution(
                    entities[j],
                    mode,
                    files,
                ) matches Some(r) ==> exists|m: int|
                    0 <= m < rs.len() && same_start(#[trigger] rs[m], r))
        }),
    decreases k,
{
    if k > 0 {
        unit_is_resolved(entities, target, mode, files, k - 1);
        let before = unit_resolutions(entities, target, mode, files, k - 1);
        let rs = unit_resolutions(entities, target, mode, files, k);
        let e = entities[k - 1];
        let one = entity_resolution(e, mode, files);
        assert forall|m: int| 0 <= m < rs.len() implies is_of_an_entity(
            #[trigger] rs[m],
            entities,
            target,
            mode,
            files,
        ) by {
            if m < before.len() {
                assert(rs[m] == before[m]);
            } else {
                assert(answers_to(entities[k - 1], target));
            }
        }
        assert forall|m: int, n: int| 0 <= m < n < rs.len() implies !same_start(
            #[trigger] rs[m],
            #[trigger] rs[n],
        ) by {
            assert(rs[m] == before[m]);
            if n < before.len() {
                assert(rs[n] == before[n]);
            } else {
                assert(!has_start(before, rs[n]));
            }
        }
        assert forall|j: int|
            #![trigger entities[j]]
            0 <= j < k && answers_to(entities[j], target) implies (entity_resolution(
            entities[j],
            mode,
            files,
        ) matches Some(r) ==> exists|m: int|
            0 <= m < rs.len() && same_start(#[trigger] rs[m], r)) by {
            if let Some(r) = entity_resolution(entities[j], mode, files) {
                if j < k - 1 {
                    let m = choose|m: int| 0 <= m < before.len() && same_start(#[trigger] before[m], r);
                    assert(rs[m] == before[m]);
                    assert(same_start(rs[m], r));
                } else if has_start(before, r) {
                    let m = choose|m: int|
                        0 <= m < before.len() && (#[trigger] before[m]).source_ref.span.start_byte
                            == r.source_ref.span.start_byte && same_path(
                            before[m].source_ref.file_path,
                            r.source_ref.file_path,
                        );
                    assert(same_start(rs[m], r));
                } else {
                    assert(same_start(rs[rs.len() - 1], r));
                }
            }
        }
    }
}

/// In the unit of a file, every entity that answers to the target and can be resolved is
/// found, one for each place; and nothing else is.
pub proof fn units_give_every_entity_that_answers(
    entities: Seq<SemanticEntityView>,
    target: Seq<char>,
    mode: Mode,
    files: Seq<SourceFileView>,
)
    ensures
        ({
            let rs = unit_resolutions(entities, target, mode, files, entities.len() as int);
            &&& forall|m: int|
                0 <= m < rs.len() ==> is_of_an_entity(
                    #[trigger] rs[m],
                    entities,
                    target,
                    mode,
                    files,
                )
            &&& forall|m: int, n: int|
                0 <= m < n < rs.len() ==> !same_start(#[trigger] rs[m], #[trigger] rs[n])
            &&& forall|j: int|
                #![trigger entities[j]]
                0 <= j < entities.len() && answers_to(entities[j], target) ==> (entity_resolution(
                    entities[j],
                    mode,
                    files,
                ) matches Some(r) ==> exists|m: int|
                    0 <= m < rs.len() && same_start(#[trigger] rs[m], r))
        }),
{
    unit_is_resolved(entities, target, mode, files, entities.len() as int);
}

/// Is unit `u` the first for a file?
pub open spec fn is_unit_of(units: Seq<SemanticUnitView>, file: Seq<char>, u: int) -> bool {
    &&& 0 <= u < units.len()
    &&& units[u].file == file
    &&& forall|v: int| 0 <= v < u ==> (#[trigger] units[v]).file != file
}

proof fn unit_is_found(units: Seq<SemanticUnitView>, file: Seq<char>, i: int, u: int)
    requires
        0 <= i <= u,
        is_unit_of(units, file, u),
    ensures
        unit_entities(units, file, i) == units[u].entities,
    decreases u - i,
{
    if i < u {
        assert(units[i].file != file);
        unit_is_found(units, file, i + 1, u);
    }
}

proof fn unit_is_among(
    units: Seq<SemanticUnitView>,
    paths: Seq<Seq<char>>,
    target: Seq<char>,
    mode: Mode,
    sources: Seq<SourceFileView>,
    j: int,
    k: int,
    x: int,
) -> (m: int)
    requires
        0 <= j < k,
        ({
            let es = unit_entities(units, paths[j], 0);
            0 <= x < unit_resolutions(es, target, mode, sources, es.len() as int).len()
        }),
    ensures
        ({
            let es = unit_entities(units, paths[j], 0);
            let all = units_resolutions(units, paths, target, mode, sources, k);
            0 <= m < all.len() && all[m] == unit_resolutions(
                es,
                target,
                mode,
                sources,
                es.len() as int,
            )[x]
        }),
    decreases k,
{
    let before = units_resolutions(units, paths, target, mode, sources, k - 1);
    if j == k - 1 {
        before.len() + x
    } else {
        unit_is_among(units, paths, target, mode, sources, j, k - 1, x)
    }
}

/// Every entity that answers to the target in the unit of a file with a candidate, and
/// can be resolved, is found: a resolution starts where its own would.
///
/// Left out are files of which the first candidate writes the path in another way.
pub proof fn every_entity_that_answers_is_found(
    engine: SemanticEngine,
    target: Seq<char>,
    candidates: Seq<CandidateView>,
    mode: Mode,
    file: Seq<char>,
    u: int,
    j: int,
)
    requires
        distinct_files(candidates, candidates.len() as int).contains(file),
        is_unit_of(views(engine.units@), file, u),
        0 <= j < views(engine.units@)[u].entities.len(),
        answers_to(views(engine.units@)[u].entities[j], target),
        entity_resolution(
            views(engine.units@)[u].entities[j],
            mode,
            views(engine.sources@),
        ) is Some,
    ensures
        exists|m: int|
            0 <= m < engine.resolved(target, candidates, mode).len() && same_start(
                #[trigger] engine.resolved(target, candidates, mode)[m],
                entity_resolution(
                    views(engine.units@)[u].entities[j],
                    mode,
                    views(engine.sources@),
                )->0,
            ),
{
    let n = candidates.len() as int;
    let paths = distinct_files(candidates, n);
    let units = views(engine.units@);
    let files = views(engine.sources@);
    let es = units[u].entities;
    let r = entity_resolution(es[j], mode, files)->0;
    unit_is_found(units, file, 0, u);
    unit_is_resolved(es, target, mode, files, es.len() as int);
    let rs = unit_resolutions(es, target, mode, files, es.len() as int);
    assert(answers_to(es[j], target));
    let x = choose|x: int| 0 <= x < rs.len() && same_start(#[trigger] rs[x], r);
    let p = choose|p: int| 0 <= p < paths.len() && paths[p] == file;
    let y = unit_is_among(units, paths, target, mode, files, p, paths.len() as int, x);
    let all = units_resolutions(units, paths, target, mode, files, paths.len() as int);
    let found = engine.resolved(target, candidates, mode);
    in_order_sorts::<Resolution>(all);
    assert(all.contains(all[y]));
    vstd::seq_lib::to_multiset_contains(all, rs[x]);
    vstd::seq_lib::to_multiset_contains(found, rs[x]);
    let m = choose|m: int| 0 <= m < found.len() && found[m] == rs[x];
    assert(same_start(found[m], r));
}

// ---------------------------------------------------------------------------
// Compile arguments
// ---------------------------------------------------------------------------

/// Does an argument name the source or the output, or choose what to produce?
pub open spec fn is_driver_argument(a: Seq<char>, file: Seq<char>) -> bool {
    a == "-c"@ || a == "-emit-ast"@ || a == "-fsyntax-only"@ || has_prefix(a, "-o"@) || same_path(
        a,
        file,
    )
}

proof fn arguments_kept_at(args: Seq<Seq<char>>, file: Seq<char>, i: int, skip: bool) -> (at: Seq<
    int,
>)
    requires
        0 <= i,
    ensures
        is_selection(kept_arguments(args, file, i, skip), args, at),
        forall|m: int|
            0 <= m < at.len() ==> i <= #[trigger] at[m] && !is_driver_argument(args[at[m]], file),
        forall|j: int|
            #![trigger args[j]]
            i <= j < args.len() && !is_driver_argument(args[j], file) && (j > i ==> args[j - 1]
                != "-o"@) && (j == i ==> !skip) ==> at.contains(j),
    decreases args.len() - i,
{
    reveal_strlit("-o");
    if i >= args.len() {
        Seq::empty()
    } else {
        let a = args[i];
        assert(a == "-o"@ ==> has_prefix(a, "-o"@)) by {
            if a == "-o"@ {
                assert(a.subrange(0, 2) =~= a);
            }
        }
        let next = !skip && a == "-o"@;
        let rest = arguments_kept_at(args, file, i + 1, next);
        let more = kept_arguments(args, file, i + 1, next);
        if skip || is_driver_argument(a, file) {
            assert forall|j: int|
                #![trigger args[j]]
                i <= j < args.len() && !is_driver_argument(args[j], file) && (j > i ==> args[j - 1]
                    != "-o"@) && (j == i ==> !skip) implies rest.contains(j) by {}
            rest
        } else {
            let at = seq![i] + rest;
            let all = kept_arguments(args, file, i, skip);
            assert forall|m: int| 0 <= m < at.len() implies 0 <= #[trigger] at[m] < args.len()
                && all[m] == args[at[m]] && i <= at[m] && !is_driver_argument(args[at[m]], file) by {
                if m > 0 {
                    assert(at[m] == rest[m - 1]);
                    assert(all[m] == more[m - 1]);
                }
            }
            assert forall|m: int, n: int| 0 <= m < n < at.len() implies #[trigger] at[m]
                < #[trigger] at[n] by {
                assert(at[n] == rest[n - 1]);
                if m > 0 {
                    assert(at[m] == rest[m - 1]);
                }
            }
            assert forall|j: int|
                #![trigger args[j]]
                i <= j < args.len() && !is_driver_argument(args[j], file) && (j > i ==> args[j - 1]
                    != "-o"@) && (j == i ==> !skip) implies at.contains(j) by {
                if j == i {
                    assert(at[0] == i);
                } else {
                    assert(rest.contains(j));
                    let m = choose|m: int| 0 <= m < rest.len() && rest[m] == j;
                    assert(at[m + 1] == j);
                }
            }
            at
        }
    }
}

/// The compile arguments handed on are some of those given, in order, without the first:
/// none that names the source or the output or chooses what to produce, and every other
/// that does not follow `-o`.
pub proof fn compile_arguments_are_selected(args: Seq<Seq<char>>, file: Seq<char>)
    ensures
        exists|at: Seq<int>| #[trigger]
            is_selection(kept_arguments(args, file, 1, false), args, at) && (forall|m: int|
                0 <= m < at.len() ==> 1 <= #[trigger] at[m] && !is_driver_argument(args[at[m]], file))
                && (forall|j: int|
                #![trigger args[j]]
                1 <= j < args.len() && !is_driver_argument(args[j], file) && (j > 1 ==> args[j - 1]
                    != "-o"@) ==> at.contains(j)),
{
    let at = arguments_kept_at(args, file, 1, false);
    assert(is_selection(kept_arguments(args, file, 1, false), args, at));
}

} // verus!
