//! What a whole run gives, and what its answers cost.

use crate::budget::{base_cost, budgeted, fitting, record_cost, total_cost, Priced};
use crate::cli::{Cli, Command};
use crate::commands::{
    answer_to, answers, candidates_of, command_label, extensions_of, handed_out,
    ladder_decides_status, macro_flags, macro_note_text, macros_of, settings_of, type_label,
    Query,
};
use crate::engine::syntactic::{is_extent, located, node_of_extent, Macros};
use crate::engine::syntax::{smallest_node, SyntaxNode};
use crate::engine::outline::report_node;
use crate::engine::Engine;
use crate::laws::nodes::{
    class_or_struct, classes_found_are_nearest, function_or_template, functions_found_are_nearest,
    is_at_or_above, nearest_class, nearest_function,
};
use crate::model::{Kind, Span};
use crate::output::{
    projected, wanted, Candidate, ChoiceView, FallbackWindow, FallbackWindowView, RecordView,
    RefContext, RefContextView, RefLocation, ResolvedResult, ResolvedResultView,
};
use crate::search::{default_extension_names, defined_in};
use crate::sources::{contents, SourceFileView};
use crate::text::{has_infix, joined, utf8_len, views};
use vstd::prelude::*;

verus! {

// ---------------------------------------------------------------------------
// Scopes of offsets
// ---------------------------------------------------------------------------

proof fn extent_is_located(t: Seq<SyntaxNode>, extent: (usize, usize, usize), i: int)
    requires
        0 <= i <= t.len(),
    ensures
        match node_of_extent(t, extent, i) {
            Some(k) => i <= k < t.len() && is_extent(t, k, extent) && forall|j: int|
                i <= j < k ==> !is_extent(t, j, extent),
            None => forall|j: int| i <= j < t.len() ==> !is_extent(t, j, extent),
        },
    decreases t.len() - i,
{
    if i < t.len() && !is_extent(t, i, extent) {
        extent_is_located(t, extent, i + 1);
    }
}

/// Is `span` that of a node, with lines counted from one?
pub open spec fn is_span_of(span: Span, n: SyntaxNode) -> bool {
    &&& span.start_byte == n.start_byte && span.end_byte == n.end_byte
    &&& span.start_col == n.start_col && span.end_col == n.end_col
    &&& n.start_row < usize::MAX ==> span.start_line == n.start_row + 1
    &&& n.end_row < usize::MAX ==> span.end_line == n.end_row + 1
}

/// The function or template around an offset of a file is the nearest one at or above
/// the smallest node there; there is none only if nothing at or above it is one.
pub proof fn functions_around_offsets_are_nearest(
    e: Macros,
    file: Seq<char>,
    offset: usize,
    files: Seq<SourceFileView>,
    i: int,
)
    requires
        contents(files, file) is Some,
        e.reads(contents(files, file)->0) is Some,
        ({
            let r = e.reads(contents(files, file)->0)->0;
            located(r.tree, smallest_node(r.buffer, offset)) == Some(i)
        }),
    ensures
        ({
            let t = e.reads(contents(files, file)->0)->0.tree;
            match e.function_at(file, offset, files) {
                Some(span) => exists|f: int| #[trigger]
                    nearest_function(t, i, f) && is_span_of(span, t[f]),
                None => forall|x: int| #[trigger]
                    is_at_or_above(t, x, i) ==> !function_or_template(t[x].kind),
            }
        }),
{
    let r = e.reads(contents(files, file)->0)->0;
    let extent = smallest_node(r.buffer, offset)->0;
    extent_is_located(r.tree, extent, 0);
    functions_found_are_nearest(r.tree, i);
}

/// The class or struct around an offset of a file is the nearest one at or above the
/// smallest node there, with the template directly around it; there is none only if
/// nothing at or above it is one.
pub proof fn classes_around_offsets_are_nearest(
    e: Macros,
    file: Seq<char>,
    offset: usize,
    files: Seq<SourceFileView>,
    i: int,
)
    requires
        contents(files, file) is Some,
        e.reads(contents(files, file)->0) is Some,
        ({
            let r = e.reads(contents(files, file)->0)->0;
            located(r.tree, smallest_node(r.buffer, offset)) == Some(i)
        }),
    ensures
        ({
            let t = e.reads(contents(files, file)->0)->0.tree;
            match e.class_at(file, offset, files) {
                Some(span) => exists|c: int| #[trigger]
                    nearest_class(t, i, c) && is_span_of(span, t[report_node(t, c)]),
                None => forall|x: int| #[trigger]
                    is_at_or_above(t, x, i) ==> !class_or_struct(t[x].kind),
            }
        }),
{
    let r = e.reads(contents(files, file)->0)->0;
    let extent = smallest_node(r.buffer, offset)->0;
    extent_is_located(r.tree, extent, 0);
    classes_found_are_nearest(r.tree, i);
}

/// A node is found by where it lies and how many nodes it holds: it is the first such
/// node, and it is found whenever there is one.
pub proof fn nodes_are_located_by_their_extent(t: Seq<SyntaxNode>, extent: (usize, usize, usize))
    ensures
        match located(t, Some(extent)) {
            Some(k) => 0 <= k < t.len() && t[k].start_byte == extent.0 && t[k].end_byte == extent.1
                && crate::engine::syntax::subtree_end(t, k) - k == extent.2,
            None => forall|j: int|
                0 <= j < t.len() ==> !((#[trigger] t[j]).start_byte == extent.0 && t[j].end_byte
                    == extent.1 && crate::engine::syntax::subtree_end(t, j) - j == extent.2),
        },
        located(t, None) is None,
{
    extent_is_located(t, extent, 0);
    if node_of_extent(t, extent, 0) is None {
        assert forall|j: int| 0 <= j < t.len() implies !((#[trigger] t[j]).start_byte == extent.0
            && t[j].end_byte == extent.1 && crate::engine::syntax::subtree_end(t, j) - j
            == extent.2) by {
            assert(!is_extent(t, j, extent));
        }
    }
}

// ---------------------------------------------------------------------------
// Runs
// ---------------------------------------------------------------------------

/// A run answers every target, in order: the record of a target carries its name and
/// that of the command.
pub proof fn runs_answer_every_target<E: Engine>(
    cli: Cli,
    targets: Seq<Seq<char>>,
    engine: E,
    files: Seq<SourceFileView>,
    k: int,
)
    requires
        0 <= k < targets.len(),
    ensures
        ({
            let rs = answers(cli, targets, engine, files);
            &&& rs.len() == targets.len()
            &&& rs[k].target == targets[k]
            &&& rs[k].command == (match cli.command {
                Command::FindDef { .. } => "find-def"@,
                Command::FindDecl { .. } => "find-decl"@,
                Command::FindRefs { .. } => "find-refs"@,
            })
        }),
{
    ladder_decides_status(
        command_label(cli.command),
        targets[k],
        settings_of(cli),
        candidates_of(cli, targets[k], files),
        engine,
        macros_of(cli, targets, files),
        files,
    );
    assert(answers(cli, targets, engine, files)[k] == answer_to(
        cli,
        targets,
        targets[k],
        engine,
        files,
    ));
}

/// The records of a run are handed out as they are when they are browsed, and without
/// the fields that are not asked for otherwise; a budget is applied last.
pub proof fn records_are_handed_out(cli: Cli, records: Seq<RecordView>, k: int)
    requires
        0 <= k < records.len(),
    ensures
        cli.budget is None ==> handed_out(cli, records).len() == records.len(),
        cli.budget is None && cli.interactive ==> handed_out(cli, records)[k] == records[k],
        cli.budget is None && !cli.interactive ==> handed_out(cli, records)[k] == projected(
            records[k],
            wanted(cli.include_fields@),
        ),
        cli.budget is Some && cli.interactive ==> handed_out(cli, records) == budgeted(
            records,
            cli.budget->0 as int,
        ),
{
}

/// The settings of a run are those of its command line: what is sought follows from the
/// command, and scopes and contexts are shown where they are asked for.
pub proof fn settings_follow_the_command_line(cli: Cli)
    ensures
        ({
            let s = settings_of(cli);
            &&& s.max_candidates == cli.max_candidates
            &&& s.max_results == cli.max_results
            &&& s.window == cli.window
            &&& match cli.command {
                Command::FindDef { scope, .. } => s.query == Query::Definition && s.scope == scope
                    && !s.context,
                Command::FindDecl { .. } => s.query == Query::Declaration && !s.scope && !s.context,
                Command::FindRefs { context, .. } => s.query == Query::References && s.context
                    == context && !s.scope,
            }
        }),
        cli.lang@.len() > 0 ==> extensions_of(cli) == views(cli.lang@),
        cli.lang@.len() == 0 ==> extensions_of(cli) == default_extension_names(),
{
}

/// The macros that the user names are blanked everywhere; those and the ones that the
/// searched files define are blanked as annotations, whenever anything is parsed.
pub proof fn macros_come_from_the_user_and_the_files(
    cli: Cli,
    targets: Seq<Seq<char>>,
    files: Seq<SourceFileView>,
    x: Seq<char>,
)
    ensures
        ({
            let m = macros_of(cli, targets, files);
            let parses = !(cli.command is FindRefs) || settings_of(cli).context || exists|i: int|
                0 <= i < targets.len() && has_infix(#[trigger] targets[i], "::"@);
            &&& m.global.contains(x) <==> views(cli.empty_macro@).contains(x)
            &&& m.annotation.contains(x) <==> views(cli.empty_macro@).contains(x) || (parses
                && defined_in(files, extensions_of(cli), files.len() as int).contains(x))
        }),
{
}

/// A resolved record says what was found: a declaration, or a definition of its kind.
pub proof fn labels_say_what_was_found(kind: Kind)
    ensures
        type_label(Query::Declaration, kind) == "declaration"@,
        type_label(Query::Definition, Kind::Function) == "function_definition"@,
        type_label(Query::Definition, Kind::Method) == "function_definition"@,
        type_label(Query::Definition, Kind::Variable) == "variable_definition"@,
        type_label(Query::Definition, Kind::Member) == "variable_definition"@,
        type_label(Query::Definition, Kind::Template) == "template_definition"@,
        type_label(Query::Definition, Kind::Class) == "class_definition"@,
        type_label(Query::Definition, Kind::Struct) == "struct_definition"@,
        type_label(Query::Definition, Kind::Macro) == "macro_definition"@,
{
}

/// The note on macros names each of them, and for each the flag that blanks it; without
/// any there is no note.
pub proof fn notes_name_every_macro(names: Seq<Seq<char>>, k: int)
    requires
        0 <= k < names.len(),
    ensures
        macro_note_text(names) is Some,
        has_infix(macro_note_text(names)->0, "["@ + joined(names, ", "@) + "]"@),
        has_infix(macro_note_text(names)->0, " --empty-macro "@ + names[k]),
        macro_note_text(Seq::empty()) is None,
{
    let flags = macro_flags(names, names.len() as int);
    let note = macro_note_text(names)->0;
    let head = "cpp-navigator: note: unrecognized annotation macro(s) ["@;
    let mid = "] may be hiding declarations; if so, re-run with"@;
    reveal_strlit("cpp-navigator: note: unrecognized annotation macro(s) [");
    reveal_strlit("] may be hiding declarations; if so, re-run with");
    reveal_strlit("[");
    reveal_strlit("]");
    let list = joined(names, ", "@);
    let part = "["@ + list + "]"@;
    let at = head.len() - 1;
    assert(note =~= head + list + mid + flags);
    assert(head.len() == 55);
    assert(head[54] == '[');
    assert(mid[0] == ']');
    assert(note.subrange(at, at + part.len()) =~= part);
    assert(crate::text::occurs_at(note, part, at));
    let j = flag_is_there(names, names.len() as int, k);
    let flag = " --empty-macro "@ + names[k];
    let from = head.len() + list.len() + mid.len() + j;
    assert(note.subrange(from, from + flag.len()) =~= flags.subrange(j, j + flag.len()));
    assert(crate::text::occurs_at(note, flag, from));
}

proof fn flag_is_there(names: Seq<Seq<char>>, n: int, k: int) -> (j: int)
    requires
        0 <= k < n <= names.len(),
    ensures
        ({
            let flag = " --empty-macro "@ + names[k];
            let flags = macro_flags(names, n);
            0 <= j && j + flag.len() <= flags.len() && flags.subrange(j, j + flag.len()) == flag
        }),
    decreases n,
{
    let before = macro_flags(names, n - 1);
    let all = macro_flags(names, n);
    let flag = " --empty-macro "@ + names[k];
    if k == n - 1 {
        let j = before.len() as int;
        assert(all.subrange(j, j + flag.len()) =~= flag);
        j
    } else {
        let j = flag_is_there(names, n - 1, k);
        assert(all.subrange(j, j + flag.len()) =~= before.subrange(j, j + flag.len()));
        j
    }
}

// ---------------------------------------------------------------------------
// Costs
// ---------------------------------------------------------------------------

/// The estimate of a record counts at least the bytes of every text that it carries.
pub proof fn estimates_cover_the_texts(r: RecordView)
    ensures
        record_cost(r) >= base_cost(r),
        base_cost(r) >= utf8_len(r.target),
        r.content matches Some(t) ==> base_cost(r) >= utf8_len(t),
        r.content_buffer matches Some(t) ==> base_cost(r) >= utf8_len(t),
        r.doc matches Some(t) ==> base_cost(r) >= utf8_len(t),
        r.signature matches Some(t) ==> base_cost(r) >= utf8_len(t),
        r.message matches Some(t) ==> base_cost(r) >= utf8_len(t),
        record_cost(r) >= base_cost(r) + total_cost::<Candidate>(r.candidates)
            + total_cost::<ResolvedResult>(r.results) + total_cost::<RefLocation>(r.locations)
            + total_cost::<RefContext>(r.contexts) + total_cost::<FallbackWindow>(r.windows),
{
    sums_are_not_negative::<Candidate>(r.candidates);
    sums_are_not_negative::<ResolvedResult>(r.results);
    sums_are_not_negative::<RefLocation>(r.locations);
    sums_are_not_negative::<RefContext>(r.contexts);
    sums_are_not_negative::<FallbackWindow>(r.windows);
}

proof fn sums_are_not_negative<T: Priced>(s: Seq<T::V>)
    ensures
        0 <= total_cost::<T>(s),
    decreases s.len(),
{
    if s.len() > 0 {
        T::cost_is_positive(s[0]);
        sums_are_not_negative::<T>(s.skip(1));
    }
}

/// The estimate of a list is the sum of those of its items.
pub proof fn estimates_add_up<T: Priced>(a: Seq<T::V>, b: Seq<T::V>, x: T::V)
    ensures
        total_cost::<T>(a + b) == total_cost::<T>(a) + total_cost::<T>(b),
        total_cost::<T>(seq![x]) == T::cost(x),
        total_cost::<T>(Seq::empty()) == 0,
    decreases a.len(),
{
    let one = seq![x];
    assert(one.skip(1) =~= Seq::<T::V>::empty());
    assert(one[0] == x);
    assert(total_cost::<T>(one) == T::cost(one[0]) + total_cost::<T>(one.skip(1)));
    if a.len() == 0 {
        assert(a + b =~= b);
    } else {
        estimates_add_up::<T>(a.skip(1), b, x);
        assert((a + b).skip(1) =~= a.skip(1) + b);
    }
}

/// The estimate of an item counts at least the bytes of its texts.
pub proof fn item_estimates_cover_the_texts(
    c: ChoiceView,
    x: ResolvedResultView,
    k: RefContextView,
    w: FallbackWindowView,
)
    ensures
        <Candidate as Priced>::cost(c) >= utf8_len(c.file_path),
        c.snippet matches Some(t) ==> <Candidate as Priced>::cost(c) >= utf8_len(t),
        x.content matches Some(t) ==> <ResolvedResult as Priced>::cost(x) >= utf8_len(t),
        x.doc matches Some(t) ==> <ResolvedResult as Priced>::cost(x) >= utf8_len(t),
        <RefContext as Priced>::cost(k) >= utf8_len(k.file) + utf8_len(k.content),
        <FallbackWindow as Priced>::cost(w) >= utf8_len(w.file_path) + utf8_len(w.content_buffer),
{
}

/// As many leading items are kept as fit: with one more they would cost more than there
/// is.
pub proof fn as_many_items_are_kept_as_fit<T: Priced>(s: Seq<T::V>, left: int)
    requires
        0 <= left,
        fitting::<T>(s, left) < s.len(),
    ensures
        total_cost::<T>(s.take(fitting::<T>(s, left) as int + 1)) > left,
    decreases s.len(),
{
    let m = fitting::<T>(s, left) as int;
    let one = s.take(m + 1);
    assert(one[0] == s[0]);
    T::cost_is_positive(s[0]);
    if T::cost(s[0]) > left {
        sums_are_not_negative::<T>(one.skip(1));
    } else {
        as_many_items_are_kept_as_fit::<T>(s.skip(1), left - T::cost(s[0]));
        assert(one.skip(1) =~= s.skip(1).take(m));
    }
}

} // verus!
