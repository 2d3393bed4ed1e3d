//! What the answers hold: contexts, windows, matches and targets.

use crate::cli::Cli;
use crate::commands::{
    answer, answer_to, candidates_of, comment_top, contexts_are_capped, discovered_macros,
    distinct_lines, extensions_of, first_mentions, hit_window, lines_are_listed_once,
    manifest_targets, matches_of, needs_macros, same_line, scan_hit, scanned, settings_of,
    shown_of, targets_of, unconfirmed_macros, window_entry, windows_hold_their_line, Query, Scan,
    Settings,
};
use crate::engine::macros::suspects;
use crate::engine::outline::Mode;
use crate::engine::syntactic::{distinct_files, Macros};
use crate::engine::Engine;
use crate::model::{ResolutionView, Span};
use crate::output::{RecordView, RefContextView, Status};
use crate::paths::same_path;
use crate::search::{CandidateView, FinderResultView};
use crate::sources::{contents, same_path_same_contents, SourceFileView};
use crate::text::{decimal, has_prefix, joined, lines, lossy, trimmed, views};
use vstd::prelude::*;
use vstd::utf8::{decode_utf8, valid_utf8};

verus! {

// ---------------------------------------------------------------------------
// Contexts
// ---------------------------------------------------------------------------

/// Is `span` the scope around a hit, and does it lie in the hit's file?
pub open spec fn has_scope<E: Engine>(
    engine: E,
    hit: CandidateView,
    files: Seq<SourceFileView>,
    span: Span,
) -> bool {
    &&& engine.scope_spec(hit.file_path, hit.byte_offset, files) == Some(span)
    &&& contents(files, hit.file_path) matches Some(src) && span.start_byte <= span.end_byte
        <= src.len()
}

/// Does a context show a scope of the file of a hit: its lines, and its text as it
/// stands in the file?
pub open spec fn shows_scope(
    c: RefContextView,
    hit: CandidateView,
    files: Seq<SourceFileView>,
    span: Span,
) -> bool {
    &&& same_path(c.file, hit.file_path)
    &&& c.scope_start_line == span.start_line
    &&& c.scope_end_line == span.end_line
    &&& contents(files, hit.file_path) matches Some(src) && c.content == lossy(
        src.subrange(span.start_byte as int, span.end_byte as int),
    )
}

/// Are scopes in one file that start at the same byte the same?
pub open spec fn scopes_are_told_by_their_start<E: Engine>(
    engine: E,
    hits: Seq<CandidateView>,
    files: Seq<SourceFileView>,
) -> bool {
    forall|i: int, j: int|
        0 <= i < hits.len() && 0 <= j < hits.len() && same_path(
            (#[trigger] hits[i]).file_path,
            (#[trigger] hits[j]).file_path,
        ) ==> (engine.scope_spec(hits[i].file_path, hits[i].byte_offset, files) matches Some(a)
            ==> engine.scope_spec(hits[j].file_path, hits[j].byte_offset, files) matches Some(b)
            ==> a.start_byte == b.start_byte ==> a == b)
}

/// Is the scope of hit `j` among the contexts?
pub open spec fn is_shown(
    contexts: Seq<RefContextView>,
    hit: CandidateView,
    files: Seq<SourceFileView>,
    span: Span,
) -> bool {
    exists|m: int| 0 <= m < contexts.len() && shows_scope(#[trigger] contexts[m], hit, files, span)
}

/// Is a context that of one of the hits?
pub open spec fn is_of_a_hit<E: Engine>(
    c: RefContextView,
    engine: E,
    hits: Seq<CandidateView>,
    files: Seq<SourceFileView>,
) -> bool {
    exists|j: int, span: Span|
        0 <= j < hits.len() && #[trigger] has_scope(engine, hits[j], files, span) && shows_scope(
            c,
            hits[j],
            files,
            span,
        ) && c.file == hits[j].file_path && c.line == hits[j].line
}

/// Is a scope that was met that of one of the first `k` hits?
spec fn met_at<E: Engine>(
    p: (Seq<char>, usize),
    engine: E,
    hits: Seq<CandidateView>,
    files: Seq<SourceFileView>,
    k: int,
) -> bool {
    exists|j: int|
        0 <= j < k && (#[trigger] hits[j]).file_path == p.0 && (engine.scope_spec(
            hits[j].file_path,
            hits[j].byte_offset,
            files,
        ) matches Some(span) && span.start_byte == p.1)
}

proof fn scan_shows<E: Engine>(
    hits: Seq<CandidateView>,
    engine: E,
    max: int,
    files: Seq<SourceFileView>,
    k: int,
)
    requires
        0 <= k <= hits.len(),
        scopes_are_told_by_their_start(engine, hits, files),
    ensures
        ({
            let s = scanned(hits, engine, max, files, k);
            &&& s.full ==> s.contexts.len() >= max && s.contexts.len() > 0
            &&& forall|m: int|
                0 <= m < s.contexts.len() ==> is_of_a_hit(
                    #[trigger] s.contexts[m],
                    engine,
                    hits,
                    files,
                )
            &&& forall|m: int|
                0 <= m < s.seen.len() ==> met_at(#[trigger] s.seen[m], engine, hits, files, k)
            &&& !s.full ==> forall|j: int, span: Span|
                0 <= j < k && #[trigger] has_scope(engine, hits[j], files, span) ==> is_shown(
                    s.contexts,
                    hits[j],
                    files,
                    span,
                )
        }),
    decreases k,
{
    if k > 0 {
        scan_shows(hits, engine, max, files, k - 1);
        let before = scanned(hits, engine, max, files, k - 1);
        let s = scanned(hits, engine, max, files, k);
        let hit = hits[k - 1];
        scan_step_shows(hits, engine, max, files, k, before);
    }
}

proof fn scan_step_shows<E: Engine>(
    hits: Seq<CandidateView>,
    engine: E,
    max: int,
    files: Seq<SourceFileView>,
    k: int,
    before: Scan,
)
    requires
        0 < k <= hits.len(),
        scopes_are_told_by_their_start(engine, hits, files),
        before.full ==> before.contexts.len() >= max && before.contexts.len() > 0,
        forall|m: int|
            0 <= m < before.contexts.len() ==> is_of_a_hit(
                #[trigger] before.contexts[m],
                engine,
                hits,
                files,
            ),
        forall|m: int|
            0 <= m < before.seen.len() ==> met_at(
                #[trigger] before.seen[m],
                engine,
                hits,
                files,
                k - 1,
            ),
        !before.full ==> forall|j: int, span: Span|
            0 <= j < k - 1 && #[trigger] has_scope(engine, hits[j], files, span) ==> is_shown(
                before.contexts,
                hits[j],
                files,
                span,
            ),
    ensures
        ({
            let s = scan_hit(before, hits[k - 1], engine, max, files);
            &&& s.full ==> s.contexts.len() >= max && s.contexts.len() > 0
            &&& forall|m: int|
                0 <= m < s.contexts.len() ==> is_of_a_hit(
                    #[trigger] s.contexts[m],
                    engine,
                    hits,
                    files,
                )
            &&& forall|m: int|
                0 <= m < s.seen.len() ==> met_at(#[trigger] s.seen[m], engine, hits, files, k)
            &&& !s.full ==> forall|j: int, span: Span|
                0 <= j < k && #[trigger] has_scope(engine, hits[j], files, span) ==> is_shown(
                    s.contexts,
                    hits[j],
                    files,
                    span,
                )
        }),
{
    let hit = hits[k - 1];
    let s = scan_hit(before, hit, engine, max, files);
    let scope = engine.scope_spec(hit.file_path, hit.byte_offset, files);
    let grows = s.contexts.len() > before.contexts.len();
    assert forall|m: int| 0 <= m < s.contexts.len() implies is_of_a_hit(
        #[trigger] s.contexts[m],
        engine,
        hits,
        files,
    ) by {
        if m < before.contexts.len() {
            assert(s.contexts[m] == before.contexts[m]);
        } else {
            assert(has_scope(engine, hits[k - 1], files, scope->0));
        }
    }
    assert forall|m: int| 0 <= m < s.seen.len() implies met_at(
        #[trigger] s.seen[m],
        engine,
        hits,
        files,
        k,
    ) by {
        if m < before.seen.len() {
            assert(s.seen[m] == before.seen[m]);
            let j = choose|j: int|
                0 <= j < k - 1 && (#[trigger] hits[j]).file_path == s.seen[m].0 && (
                engine.scope_spec(hits[j].file_path, hits[j].byte_offset, files) matches Some(span)
                    && span.start_byte == s.seen[m].1);
            assert(hits[j].file_path == s.seen[m].0);
        } else {
            assert(hits[k - 1].file_path == s.seen[m].0);
        }
    }
    if !s.full {
        assert forall|j: int, span: Span|
            0 <= j < k && #[trigger] has_scope(engine, hits[j], files, span) implies is_shown(
            s.contexts,
            hits[j],
            files,
            span,
        ) by {
            if j < k - 1 {
                assert(is_shown(before.contexts, hits[j], files, span));
                let m = choose|m: int|
                    0 <= m < before.contexts.len() && shows_scope(
                        #[trigger] before.contexts[m],
                        hits[j],
                        files,
                        span,
                    );
                assert(s.contexts[m] == before.contexts[m]);
            } else if grows {
                assert(shows_scope(s.contexts[s.contexts.len() - 1], hits[j], files, span));
            } else {
                let m = choose|m: int|
                    0 <= m < before.seen.len() && (#[trigger] before.seen[m]).1 == span.start_byte
                        && same_path(before.seen[m].0, hit.file_path);
                assert(met_at(before.seen[m], engine, hits, files, k - 1));
                let i = choose|i: int|
                    0 <= i < k - 1 && (#[trigger] hits[i]).file_path == before.seen[m].0 && (
                    engine.scope_spec(hits[i].file_path, hits[i].byte_offset, files) matches Some(a)
                        && a.start_byte == before.seen[m].1);
                same_path_same_contents(files, hits[i].file_path, hit.file_path);
                assert(has_scope(engine, hits[i], files, span));
                assert(is_shown(before.contexts, hits[i], files, span));
                let n = choose|n: int|
                    0 <= n < before.contexts.len() && shows_scope(
                        #[trigger] before.contexts[n],
                        hits[i],
                        files,
                        span,
                    );
                assert(shows_scope(s.contexts[n], hits[j], files, span));
            }
        }
    }
}

/// With contexts asked for, every hit that may refer to the target and has a scope
/// around it is answered by that scope, its lines and its text, unless so many scopes
/// are shown as may be; each scope shown is that of a hit; and if none is, no hit has
/// one.
///
/// Left out are scopes of one file that start at the same byte and end elsewhere: of
/// those the first that is met stands for all.
pub proof fn contexts_are_complete<E: Engine>(
    command: Seq<char>,
    target: Seq<char>,
    s: Settings,
    found: FinderResultView,
    engine: E,
    macros: Macros,
    files: Seq<SourceFileView>,
)
    requires
        s.query == Query::References,
        s.context,
        found.candidates.len() > 0,
        scopes_are_told_by_their_start(
            engine,
            engine.references_spec(target, found.candidates, files),
            files,
        ),
    ensures
        ({
            let r = answer(command, target, s, found, engine, macros, files);
            let hits = engine.references_spec(target, found.candidates, files);
            &&& forall|m: int|
                0 <= m < r.contexts.len() ==> is_of_a_hit(
                    #[trigger] r.contexts[m],
                    engine,
                    hits,
                    files,
                )
            &&& r.contexts.len() < s.max_candidates || r.contexts.len() == 0 ==> forall|
                j: int,
                span: Span,
            |
                0 <= j < hits.len() && #[trigger] has_scope(engine, hits[j], files, span)
                    ==> is_shown(r.contexts, hits[j], files, span)
            &&& r.contexts.len() <= s.max_candidates || r.contexts.len() == 1
            &&& r.contexts.len() > 0 ==> r.locations.len() == 0 && (r.truncated <==> found.truncated
                || r.contexts.len() >= s.max_candidates)
        }),
{
    let hits = engine.references_spec(target, found.candidates, files);
    let max = s.max_candidates as int;
    let n = hits.len() as int;
    scan_shows(hits, engine, max, files, n);
    contexts_are_capped(hits, engine, max, files, n);
    let c = scanned(hits, engine, max, files, n).contexts;
    let r = answer(command, target, s, found, engine, macros, files);
    if c.len() > 0 {
        assert(r.contexts == c);
    } else {
        assert(r.contexts =~= c);
    }
}

/// Are contexts those of the hits at the given positions, in order?
pub open spec fn are_contexts_at(
    contexts: Seq<RefContextView>,
    hits: Seq<CandidateView>,
    at: Seq<int>,
) -> bool {
    &&& at.len() == contexts.len()
    &&& forall|m: int|
        0 <= m < at.len() ==> 0 <= #[trigger] at[m] < hits.len() && contexts[m].file
            == hits[at[m]].file_path && contexts[m].line == hits[at[m]].line
    &&& forall|m: int, n: int| 0 <= m < n < at.len() ==> #[trigger] at[m] < #[trigger] at[n]
}

proof fn contexts_at<E: Engine>(
    hits: Seq<CandidateView>,
    engine: E,
    max: int,
    files: Seq<SourceFileView>,
    k: int,
) -> (at: Seq<int>)
    requires
        0 <= k <= hits.len(),
    ensures
        are_contexts_at(scanned(hits, engine, max, files, k).contexts, hits, at),
        forall|m: int| 0 <= m < at.len() ==> #[trigger] at[m] < k,
    decreases k,
{
    if k <= 0 {
        Seq::empty()
    } else {
        let before = contexts_at(hits, engine, max, files, k - 1);
        let old = scanned(hits, engine, max, files, k - 1).contexts;
        let new = scanned(hits, engine, max, files, k).contexts;
        if new.len() == old.len() {
            assert(new == old);
            before
        } else {
            let at = before.push(k - 1);
            assert forall|m: int| 0 <= m < at.len() implies 0 <= #[trigger] at[m] < hits.len()
                && new[m].file == hits[at[m]].file_path && new[m].line == hits[at[m]].line by {
                if m < before.len() {
                    assert(at[m] == before[m]);
                    assert(new[m] == old[m]);
                }
            }
            assert forall|m: int, n: int| 0 <= m < n < at.len() implies #[trigger] at[m]
                < #[trigger] at[n] by {
                assert(at[m] == before[m]);
                if n < before.len() {
                    assert(at[n] == before[n]);
                }
            }
            at
        }
    }
}

/// Contexts come in the order of the hits, each with the line of the hit that it is
/// shown for.
pub proof fn contexts_come_in_order<E: Engine>(
    command: Seq<char>,
    target: Seq<char>,
    s: Settings,
    found: FinderResultView,
    engine: E,
    macros: Macros,
    files: Seq<SourceFileView>,
)
    requires
        s.query == Query::References,
        s.context,
        found.candidates.len() > 0,
    ensures
        exists|at: Seq<int>| #[trigger]
            are_contexts_at(
                answer(command, target, s, found, engine, macros, files).contexts,
                engine.references_spec(target, found.candidates, files),
                at,
            ),
{
    let hits = engine.references_spec(target, found.candidates, files);
    let max = s.max_candidates as int;
    let at = contexts_at(hits, engine, max, files, hits.len() as int);
    let c = scanned(hits, engine, max, files, hits.len() as int).contexts;
    let r = answer(command, target, s, found, engine, macros, files);
    if c.len() > 0 {
        assert(r.contexts == c);
    } else {
        assert(r.contexts =~= c);
    }
    assert(are_contexts_at(r.contexts, hits, at));
}

/// Without contexts, or where no hit has one, the distinct lines of the hits that may
/// refer to the target are listed, in their order.
pub proof fn locations_come_in_order<E: Engine>(
    command: Seq<char>,
    target: Seq<char>,
    s: Settings,
    found: FinderResultView,
    engine: E,
    macros: Macros,
    files: Seq<SourceFileView>,
    k: int,
)
    requires
        s.query == Query::References,
        found.candidates.len() > 0,
        answer(command, target, s, found, engine, macros, files).contexts.len() == 0,
    ensures
        ({
            let r = answer(command, target, s, found, engine, macros, files);
            let hits = engine.references_spec(target, found.candidates, files);
            let once = distinct_lines(hits, hits.len() as int);
            &&& r.locations.len() == once.len()
            &&& 0 <= k < once.len() ==> r.locations[k].file == once[k].file_path
                && r.locations[k].line == once[k].line
        }),
{
}

// ---------------------------------------------------------------------------
// Windows
// ---------------------------------------------------------------------------

/// Does a line begin as a comment does or goes on?
pub open spec fn reads_as_comment(l: Seq<char>) -> bool {
    let t = trimmed(l);
    has_prefix(t, "//"@) || has_prefix(t, "/*"@) || has_prefix(t, "*"@)
}

/// Does a line open a block comment?
pub open spec fn opens_block(l: Seq<char>) -> bool {
    has_prefix(trimmed(l), "/*"@)
}

/// The comment block above a line is made of lines that read as comments, up to that
/// line; only its first may open a block comment; and what stands above it does not read
/// as a comment, unless the block opens there.
pub proof fn comment_blocks_are_whole(ls: Seq<Seq<char>>, i: int)
    requires
        0 <= i <= ls.len(),
    ensures
        ({
            let top = comment_top(ls, i);
            &&& 0 <= top <= i
            &&& forall|m: int| top <= m < i ==> reads_as_comment(#[trigger] ls[m])
            &&& forall|m: int| top < m < i ==> !opens_block(#[trigger] ls[m])
            &&& top > 0 ==> !reads_as_comment(ls[top - 1]) || (top < i && opens_block(ls[top]))
        }),
    decreases i,
{
    if i > 0 {
        comment_blocks_are_whole(ls, i - 1);
        let t = trimmed(ls[i - 1]);
        reveal_strlit("//");
        reveal_strlit("/*");
        reveal_strlit("*");
        if has_prefix(t, "//"@) {
            assert(t.subrange(0, 2)[1] == '/');
            if has_prefix(t, "/*"@) {
                assert(t.subrange(0, 2)[1] == '*');
            }
        } else if has_prefix(t, "*"@) {
            assert(t.subrange(0, 1)[0] == '*');
            if has_prefix(t, "/*"@) {
                assert(t.subrange(0, 2)[0] == '/');
            }
        }
    }
}

/// Is `buffer` the text of the lines from `before` above the 1-based `line` to `after`
/// below it, as many as asked for to either side unless the text ends, and with the
/// comment block above the line?
pub open spec fn is_window(
    text: Seq<char>,
    line: int,
    window: int,
    buffer: Seq<char>,
    before: int,
    after: int,
) -> bool {
    let ls = lines(text, 0);
    let i = line - 1;
    &&& 0 <= before <= i
    &&& 0 <= after < ls.len() - i
    &&& buffer == joined(ls.subrange(i - before, i + after + 1), "\n"@)
    &&& before >= window || before == i
    &&& after == window || i + after + 1 == ls.len()
    &&& after <= window
    &&& i - before <= comment_top(ls, i)
    &&& before > window ==> i - before == comment_top(ls, i)
}

/// Is a window, with the place that it claims, what the file of a hit holds around the
/// hit: the lines around it, or the hit's own line where the file cannot be read or
/// decoded?
pub open spec fn shows_hit(
    files: Seq<SourceFileView>,
    hit: CandidateView,
    window: int,
    buffer: Seq<char>,
    before: int,
    after: int,
) -> bool {
    match contents(files, hit.file_path) {
        Some(src) => if valid_utf8(src) {
            1 <= hit.line <= lines(decode_utf8(src), 0).len() ==> is_window(
                decode_utf8(src),
                hit.line as int,
                window,
                buffer,
                before,
                after,
            )
        } else {
            buffer == hit.snippet && before == 0 && after == 0
        },
        None => buffer == hit.snippet && before == 0 && after == 0,
    }
}

proof fn hit_windows_show_hits(files: Seq<SourceFileView>, hit: CandidateView, window: usize)
    ensures
        ({
            let w = hit_window(files, hit, window as int);
            shows_hit(
                files,
                hit,
                window as int,
                w.text,
                (w.before as usize) as int,
                (w.after as usize) as int,
            )
        }),
{
    if let Some(src) = contents(files, hit.file_path) {
        if valid_utf8(src) {
            let text = decode_utf8(src);
            let ls = lines(text, 0);
            if 1 <= hit.line <= ls.len() {
                windows_hold_their_line(text, hit.line as int, window as int);
                comment_blocks_are_whole(ls, hit.line - 1);
            }
        }
    }
}

/// A fallback answer shows, for each of the distinct lines with a hit, in order and up
/// to the limit, the lines of the file around it. It holds one window, or a list of them
/// where more than one is shown, and says that it is cut short if lines with hits are
/// left out.
pub proof fn fallback_windows_show_the_lines_around<E: Engine>(
    command: Seq<char>,
    target: Seq<char>,
    s: Settings,
    found: FinderResultView,
    engine: E,
    macros: Macros,
    files: Seq<SourceFileView>,
)
    requires
        answer(command, target, s, found, engine, macros, files).status == Status::Fallback,
    ensures
        ({
            let r = answer(command, target, s, found, engine, macros, files);
            let hits = distinct_lines(found.candidates, found.candidates.len() as int);
            let cap = if s.max_results == 0 { 1 } else { s.max_results as int };
            let shown = if r.windows.len() == 0 { 1 } else { r.windows.len() as int };
            &&& hits.len() > 0
            &&& shown == (if hits.len() < cap { hits.len() as int } else { cap })
            &&& r.truncated <==> found.truncated || hits.len() > shown
            &&& forall|k: int|
                0 <= k < r.windows.len() ==> (#[trigger] r.windows[k]).file_path
                    == hits[k].file_path && r.windows[k].approximate_line == hits[k].line
                    && shows_hit(
                    files,
                    hits[k],
                    s.window as int,
                    r.windows[k].content_buffer,
                    r.windows[k].window_before as int,
                    r.windows[k].window_after as int,
                )
            &&& r.windows.len() == 0 ==> r.file_path == Some(hits[0].file_path)
                && r.approximate_line == Some(hits[0].line) && r.content_buffer is Some
                && r.window_before is Some && r.window_after is Some && shows_hit(
                files,
                hits[0],
                s.window as int,
                r.content_buffer->0,
                r.window_before->0 as int,
                r.window_after->0 as int,
            )
            &&& r.windows.len() != 1
        }),
{
    let r = answer(command, target, s, found, engine, macros, files);
    let n = found.candidates.len() as int;
    let hits = distinct_lines(found.candidates, n);
    lines_are_listed_once(found.candidates, n);
    assert(n > 0 && s.query != Query::References);
    assert(crate::commands::has_line(hits, found.candidates[0]));
    let shown = shown_of(hits.len() as int, s.max_results as int);
    if shown <= 1 {
        hit_windows_show_hits(files, hits[0], s.window);
    } else {
        assert forall|k: int| 0 <= k < r.windows.len() implies (#[trigger] r.windows[k]).file_path
            == hits[k].file_path && r.windows[k].approximate_line == hits[k].line && shows_hit(
            files,
            hits[k],
            s.window as int,
            r.windows[k].content_buffer,
            r.windows[k].window_before as int,
            r.windows[k].window_after as int,
        ) by {
            hit_windows_show_hits(files, hits[k], s.window);
            assert(r.windows[k] == window_entry(files, hits[k], s.window as int));
        }
    }
}

/// Are `part` the items of `all` at the given positions, in order?
pub open spec fn is_selection<A>(part: Seq<A>, all: Seq<A>, at: Seq<int>) -> bool {
    &&& at.len() == part.len()
    &&& forall|m: int| 0 <= m < at.len() ==> 0 <= #[trigger] at[m] < all.len() && part[m] == all[at[m]]
    &&& forall|m: int, n: int| 0 <= m < n < at.len() ==> #[trigger] at[m] < #[trigger] at[n]
}

proof fn distinct_lines_at(candidates: Seq<CandidateView>, k: int) -> (at: Seq<int>)
    requires
        0 <= k <= candidates.len(),
    ensures
        is_selection(distinct_lines(candidates, k), candidates, at),
        forall|m: int| 0 <= m < at.len() ==> #[trigger] at[m] < k,
    decreases k,
{
    if k <= 0 {
        Seq::empty()
    } else {
        let before = distinct_lines_at(candidates, k - 1);
        if crate::commands::has_line(distinct_lines(candidates, k - 1), candidates[k - 1]) {
            before
        } else {
            let at = before.push(k - 1);
            let part = distinct_lines(candidates, k);
            assert forall|m: int| 0 <= m < at.len() implies 0 <= #[trigger] at[m] < candidates.len()
                && part[m] == candidates[at[m]] by {
                if m < before.len() {
                    assert(at[m] == before[m]);
                }
            }
            assert forall|m: int, n: int| 0 <= m < n < at.len() implies #[trigger] at[m]
                < #[trigger] at[n] by {
                assert(at[m] == before[m]);
                if n < before.len() {
                    assert(at[n] == before[n]);
                }
            }
            at
        }
    }
}

/// The distinct lines with a hit are some of the hits, in their order: no line twice,
/// and none left out.
pub proof fn distinct_lines_are_selected(candidates: Seq<CandidateView>)
    ensures
        ({
            let once = distinct_lines(candidates, candidates.len() as int);
            &&& exists|at: Seq<int>| #[trigger] is_selection(once, candidates, at)
            &&& forall|i: int, j: int|
                0 <= i < j < once.len() ==> !same_line(#[trigger] once[i], #[trigger] once[j])
            &&& forall|i: int|
                0 <= i < candidates.len() ==> exists|j: int|
                    0 <= j < once.len() && same_line(#[trigger] once[j], #[trigger] candidates[i])
        }),
{
    let n = candidates.len() as int;
    let once = distinct_lines(candidates, n);
    let at = distinct_lines_at(candidates, n);
    lines_are_listed_once(candidates, n);
    assert forall|i: int| 0 <= i < candidates.len() implies exists|j: int|
        0 <= j < once.len() && same_line(#[trigger] once[j], #[trigger] candidates[i]) by {
        assert(crate::commands::has_line(once, candidates[i]));
        let j = choose|j: int|
            0 <= j < once.len() && (#[trigger] once[j]).line == candidates[i].line && same_path(
                once[j].file_path,
                candidates[i].file_path,
            );
        assert(same_line(once[j], candidates[i]));
    }
}

// ---------------------------------------------------------------------------
// Matches
// ---------------------------------------------------------------------------

/// A query is answered by what the engine finds; where it finds nothing, by what the
/// syntax tree gives; and where nothing is declared, by what is defined, with a note to
/// that effect.
pub proof fn matches_come_from_the_first_that_has_any<E: Engine>(
    query: Query,
    target: Seq<char>,
    candidates: Seq<CandidateView>,
    engine: E,
    macros: Macros,
    files: Seq<SourceFileView>,
)
    requires
        query != Query::References,
    ensures
        ({
            let m = matches_of(query, target, candidates, engine, macros, files);
            let own = if query == Query::Definition {
                engine.definitions_spec(target, candidates, files)
            } else {
                engine.declarations_spec(target, candidates, files)
            };
            let other = if engine.name_spec() == "tree-sitter"@ {
                Seq::empty()
            } else if query == Query::Definition {
                macros.resolved(target, candidates, Mode::Definition, files)
            } else {
                macros.resolved(target, candidates, Mode::Declaration, files)
            };
            &&& own.len() > 0 ==> m.resolutions == own && !m.stand_in
            &&& own.len() == 0 && other.len() > 0 ==> m.resolutions == other && !m.stand_in
            &&& own.len() == 0 && other.len() == 0 && query == Query::Definition
                ==> m.resolutions.len() == 0 && !m.stand_in
            &&& own.len() == 0 && other.len() == 0 && query == Query::Declaration ==> m.stand_in
                && m.resolutions == macros.resolved(target, candidates, Mode::Definition, files)
        }),
{
}

/// Does a record carry a resolution whole: where it is, its text, and what is known of
/// it?
pub open spec fn carries(r: RecordView, x: ResolutionView) -> bool {
    &&& r.file_path == Some(x.source_ref.file_path)
    &&& r.start_line == Some(x.source_ref.span.start_line)
    &&& r.end_line == Some(x.source_ref.span.end_line)
    &&& r.start_byte == Some(x.source_ref.span.start_byte)
    &&& r.end_byte == Some(x.source_ref.span.end_byte)
    &&& r.content == Some(lossy(x.content_bytes))
    &&& r.signature == x.symbol.signature
    &&& r.type_spelling == x.symbol.type_spelling
    &&& r.doc == x.symbol.doc
    &&& r.qualified_name == x.symbol.qualified_name
    &&& r.engine == Some(x.engine)
}

/// A single match is shown whole. Widened, it is the class or struct around its start,
/// cut out of the same file; it is widened if and only if that is asked for, a
/// definition is sought and there is one.
pub proof fn single_matches_are_shown_whole<E: Engine>(
    command: Seq<char>,
    target: Seq<char>,
    s: Settings,
    found: FinderResultView,
    engine: E,
    macros: Macros,
    files: Seq<SourceFileView>,
)
    requires
        found.candidates.len() > 0,
        s.query != Query::References,
        matches_of(
            s.query,
            target,
            found.candidates,
            engine,
            macros,
            files,
        ).resolutions.len() == 1,
    ensures
        ({
            let r = answer(command, target, s, found, engine, macros, files);
            let x = matches_of(
                s.query,
                target,
                found.candidates,
                engine,
                macros,
                files,
            ).resolutions[0];
            let path = x.source_ref.file_path;
            let around = engine.class_scope_spec(path, x.source_ref.span.start_byte, files);
            let src = contents(files, path);
            let wide = s.scope && s.query == Query::Definition && around is Some && src is Some
                && around->0.start_byte <= around->0.end_byte <= src->0.len();
            &&& r.truncated == found.truncated
            &&& !wide ==> carries(r, x)
            &&& wide ==> r.file_path == Some(path) && r.start_byte == Some(around->0.start_byte)
                && r.end_byte == Some(around->0.end_byte) && r.start_line == Some(
                around->0.start_line,
            ) && r.end_line == Some(around->0.end_line) && r.content == Some(
                lossy(
                    src->0.subrange(around->0.start_byte as int, around->0.end_byte as int),
                ),
            ) && r.qualified_name == x.symbol.qualified_name
        }),
{
}

/// Several matches, but no more than asked for, are all shown whole, in order; more are
/// listed by file, line and first line of text, none left out.
pub proof fn several_matches_are_all_shown<E: Engine>(
    command: Seq<char>,
    target: Seq<char>,
    s: Settings,
    found: FinderResultView,
    engine: E,
    macros: Macros,
    files: Seq<SourceFileView>,
    k: int,
)
    requires
        found.candidates.len() > 0,
        s.query != Query::References,
        ({
            let m = matches_of(s.query, target, found.candidates, engine, macros, files);
            m.resolutions.len() > 1 && 0 <= k < m.resolutions.len()
        }),
    ensures
        ({
            let r = answer(command, target, s, found, engine, macros, files);
            let all = matches_of(
                s.query,
                target,
                found.candidates,
                engine,
                macros,
                files,
            ).resolutions;
            let x = all[k];
            let text = lines(lossy(x.content_bytes), 0);
            &&& r.truncated == found.truncated
            &&& all.len() <= s.max_results ==> r.results.len() == all.len() && r.results[k].file_path
                == x.source_ref.file_path && r.results[k].start_line == x.source_ref.span.start_line
                && r.results[k].end_line == x.source_ref.span.end_line && r.results[k].start_byte
                == Some(x.source_ref.span.start_byte) && r.results[k].end_byte == Some(
                x.source_ref.span.end_byte,
            ) && r.results[k].content == Some(lossy(x.content_bytes)) && r.results[k].signature
                == x.symbol.signature && r.results[k].type_spelling == x.symbol.type_spelling
                && r.results[k].doc == x.symbol.doc && r.results[k].qualified_name
                == x.symbol.qualified_name
            &&& all.len() > s.max_results ==> r.candidates.len() == all.len() && r.results.len()
                == 0 && r.content is None && r.candidates[k].file_path == x.source_ref.file_path
                && r.candidates[k].line == x.source_ref.span.start_line && r.candidates[k].snippet
                == Some(if text.len() > 0 { text[0] } else { Seq::empty() })
        }),
{
}

// ---------------------------------------------------------------------------
// Targets
// ---------------------------------------------------------------------------

/// Does a line of a manifest name a target: is it neither blank nor a comment?
pub open spec fn names_a_target(l: Seq<char>) -> bool {
    trimmed(l).len() > 0 && !has_prefix(trimmed(l), "#"@)
}

proof fn mentions_are_kept(s: Seq<Seq<char>>, k: int, x: Seq<char>)
    requires
        0 <= k <= s.len(),
    ensures
        first_mentions(s, k).contains(x) <==> exists|j: int| 0 <= j < k && #[trigger] s[j] == x,
    decreases k,
{
    if k > 0 {
        mentions_are_kept(s, k - 1, x);
        let before = first_mentions(s, k - 1);
        let all = first_mentions(s, k);
        if all.contains(x) && !before.contains(x) {
            let m = choose|m: int| 0 <= m < all.len() && all[m] == x;
            if m < before.len() {
                assert(before[m] == x);
            }
            assert(s[k - 1] == x);
        }
        if before.contains(x) {
            let m = choose|m: int| 0 <= m < before.len() && before[m] == x;
            assert(all[m] == x);
        }
        if s[k - 1] == x && !before.contains(x) {
            assert(all[all.len() - 1] == x);
        }
    }
}

proof fn mentions_at(s: Seq<Seq<char>>, k: int) -> (at: Seq<int>)
    requires
        0 <= k <= s.len(),
    ensures
        is_selection(first_mentions(s, k), s, at),
        forall|m: int| 0 <= m < at.len() ==> #[trigger] at[m] < k,
    decreases k,
{
    if k <= 0 {
        Seq::empty()
    } else {
        let before = mentions_at(s, k - 1);
        if first_mentions(s, k - 1).contains(s[k - 1]) {
            before
        } else {
            let at = before.push(k - 1);
            let part = first_mentions(s, k);
            assert forall|m: int| 0 <= m < at.len() implies 0 <= #[trigger] at[m] < s.len()
                && part[m] == s[at[m]] by {
                if m < before.len() {
                    assert(at[m] == before[m]);
                }
            }
            assert forall|m: int, n: int| 0 <= m < n < at.len() implies #[trigger] at[m]
                < #[trigger] at[n] by {
                assert(at[m] == before[m]);
                if n < before.len() {
                    assert(at[n] == before[n]);
                }
            }
            at
        }
    }
}

proof fn manifest_lines_in_order(ls: Seq<Seq<char>>, k: int)
    requires
        0 <= k <= ls.len(),
    ensures
        manifest_targets(ls, k) == ls.take(k).filter(|l: Seq<char>| names_a_target(l)).map_values(
            |l: Seq<char>| trimmed(l),
        ),
    decreases k,
{
    reveal(Seq::filter);
    let pick = |l: Seq<char>| names_a_target(l);
    let trim = |l: Seq<char>| trimmed(l);
    if k > 0 {
        manifest_lines_in_order(ls, k - 1);
        assert(ls.take(k).drop_last() =~= ls.take(k - 1));
        assert(ls.take(k).last() == ls[k - 1]);
        let before = ls.take(k - 1).filter(pick);
        if names_a_target(ls[k - 1]) {
            assert(before.push(ls[k - 1]).map_values(trim) =~= before.map_values(trim).push(
                trimmed(ls[k - 1]),
            ));
        }
    } else {
        assert(ls.take(0) =~= Seq::empty());
        assert(ls.take(0).filter(pick).map_values(trim) =~= Seq::empty());
    }
}

/// The names that a run is given: those on the command line and those that the lines of
/// the manifest name, in order.
pub open spec fn given_names(names: Seq<Seq<char>>, manifest: Option<Seq<char>>) -> Seq<Seq<char>> {
    match manifest {
        Some(text) => names + lines(text, 0).filter(
            |l: Seq<char>| names_a_target(l),
        ).map_values(|l: Seq<char>| trimmed(l)),
        None => names,
    }
}

/// The targets of a run are the names on the command line and then those that the lines
/// of the manifest name, in the order in which they are given, each once, and no others.
pub proof fn targets_are_what_is_named(
    names: Seq<Seq<char>>,
    manifest: Option<Seq<char>>,
    x: Seq<char>,
)
    ensures
        targets_of(names, manifest).contains(x) <==> given_names(names, manifest).contains(x),
        exists|at: Seq<int>| #[trigger]
            is_selection(targets_of(names, manifest), given_names(names, manifest), at),
        targets_of(names, manifest).no_duplicates(),
{
    let all = given_names(names, manifest);
    let n = all.len() as int;
    if let Some(text) = manifest {
        let ls = lines(text, 0);
        manifest_lines_in_order(ls, ls.len() as int);
        assert(ls.take(ls.len() as int) =~= ls);
    }
    assert(targets_of(names, manifest) == first_mentions(all, n));
    mentions_are_kept(all, n, x);
    crate::commands::targets_are_distinct(all, n);
    if all.contains(x) {
        let j = choose|j: int| 0 <= j < n && all[j] == x;
        assert(all[j] == x);
    }
    let at = mentions_at(all, n);
    assert(is_selection(targets_of(names, manifest), all, at));
}

// ---------------------------------------------------------------------------
// Messages
// ---------------------------------------------------------------------------

/// The record of references says how many there are; if the target was not found, or
/// definitions stand in for declarations, or a scope is widened, the record says so.
pub proof fn records_say_what_they_hold<E: Engine>(
    command: Seq<char>,
    target: Seq<char>,
    s: Settings,
    found: FinderResultView,
    engine: E,
    macros: Macros,
    files: Seq<SourceFileView>,
)
    ensures
        ({
            let r = answer(command, target, s, found, engine, macros, files);
            let m = matches_of(s.query, target, found.candidates, engine, macros, files);
            &&& found.candidates.len() == 0 ==> r.message == Some(
                "No textual or semantic match in the searched roots."@,
            )
            &&& found.candidates.len() > 0 && s.query == Query::References && !s.context
                ==> r.message == Some("Found "@ + decimal(r.locations.len()) + " references."@)
                && r.truncated == found.truncated
            &&& found.candidates.len() > 0 && s.query == Query::References && r.contexts.len() > 0
                ==> r.message == Some(
                "Found "@ + decimal(r.contexts.len()) + " references with context."@,
            )
            &&& found.candidates.len() > 0 && s.query != Query::References && m.stand_in
                && m.resolutions.len() == 1 ==> r.message == Some(
                "No forward declaration found; showing definition instead."@,
            )
            &&& found.candidates.len() > 0 && s.query != Query::References && !m.stand_in
                && 1 < m.resolutions.len() <= s.max_results ==> r.message == Some(
                "Found "@ + decimal(m.resolutions.len()) + " matches."@,
            )
        }),
{
}

/// Declarations are looked for in headers first; nothing else is. The search is for the
/// extensions and with the cap of the command line.
pub proof fn declarations_are_looked_for_in_headers(
    cli: Cli,
    target: Seq<char>,
    files: Seq<SourceFileView>,
)
    ensures
        candidates_of(cli, target, files) == crate::search::found(
            target,
            extensions_of(cli),
            cli.max_candidates as int,
            cli.command is FindDecl,
            files,
        ),
{
}

/// The macros that a run reports are those that a candidate file of a target that fell
/// short holds unconfirmed, and no others.
#[verifier::rlimit(60)]
pub proof fn macros_are_reported_where_targets_fall_short<E: Engine>(
    cli: Cli,
    targets: Seq<Seq<char>>,
    engine: E,
    files: Seq<SourceFileView>,
    k: int,
    x: Seq<char>,
)
    requires
        0 <= k <= targets.len(),
    ensures
        unconfirmed_macros(cli, targets, engine, files, k).contains(x) <==> exists|i: int|
            0 <= i < k && is_reported_for(cli, targets, engine, files, #[trigger] targets[i], x),
    decreases k,
{
    if k > 0 {
        macros_are_reported_where_targets_fall_short(cli, targets, engine, files, k - 1, x);
        let t = targets[k - 1];
        let before = unconfirmed_macros(cli, targets, engine, files, k - 1);
        let hits = candidates_of(cli, t, files).candidates;
        let paths = distinct_files(hits, hits.len() as int);
        let confirmed = views(cli.empty_macro@).to_set().union(
            discovered_macros(cli, targets, files),
        );
        crate::laws::scanning::reports_are_gathered_over_files(
            before,
            paths,
            confirmed,
            files,
            paths.len() as int,
            x,
        );
    }
}

/// Does a target that falls short have a candidate in a file that holds the name as an
/// unconfirmed macro, in a run that parses files?
pub open spec fn is_reported_for<E: Engine>(
    cli: Cli,
    targets: Seq<Seq<char>>,
    engine: E,
    files: Seq<SourceFileView>,
    target: Seq<char>,
    x: Seq<char>,
) -> bool {
    let r = answer_to(cli, targets, target, engine, files);
    let hits = candidates_of(cli, target, files).candidates;
    let paths = distinct_files(hits, hits.len() as int);
    let confirmed = views(cli.empty_macro@).to_set().union(discovered_macros(cli, targets, files));
    &&& needs_macros(settings_of(cli), targets)
    &&& r.status == Status::Fallback || r.status == Status::Ambiguous
    &&& exists|j: int|
        0 <= j < paths.len() && (contents(files, #[trigger] paths[j]) matches Some(src) && suspects(
            src,
            confirmed,
        ).contains(x))
}

} // verus!
