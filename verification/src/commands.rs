//! Per-command pipelines.
//!
//! Each target runs the degradation ladder: the engine resolves one match, which
//! is `resolved`; several, within the limit, all shown; more than that, which is
//! `ambiguous`; none but the text mentions the target, which is `fallback`; or
//! nothing, which is `not_found`. References are a list of locations or, with
//! context, of the scopes around them.

use crate::budget::{apply_budget, budgeted};
use crate::cli::{names_of, Cli, Command};
use crate::engine::macros::{suspects, unconfirmed_annotations};
use crate::engine::outline::Mode;
use crate::engine::syntactic::{
    distinct_files, distinct_files_of, is_around, references_are_only_dropped,
    resolutions_are_verbatim_and_ordered, verbatim, Macros,
};
use crate::engine::{Engine, SemanticEngine, SyntacticEngine};
use crate::model::{Kind, Resolution, ResolutionView, SourceRefView};
use crate::names::NameSet;
use crate::output::{
    project, projected, wanted, Candidate as Choice, ChoiceView, FallbackWindow,
    FallbackWindowView, Record, RecordView, RefContext, RefContextView, RefLocation,
    RefLocationView, Status, TextWindow, TextWindowView,
};
use crate::paths::{is_same_path, same_path};
use crate::search::{
    default_extension_names, default_extensions, defined_in, discover_defines, find_candidates,
    found, pattern_builds, word_pattern, Candidate, CandidateView, FinderConfig, FinderResult,
    FinderResultView, SearchError,
};
use crate::sources::{contents, read, SourceFile, SourceFileView};
use crate::text::{
    clone_strings, comes_before, concat3, contains, decimal, decimal_of, from_utf8,
    from_utf8_lossy, has_infix, has_prefix, is_empty, join, joined, last_component, lines, lines_of, lossy, opt_view,
    same_str, starts_with, text_before, text_before_total, text_before_transitive, trim,
    trimmed, views,
};
use vstd::prelude::*;
use vstd::slice::{slice_subrange, slice_to_vec};
use vstd::string::*;
use vstd::utf8::{decode_utf8, valid_utf8};

verus! {

/// Which resolution a command asks the engine for.
#[derive(Clone, Copy, Debug, PartialEq, Eq, Structural)]
pub enum Query {
    Definition,
    Declaration,
    References,
}

/// The `resolution_type` of a resolved record.
pub open spec fn type_label(query: Query, kind: Kind) -> Seq<char> {
    match query {
        Query::Declaration => "declaration"@,
        Query::Definition => match kind {
            Kind::Function | Kind::Method => "function_definition"@,
            Kind::Variable | Kind::Member => "variable_definition"@,
            Kind::Template => "template_definition"@,
            Kind::Class => "class_definition"@,
            Kind::Struct => "struct_definition"@,
            Kind::Macro => "macro_definition"@,
        },
        Query::References => "reference"@,
    }
}

/// The `resolution_type` of a resolved record.
pub fn resolution_type(query: Query, kind: Kind) -> (r: String)
    ensures
        r@ == type_label(query, kind),
{
    match query {
        Query::Declaration => "declaration".to_owned(),
        Query::Definition => match kind {
            Kind::Function | Kind::Method => "function_definition".to_owned(),
            Kind::Variable | Kind::Member => "variable_definition".to_owned(),
            Kind::Template => "template_definition".to_owned(),
            Kind::Class => "class_definition".to_owned(),
            Kind::Struct => "struct_definition".to_owned(),
            Kind::Macro => "macro_definition".to_owned(),
        },
        Query::References => "reference".to_owned(),
    }
}

// ---------------------------------------------------------------------------
// Text windows
// ---------------------------------------------------------------------------

/// The first line of the comment block that ends just above line `i`, without a
/// blank line between; `i` itself if there is none.
pub open spec fn comment_top(ls: Seq<Seq<char>>, i: int) -> int
    decreases i,
{
    if i <= 0 {
        i
    } else {
        let t = trimmed(ls[i - 1]);
        if t.len() == 0 {
            i
        } else if has_prefix(t, "//"@) {
            comment_top(ls, i - 1)
        } else if has_prefix(t, "/*"@) {
            i - 1
        } else if has_prefix(t, "*"@) {
            comment_top(ls, i - 1)
        } else {
            i
        }
    }
}

/// The first line of the comment block above line `hit`, which may be past the
/// last line.
pub fn find_comment_block_start(ls: &[String], hit: usize) -> (r: usize)
    requires
        hit <= ls@.len(),
    ensures
        r == comment_top(views(ls@), hit as int),
        r <= hit,
{
    let mut i: usize = hit;
    while i > 0
        invariant
            i <= hit <= ls@.len(),
            comment_top(views(ls@), i as int) == comment_top(views(ls@), hit as int),
        decreases i,
    {
        assert(views(ls@)[i - 1] == ls@[i - 1]@);
        let t = trim(&ls[i - 1]);
        if is_empty(&t) {
            return i;
        } else if starts_with(&t, "//") {
            i -= 1;
        } else if starts_with(&t, "/*") {
            return i - 1;
        } else if starts_with(&t, "*") {
            i -= 1;
        } else {
            return i;
        }
    }
    i
}

/// A window of lines: its text and the numbers of lines before and after the one
/// it is about.
pub struct WindowView {
    pub text: Seq<char>,
    pub before: int,
    pub after: int,
}

/// The window of `window` lines to either side of the 1-based `line`, clamped to
/// the text, and extended upward over the comment block just above the line.
pub open spec fn window_of(text: Seq<char>, line: int, window: int) -> WindowView {
    let ls = lines(text, 0);
    if ls.len() == 0 {
        WindowView { text: Seq::empty(), before: 0, after: 0 }
    } else {
        let wanted = if line < 1 { 0 } else { line - 1 };
        let idx = if wanted < ls.len() { wanted } else { ls.len() - 1 };
        let lowest = if idx >= window { idx - window } else { 0 };
        let top = comment_top(ls, idx);
        let start = if top < lowest { top } else { lowest };
        let end = if idx + window + 1 < ls.len() { idx + window + 1 } else { ls.len() as int };
        WindowView {
            text: joined(ls.subrange(start, end), "\n"@),
            before: idx - start,
            after: end - idx - 1,
        }
    }
}

/// The window around a line of a text.
pub fn window_in(text: &str, line: usize, window: usize) -> (r: (String, usize, usize))
    ensures
        (WindowView { text: r.0@, before: r.1 as int, after: r.2 as int }) == window_of(
            text@,
            line as int,
            window as int,
        ),
{
    let all = lines_of(text);
    let ghost ls = lines(text@, 0);
    assert(ls.len() == all@.len());
    let n = all.len();
    if n == 0 {
        let s = String::new();
        assert(s@ =~= Seq::empty());
        return (s, 0, 0);
    }
    let wanted: usize = if line < 1 { 0 } else { line - 1 };
    let idx: usize = if wanted < n { wanted } else { n - 1 };
    let lowest: usize = if idx >= window { idx - window } else { 0 };
    let end: usize = if window < n - idx - 1 { idx + window + 1 } else { n };
    let top = find_comment_block_start(&all, idx);
    let start: usize = if top < lowest { top } else { lowest };
    let part = slice_subrange(all.as_slice(), start, end);
    assert(views(part@) =~= ls.subrange(start as int, end as int));
    (join(part, "\n"), idx - start, end - idx - 1)
}

/// What the window around a line of a file shows; `None` if there is no such file
/// or its text cannot be decoded.
pub open spec fn file_window(
    files: Seq<SourceFileView>,
    path: Seq<char>,
    line: int,
    window: int,
) -> Option<WindowView> {
    match contents(files, path) {
        Some(src) => if valid_utf8(src) {
            Some(window_of(decode_utf8(src), line, window))
        } else {
            None
        },
        None => None,
    }
}

/// Reads the window around a line of a file.
pub fn read_window(files: &[SourceFile], path: &str, line: usize, window: usize) -> (r: Option<
    (String, usize, usize),
>)
    ensures
        match r {
            Some(w) => file_window(views(files@), path@, line as int, window as int) == Some(
                WindowView { text: w.0@, before: w.1 as int, after: w.2 as int },
            ),
            None => file_window(views(files@), path@, line as int, window as int) is None,
        },
{
    match read(files, path) {
        Some(src) => match from_utf8(src) {
            Some(text) => Some(window_in(&text, line, window)),
            None => None,
        },
        None => None,
    }
}

// ---------------------------------------------------------------------------
// Distinct hits
// ---------------------------------------------------------------------------

/// Is one of the candidates on the same line of the same file as `c`?
pub open spec fn has_line(hits: Seq<CandidateView>, c: CandidateView) -> bool {
    exists|k: int|
        0 <= k < hits.len() && (#[trigger] hits[k]).line == c.line && same_path(
            hits[k].file_path,
            c.file_path,
        )
}

/// The first candidate of each line among the first `k`, in order.
pub open spec fn distinct_lines(candidates: Seq<CandidateView>, k: int) -> Seq<CandidateView>
    decreases k,
{
    if k <= 0 {
        Seq::empty()
    } else {
        let before = distinct_lines(candidates, k - 1);
        if has_line(before, candidates[k - 1]) {
            before
        } else {
            before.push(candidates[k - 1])
        }
    }
}

fn is_line_listed(hits: &Vec<Candidate>, c: &Candidate) -> (r: bool)
    ensures
        r == has_line(views(hits@), c@),
{
    let mut k: usize = hits.len();
    while k > 0
        invariant
            k <= hits@.len(),
            forall|m: int|
                k <= m < hits@.len() ==> !((#[trigger] views(hits@)[m]).line == c.line && same_path(
                    views(hits@)[m].file_path,
                    c@.file_path,
                )),
        decreases k,
    {
        k -= 1;
        assert(views(hits@)[k as int] == hits@[k as int]@);
        if hits[k].line == c.line && is_same_path(&hits[k].file_path, &c.file_path) {
            return true;
        }
    }
    assert(views(hits@).len() == hits@.len());
    false
}

fn distinct_lines_of(candidates: &Vec<Candidate>) -> (r: Vec<Candidate>)
    ensures
        views(r@) == distinct_lines(views(candidates@), candidates@.len() as int),
{
    let ghost all = views(candidates@);
    let mut out: Vec<Candidate> = Vec::new();
    let mut k: usize = 0;
    assert(views(out@) =~= Seq::empty());
    while k < candidates.len()
        invariant
            k <= candidates@.len(),
            all == views(candidates@),
            views(out@) == distinct_lines(all, k as int),
        decreases candidates@.len() - k,
    {
        assert(all[k as int] == candidates@[k as int]@);
        if !is_line_listed(&out, &candidates[k]) {
            let ghost before = views(out@);
            out.push(candidates[k].clone());
            assert(views(out@) =~= before.push(all[k as int]));
        }
        k += 1;
    }
    out
}

// ---------------------------------------------------------------------------
// Text fallback
// ---------------------------------------------------------------------------

/// The window that stands for a hit; its own line where the file cannot be read.
pub open spec fn hit_window(files: Seq<SourceFileView>, hit: CandidateView, window: int) -> WindowView {
    match file_window(files, hit.file_path, hit.line as int, window) {
        Some(w) => w,
        None => WindowView { text: hit.snippet, before: 0, after: 0 },
    }
}

pub open spec fn window_entry(
    files: Seq<SourceFileView>,
    hit: CandidateView,
    window: int,
) -> FallbackWindowView {
    let w = hit_window(files, hit, window);
    FallbackWindowView {
        file_path: hit.file_path,
        approximate_line: hit.line,
        window_before: w.before as usize,
        window_after: w.after as usize,
        content_buffer: w.text,
    }
}

/// How many of `n` hits are shown, with at most `max_results`, but at least one.
pub open spec fn shown_of(n: int, max_results: int) -> int {
    let cap = if max_results < 1 { 1 } else { max_results };
    if n < cap {
        n
    } else {
        cap
    }
}

/// The record of raw text windows around the distinct hits.
pub open spec fn fallback_answer(
    command: Seq<char>,
    target: Seq<char>,
    found: FinderResultView,
    max_results: int,
    window: int,
    files: Seq<SourceFileView>,
) -> RecordView {
    let hits = distinct_lines(found.candidates, found.candidates.len() as int);
    let shown = shown_of(hits.len() as int, max_results);
    let truncated = found.truncated || hits.len() > shown;
    if shown <= 1 {
        let w = hit_window(files, hits[0], window);
        RecordView {
            truncated,
            ..crate::output::fallback_record(
                command,
                target,
                TextWindowView {
                    file_path: hits[0].file_path,
                    approximate_line: hits[0].line,
                    before: w.before as usize,
                    after: w.after as usize,
                    content_buffer: w.text,
                },
                if command == "find-refs"@ {
                    "Reference locations as a raw text window."@
                } else {
                    "Semantic extraction unavailable for this target; returning raw text window."@
                },
            )
        }
    } else {
        RecordView {
            truncated,
            ..crate::output::fallback_multi_record(
                command,
                target,
                hits.take(shown).map_values(|h: CandidateView| window_entry(files, h, window)),
                "Engine could not bound this target; showing "@ + decimal(shown as nat)
                    + " raw text window(s) around the grep hits."@,
            )
        }
    }
}

fn to_window(files: &[SourceFile], hit: &Candidate, window: usize) -> (r: FallbackWindow)
    ensures
        r@ == window_entry(views(files@), hit@, window as int),
{
    let (content_buffer, before, after) = match read_window(
        files,
        &hit.file_path,
        hit.line,
        window,
    ) {
        Some(w) => w,
        None => (hit.snippet.clone(), 0, 0),
    };
    FallbackWindow {
        file_path: hit.file_path.clone(),
        approximate_line: hit.line,
        window_before: before,
        window_after: after,
        content_buffer,
    }
}

/// Degrades to verbatim windows around the textual hits: one for each distinct
/// line, up to `max_results`.
pub fn text_fallback(
    command: &str,
    target: &str,
    found: &FinderResult,
    max_results: usize,
    window: usize,
    files: &[SourceFile],
) -> (r: Record)
    requires
        found.candidates@.len() > 0,
    ensures
        r@ == fallback_answer(
            command@,
            target@,
            found@,
            max_results as int,
            window as int,
            views(files@),
        ),
{
    let ghost fs = views(files@);
    let hits = distinct_lines_of(&found.candidates);
    let ghost hs = distinct_lines(found@.candidates, found@.candidates.len() as int);
    proof {
        assert(hs.len() == hits@.len());
        distinct_lines_nonempty(found@.candidates, found@.candidates.len() as int);
    }
    let cap: usize = if max_results < 1 { 1 } else { max_results };
    let shown: usize = if hits.len() < cap { hits.len() } else { cap };
    let truncated = found.truncated || hits.len() > shown;
    let mut record = if shown <= 1 {
        assert(hs[0] == hits@[0]@);
        let w = to_window(files, &hits[0], window);
        let window = TextWindow {
            file_path: w.file_path,
            approximate_line: w.approximate_line,
            before: w.window_before,
            after: w.window_after,
            content_buffer: w.content_buffer,
        };
        let message = if same_str(command, "find-refs") {
            "Reference locations as a raw text window.".to_owned()
        } else {
            "Semantic extraction unavailable for this target; returning raw text window.".to_owned()
        };
        Record::fallback(command, target, window, message)
    } else {
        let ghost want = hs.take(shown as int).map_values(
            |h: CandidateView| window_entry(fs, h, window as int),
        );
        let mut windows: Vec<FallbackWindow> = Vec::new();
        let mut k: usize = 0;
        while k < shown
            invariant
                k <= shown <= hits@.len(),
                views(hits@) == hs,
                fs == views(files@),
                want == hs.take(shown as int).map_values(
                    |h: CandidateView| window_entry(fs, h, window as int),
                ),
                views(windows@) =~= want.take(k as int),
            decreases shown - k,
        {
            assert(hs[k as int] == hits@[k as int]@);
            let ghost before = views(windows@);
            windows.push(to_window(files, &hits[k], window));
            assert(views(windows@) =~= before.push(want[k as int]));
            k += 1;
        }
        assert(want.take(k as int) =~= want);
        let message = concat3(
            "Engine could not bound this target; showing ",
            &decimal_of(shown),
            " raw text window(s) around the grep hits.",
        );
        Record::fallback_multi(command, target, windows, message)
    };
    record.truncated = truncated;
    record
}

proof fn distinct_lines_nonempty(candidates: Seq<CandidateView>, k: int)
    requires
        0 < k <= candidates.len(),
    ensures
        distinct_lines(candidates, k).len() > 0,
    decreases k,
{
    if k > 1 {
        distinct_lines_nonempty(candidates, k - 1);
    } else {
        assert(distinct_lines(candidates, 0).len() == 0);
    }
}

// ---------------------------------------------------------------------------
// References
// ---------------------------------------------------------------------------

/// The locations of lines.
pub open spec fn locations_of(hits: Seq<CandidateView>) -> Seq<RefLocationView> {
    hits.map_values(|c: CandidateView| RefLocationView { file: c.file_path, line: c.line })
}

/// The record of the distinct lines that mention the target.
pub open spec fn locations_answer(
    command: Seq<char>,
    target: Seq<char>,
    found: FinderResultView,
) -> RecordView {
    let hits = distinct_lines(found.candidates, found.candidates.len() as int);
    crate::output::references_record(
        command,
        target,
        locations_of(hits),
        found.truncated,
    )
}

/// The locations of the references to a target, each line once.
pub fn resolve_refs_locations(command: &str, target: &str, found: &FinderResult) -> (r: Record)
    ensures
        r@ == locations_answer(command@, target@, found@),
{
    let hits = distinct_lines_of(&found.candidates);
    let ghost hs = views(hits@);
    let ghost want = locations_of(hs);
    let mut locations: Vec<RefLocation> = Vec::new();
    let mut k: usize = 0;
    while k < hits.len()
        invariant
            k <= hits@.len(),
            hs == views(hits@),
            want == locations_of(hs),
            views(locations@) =~= want.take(k as int),
        decreases hits@.len() - k,
    {
        let ghost before = views(locations@);
        locations.push(RefLocation { file: hits[k].file_path.clone(), line: hits[k].line });
        assert(views(locations@) =~= before.push(want[k as int]));
        k += 1;
    }
    assert(want.take(k as int) =~= want);
    Record::references(command, target, locations, found.truncated)
}

/// How far a walk over the hits has come.
pub struct Scan {
    /// The file and start byte of each scope met.
    pub seen: Seq<(Seq<char>, usize)>,
    pub contexts: Seq<RefContextView>,
    /// Has the cap been reached?
    pub full: bool,
}

/// Has a scope been met?
pub open spec fn scope_seen(seen: Seq<(Seq<char>, usize)>, file: Seq<char>, start: usize) -> bool {
    exists|k: int|
        0 <= k < seen.len() && (#[trigger] seen[k]).1 == start && same_path(seen[k].0, file)
}

/// The walk after one more hit: a new scope that can be cut out of its file adds a
/// context; the one that reaches `max` is the last.
pub open spec fn scan_hit<E: Engine>(
    s: Scan,
    hit: CandidateView,
    engine: E,
    max: int,
    files: Seq<SourceFileView>,
) -> Scan {
    match engine.scope_spec(hit.file_path, hit.byte_offset, files) {
        Some(span) => if s.full || scope_seen(s.seen, hit.file_path, span.start_byte) {
            s
        } else {
            let seen = s.seen.push((hit.file_path, span.start_byte));
            match contents(files, hit.file_path) {
                Some(src) => if span.start_byte <= span.end_byte <= src.len() {
                    let contexts = s.contexts.push(
                        RefContextView {
                            file: hit.file_path,
                            line: hit.line,
                            scope_start_line: span.start_line,
                            scope_end_line: span.end_line,
                            content: lossy(
                                src.subrange(span.start_byte as int, span.end_byte as int),
                            ),
                        },
                    );
                    Scan { seen, contexts, full: contexts.len() >= max }
                } else {
                    Scan { seen, ..s }
                },
                None => Scan { seen, ..s },
            }
        },
        None => s,
    }
}

/// The walk over the first `k` hits.
pub open spec fn scanned<E: Engine>(
    hits: Seq<CandidateView>,
    engine: E,
    max: int,
    files: Seq<SourceFileView>,
    k: int,
) -> Scan
    decreases k,
{
    if k <= 0 {
        Scan { seen: Seq::empty(), contexts: Seq::empty(), full: false }
    } else {
        scan_hit(scanned(hits, engine, max, files, k - 1), hits[k - 1], engine, max, files)
    }
}

/// What was found, without the hits that the engine can tell are not references to
/// the target.
pub open spec fn referring<E: Engine>(
    target: Seq<char>,
    found: FinderResultView,
    engine: E,
    files: Seq<SourceFileView>,
) -> FinderResultView {
    FinderResultView {
        candidates: engine.references_spec(target, found.candidates, files),
        truncated: found.truncated,
    }
}

/// The record of the references to a target: with `context`, of the distinct
/// scopes around them, if there is any; else of their locations.
pub open spec fn references_answer<E: Engine>(
    command: Seq<char>,
    target: Seq<char>,
    context: bool,
    found: FinderResultView,
    engine: E,
    max: int,
    files: Seq<SourceFileView>,
) -> RecordView {
    let kept = referring(target, found, engine, files);
    let hits = kept.candidates;
    let contexts = scanned(hits, engine, max, files, hits.len() as int).contexts;
    if context && contexts.len() > 0 {
        crate::output::contexts_record(
            command,
            target,
            contexts,
            kept.truncated || contexts.len() >= max,
        )
    } else {
        locations_answer(command, target, kept)
    }
}

fn is_scope_seen(seen: &Vec<(String, usize)>, file: &str, start: usize) -> (r: bool)
    ensures
        r == scope_seen(keys(seen@), file@, start),
{
    let mut k: usize = seen.len();
    while k > 0
        invariant
            k <= seen@.len(),
            forall|m: int|
                k <= m < seen@.len() ==> !((#[trigger] keys(seen@)[m]).1 == start && same_path(
                    keys(seen@)[m].0,
                    file@,
                )),
        decreases k,
    {
        k -= 1;
        assert(keys(seen@)[k as int] == (seen@[k as int].0@, seen@[k as int].1));
        if seen[k].1 == start && is_same_path(&seen[k].0, file) {
            return true;
        }
    }
    assert(keys(seen@).len() == seen@.len());
    false
}

spec fn keys(seen: Seq<(String, usize)>) -> Seq<(Seq<char>, usize)> {
    seen.map_values(|p: (String, usize)| (p.0@, p.1))
}

proof fn scan_stays_full<E: Engine>(
    hits: Seq<CandidateView>,
    engine: E,
    max: int,
    files: Seq<SourceFileView>,
    j: int,
    k: int,
)
    requires
        0 <= j <= k,
        scanned(hits, engine, max, files, j).full,
    ensures
        scanned(hits, engine, max, files, k) == scanned(hits, engine, max, files, j),
    decreases k - j,
{
    if j < k {
        scan_stays_full(hits, engine, max, files, j, k - 1);
    }
}

/// The references to a target: locations or, with `context`, the enclosing
/// functions and templates, each once and at most `max` of them. Hits that the engine
/// can tell belong to another scope than a qualified target are left out.
pub fn resolve_refs<E: Engine>(
    command: &str,
    target: &str,
    context: bool,
    found: &FinderResult,
    engine: &E,
    max: usize,
    files: &[SourceFile],
) -> (r: Record)
    ensures
        r@ == references_answer(
            command@,
            target@,
            context,
            found@,
            *engine,
            max as int,
            views(files@),
        ),
{
    let ghost fs = views(files@);
    let kept = FinderResult {
        candidates: engine.filter_references(target, &found.candidates, files),
        truncated: found.truncated,
    };
    let ghost hits = kept@.candidates;
    assert(kept@ == referring(target@, found@, *engine, fs));
    assert(hits.len() == kept.candidates@.len());
    if !context {
        return resolve_refs_locations(command, target, &kept);
    }
    let mut seen: Vec<(String, usize)> = Vec::new();
    let mut contexts: Vec<RefContext> = Vec::new();
    let mut full = false;
    let mut k: usize = 0;
    assert(keys(seen@) =~= Seq::empty());
    assert(views(contexts@) =~= Seq::empty());
    while k < kept.candidates.len() && !full
        invariant
            k <= kept.candidates@.len(),
            hits == views(kept.candidates@),
            fs == views(files@),
            scanned(hits, *engine, max as int, fs, k as int) == (Scan {
                seen: keys(seen@),
                contexts: views(contexts@),
                full,
            }),
        decreases kept.candidates@.len() - k,
    {
        let hit = &kept.candidates[k];
        assert(hits[k as int] == hit@);
        if let Some(span) = engine.enclosing_scope(&hit.file_path, hit.byte_offset, files) {
            if !is_scope_seen(&seen, &hit.file_path, span.start_byte) {
                let ghost old_seen = keys(seen@);
                seen.push((hit.file_path.clone(), span.start_byte));
                assert(keys(seen@) =~= old_seen.push((hit@.file_path, span.start_byte)));
                if let Some(src) = read(files, &hit.file_path) {
                    if span.start_byte <= span.end_byte && span.end_byte <= src.len() {
                        let content = from_utf8_lossy(
                            slice_subrange(src.as_slice(), span.start_byte, span.end_byte),
                        );
                        let ghost before = views(contexts@);
                        let one = RefContext {
                            file: hit.file_path.clone(),
                            line: hit.line,
                            scope_start_line: span.start_line,
                            scope_end_line: span.end_line,
                            content,
                        };
                        contexts.push(one);
                        assert(views(contexts@) =~= before.push(one@));
                        full = contexts.len() >= max;
                    }
                }
            }
        }
        k += 1;
    }
    proof {
        if full {
            scan_stays_full(hits, *engine, max as int, fs, k as int, hits.len() as int);
        }
        assert(views(contexts@).len() == contexts@.len());
    }
    if contexts.len() == 0 {
        return resolve_refs_locations(command, target, &kept);
    }
    let truncated = kept.truncated || contexts.len() >= max;
    Record::references_with_context(command, target, contexts, truncated)
}

// ---------------------------------------------------------------------------
// The degradation ladder
// ---------------------------------------------------------------------------

/// A resolution widened to the class or struct around its start, cut anew out of
/// the file; `None` if it is in none.
pub open spec fn widened<E: Engine>(
    engine: E,
    r: ResolutionView,
    files: Seq<SourceFileView>,
) -> Option<ResolutionView> {
    let path = r.source_ref.file_path;
    match (
        engine.class_scope_spec(path, r.source_ref.span.start_byte, files),
        contents(files, path),
    ) {
        (Some(span), Some(src)) => if span.start_byte <= span.end_byte <= src.len() {
            Some(
                ResolutionView {
                    source_ref: SourceRefView { span, ..r.source_ref },
                    content_bytes: src.subrange(span.start_byte as int, span.end_byte as int),
                    ..r
                },
            )
        } else {
            None
        },
        _ => None,
    }
}

/// What a resolution is widened to is, byte for byte, what its span covers in its
/// file, and it is still called what it was.
pub proof fn widening_stays_verbatim<E: Engine>(
    engine: E,
    r: ResolutionView,
    files: Seq<SourceFileView>,
)
    ensures
        widened(engine, r, files) matches Some(w) ==> verbatim(w, files) && w.symbol == r.symbol
            && w.source_ref.file_path == r.source_ref.file_path,
{
}

/// Widens a class member to the class or struct around it.
pub fn expand_to_class_scope<E: Engine>(engine: &E, r: &Resolution, files: &[SourceFile]) -> (out:
    Option<Resolution>)
    ensures
        opt_view(out) == widened(*engine, r@, views(files@)),
        out matches Some(w) ==> r.source_ref.span.start_byte <= u32::MAX ==> is_around(
            w.source_ref.span,
            r.source_ref.span.start_byte,
        ),
{
    let span = match engine.enclosing_class_scope(
        &r.source_ref.file_path,
        r.source_ref.span.start_byte,
        files,
    ) {
        Some(span) => span,
        None => return None,
    };
    let src = match read(files, &r.source_ref.file_path) {
        Some(src) => src,
        None => return None,
    };
    if span.end_byte > src.len() || span.start_byte > span.end_byte {
        return None;
    }
    let mut out = r.clone();
    out.content_bytes = slice_to_vec(slice_subrange(src.as_slice(), span.start_byte, span.end_byte));
    out.source_ref.span = span;
    Some(out)
}

/// The location of a resolution, with the first line of its content.
pub open spec fn choice_of(r: ResolutionView) -> ChoiceView {
    let ls = lines(lossy(r.content_bytes), 0);
    ChoiceView {
        file_path: r.source_ref.file_path,
        line: r.source_ref.span.start_line,
        snippet: Some(if ls.len() > 0 { ls[0] } else { Seq::empty() }),
    }
}

/// The location of a resolution, with the first line of its content.
pub fn to_candidate(r: &Resolution) -> (c: Choice)
    ensures
        c@ == choice_of(r@),
{
    let text = from_utf8_lossy(&r.content_bytes);
    let mut ls = lines_of(&text);
    let ghost all = lines(text@, 0);
    assert(all.len() == ls@.len());
    let first = if ls.len() > 0 {
        assert(all[0] == ls@[0]@);
        ls.swap_remove(0)
    } else {
        let s = String::new();
        assert(s@ =~= Seq::empty());
        s
    };
    Choice {
        file_path: r.source_ref.file_path.clone(),
        line: r.source_ref.span.start_line,
        snippet: Some(first),
    }
}

fn to_candidates(rs: &Vec<Resolution>) -> (r: Vec<Choice>)
    ensures
        views(r@) == views(rs@).map_values(|x: ResolutionView| choice_of(x)),
{
    let ghost want = views(rs@).map_values(|x: ResolutionView| choice_of(x));
    let mut out: Vec<Choice> = Vec::new();
    let mut k: usize = 0;
    while k < rs.len()
        invariant
            k <= rs@.len(),
            want == views(rs@).map_values(|x: ResolutionView| choice_of(x)),
            views(out@) =~= want.take(k as int),
        decreases rs@.len() - k,
    {
        let ghost before = views(out@);
        out.push(to_candidate(&rs[k]));
        assert(views(out@) =~= before.push(want[k as int]));
        k += 1;
    }
    assert(want.take(k as int) =~= want);
    out
}

/// What a query is run with, besides its target.
pub struct Settings {
    pub query: Query,
    /// Widen a single definition to the class around it.
    pub scope: bool,
    /// Show the scopes around references.
    pub context: bool,
    pub max_candidates: usize,
    pub max_results: usize,
    pub window: usize,
}

/// The matches of a definition or declaration query. Where the engine finds none
/// and is not the syntactic one, that one is asked; where there are no
/// declarations, definitions are shown instead.
pub struct Matches {
    pub resolutions: Seq<ResolutionView>,
    /// Do definitions stand in for declarations?
    pub stand_in: bool,
}

pub open spec fn matches_of<E: Engine>(
    query: Query,
    target: Seq<char>,
    candidates: Seq<CandidateView>,
    engine: E,
    macros: Macros,
    files: Seq<SourceFileView>,
) -> Matches {
    let first = match query {
        Query::Definition => engine.definitions_spec(target, candidates, files),
        _ => engine.declarations_spec(target, candidates, files),
    };
    let second = if first.len() == 0 && engine.name_spec() != "tree-sitter"@ {
        match query {
            Query::Definition => macros.resolved(target, candidates, Mode::Definition, files),
            _ => macros.resolved(target, candidates, Mode::Declaration, files),
        }
    } else {
        first
    };
    let stand_in = second.len() == 0 && query == Query::Declaration;
    Matches {
        resolutions: if stand_in {
            macros.resolved(target, candidates, Mode::Definition, files)
        } else {
            second
        },
        stand_in,
    }
}

/// The record of a single match.
pub open spec fn single_answer<E: Engine>(
    command: Seq<char>,
    target: Seq<char>,
    s: Settings,
    m: Matches,
    engine: E,
    files: Seq<SourceFileView>,
) -> RecordView {
    let base = m.resolutions[0];
    let label = type_label(s.query, base.symbol.kind);
    let wide = widened(engine, base, files);
    if s.scope && s.query == Query::Definition && wide is Some {
        RecordView {
            message: Some("Expanded to the enclosing class/struct scope (--scope)."@),
            ..crate::output::resolved_record(command, target, label, wide->0)
        }
    } else if m.stand_in {
        RecordView {
            message: Some("No forward declaration found; showing definition instead."@),
            ..crate::output::resolved_record(command, target, label, base)
        }
    } else {
        crate::output::resolved_record(command, target, label, base)
    }
}

/// The record of several matches: all of them, up to the limit; else their
/// locations.
pub open spec fn several_answer(
    command: Seq<char>,
    target: Seq<char>,
    s: Settings,
    m: Matches,
) -> RecordView {
    let n = m.resolutions.len();
    if n <= s.max_results {
        let label = type_label(s.query, m.resolutions[0].symbol.kind);
        let full = crate::output::multi_resolved_record(command, target, label, m.resolutions, n);
        if m.stand_in {
            RecordView {
                message: Some(
                    "Found "@ + decimal(n)
                        + " overload(s); no forward declarations, showing definitions."@,
                ),
                ..full
            }
        } else {
            full
        }
    } else {
        RecordView {
            message: Some(
                "Found "@ + decimal(n) + " candidates (exceeds --max-results "@ + decimal(
                    s.max_results as nat,
                ) + "). Returning locations only."@,
            ),
            ..crate::output::ambiguous_record(
                command,
                target,
                m.resolutions.map_values(|x: ResolutionView| choice_of(x)),
            )
        }
    }
}

/// The answer to a query: the degradation ladder.
pub open spec fn answer<E: Engine>(
    command: Seq<char>,
    target: Seq<char>,
    s: Settings,
    found: FinderResultView,
    engine: E,
    macros: Macros,
    files: Seq<SourceFileView>,
) -> RecordView {
    let m = matches_of(s.query, target, found.candidates, engine, macros, files);
    if found.candidates.len() == 0 {
        crate::output::not_found_record(command, target)
    } else if s.query == Query::References {
        references_answer(
            command,
            target,
            s.context,
            found,
            engine,
            s.max_candidates as int,
            files,
        )
    } else if m.resolutions.len() == 0 {
        fallback_answer(command, target, found, s.max_results as int, s.window as int, files)
    } else if m.resolutions.len() == 1 {
        RecordView {
            truncated: found.truncated,
            ..single_answer(command, target, s, m, engine, files)
        }
    } else {
        RecordView { truncated: found.truncated, ..several_answer(command, target, s, m) }
    }
}

/// Applies the degradation ladder to the candidates of one target.
pub fn resolve_one<E: Engine>(
    command: &str,
    target: &str,
    s: &Settings,
    found: &FinderResult,
    engine: &E,
    syntactic: &SyntacticEngine,
    files: &[SourceFile],
) -> (r: Record)
    ensures
        r@ == answer(command@, target@, *s, found@, *engine, syntactic.macros(), views(files@)),
{
    assert(found@.candidates.len() == found.candidates@.len());
    if found.candidates.len() == 0 {
        return Record::not_found(command, target);
    }
    if s.query == Query::References {
        return resolve_refs(command, target, s.context, found, engine, s.max_candidates, files);
    }
    let ghost m = matches_of(
        s.query,
        target@,
        found@.candidates,
        *engine,
        syntactic.macros(),
        views(files@),
    );
    let definition = s.query == Query::Definition;
    let mut resolutions = if definition {
        engine.definitions(target, &found.candidates, files)
    } else {
        engine.declarations(target, &found.candidates, files)
    };
    assert(views(resolutions@).len() == resolutions@.len());
    if resolutions.len() == 0 && !same_str(engine.name(), "tree-sitter") {
        resolutions =
        if definition {
            syntactic.definitions(target, &found.candidates, files)
        } else {
            syntactic.declarations(target, &found.candidates, files)
        };
    }
    assert(views(resolutions@).len() == resolutions@.len());
    let stand_in = resolutions.len() == 0 && s.query == Query::Declaration;
    if stand_in {
        resolutions = syntactic.definitions(target, &found.candidates, files);
    }
    assert(views(resolutions@).len() == resolutions@.len());
    assert(m == (Matches { resolutions: views(resolutions@), stand_in }));
    let n = resolutions.len();
    if n == 0 {
        return text_fallback(command, target, found, s.max_results, s.window, files);
    }
    assert(m.resolutions[0] == resolutions@[0]@);
    let label = resolution_type(s.query, resolutions[0].symbol.kind);
    let mut record = if n == 1 {
        let wide = if s.scope && definition {
            expand_to_class_scope(engine, &resolutions[0], files)
        } else {
            None
        };
        match wide {
            Some(e) => {
                let mut record = Record::resolved(command, target, &label, &e);
                record.message = Some(
                    "Expanded to the enclosing class/struct scope (--scope).".to_owned(),
                );
                record
            },
            None => {
                let mut record = Record::resolved(command, target, &label, &resolutions[0]);
                if stand_in {
                    record.message = Some(
                        "No forward declaration found; showing definition instead.".to_owned(),
                    );
                }
                record
            },
        }
    } else if n <= s.max_results {
        let mut record = Record::multi_resolved(command, target, &label, &resolutions, n);
        if stand_in {
            record.message = Some(
                concat3(
                    "Found ",
                    &decimal_of(n),
                    " overload(s); no forward declarations, showing definitions.",
                ),
            );
        }
        record
    } else {
        let mut record = Record::ambiguous(command, target, to_candidates(&resolutions));
        let mut message = concat3("Found ", &decimal_of(n), " candidates (exceeds --max-results ");
        message.append(&decimal_of(s.max_results));
        message.append("). Returning locations only.");
        record.message = Some(message);
        record
    };
    record.truncated = found.truncated;
    record
}

// ---------------------------------------------------------------------------
// What every answer satisfies
// ---------------------------------------------------------------------------

/// The rung of the ladder that an answer is on follows from what was found: nothing,
/// text only, one or a few matches, or too many. Where references are asked for, any
/// hit will do.
pub proof fn ladder_decides_status<E: Engine>(
    command: Seq<char>,
    target: Seq<char>,
    s: Settings,
    found: FinderResultView,
    engine: E,
    macros: Macros,
    files: Seq<SourceFileView>,
)
    ensures
        ({
            let r = answer(command, target, s, found, engine, macros, files);
            let n = matches_of(
                s.query,
                target,
                found.candidates,
                engine,
                macros,
                files,
            ).resolutions.len();
            let looked = found.candidates.len() > 0 && s.query != Query::References;
            &&& r.status == Status::NotFound <==> found.candidates.len() == 0
            &&& r.status == Status::Fallback <==> looked && n == 0
            &&& r.status == Status::Ambiguous <==> looked && n > 1 && n > s.max_results
            &&& r.status == Status::Resolved <==> found.candidates.len() > 0 && (s.query
                == Query::References || n == 1 || (1 < n && n <= s.max_results))
            &&& r.command == command && r.target == target
        }),
{
}

/// May a hit be a reference to the target? Any may, where the target is bare; where it
/// is qualified, one that survives the precision pass.
pub open spec fn may_refer(
    target: Seq<char>,
    c: CandidateView,
    engine: SyntacticEngine,
    files: Seq<SourceFileView>,
) -> bool {
    !has_infix(target, "::"@) || engine.macros().keeps(target, c, files)
}

/// Is a location the line of a hit that may refer to the target?
pub open spec fn is_reference(
    location: RefLocationView,
    target: Seq<char>,
    hits: Seq<CandidateView>,
    engine: SyntacticEngine,
    files: Seq<SourceFileView>,
) -> bool {
    exists|k: int|
        0 <= k < hits.len() && location.file == (#[trigger] hits[k]).file_path && location.line
            == hits[k].line && may_refer(target, hits[k], engine, files)
}

/// Is the line of a hit among the locations?
pub open spec fn is_listed_line(locations: Seq<RefLocationView>, hit: CandidateView) -> bool {
    exists|i: int|
        0 <= i < locations.len() && (#[trigger] locations[i]).line == hit.line && same_path(
            locations[i].file,
            hit.file_path,
        )
}

proof fn answered_locations<E: Engine>(
    command: Seq<char>,
    target: Seq<char>,
    s: Settings,
    found: FinderResultView,
    engine: E,
    macros: Macros,
    files: Seq<SourceFileView>,
)
    requires
        s.query == Query::References,
        !s.context,
        found.candidates.len() > 0,
    ensures
        ({
            let kept = engine.references_spec(target, found.candidates, files);
            answer(command, target, s, found, engine, macros, files).locations == locations_of(
                distinct_lines(kept, kept.len() as int),
            )
        }),
{
}

/// The engine enforces the qualifier of a target whose references are asked for: what
/// is listed are the lines of the hits that may refer to it, and all of them.
pub proof fn references_honor_the_qualifier(
    command: Seq<char>,
    target: Seq<char>,
    s: Settings,
    found: FinderResultView,
    engine: SyntacticEngine,
    macros: Macros,
    files: Seq<SourceFileView>,
)
    requires
        s.query == Query::References,
        !s.context,
    ensures
        ({
            let hits = found.candidates;
            let listed = answer(command, target, s, found, engine, macros, files).locations;
            &&& forall|i: int|
                0 <= i < listed.len() ==> is_reference(
                    #[trigger] listed[i],
                    target,
                    hits,
                    engine,
                    files,
                )
            &&& forall|k: int|
                0 <= k < hits.len() && may_refer(target, #[trigger] hits[k], engine, files)
                    ==> is_listed_line(listed, hits[k])
        }),
{
    let listed = answer(command, target, s, found, engine, macros, files).locations;
    if found.candidates.len() > 0 {
        answered_locations(command, target, s, found, engine, macros, files);
        listed_lines_are_references(target, found.candidates, engine, files);
    } else {
        assert(listed =~= Seq::empty());
    }
}

proof fn listed_lines_are_references(
    target: Seq<char>,
    hits: Seq<CandidateView>,
    engine: SyntacticEngine,
    files: Seq<SourceFileView>,
)
    ensures
        ({
            let kept = engine.references_spec(target, hits, files);
            let listed = locations_of(distinct_lines(kept, kept.len() as int));
            &&& forall|i: int|
                0 <= i < listed.len() ==> is_reference(
                    #[trigger] listed[i],
                    target,
                    hits,
                    engine,
                    files,
                )
            &&& forall|k: int|
                0 <= k < hits.len() && may_refer(target, #[trigger] hits[k], engine, files)
                    ==> is_listed_line(listed, hits[k])
        }),
{
    let kept = engine.references_spec(target, hits, files);
    let n = kept.len() as int;
    let once = distinct_lines(kept, n);
    let listed = locations_of(once);
    distinct_lines_are_hits(kept, n);
    lines_are_listed_once(kept, n);
    assert forall|i: int| 0 <= i < listed.len() implies is_reference(
        #[trigger] listed[i],
        target,
        hits,
        engine,
        files,
    ) by {
        let c = once[i];
        kept_hits(target, hits, engine, files, c);
        let k = choose|k: int| 0 <= k < hits.len() && hits[k] == c;
        assert(listed[i].file == hits[k].file_path);
    }
    assert forall|k: int|
        0 <= k < hits.len() && may_refer(
            target,
            #[trigger] hits[k],
            engine,
            files,
        ) implies is_listed_line(listed, hits[k]) by {
        let c = hits[k];
        assert(hits.contains(c));
        kept_hits(target, hits, engine, files, c);
        let j = choose|j: int| 0 <= j < kept.len() && kept[j] == c;
        assert(has_line(once, kept[j]));
        let m = choose|m: int|
            0 <= m < once.len() && (#[trigger] once[m]).line == c.line && same_path(
                once[m].file_path,
                c.file_path,
            );
        assert(listed[m].line == c.line);
    }
}

proof fn kept_hits(
    target: Seq<char>,
    hits: Seq<CandidateView>,
    engine: SyntacticEngine,
    files: Seq<SourceFileView>,
    c: CandidateView,
)
    ensures
        engine.references_spec(target, hits, files).contains(c) <==> hits.contains(c) && may_refer(
            target,
            c,
            engine,
            files,
        ),
{
    references_are_only_dropped(engine, target, hits, files);
    if has_infix(target, "::"@) {
        let keep = |c: CandidateView| engine.macros().keeps(target, c, files);
        let kept = hits.filter(keep);
        if kept.contains(c) {
            hits.lemma_filter_contains_rev(keep, c);
            let j = choose|j: int| 0 <= j < kept.len() && kept[j] == c;
            hits.lemma_filter_pred(keep, j);
        }
        if hits.contains(c) && keep(c) {
            let k = choose|k: int| 0 <= k < hits.len() && hits[k] == c;
            hits.lemma_filter_contains(keep, k);
        }
    }
}

proof fn distinct_lines_are_hits(candidates: Seq<CandidateView>, k: int)
    requires
        0 <= k <= candidates.len(),
    ensures
        forall|i: int|
            0 <= i < distinct_lines(candidates, k).len() ==> candidates.contains(
                #[trigger] distinct_lines(candidates, k)[i],
            ),
    decreases k,
{
    if k > 0 {
        distinct_lines_are_hits(candidates, k - 1);
        let before = distinct_lines(candidates, k - 1);
        let all = distinct_lines(candidates, k);
        assert(candidates.contains(candidates[k - 1]));
        assert forall|i: int| 0 <= i < all.len() implies candidates.contains(#[trigger] all[i]) by {
            if i < before.len() {
                assert(all[i] == before[i]);
            }
        }
    }
}

/// Is a text what the bytes `start..end` of a file decode to?
pub open spec fn is_slice(
    text: Seq<char>,
    path: Option<Seq<char>>,
    start: Option<usize>,
    end: Option<usize>,
    files: Seq<SourceFileView>,
) -> bool {
    match (path, start, end) {
        (Some(p), Some(a), Some(b)) => match contents(files, p) {
            Some(src) => a <= b <= src.len() && text == lossy(src.subrange(a as int, b as int)),
            None => false,
        },
        _ => false,
    }
}

/// Is every content that a record carries the exact slice of the file that its
/// offsets name?
pub open spec fn contents_are_slices(r: RecordView, files: Seq<SourceFileView>) -> bool {
    &&& r.content matches Some(text) ==> is_slice(
        text,
        r.file_path,
        r.start_byte,
        r.end_byte,
        files,
    )
    &&& forall|k: int|
        0 <= k < r.results.len() ==> ((#[trigger] r.results[k]).content matches Some(text)
            ==> is_slice(
            text,
            Some(r.results[k].file_path),
            r.results[k].start_byte,
            r.results[k].end_byte,
            files,
        ))
}

proof fn matches_are_verbatim(
    query: Query,
    target: Seq<char>,
    candidates: Seq<CandidateView>,
    engine: SyntacticEngine,
    macros: Macros,
    files: Seq<SourceFileView>,
)
    ensures
        ({
            let rs = matches_of(query, target, candidates, engine, macros, files).resolutions;
            forall|k: int| 0 <= k < rs.len() ==> verbatim(#[trigger] rs[k], files)
        }),
{
    let own = engine.macros();
    resolutions_are_verbatim_and_ordered(own, target, candidates, Mode::Definition, files);
    resolutions_are_verbatim_and_ordered(own, target, candidates, Mode::Declaration, files);
    resolutions_are_verbatim_and_ordered(macros, target, candidates, Mode::Definition, files);
    resolutions_are_verbatim_and_ordered(macros, target, candidates, Mode::Declaration, files);
}

/// Whatever the syntactic engine is asked, the contents of the answer are the exact
/// slices of the files that the offsets beside them name.
pub proof fn answers_carry_exact_slices(
    command: Seq<char>,
    target: Seq<char>,
    s: Settings,
    found: FinderResultView,
    engine: SyntacticEngine,
    macros: Macros,
    files: Seq<SourceFileView>,
)
    ensures
        contents_are_slices(answer(command, target, s, found, engine, macros, files), files),
{
    let m = matches_of(s.query, target, found.candidates, engine, macros, files);
    matches_are_verbatim(s.query, target, found.candidates, engine, macros, files);
    let r = answer(command, target, s, found, engine, macros, files);
    if found.candidates.len() > 0 && s.query != Query::References && m.resolutions.len() > 0 {
        assert(verbatim(m.resolutions[0], files));
        if m.resolutions.len() == 1 {
            widening_stays_verbatim(engine, m.resolutions[0], files);
        } else if m.resolutions.len() <= s.max_results {
            assert forall|k: int| 0 <= k < r.results.len() implies ((
            #[trigger] r.results[k]).content matches Some(text) ==> is_slice(
                text,
                Some(r.results[k].file_path),
                r.results[k].start_byte,
                r.results[k].end_byte,
                files,
            )) by {
                assert(verbatim(m.resolutions[k], files));
                assert(r.results[k] == crate::output::result_of(m.resolutions[k]));
            }
        }
    }
}

proof fn comment_top_bounds(ls: Seq<Seq<char>>, i: int)
    requires
        0 <= i,
    ensures
        0 <= comment_top(ls, i) <= i,
    decreases i,
{
    if i > 0 {
        comment_top_bounds(ls, i - 1);
    }
}

/// A window holds the line it is about, as many lines after it as asked for, as many
/// before it as asked for or more, and the whole of the comment block just above it.
/// Only the edges of the file make it smaller.
pub proof fn windows_hold_their_line(text: Seq<char>, line: int, window: int)
    requires
        1 <= line <= lines(text, 0).len(),
        0 <= window,
    ensures
        ({
            let ls = lines(text, 0);
            let w = window_of(text, line, window);
            let i = line - 1;
            &&& 0 <= w.before <= i
            &&& 0 <= w.after <= window
            &&& w.before >= window || i - w.before == 0
            &&& w.after == window || i + w.after + 1 == ls.len()
            &&& i - w.before <= comment_top(ls, i)
            &&& w.text == joined(ls.subrange(i - w.before, i + w.after + 1), "\n"@)
        }),
{
    comment_top_bounds(lines(text, 0), line - 1);
}

/// No line of a file is listed twice, and every line with a hit is listed.
pub proof fn lines_are_listed_once(candidates: Seq<CandidateView>, k: int)
    requires
        0 <= k <= candidates.len(),
    ensures
        forall|i: int, j: int|
            0 <= i < j < distinct_lines(candidates, k).len() ==> !same_line(
                #[trigger] distinct_lines(candidates, k)[i],
                #[trigger] distinct_lines(candidates, k)[j],
            ),
        forall|i: int|
            0 <= i < k ==> has_line(distinct_lines(candidates, k), #[trigger] candidates[i]),
    decreases k,
{
    if k > 0 {
        lines_are_listed_once(candidates, k - 1);
        let before = distinct_lines(candidates, k - 1);
        let all = distinct_lines(candidates, k);
        let c = candidates[k - 1];
        assert forall|i: int, j: int| 0 <= i < j < all.len() implies !same_line(
            #[trigger] all[i],
            #[trigger] all[j],
        ) by {
            assert(all[i] == before[i]);
            if j < before.len() {
                assert(all[j] == before[j]);
            } else {
                assert(!has_line(before, c));
            }
        }
        assert forall|i: int| 0 <= i < k implies has_line(all, #[trigger] candidates[i]) by {
            if i < k - 1 {
                assert(has_line(before, candidates[i]));
                let m = choose|m: int|
                    0 <= m < before.len() && (#[trigger] before[m]).line == candidates[i].line
                        && same_path(before[m].file_path, candidates[i].file_path);
                assert(all[m] == before[m]);
            } else if !has_line(before, c) {
                assert(all[before.len() as int] == c);
            }
        }
    }
}

/// Are two candidates on the same line of the same file?
pub open spec fn same_line(a: CandidateView, b: CandidateView) -> bool {
    a.line == b.line && same_path(a.file_path, b.file_path)
}

/// The scopes shown around references are distinct and no more than asked for.
pub proof fn contexts_are_capped<E: Engine>(
    hits: Seq<CandidateView>,
    engine: E,
    max: int,
    files: Seq<SourceFileView>,
    k: int,
)
    ensures
        ({
            let s = scanned(hits, engine, max, files, k);
            &&& max >= 1 ==> s.contexts.len() <= max
            &&& max < 1 ==> s.contexts.len() <= 1
            &&& !s.full ==> s.contexts.len() < max || s.contexts.len() == 0
            &&& s.contexts.len() <= s.seen.len()
            &&& forall|i: int, j: int|
                0 <= i < j < s.seen.len() ==> !((#[trigger] s.seen[i]).1 == (
                #[trigger] s.seen[j]).1 && same_path(s.seen[i].0, s.seen[j].0))
        }),
    decreases k,
{
    if k > 0 {
        contexts_are_capped(hits, engine, max, files, k - 1);
        let before = scanned(hits, engine, max, files, k - 1);
        let s = scanned(hits, engine, max, files, k);
        assert forall|i: int, j: int| 0 <= i < j < s.seen.len() implies !((
        #[trigger] s.seen[i]).1 == (#[trigger] s.seen[j]).1 && same_path(s.seen[i].0, s.seen[j].0)) by {
            if s.seen != before.seen {
                assert(s.seen[i] == before.seen[i]);
                if j < before.seen.len() {
                    assert(s.seen[j] == before.seen[j]);
                } else {
                    assert(!scope_seen(before.seen, s.seen[j].0, s.seen[j].1));
                }
            }
        }
    }
}

// ---------------------------------------------------------------------------
// Targets
// ---------------------------------------------------------------------------

/// The targets that the first `k` lines of a manifest name: every line but blank
/// ones and those that start with `#`.
pub open spec fn manifest_targets(ls: Seq<Seq<char>>, k: int) -> Seq<Seq<char>>
    decreases k,
{
    if k <= 0 {
        Seq::empty()
    } else {
        let before = manifest_targets(ls, k - 1);
        let t = trimmed(ls[k - 1]);
        if t.len() > 0 && !has_prefix(t, "#"@) {
            before.push(t)
        } else {
            before
        }
    }
}

/// The first mention of each of the first `k` names, in order.
pub open spec fn first_mentions(s: Seq<Seq<char>>, k: int) -> Seq<Seq<char>>
    decreases k,
{
    if k <= 0 {
        Seq::empty()
    } else {
        let before = first_mentions(s, k - 1);
        if before.contains(s[k - 1]) {
            before
        } else {
            before.push(s[k - 1])
        }
    }
}

/// The targets of a run: those of the command line, then those of the manifest,
/// each once.
pub open spec fn targets_of(names: Seq<Seq<char>>, manifest: Option<Seq<char>>) -> Seq<Seq<char>> {
    let all = match manifest {
        Some(text) => names + manifest_targets(lines(text, 0), lines(text, 0).len() as int),
        None => names,
    };
    first_mentions(all, all.len() as int)
}

fn manifest_targets_of(text: &str) -> (r: Vec<String>)
    ensures
        views(r@) == manifest_targets(lines(text@, 0), lines(text@, 0).len() as int),
{
    let ls = lines_of(text);
    let ghost all = lines(text@, 0);
    let mut out: Vec<String> = Vec::new();
    let mut k: usize = 0;
    assert(views(out@) =~= Seq::empty());
    while k < ls.len()
        invariant
            k <= ls@.len(),
            views(ls@) == all,
            views(out@) == manifest_targets(all, k as int),
        decreases ls@.len() - k,
    {
        assert(all[k as int] == ls@[k as int]@);
        let t = trim(&ls[k]);
        if !is_empty(&t) && !starts_with(&t, "#") {
            let ghost before = views(out@);
            out.push(t);
            assert(views(out@) =~= before.push(t@));
        }
        k += 1;
    }
    assert(all.len() == ls@.len());
    out
}

fn first_mentions_of(all: &[String]) -> (r: Vec<String>)
    ensures
        views(r@) == first_mentions(views(all@), all@.len() as int),
{
    let ghost names = views(all@);
    let mut seen = NameSet::new();
    let mut out: Vec<String> = Vec::new();
    let mut k: usize = 0;
    assert(views(out@) =~= Seq::empty());
    assert(Seq::<Seq<char>>::empty().to_set() =~= Set::empty());
    while k < all.len()
        invariant
            k <= all@.len(),
            names == views(all@),
            views(out@) == first_mentions(names, k as int),
            seen@ == views(out@).to_set(),
        decreases all@.len() - k,
    {
        let ghost before = views(out@);
        assert(names[k as int] == all@[k as int]@);
        if seen.insert(&all[k]) {
            out.push(all[k].clone());
            assert(views(out@) =~= before.push(names[k as int]));
            proof {
                before.lemma_push_to_set_commute(names[k as int]);
            }
        } else {
            assert(seen@ =~= before.to_set());
        }
        k += 1;
    }
    out
}

/// Collects the targets of a run from the command line and the text of the
/// manifest, each once.
pub fn collect_targets(names: &[String], manifest: Option<&str>) -> (r: Vec<String>)
    ensures
        views(r@) == targets_of(
            views(names@),
            manifest_text(manifest),
        ),
{
    let mut all = clone_strings(names);
    let ghost before = views(names@);
    if let Some(text) = manifest {
        let mut more = manifest_targets_of(text);
        let ghost added = views(more@);
        all.append(&mut more);
        assert(views(all@) =~= before + added);
    }
    assert(views(all@).len() == all@.len());
    first_mentions_of(&all)
}

/// No target of a run is repeated, none is lost and none is made up.
pub proof fn targets_are_distinct(s: Seq<Seq<char>>, k: int)
    requires
        0 <= k <= s.len(),
    ensures
        first_mentions(s, k).no_duplicates(),
        forall|x: Seq<char>| first_mentions(s, k).contains(x) <==> s.take(k).contains(x),
    decreases k,
{
    if k > 0 {
        targets_are_distinct(s, k - 1);
        let before = first_mentions(s, k - 1);
        let x = s[k - 1];
        let all = first_mentions(s, k);
        let head = s.take(k - 1);
        let whole = s.take(k);
        assert(whole =~= head.push(x));
        assert forall|y: Seq<char>| all.contains(y) <==> s.take(k).contains(y) by {
            if before.contains(y) {
                let j = choose|j: int| 0 <= j < before.len() && before[j] == y;
                assert(all[j] == y);
                let i = choose|i: int| 0 <= i < head.len() && head[i] == y;
                assert(whole[i] == y);
            }
            if y == x {
                assert(whole[k - 1] == y);
                if !before.contains(x) {
                    assert(all[before.len() as int] == y);
                }
            }
            if s.take(k).contains(y) && y != x {
                let i = choose|i: int| 0 <= i < whole.len() && whole[i] == y;
                assert(head[i] == y);
            }
        }
    }
}

// ---------------------------------------------------------------------------
// Unconfirmed macros
// ---------------------------------------------------------------------------

/// `x` put into an ascending sequence of names before those of `s[..k]` that it
/// comes before, unless it is there.
pub open spec fn name_inserted(s: Seq<Seq<char>>, x: Seq<char>, k: int) -> Seq<Seq<char>>
    decreases k,
{
    if k > 0 && text_before(x, s[k - 1], 0) {
        name_inserted(s, x, k - 1)
    } else if k > 0 && s[k - 1] == x {
        s
    } else {
        s.insert(k, x)
    }
}

/// The first `k` of the names `xs` put into an ascending sequence of names.
pub open spec fn names_inserted(s: Seq<Seq<char>>, xs: Seq<Seq<char>>, k: int) -> Seq<Seq<char>>
    decreases k,
{
    if k <= 0 {
        s
    } else {
        let before = names_inserted(s, xs, k - 1);
        name_inserted(before, xs[k - 1], before.len() as int)
    }
}

/// The unconfirmed macros of the first `k` files put into an ascending sequence of
/// names. A file that cannot be read adds none.
pub open spec fn suspects_added(
    s: Seq<Seq<char>>,
    paths: Seq<Seq<char>>,
    confirmed: Set<Seq<char>>,
    files: Seq<SourceFileView>,
    k: int,
) -> Seq<Seq<char>>
    decreases k,
{
    if k <= 0 {
        s
    } else {
        let before = suspects_added(s, paths, confirmed, files, k - 1);
        match contents(files, paths[k - 1]) {
            Some(src) => {
                let xs = suspects(src, confirmed);
                names_inserted(before, xs, xs.len() as int)
            },
            None => before,
        }
    }
}

fn insert_name(names: &mut Vec<String>, x: &str)
    ensures
        views(final(names)@) == name_inserted(
            views(old(names)@),
            x@,
            old(names)@.len() as int,
        ),
{
    let ghost s = views(names@);
    let mut k: usize = names.len();
    while k > 0 && comes_before(x, &names[k - 1])
        invariant
            k <= names@.len(),
            s == views(names@),
            name_inserted(s, x@, k as int) == name_inserted(s, x@, names@.len() as int),
        decreases k,
    {
        assert(s[k - 1] == names@[k - 1]@);
        k -= 1;
    }
    proof {
        if k > 0 {
            assert(s[k - 1] == names@[k - 1]@);
        }
    }
    if k > 0 && same_str(&names[k - 1], x) {
        return ;
    }
    names.insert(k, x.to_owned());
    assert(views(names@) =~= s.insert(k as int, x@));
}

/// Adds the unconfirmed annotation macros of the distinct candidate files to an
/// ascending list of names.
pub fn collect_unconfirmed_macros(
    found: &FinderResult,
    confirmed: &NameSet,
    out: &mut Vec<String>,
    files: &[SourceFile],
)
    ensures
        ({
            let paths = distinct_files(found@.candidates, found@.candidates.len() as int);
            views(final(out)@) == suspects_added(
                views(old(out)@),
                paths,
                confirmed@,
                views(files@),
                paths.len() as int,
            )
        }),
{
    let paths = distinct_files_of(&found.candidates);
    assert(found@.candidates.len() == found.candidates@.len());
    let ghost ps = distinct_files(found@.candidates, found@.candidates.len() as int);
    let ghost start = views(out@);
    let ghost fs = views(files@);
    let mut k: usize = 0;
    while k < paths.len()
        invariant
            k <= paths@.len(),
            views(paths@) == ps,
            fs == views(files@),
            views(out@) == suspects_added(start, ps, confirmed@, fs, k as int),
        decreases paths@.len() - k,
    {
        assert(ps[k as int] == paths@[k as int]@);
        if let Some(src) = read(files, &paths[k]) {
            let names = unconfirmed_annotations(src, confirmed);
            let ghost xs = views(names@);
            let ghost before = views(out@);
            let mut j: usize = 0;
            while j < names.len()
                invariant
                    j <= names@.len(),
                    xs == views(names@),
                    views(out@) == names_inserted(before, xs, j as int),
                decreases names@.len() - j,
            {
                assert(xs[j as int] == names@[j as int]@);
                assert(views(out@).len() == out@.len());
                insert_name(out, &names[j]);
                j += 1;
            }
            assert(xs.len() == names@.len());
        }
        k += 1;
    }
    assert(ps.len() == paths@.len());
}

/// Does a sequence of names ascend, so that none is repeated?
pub open spec fn names_ascend(s: Seq<Seq<char>>) -> bool {
    forall|i: int, j: int| 0 <= i < j < s.len() ==> text_before(#[trigger] s[i], #[trigger] s[j], 0)
}

/// Names stay in ascending order, and none is lost, when one is put in.
pub proof fn name_inserted_ascends(s: Seq<Seq<char>>, x: Seq<char>, k: int)
    requires
        0 <= k <= s.len(),
        names_ascend(s),
        forall|j: int| k <= j < s.len() ==> text_before(x, #[trigger] s[j], 0),
    ensures
        names_ascend(name_inserted(s, x, k)),
        forall|y: Seq<char>| #[trigger]
            name_inserted(s, x, k).contains(y) <==> (y == x || s.contains(y)),
    decreases k,
{
    if k > 0 && text_before(x, s[k - 1], 0) {
        name_inserted_ascends(s, x, k - 1);
        assert(name_inserted(s, x, k) == name_inserted(s, x, k - 1));
    } else if k > 0 && s[k - 1] == x {
        assert(s.contains(x));
        assert(name_inserted(s, x, k) == s);
    } else {
        let r = s.insert(k, x);
        if k > 0 {
            if !text_before(s[k - 1], x, 0) {
                assert(x.take(0) =~= s[k - 1].take(0));
                text_before_total(x, s[k - 1], 0);
            }
        }
        assert forall|i: int, j: int| 0 <= i < j < r.len() implies text_before(
            #[trigger] r[i],
            #[trigger] r[j],
            0,
        ) by {
            if j == k && i < k - 1 {
                assert(text_before(s[i], s[k - 1], 0));
                text_before_transitive(s[i], s[k - 1], x, 0);
            } else if i == k {
                assert(r[j] == s[j - 1]);
            } else if i < k && j > k {
                assert(r[i] == s[i] && r[j] == s[j - 1]);
            } else if i > k {
                assert(r[i] == s[i - 1] && r[j] == s[j - 1]);
            }
        }
        assert(name_inserted(s, x, k) == r);
        assert forall|y: Seq<char>| #[trigger] r.contains(y) <==> (y == x || s.contains(y)) by {
            if s.contains(y) {
                let i = choose|i: int| 0 <= i < s.len() && s[i] == y;
                if i < k {
                    assert(r[i] == y);
                } else {
                    assert(r[i + 1] == y);
                }
            }
            if y == x {
                assert(r[k] == y);
            }
            if r.contains(y) && y != x {
                let i = choose|i: int| 0 <= i < r.len() && r[i] == y;
                if i < k {
                    assert(s[i] == y);
                } else {
                    assert(s[i - 1] == y);
                }
            }
        }
    }
}

proof fn names_inserted_ascend(s: Seq<Seq<char>>, xs: Seq<Seq<char>>, k: int)
    requires
        names_ascend(s),
    ensures
        names_ascend(names_inserted(s, xs, k)),
    decreases k,
{
    if k > 0 {
        names_inserted_ascend(s, xs, k - 1);
        let before = names_inserted(s, xs, k - 1);
        name_inserted_ascends(before, xs[k - 1], before.len() as int);
    }
}

proof fn suspects_added_ascend(
    s: Seq<Seq<char>>,
    paths: Seq<Seq<char>>,
    confirmed: Set<Seq<char>>,
    files: Seq<SourceFileView>,
    k: int,
)
    requires
        names_ascend(s),
    ensures
        names_ascend(suspects_added(s, paths, confirmed, files, k)),
    decreases k,
{
    if k > 0 {
        suspects_added_ascend(s, paths, confirmed, files, k - 1);
        if let Some(src) = contents(files, paths[k - 1]) {
            let xs = suspects(src, confirmed);
            names_inserted_ascend(
                suspects_added(s, paths, confirmed, files, k - 1),
                xs,
                xs.len() as int,
            );
        }
    }
}

/// The note that suggests `--empty-macro` for unconfirmed macros; `None` if there
/// is none.
pub open spec fn macro_note_text(names: Seq<Seq<char>>) -> Option<Seq<char>> {
    if names.len() == 0 {
        None
    } else {
        Some(
            "cpp-navigator: note: unrecognized annotation macro(s) ["@ + joined(names, ", "@)
                + "] may be hiding declarations; if so, re-run with"@ + macro_flags(
                names,
                names.len() as int,
            ),
        )
    }
}

/// The flags that blank the first `k` macros.
pub open spec fn macro_flags(names: Seq<Seq<char>>, k: int) -> Seq<char>
    decreases k,
{
    if k <= 0 {
        Seq::empty()
    } else {
        macro_flags(names, k - 1) + " --empty-macro "@ + names[k - 1]
    }
}

/// The note that suggests `--empty-macro` for unconfirmed macros.
pub fn macro_note(names: &[String]) -> (r: Option<String>)
    ensures
        opt_view(r) == macro_note_text(views(names@)),
{
    let ghost all = views(names@);
    assert(all.len() == names@.len());
    if names.len() == 0 {
        return None;
    }
    let mut flags = String::new();
    let mut k: usize = 0;
    assert(flags@ =~= Seq::empty());
    while k < names.len()
        invariant
            k <= names@.len(),
            all == views(names@),
            flags@ == macro_flags(all, k as int),
        decreases names@.len() - k,
    {
        assert(all[k as int] == names@[k as int]@);
        flags.append(" --empty-macro ");
        flags.append(&names[k]);
        k += 1;
    }
    let mut note = concat3(
        "cpp-navigator: note: unrecognized annotation macro(s) [",
        &join(names, ", "),
        "] may be hiding declarations; if so, re-run with",
    );
    note.append(&flags);
    Some(note)
}

// ---------------------------------------------------------------------------
// A whole run
// ---------------------------------------------------------------------------

/// The name of a command.
pub open spec fn command_label(c: Command) -> Seq<char> {
    match c {
        Command::FindDef { .. } => "find-def"@,
        Command::FindDecl { .. } => "find-decl"@,
        Command::FindRefs { .. } => "find-refs"@,
    }
}

/// What the queries of a run are run with.
pub open spec fn settings_of(cli: Cli) -> Settings {
    Settings {
        query: match cli.command {
            Command::FindDef { .. } => Query::Definition,
            Command::FindDecl { .. } => Query::Declaration,
            Command::FindRefs { .. } => Query::References,
        },
        scope: match cli.command {
            Command::FindDef { scope, .. } => scope,
            _ => false,
        },
        context: match cli.command {
            Command::FindRefs { context, .. } => context,
            _ => false,
        },
        max_candidates: cli.max_candidates,
        max_results: cli.max_results,
        window: cli.window,
    }
}

/// Is one of the targets qualified?
pub open spec fn any_qualified(targets: Seq<Seq<char>>) -> bool {
    exists|i: int| 0 <= i < targets.len() && has_infix(#[trigger] targets[i], "::"@)
}

/// Are macros needed: does the run parse any file? Listing the locations of bare
/// names does not.
pub open spec fn needs_macros(s: Settings, targets: Seq<Seq<char>>) -> bool {
    s.query != Query::References || s.context || any_qualified(targets)
}

fn is_any_qualified(targets: &[String]) -> (r: bool)
    ensures
        r == any_qualified(views(targets@)),
{
    let ghost ts = views(targets@);
    let mut k: usize = 0;
    while k < targets.len()
        invariant
            k <= targets@.len(),
            ts == views(targets@),
            forall|i: int| 0 <= i < k ==> !has_infix(#[trigger] ts[i], "::"@),
        decreases targets@.len() - k,
    {
        assert(ts[k as int] == targets@[k as int]@);
        if contains(&targets[k], "::") {
            return true;
        }
        k += 1;
    }
    assert(ts.len() == targets@.len());
    false
}

/// The extensions that a run searches.
pub open spec fn extensions_of(cli: Cli) -> Seq<Seq<char>> {
    if cli.lang@.len() == 0 {
        default_extension_names()
    } else {
        views(cli.lang@)
    }
}

/// The macros that the searched files define, where they are needed.
pub open spec fn discovered_macros(
    cli: Cli,
    targets: Seq<Seq<char>>,
    files: Seq<SourceFileView>,
) -> Set<Seq<char>> {
    if needs_macros(settings_of(cli), targets) {
        defined_in(files, extensions_of(cli), files.len() as int)
    } else {
        Set::empty()
    }
}

/// The macros that a run blanks: those that the user named, everywhere; those and
/// the discovered ones, in annotation position.
pub open spec fn macros_of(
    cli: Cli,
    targets: Seq<Seq<char>>,
    files: Seq<SourceFileView>,
) -> Macros {
    let named = views(cli.empty_macro@).to_set();
    Macros { global: named, annotation: discovered_macros(cli, targets, files).union(named) }
}

/// The candidates of a target. Declarations are looked for in headers first.
pub open spec fn candidates_of(cli: Cli, target: Seq<char>, files: Seq<SourceFileView>) -> FinderResultView {
    found(
        target,
        extensions_of(cli),
        cli.max_candidates as int,
        settings_of(cli).query == Query::Declaration,
        files,
    )
}

/// The answer to one target of a run with the given targets.
pub open spec fn answer_to<E: Engine>(
    cli: Cli,
    targets: Seq<Seq<char>>,
    target: Seq<char>,
    engine: E,
    files: Seq<SourceFileView>,
) -> RecordView {
    answer(
        command_label(cli.command),
        target,
        settings_of(cli),
        candidates_of(cli, target, files),
        engine,
        macros_of(cli, targets, files),
        files,
    )
}

/// The answers to the targets of a run, one for each, in order.
pub open spec fn answers<E: Engine>(
    cli: Cli,
    targets: Seq<Seq<char>>,
    engine: E,
    files: Seq<SourceFileView>,
) -> Seq<RecordView> {
    targets.map_values(|t: Seq<char>| answer_to(cli, targets, t, engine, files))
}

/// The records of a run as they are handed out: without the heavy fields that are
/// not asked for, unless they are browsed, and within the budget.
pub open spec fn handed_out(cli: Cli, records: Seq<RecordView>) -> Seq<RecordView> {
    let w = wanted(cli.include_fields@);
    let shown = if cli.interactive {
        records
    } else {
        records.map_values(|r: RecordView| projected(r, w))
    };
    match cli.budget {
        Some(b) => budgeted(shown, b as int),
        None => shown,
    }
}

/// Did a record fall short of a resolution?
pub open spec fn falls_short(r: RecordView) -> bool {
    r.status == Status::Fallback || r.status == Status::Ambiguous
}

/// The unconfirmed macros in the candidate files of those of the first `k` targets
/// whose answer falls short.
pub open spec fn unconfirmed_macros<E: Engine>(
    cli: Cli,
    targets: Seq<Seq<char>>,
    engine: E,
    files: Seq<SourceFileView>,
    k: int,
) -> Seq<Seq<char>>
    decreases k,
{
    if k <= 0 {
        Seq::empty()
    } else {
        let before = unconfirmed_macros(cli, targets, engine, files, k - 1);
        let t = targets[k - 1];
        let hits = candidates_of(cli, t, files).candidates;
        let paths = distinct_files(hits, hits.len() as int);
        if needs_macros(settings_of(cli), targets) && falls_short(answer_to(cli, targets, t, engine, files)) {
            suspects_added(
                before,
                paths,
                views(cli.empty_macro@).to_set().union(discovered_macros(cli, targets, files)),
                files,
                paths.len() as int,
            )
        } else {
            before
        }
    }
}

/// The unconfirmed macros of a run come in ascending order, each once.
pub proof fn unconfirmed_macros_ascend<E: Engine>(
    cli: Cli,
    targets: Seq<Seq<char>>,
    engine: E,
    files: Seq<SourceFileView>,
    k: int,
)
    ensures
        names_ascend(unconfirmed_macros(cli, targets, engine, files, k)),
    decreases k,
{
    if k > 0 {
        unconfirmed_macros_ascend(cli, targets, engine, files, k - 1);
        let hits = candidates_of(cli, targets[k - 1], files).candidates;
        let paths = distinct_files(hits, hits.len() as int);
        suspects_added_ascend(
            unconfirmed_macros(cli, targets, engine, files, k - 1),
            paths,
            views(cli.empty_macro@).to_set().union(discovered_macros(cli, targets, files)),
            files,
            paths.len() as int,
        );
    }
}

/// What a run gives.
pub struct Outcome {
    pub records: Vec<Record>,
    /// Macros that may be hiding declarations, in ascending order.
    pub unconfirmed: Vec<String>,
}

/// Does a run with the given engine give this outcome?
pub open spec fn outcome_is<E: Engine>(
    o: Outcome,
    cli: Cli,
    targets: Seq<Seq<char>>,
    engine: E,
    files: Seq<SourceFileView>,
) -> bool {
    &&& views(o.records@) == handed_out(cli, answers(cli, targets, engine, files))
    &&& views(o.unconfirmed@) == unconfirmed_macros(
        cli,
        targets,
        engine,
        files,
        targets.len() as int,
    )
}

/// Can the text of the files be searched for a target?
pub open spec fn searchable(target: Seq<char>) -> bool {
    pattern_builds(word_pattern(last_component(target)))
}

/// Is `needle` what could not be searched for: the last component of the first
/// target that is not searchable?
pub open spec fn first_unsearchable(targets: Seq<Seq<char>>, needle: Seq<char>) -> bool {
    exists|i: int|
        0 <= i < targets.len() && !searchable(#[trigger] targets[i]) && needle == last_component(
            targets[i],
        ) && forall|j: int| 0 <= j < i ==> searchable(#[trigger] targets[j])
}

/// The text of a manifest, if there is one.
pub open spec fn manifest_text(manifest: Option<&str>) -> Option<Seq<char>> {
    match manifest {
        Some(t) => Some(t@),
        None => None,
    }
}

/// Is `r` what a run with the given engine gives: its outcome, or the first target
/// that cannot be searched for?
pub open spec fn run_gives<E: Engine>(
    r: Result<Outcome, SearchError>,
    cli: Cli,
    targets: Seq<Seq<char>>,
    engine: E,
    files: Seq<SourceFileView>,
) -> bool {
    match r {
        Ok(o) => outcome_is(o, cli, targets, engine, files) && forall|i: int|
            0 <= i < targets.len() ==> searchable(#[trigger] targets[i]),
        Err(e) => first_unsearchable(targets, e.needle@),
    }
}

/// The finder's configuration for a run.
pub fn build_finder_config(cli: &Cli) -> (r: FinderConfig)
    ensures
        views(r.roots@) == (if cli.root@.len() == 0 {
            seq!["."@]
        } else {
            views(cli.root@)
        }),
        views(r.extensions@) == extensions_of(*cli),
        r.respect_ignore == !cli.no_ignore,
        r.max_candidates == cli.max_candidates,
        r.threads == cli.jobs,
        !r.prefer_headers,
{
    let roots = if cli.root.len() == 0 {
        let mut roots: Vec<String> = Vec::new();
        roots.push(".".to_owned());
        assert(views(roots@) =~= seq!["."@]);
        roots
    } else {
        clone_strings(&cli.root)
    };
    let extensions = if cli.lang.len() == 0 {
        default_extensions()
    } else {
        clone_strings(&cli.lang)
    };
    FinderConfig {
        roots,
        extensions,
        respect_ignore: !cli.no_ignore,
        max_candidates: cli.max_candidates,
        threads: cli.jobs,
        prefer_headers: false,
    }
}

fn settings_for(cli: &Cli) -> (r: Settings)
    ensures
        r == settings_of(*cli),
{
    let (query, scope, context) = match &cli.command {
        Command::FindDef { scope, .. } => (Query::Definition, *scope, false),
        Command::FindDecl { .. } => (Query::Declaration, false, false),
        Command::FindRefs { context, .. } => (Query::References, false, *context),
    };
    Settings {
        query,
        scope,
        context,
        max_candidates: cli.max_candidates,
        max_results: cli.max_results,
        window: cli.window,
    }
}

/// The name of the command of a run.
pub fn command_name(cli: &Cli) -> (r: &'static str)
    ensures
        r@ == command_label(cli.command),
{
    match &cli.command {
        Command::FindDef { .. } => "find-def",
        Command::FindDecl { .. } => "find-decl",
        Command::FindRefs { .. } => "find-refs",
    }
}

/// The targets of a run, from the command line and the text of the manifest.
pub fn targets_for(cli: &Cli, manifest: Option<&str>) -> (r: Vec<String>)
    ensures
        views(r@) == targets_of(
            names_of(cli.command),
            manifest_text(manifest),
        ),
{
    match &cli.command {
        Command::FindDef { name, .. } => collect_targets(name, manifest),
        Command::FindDecl { name } => collect_targets(name, manifest),
        Command::FindRefs { name, .. } => collect_targets(name, manifest),
    }
}

fn project_all(cli: &Cli, records: Vec<Record>) -> (r: Vec<Record>)
    ensures
        views(r@) == views(records@).map_values(
            |x: RecordView| projected(x, wanted(cli.include_fields@)),
        ),
{
    let ghost all = views(records@);
    let ghost want = all.map_values(|x: RecordView| projected(x, wanted(cli.include_fields@)));
    let mut rest = records;
    let n = rest.len();
    let mut done: Vec<Record> = Vec::new();
    let mut k: usize = 0;
    while k < n
        invariant
            k <= n,
            rest@.len() == n - k,
            all.len() == n,
            want == all.map_values(|x: RecordView| projected(x, wanted(cli.include_fields@))),
            views(rest@) =~= all.skip(k as int),
            views(done@) =~= want.take(k as int),
        decreases n - k,
    {
        let ghost before = views(done@);
        let ghost left = views(rest@);
        assert(left[0] == all[k as int]);
        let one = rest.remove(0);
        assert(one@ == all[k as int]);
        assert(views(rest@) =~= left.remove(0));
        done.push(project(one, &cli.include_fields));
        assert(views(done@) =~= before.push(want[k as int]));
        k += 1;
    }
    assert(want.take(k as int) =~= want);
    done
}

/// Answers the targets of a run with the given engine.
#[verifier::rlimit(40)]
pub fn answer_all<E: Engine>(
    cli: &Cli,
    targets: &[String],
    engine: &E,
    files: &[SourceFile],
) -> (r: Result<Outcome, SearchError>)
    ensures
        run_gives(r, *cli, views(targets@), *engine, views(files@)),
{
    let ghost ts = views(targets@);
    let ghost fs = views(files@);
    let settings = settings_for(cli);
    let mut cfg = build_finder_config(cli);
    let parses = settings.query != Query::References || settings.context || is_any_qualified(
        targets,
    );
    let discovered = if parses {
        discover_defines(&cfg, files)
    } else {
        NameSet::new()
    };
    cfg.prefer_headers = settings.query == Query::Declaration;
    let mut confirmed = NameSet::from_names(&cli.empty_macro);
    confirmed.add_all(&discovered);
    let named = clone_strings(&cli.empty_macro);
    let syntactic = SyntacticEngine::with_macros(named, &discovered);
    assert(fs.len() == files@.len());
    assert(syntactic.macros() == macros_of(*cli, ts, fs));
    let command = command_name(cli);
    let ghost want = answers(*cli, ts, *engine, fs);
    let mut records: Vec<Record> = Vec::new();
    let mut unconfirmed: Vec<String> = Vec::new();
    let mut k: usize = 0;
    assert(views(unconfirmed@) =~= Seq::empty());
    while k < targets.len()
        invariant
            k <= targets@.len(),
            ts == views(targets@),
            fs == views(files@),
            want == answers(*cli, ts, *engine, fs),
            settings == settings_of(*cli),
            parses == needs_macros(settings, ts),
            command@ == command_label(cli.command),
            syntactic.macros() == macros_of(*cli, ts, fs),
            confirmed@ == views(cli.empty_macro@).to_set().union(discovered_macros(*cli, ts, fs)),
            views(cfg.extensions@) == extensions_of(*cli),
            cfg.max_candidates == cli.max_candidates,
            cfg.prefer_headers == (settings.query == Query::Declaration),
            views(records@) =~= want.take(k as int),
            views(unconfirmed@) == unconfirmed_macros(*cli, ts, *engine, fs, k as int),
            forall|i: int| 0 <= i < k ==> searchable(#[trigger] ts[i]),
        decreases targets@.len() - k,
    {
        let target = &targets[k];
        assert(ts[k as int] == target@);
        let found = match find_candidates(target, &cfg, files) {
            Ok(found) => found,
            Err(e) => {
                assert(!searchable(ts[k as int]));
                return Err(e);
            },
        };
        let record = resolve_one(command, target, &settings, &found, engine, &syntactic, files);
        assert(record@ == answer_to(*cli, ts, target@, *engine, fs));
        if parses && (record.status == Status::Fallback || record.status == Status::Ambiguous) {
            collect_unconfirmed_macros(&found, &confirmed, &mut unconfirmed, files);
        }
        let ghost before = views(records@);
        records.push(record);
        assert(views(records@) =~= before.push(want[k as int]));
        k += 1;
    }
    assert(want.take(k as int) =~= want);
    assert(ts.len() == targets@.len());
    if !cli.interactive {
        records = project_all(cli, records);
    }
    if let Some(budget) = cli.budget {
        records = apply_budget(records, budget);
    }
    Ok(Outcome { records, unconfirmed })
}

/// Is `r` what a run with the syntactic engine gives?
pub open spec fn syntactic_run(
    r: Result<Outcome, SearchError>,
    cli: Cli,
    targets: Seq<Seq<char>>,
    files: Seq<SourceFileView>,
) -> bool {
    exists|engine: SyntacticEngine|
        engine.macros() == macros_of(cli, targets, files) && #[trigger] run_gives(
            r,
            cli,
            targets,
            engine,
            files,
        )
}

/// Runs the selected command on the given files. The semantic engine is used where
/// it is asked for and at hand; else the syntactic one, with the macros that the
/// user named and those that the files define.
pub fn dispatch(
    cli: &Cli,
    manifest: Option<&str>,
    files: &[SourceFile],
    semantic: Option<&SemanticEngine>,
) -> (r: Result<Outcome, SearchError>)
    ensures
        match semantic {
            Some(engine) if cli.semantic => run_gives(
                r,
                *cli,
                targets_of(names_of(cli.command), manifest_text(manifest)),
                *engine,
                views(files@),
            ),
            _ => syntactic_run(
                r,
                *cli,
                targets_of(names_of(cli.command), manifest_text(manifest)),
                views(files@),
            ),
        },
{
    let targets = targets_for(cli, manifest);
    assert(views(targets@).len() == targets@.len());
    if cli.semantic {
        if let Some(engine) = semantic {
            return answer_all(cli, &targets, engine, files);
        }
    }
    let settings = settings_for(cli);
    let discovered = if settings.query != Query::References || settings.context
        || is_any_qualified(&targets) {
        discover_defines(&build_finder_config(cli), files)
    } else {
        NameSet::new()
    };
    let engine = SyntacticEngine::with_macros(clone_strings(&cli.empty_macro), &discovered);
    assert(views(files@).len() == files@.len());
    let r = answer_all(cli, &targets, &engine, files);
    assert(engine.macros() == macros_of(*cli, views(targets@), views(files@)));
    assert(run_gives(r, *cli, views(targets@), engine, views(files@)));
    r
}

} // verus!
