//! How records are shown: as hits and lines to browse, as fields, as lines of output, and
//! as places to open in an editor.

use crate::cli::IncludeField;
use crate::interactive::editor::{
    editor_command, replaced, shell_state, shell_step, shell_tokens, Shell,
};
use crate::interactive::hits::{
    cached_line, cached_lines, description, files_wanted, hit_lines, lines_of_hits, record_hits,
    CachedFileView, HitView,
};
use crate::interactive::tree::{folder_row, line_row, segments, slashed, NodeView};
use crate::laws::texts::pieces_join_back;
use crate::output::{
    as_lines, line_bytes, projected, wanted, FallbackWindowView, RecordView, ResolvedResultView,
    Status, Wanted,
};
use crate::text::{decimal, has_infix, joined, occurs_at, pieces, utf8_len, whitespace};
use vstd::prelude::*;

verus! {

// ---------------------------------------------------------------------------
// Hits
// ---------------------------------------------------------------------------

/// Is a hit at the given lines of a file, with the given text?
pub open spec fn is_at(
    h: HitView,
    target: Seq<char>,
    file: Seq<char>,
    start: usize,
    end: usize,
    text: Option<Seq<char>>,
) -> bool {
    h.target == target && h.file == file && h.start_line == start && h.end_line == end && h.excerpt
        == text
}

/// Every place that a resolved record lists is a hit, in order: its results, or its
/// locations, or its contexts, each with its own lines and text.
pub proof fn listed_places_are_hits(r: RecordView, k: int)
    requires
        r.status == Status::Resolved,
    ensures
        r.results.len() > 0 ==> record_hits(r).len() == r.results.len() && (0 <= k < r.results.len()
            ==> is_at(
            record_hits(r)[k],
            r.target,
            r.results[k].file_path,
            r.results[k].start_line,
            r.results[k].end_line,
            r.results[k].content,
        ) && record_hits(r)[k].qualified_name == r.results[k].qualified_name),
        r.results.len() == 0 && r.locations.len() > 0 ==> record_hits(r).len() == r.locations.len()
            && (0 <= k < r.locations.len() ==> is_at(
            record_hits(r)[k],
            r.target,
            r.locations[k].file,
            r.locations[k].line,
            r.locations[k].line,
            None,
        )),
        r.results.len() == 0 && r.locations.len() == 0 && r.contexts.len() > 0 ==> record_hits(
            r,
        ).len() == r.contexts.len() && (0 <= k < r.contexts.len() ==> is_at(
            record_hits(r)[k],
            r.target,
            r.contexts[k].file,
            r.contexts[k].scope_start_line,
            r.contexts[k].scope_end_line,
            Some(r.contexts[k].content),
        )),
{
}

/// A record that names one place gives one hit there; one that was not found gives none;
/// candidates and windows give one each.
pub proof fn single_places_are_hits(r: RecordView, k: int)
    ensures
        r.status == Status::NotFound ==> record_hits(r).len() == 0,
        r.status == Status::Resolved && r.results.len() == 0 && r.locations.len() == 0
            && r.contexts.len() == 0 ==> (match (r.file_path, r.start_line, r.end_line) {
            (Some(f), Some(a), Some(b)) => record_hits(r).len() == 1 && is_at(
                record_hits(r)[0],
                r.target,
                f,
                a,
                b,
                r.content,
            ),
            (None, _, _) => record_hits(r).len() == 0,
            _ => true,
        }),
        r.status == Status::Ambiguous ==> record_hits(r).len() == r.candidates.len() && (0 <= k
            < r.candidates.len() ==> is_at(
            record_hits(r)[k],
            r.target,
            r.candidates[k].file_path,
            r.candidates[k].line,
            r.candidates[k].line,
            r.candidates[k].snippet,
        )),
        r.status == Status::Fallback && r.windows.len() > 0 ==> record_hits(r).len()
            == r.windows.len() && (0 <= k < r.windows.len() ==> is_window_hit(
            record_hits(r)[k],
            r.target,
            r.windows[k],
        )),
        r.status == Status::Fallback && r.windows.len() == 0 ==> (match (
            r.file_path,
            r.approximate_line,
            r.window_before,
            r.window_after,
            r.content_buffer,
        ) {
            (Some(f), Some(l), Some(a), Some(b), Some(t)) => record_hits(r).len() == 1
                && is_window_hit(
                record_hits(r)[0],
                r.target,
                FallbackWindowView {
                    file_path: f,
                    approximate_line: l,
                    window_before: a,
                    window_after: b,
                    content_buffer: t,
                },
            ),
            _ => true,
        }),
{
}

/// Does a hit cover the lines of a window: from so many above its line to so many below?
pub open spec fn is_window_hit(h: HitView, target: Seq<char>, w: FallbackWindowView) -> bool {
    &&& h.target == target
    &&& h.file == w.file_path
    &&& h.excerpt == Some(w.content_buffer)
    &&& w.window_before <= w.approximate_line ==> h.start_line == w.approximate_line
        - w.window_before
    &&& w.approximate_line + w.window_after <= usize::MAX ==> h.end_line == w.approximate_line
        + w.window_after
}

/// A hit with text gives its lines, numbered from its first, the first of which is the
/// anchor and carries the label; joined, they are the text. A hit without text gives the
/// one line that it is on.
pub proof fn hits_give_their_lines(h: HitView, cache: Seq<CachedFileView>)
    ensures
        ({
            let ls = hit_lines(h, cache);
            &&& ls.len() > 0
            &&& ls[0].anchor && ls[0].label is Some && ls[0].line == h.start_line
            &&& forall|k: int|
                0 <= k < ls.len() ==> (#[trigger] ls[k]).file == h.file && (k > 0 ==> !ls[k].anchor
                    && ls[k].label is None) && (h.start_line + k <= usize::MAX ==> ls[k].line
                    == h.start_line + k)
            &&& h.excerpt matches Some(t) ==> joined(
                Seq::new(ls.len(), |k: int| ls[k].text),
                seq!['\n'],
            ) == t
            &&& h.excerpt is None ==> ls.len() == 1 && ls[0].text == cached_line(
                cache,
                h.file,
                h.start_line,
            )
        }),
{
    let ls = hit_lines(h, cache);
    if let Some(t) = h.excerpt {
        let body = pieces(t, '\n', 0);
        pieces_join_back(t, '\n');
        assert(Seq::new(ls.len(), |k: int| ls[k].text) =~= body);
    }
}

proof fn lines_of_leading(hits: Seq<HitView>, cache: Seq<CachedFileView>, k: int, j: int) -> (at: int)
    requires
        0 <= j < k <= hits.len(),
    ensures
        0 <= at,
        at + hit_lines(hits[j], cache).len() <= lines_of_hits(hits, cache, k).len(),
        lines_of_hits(hits, cache, k).subrange(at, at + hit_lines(hits[j], cache).len())
            == hit_lines(hits[j], cache),
    decreases k,
{
    let before = lines_of_hits(hits, cache, k - 1);
    let all = lines_of_hits(hits, cache, k);
    let own = hit_lines(hits[j], cache);
    if j == k - 1 {
        assert(all.subrange(before.len() as int, all.len() as int) =~= own);
        before.len() as int
    } else {
        let at = lines_of_leading(hits, cache, k - 1, j);
        assert(all.subrange(at, at + own.len()) =~= before.subrange(at, at + own.len()));
        at
    }
}

/// The lines to browse hold those of every hit, together.
pub proof fn lines_of_every_hit_are_there(hits: Seq<HitView>, cache: Seq<CachedFileView>, j: int)
    requires
        0 <= j < hits.len(),
    ensures
        has_infix(lines_of_hits(hits, cache, hits.len() as int), hit_lines(hits[j], cache)),
{
    let at = lines_of_leading(hits, cache, hits.len() as int, j);
    assert(occurs_at(lines_of_hits(hits, cache, hits.len() as int), hit_lines(hits[j], cache), at));
}

/// The label of a hit names its target, what it is, its qualified name and its lines.
pub proof fn labels_name_the_hit(h: HitView)
    ensures
        ({
            let range = if h.start_line == h.end_line {
                decimal(h.start_line as nat)
            } else {
                decimal(h.start_line as nat) + "-"@ + decimal(h.end_line as nat)
            };
            let name = match h.qualified_name {
                Some(q) => seq![' '] + q,
                None => Seq::empty(),
            };
            description(h) == "["@ + h.target + "] "@ + h.label + name + "  L"@ + range
        }),
{
}

/// The files to read are those of the hits without text, each once.
pub proof fn files_are_read_for_hits_without_text(hits: Seq<HitView>, k: int, f: Seq<char>)
    requires
        0 <= k <= hits.len(),
    ensures
        files_wanted(hits, k).contains(f) <==> exists|j: int|
            0 <= j < k && (#[trigger] hits[j]).excerpt is None && hits[j].file == f,
        files_wanted(hits, k).no_duplicates(),
    decreases k,
{
    if k > 0 {
        files_are_read_for_hits_without_text(hits, k - 1, f);
        let before = files_wanted(hits, k - 1);
        let all = files_wanted(hits, k);
        let h = hits[k - 1];
        if before.contains(f) {
            let m = choose|m: int| 0 <= m < before.len() && before[m] == f;
            assert(all[m] == f);
        }
        if h.excerpt is None && h.file == f && !before.contains(f) {
            assert(all[all.len() - 1] == f);
        }
        if all.contains(f) && !before.contains(f) {
            let m = choose|m: int| 0 <= m < all.len() && all[m] == f;
            if m < before.len() {
                assert(before[m] == f);
            }
            assert(h.excerpt is None && h.file == f);
        }
    }
}

proof fn cached_lines_are_the_first(cache: Seq<CachedFileView>, file: Seq<char>, i: int, x: int)
    requires
        0 <= i <= x < cache.len(),
        cache[x].file == file,
        forall|j: int| i <= j < x ==> (#[trigger] cache[j]).file != file,
    ensures
        cached_lines(cache, file, i) == cache[x].lines,
    decreases x - i,
{
    if i < x {
        cached_lines_are_the_first(cache, file, i + 1, x);
    }
}

/// The text of a line is that line, counted from one, of the file that was read.
pub proof fn lines_are_read_from_their_file(cache: Seq<CachedFileView>, x: int, line: usize)
    requires
        0 <= x < cache.len(),
        forall|j: int| 0 <= j < x ==> (#[trigger] cache[j]).file != cache[x].file,
        1 <= line <= cache[x].lines.len(),
    ensures
        cached_line(cache, cache[x].file, line) == cache[x].lines[line - 1],
{
    cached_lines_are_the_first(cache, cache[x].file, 0, x);
}

// ---------------------------------------------------------------------------
// Fields
// ---------------------------------------------------------------------------

/// A heavy field is left out of a record with a signature if and only if it is not asked
/// for; a record without one keeps all, and nothing else is ever left out.
pub proof fn fields_are_left_out_unless_asked_for(r: RecordView, w: Wanted)
    ensures
        ({
            let p = projected(r, w);
            &&& p.content == (if r.signature is Some && !w.content { None } else { r.content })
            &&& p.start_byte == (if r.signature is Some && !w.offsets { None } else { r.start_byte })
            &&& p.end_byte == (if r.signature is Some && !w.offsets { None } else { r.end_byte })
            &&& p.type_spelling == (if r.signature is Some && !w.types { None } else {
                r.type_spelling
            })
            &&& p == RecordView {
                content: p.content,
                start_byte: p.start_byte,
                end_byte: p.end_byte,
                type_spelling: p.type_spelling,
                results: p.results,
                ..r
            }
            &&& p.results.len() == r.results.len()
            &&& forall|k: int|
                0 <= k < r.results.len() ==> is_result_left(#[trigger] p.results[k], r.results[k], w)
        }),
{
}

/// A field is kept if the list of fields names it.
pub proof fn fields_are_asked_for_by_name(fields: Seq<IncludeField>)
    ensures
        wanted(fields).content <==> fields.contains(IncludeField::Content),
        wanted(fields).offsets <==> fields.contains(IncludeField::Offsets),
        wanted(fields).types <==> fields.contains(IncludeField::Type),
{
}

/// Is `p` what is left of the result `r`, by the same rule?
pub open spec fn is_result_left(p: ResolvedResultView, r: ResolvedResultView, w: Wanted) -> bool {
    &&& p.content == (if r.signature is Some && !w.content { None } else { r.content })
    &&& p.start_byte == (if r.signature is Some && !w.offsets { None } else { r.start_byte })
    &&& p.end_byte == (if r.signature is Some && !w.offsets { None } else { r.end_byte })
    &&& p.type_spelling == (if r.signature is Some && !w.types { None } else { r.type_spelling })
    &&& p == ResolvedResultView {
        content: p.content,
        start_byte: p.start_byte,
        end_byte: p.end_byte,
        type_spelling: p.type_spelling,
        ..r
    }
}

/// Lines are put out one after the other, each with a newline, and their bytes add up.
pub proof fn lines_are_put_out_in_order(a: Seq<Seq<char>>, x: Seq<char>)
    ensures
        as_lines(Seq::empty()).len() == 0,
        as_lines(a.push(x)) == as_lines(a) + x + seq!['\n'],
        line_bytes(a.push(x)) == line_bytes(a) + utf8_len(x),
        line_bytes(Seq::empty()) == 0,
{
    assert(a.push(x).drop_last() =~= a);
    assert(as_lines(a.push(x)) =~= as_lines(a) + x + seq!['\n']);
}

// ---------------------------------------------------------------------------
// Editors
// ---------------------------------------------------------------------------

/// Is no character of `s` a quote or whitespace?
pub open spec fn is_plain(s: Seq<char>) -> bool {
    forall|i: int| 0 <= i < s.len() ==> (#[trigger] s[i]) != '\'' && s[i] != '"' && !whitespace(s[i])
}

proof fn shell_state_agrees(a: Seq<char>, s: Seq<char>, k: int)
    requires
        0 <= k <= a.len() <= s.len(),
        forall|i: int| 0 <= i < k ==> a[i] == s[i],
    ensures
        shell_state(s, k) == shell_state(a, k),
    decreases k,
{
    if k > 0 {
        shell_state_agrees(a, s, k - 1);
    }
}

proof fn shell_goes_on(a: Seq<char>, b: Seq<char>, out: Seq<Seq<char>>, k: int)
    requires
        0 <= k <= b.len(),
        shell_state(a, a.len() as int) == (Shell {
            out,
            cur: Seq::empty(),
            in_single: false,
            in_double: false,
            has_token: false,
        }),
    ensures
        shell_state(a + b, a.len() + k) == (Shell {
            out: out + shell_state(b, k).out,
            ..shell_state(b, k)
        }),
    decreases k,
{
    if k > 0 {
        shell_goes_on(a, b, out, k - 1);
        let before = shell_state(b, k - 1);
        assert((a + b)[a.len() + k - 1] == b[k - 1]);
        assert(out + before.out.push(before.cur) =~= (out + before.out).push(before.cur));
    } else {
        shell_state_agrees(a, a + b, a.len() as int);
        assert(out + Seq::<Seq<char>>::empty() =~= out);
    }
}

/// Whitespace outside quotes separates: the tokens of two command lines with whitespace
/// between are the tokens of each.
pub proof fn space_separates_tokens(a: Seq<char>, c: char, b: Seq<char>)
    requires
        whitespace(c),
        c != '\'' && c != '"',
        ({
            let s = shell_state(a, a.len() as int);
            !s.in_single && !s.in_double
        }),
    ensures
        shell_tokens(a.push(c) + b) == shell_tokens(a) + shell_tokens(b),
{
    let s = shell_state(a, a.len() as int);
    let ac = a.push(c);
    let out = shell_tokens(a);
    shell_state_agrees(a, ac, a.len() as int);
    shell_cur_is_empty(a, a.len() as int);
    assert(shell_state(ac, ac.len() as int) == shell_step(s, c));
    shell_goes_on(ac, b, out, b.len() as int);
    let e = shell_state(b, b.len() as int);
    assert(ac + b =~= a.push(c) + b);
    if e.has_token {
        assert((out + e.out).push(e.cur) =~= out + e.out.push(e.cur));
    }
}

proof fn shell_cur_is_empty(a: Seq<char>, k: int)
    requires
        0 <= k <= a.len(),
    ensures
        !shell_state(a, k).has_token ==> shell_state(a, k).cur =~= Seq::<char>::empty(),
    decreases k,
{
    if k > 0 {
        shell_cur_is_empty(a, k - 1);
    }
}

proof fn plain_state(s: Seq<char>, k: int)
    requires
        0 <= k <= s.len(),
        is_plain(s),
    ensures
        shell_state(s, k) == (Shell {
            out: Seq::empty(),
            cur: s.take(k),
            in_single: false,
            in_double: false,
            has_token: k > 0,
        }),
    decreases k,
{
    if k > 0 {
        plain_state(s, k - 1);
        assert(s.take(k) =~= s.take(k - 1).push(s[k - 1]));
    } else {
        assert(s.take(0) =~= Seq::empty());
    }
}

/// A word without quotes is one token, as it stands.
pub proof fn plain_words_are_tokens(s: Seq<char>)
    requires
        is_plain(s),
        s.len() > 0,
    ensures
        shell_tokens(s) == seq![s],
{
    plain_state(s, s.len() as int);
    assert(s.take(s.len() as int) =~= s);
    assert(shell_tokens(s) =~= seq![s]);
}

proof fn quoted_state(s: Seq<char>, q: char, k: int)
    requires
        q == '\'' || q == '"',
        0 <= k <= s.len(),
        !s.contains(q),
    ensures
        shell_state(seq![q] + s, k + 1) == (Shell {
            out: Seq::empty(),
            cur: s.take(k),
            in_single: q == '\'',
            in_double: q == '"',
            has_token: true,
        }),
    decreases k,
{
    let all = seq![q] + s;
    if k > 0 {
        quoted_state(s, q, k - 1);
        assert(all[k] == s[k - 1]);
        assert(s.contains(s[k - 1]));
        assert(s.take(k) =~= s.take(k - 1).push(s[k - 1]));
    } else {
        assert(s.take(0) =~= Seq::empty());
        assert(all[0] == q);
        assert(shell_state(all, 0).cur =~= Seq::empty());
        assert(shell_state(all, 1) == shell_step(shell_state(all, 0), q));
    }
}

/// What stands between quotes of one kind is one token, whatever whitespace or other
/// quotes it holds, even if it is empty.
pub proof fn quotes_group(s: Seq<char>, q: char)
    requires
        q == '\'' || q == '"',
        !s.contains(q),
    ensures
        shell_tokens(seq![q] + s + seq![q]) == seq![s],
{
    let open = seq![q] + s;
    let all = open + seq![q];
    quoted_state(s, q, s.len() as int);
    shell_state_agrees(open, all, open.len() as int);
    assert(all[open.len() as int] == q);
    assert(s.take(s.len() as int) =~= s);
    assert(shell_state(all, all.len() as int) == shell_step(
        shell_state(all, open.len() as int),
        q,
    ));
    assert(shell_tokens(all) =~= seq![s]);
}

/// The editor is the one asked for; failing that what VISUAL says, what EDITOR says, or
/// the default of the platform.
pub proof fn editors_are_chosen_in_order(
    asked: Option<Seq<char>>,
    visual: Option<Seq<char>>,
    editor: Option<Seq<char>>,
    platform: Seq<char>,
)
    ensures
        asked matches Some(x) ==> editor_command(asked, visual, editor, platform) == x,
        asked is None ==> (visual matches Some(x) ==> editor_command(
            asked,
            visual,
            editor,
            platform,
        ) == x),
        asked is None && visual is None ==> (editor matches Some(x) ==> editor_command(
            asked,
            visual,
            editor,
            platform,
        ) == x),
        asked is None && visual is None && editor is None ==> editor_command(
            asked,
            visual,
            editor,
            platform,
        ) == platform,
{
}

proof fn replaced_after(s: Seq<char>, p: Seq<char>, with: Seq<char>, i: int, k: int)
    requires
        0 <= i <= k <= s.len(),
        forall|j: int| i <= j < k ==> !#[trigger] occurs_at(s, p, j),
    ensures
        replaced(s, p, with, i) == s.subrange(i, k) + replaced(s, p, with, k),
    decreases k - i,
{
    if i < k {
        replaced_after(s, p, with, i + 1, k);
        assert(!occurs_at(s, p, i));
        assert(s.subrange(i, k) =~= seq![s[i]] + s.subrange(i + 1, k));
        assert(replaced(s, p, with, i) =~= s.subrange(i, k) + replaced(s, p, with, k));
    } else {
        assert(s.subrange(i, k) + replaced(s, p, with, k) =~= replaced(s, p, with, k));
    }
}

/// A placeholder is replaced where it occurs first, what stands before it stays, and
/// what follows is treated alike; a text without it stays as it is.
pub proof fn placeholders_are_replaced(s: Seq<char>, p: Seq<char>, with: Seq<char>, i: int, k: int)
    requires
        0 <= i <= k <= s.len(),
        p.len() > 0,
        forall|j: int| i <= j < k ==> !#[trigger] occurs_at(s, p, j),
    ensures
        k == s.len() ==> replaced(s, p, with, i) == s.skip(i),
        occurs_at(s, p, k) ==> replaced(s, p, with, i) == s.subrange(i, k) + with + replaced(
            s,
            p,
            with,
            k + p.len(),
        ),
{
    replaced_after(s, p, with, i, k);
    if k == s.len() {
        assert(s.subrange(i, k) + replaced(s, p, with, k) =~= s.skip(i));
    }
    if occurs_at(s, p, k) {
        assert(s.subrange(i, k) + (with + replaced(s, p, with, k + p.len())) =~= s.subrange(i, k)
            + with + replaced(s, p, with, k + p.len()));
    }
}

// ---------------------------------------------------------------------------
// Folders
// ---------------------------------------------------------------------------

/// The segments of a path are what stands between slashes of either kind, in order,
/// without the empty ones.
pub proof fn segments_stand_between_slashes(file: Seq<char>)
    ensures
        ({
            let forward = Seq::new(
                file.len(),
                |i: int| if file[i] == '\\' { '/' } else { file[i] },
            );
            segments(file) == pieces(forward, '/', 0).filter(|s: Seq<char>| s.len() > 0)
        }),
{
    let forward = Seq::new(file.len(), |i: int| if file[i] == '\\' { '/' } else { file[i] });
    assert(slashed(file) =~= forward);
}

/// A row of a folder says what is in it: its name, how many children it has, whether
/// they are lines, and whether it is open.
pub proof fn folder_rows_say_what_is_in_them(c: NodeView, depth: int, open: bool)
    requires
        0 <= depth <= usize::MAX,
        c.children.len() <= usize::MAX,
    ensures
        ({
            let r = folder_row(c, depth, open);
            &&& r.is_folder && r.seg == c.seg && r.depth == depth && r.expanded == open
            &&& r.child_count == c.children.len()
            &&& r.is_file_node <==> c.children.len() > 0 && c.children[0].line is Some
            &&& r.id.skip(2) == c.path && r.line is None
        }),
        ({
            let r = line_row(c, depth);
            !r.is_folder && r.line == c.line && r.depth == depth && r.id.skip(2) == c.path
        }),
{
    reveal_strlit("F:");
    reveal_strlit("L:");
    assert(("F:"@ + c.path).skip(2) =~= c.path);
    assert(("L:"@ + c.path).skip(2) =~= c.path);
}

} // verus!
