//! Which lines a search finds.

use crate::ascii::NEWLINE;
use crate::engine::macros::{define_name, defines};
use crate::order::in_order_sorts;
use crate::paths::{
    components, extension, last_dot, parts_of, CURRENT, NORMAL, PARENT, PathPartView, ROOT,
};
use crate::search::{
    allowed, candidate_of, candidates_in, default_extension_names, defined_in, escaped, found,
    gathered, header_extension, line_end, line_offset, marked_order, matching_lines, newline_unit,
    searched, unit_line, word_pattern, Candidate, CandidateView, MatchedLineView, UnitOrder,
};
use crate::sources::SourceFileView;
use crate::text::{has_prefix, last_component, line_start, pieces};
use vstd::prelude::*;

verus! {

// ---------------------------------------------------------------------------
// Hits
// ---------------------------------------------------------------------------

/// Is candidate `c` line `m` of a file: its place, and its text without what ends the
/// line?
pub open spec fn is_line_of(c: CandidateView, file: SourceFileView, m: MatchedLineView) -> bool {
    &&& c.file_path == file.path
    &&& c.line == m.line as usize
    &&& marked_order(file.bytes) is None ==> c.byte_offset == line_start(
        file.bytes,
        m.line as int,
    ) as usize
    &&& c.snippet.len() <= m.text.len()
    &&& c.snippet == m.text.take(c.snippet.len() as int)
    &&& forall|i: int|
        c.snippet.len() <= i < m.text.len() ==> (#[trigger] m.text[i]) == '\n' || m.text[i] == '\r'
    &&& c.snippet.len() > 0 ==> c.snippet.last() != '\n' && c.snippet.last() != '\r'
}

proof fn line_end_is_end(s: Seq<char>, e: int)
    requires
        0 <= e <= s.len(),
    ensures
        0 <= line_end(s, e) <= e,
        forall|i: int| line_end(s, e) <= i < e ==> (#[trigger] s[i]) == '\n' || s[i] == '\r',
        line_end(s, e) > 0 ==> s[line_end(s, e) - 1] != '\n' && s[line_end(s, e) - 1] != '\r',
    decreases e,
{
    if e > 0 && (s[e - 1] == '\n' || s[e - 1] == '\r') {
        line_end_is_end(s, e - 1);
    }
}

proof fn candidates_are_lines(file: SourceFileView, m: MatchedLineView)
    ensures
        is_line_of(candidate_of(file, m), file, m),
{
    line_end_is_end(m.text, m.text.len() as int);
    let c = candidate_of(file, m);
    assert(c.snippet =~= m.text.take(c.snippet.len() as int));
}

/// Has a file with one of the extensions a line that matches?
pub open spec fn has_hit(
    file: SourceFileView,
    pattern: Seq<char>,
    extensions: Seq<Seq<char>>,
) -> bool {
    allowed(file.path, extensions) && (matching_lines(pattern, file.bytes) matches Some(ms)
        && ms.len() > 0)
}

/// Is a candidate a matching line of one of the first `k` files, with one of the
/// extensions?
pub open spec fn comes_from(
    c: CandidateView,
    files: Seq<SourceFileView>,
    pattern: Seq<char>,
    extensions: Seq<Seq<char>>,
    k: int,
) -> bool {
    exists|j: int, x: int|
        #![trigger files[j], matching_lines(pattern, files[j].bytes)->0[x]]
        0 <= j < k && has_hit(files[j], pattern, extensions) && 0 <= x < matching_lines(
            pattern,
            files[j].bytes,
        )->0.len() && is_line_of(c, files[j], matching_lines(pattern, files[j].bytes)->0[x])
}

/// Is there a candidate for a line of a file?
pub open spec fn is_listed(
    cs: Seq<CandidateView>,
    file: SourceFileView,
    m: MatchedLineView,
) -> bool {
    exists|i: int| 0 <= i < cs.len() && is_line_of(#[trigger] cs[i], file, m)
}

proof fn gathering_is_faithful(
    files: Seq<SourceFileView>,
    pattern: Seq<char>,
    extensions: Seq<Seq<char>>,
    max: int,
    k: int,
)
    requires
        0 <= k <= files.len(),
    ensures
        ({
            let g = gathered(files, pattern, extensions, max, k);
            &&& forall|i: int|
                0 <= i < g.candidates.len() ==> comes_from(
                    #[trigger] g.candidates[i],
                    files,
                    pattern,
                    extensions,
                    k,
                )
            &&& !g.truncated ==> forall|j: int, x: int|
                #![trigger files[j], matching_lines(pattern, files[j].bytes)->0[x]]
                0 <= j < k && has_hit(files[j], pattern, extensions) && 0 <= x < matching_lines(
                    pattern,
                    files[j].bytes,
                )->0.len() ==> is_listed(
                    g.candidates,
                    files[j],
                    matching_lines(pattern, files[j].bytes)->0[x],
                )
        }),
    decreases k,
{
    if k > 0 {
        gathering_is_faithful(files, pattern, extensions, max, k - 1);
        let before = gathered(files, pattern, extensions, max, k - 1);
        let g = gathered(files, pattern, extensions, max, k);
        let file = files[k - 1];
        let ms = matching_lines(pattern, file.bytes)->0;
        let hits = candidates_in(file, pattern)->0;
        assert forall|i: int| 0 <= i < g.candidates.len() implies comes_from(
            #[trigger] g.candidates[i],
            files,
            pattern,
            extensions,
            k,
        ) by {
            let c = g.candidates[i];
            if i < before.candidates.len() {
                assert(c == before.candidates[i]);
                let (j, x) = choose|j: int, x: int|
                    #![trigger files[j], matching_lines(pattern, files[j].bytes)->0[x]]
                    0 <= j < k - 1 && has_hit(files[j], pattern, extensions) && 0 <= x
                        < matching_lines(pattern, files[j].bytes)->0.len() && is_line_of(
                        c,
                        files[j],
                        matching_lines(pattern, files[j].bytes)->0[x],
                    );
                assert(is_line_of(c, files[j], matching_lines(pattern, files[j].bytes)->0[x]));
            } else {
                let x = i - before.candidates.len();
                assert(c == hits[x]);
                candidates_are_lines(file, ms[x]);
                assert(is_line_of(c, files[k - 1], ms[x]));
            }
        }
        if !g.truncated {
            assert forall|j: int, x: int|
                #![trigger files[j], matching_lines(pattern, files[j].bytes)->0[x]]
                0 <= j < k && has_hit(files[j], pattern, extensions) && 0 <= x < matching_lines(
                    pattern,
                    files[j].bytes,
                )->0.len() implies is_listed(
                g.candidates,
                files[j],
                matching_lines(pattern, files[j].bytes)->0[x],
            ) by {
                let m = matching_lines(pattern, files[j].bytes)->0[x];
                if j < k - 1 {
                    assert(is_listed(before.candidates, files[j], m));
                    let i = choose|i: int|
                        0 <= i < before.candidates.len() && is_line_of(
                            #[trigger] before.candidates[i],
                            files[j],
                            m,
                        );
                    assert(g.candidates[i] == before.candidates[i]);
                } else {
                    candidates_are_lines(file, m);
                    assert(g.candidates[before.candidates.len() + x] == hits[x]);
                }
            }
        }
    }
}

/// What a search finds are matching lines of files with one of the extensions; and
/// unless it is truncated, all of them. The pattern is that of the last component of the
/// target.
pub proof fn searches_find_every_line(
    files: Seq<SourceFileView>,
    target: Seq<char>,
    extensions: Seq<Seq<char>>,
    max: int,
)
    ensures
        ({
            let r = searched(files, target, extensions, max);
            let pattern = word_pattern(last_component(target));
            &&& forall|i: int|
                0 <= i < r.candidates.len() ==> comes_from(
                    #[trigger] r.candidates[i],
                    files,
                    pattern,
                    extensions,
                    files.len() as int,
                )
            &&& !r.truncated ==> forall|j: int, x: int|
                #![trigger files[j], matching_lines(pattern, files[j].bytes)->0[x]]
                0 <= j < files.len() && has_hit(files[j], pattern, extensions) && 0 <= x
                    < matching_lines(pattern, files[j].bytes)->0.len() ==> is_listed(
                    r.candidates,
                    files[j],
                    matching_lines(pattern, files[j].bytes)->0[x],
                )
        }),
{
    let pattern = word_pattern(last_component(target));
    let n = files.len() as int;
    let g = gathered(files, pattern, extensions, max, n);
    let r = searched(files, target, extensions, max);
    gathering_is_faithful(files, pattern, extensions, max, n);
    in_order_sorts::<Candidate>(g.candidates);
    assert forall|i: int| 0 <= i < r.candidates.len() implies comes_from(
        #[trigger] r.candidates[i],
        files,
        pattern,
        extensions,
        n,
    ) by {
        let c = r.candidates[i];
        assert(r.candidates.contains(c));
        vstd::seq_lib::to_multiset_contains(r.candidates, c);
        vstd::seq_lib::to_multiset_contains(g.candidates, c);
        let j = choose|j: int| 0 <= j < g.candidates.len() && g.candidates[j] == c;
        assert(comes_from(g.candidates[j], files, pattern, extensions, n));
    }
    if !r.truncated {
        assert forall|j: int, x: int|
            #![trigger files[j], matching_lines(pattern, files[j].bytes)->0[x]]
            0 <= j < files.len() && has_hit(files[j], pattern, extensions) && 0 <= x < matching_lines(
                pattern,
                files[j].bytes,
            )->0.len() implies is_listed(
            r.candidates,
            files[j],
            matching_lines(pattern, files[j].bytes)->0[x],
        ) by {
            let m = matching_lines(pattern, files[j].bytes)->0[x];
            assert(is_listed(g.candidates, files[j], m));
            let i = choose|i: int|
                0 <= i < g.candidates.len() && is_line_of(#[trigger] g.candidates[i], files[j], m);
            let c = g.candidates[i];
            assert(g.candidates.contains(c));
            vstd::seq_lib::to_multiset_contains(g.candidates, c);
            vstd::seq_lib::to_multiset_contains(r.candidates, c);
            let y = choose|y: int| 0 <= y < r.candidates.len() && r.candidates[y] == c;
            assert(is_line_of(r.candidates[y], files[j], m));
        }
    }
}

/// The files with a hit.
pub open spec fn files_with_hits(
    files: Seq<SourceFileView>,
    pattern: Seq<char>,
    extensions: Seq<Seq<char>>,
) -> Seq<SourceFileView> {
    files.filter(|f: SourceFileView| has_hit(f, pattern, extensions))
}

proof fn cap_is_reached(
    files: Seq<SourceFileView>,
    pattern: Seq<char>,
    extensions: Seq<Seq<char>>,
    max: int,
    k: int,
)
    requires
        0 <= k <= files.len(),
    ensures
        ({
            let g = gathered(files, pattern, extensions, max, k);
            let n = files_with_hits(files.take(k), pattern, extensions).len();
            &&& g.files.len() <= n
            &&& g.truncated ==> n > max
        }),
    decreases k,
{
    reveal(Seq::filter);
    let pick = |f: SourceFileView| has_hit(f, pattern, extensions);
    if k > 0 {
        cap_is_reached(files, pattern, extensions, max, k - 1);
        assert(files.take(k).drop_last() =~= files.take(k - 1));
        assert(files.take(k).last() == files[k - 1]);
        let f = files[k - 1];
        if let Some(hits) = candidates_in(f, pattern) {
            assert(hits.len() == matching_lines(pattern, f.bytes)->0.len());
        }
    } else {
        assert(files.take(0) =~= Seq::empty());
    }
}

/// A search is truncated only if more files have a hit than may be.
pub proof fn searches_end_early_only_at_the_cap(
    files: Seq<SourceFileView>,
    target: Seq<char>,
    extensions: Seq<Seq<char>>,
    max: int,
)
    ensures
        searched(files, target, extensions, max).truncated ==> files_with_hits(
            files,
            word_pattern(last_component(target)),
            extensions,
        ).len() > max,
{
    let pattern = word_pattern(last_component(target));
    cap_is_reached(files, pattern, extensions, max, files.len() as int);
    assert(files.take(files.len() as int) =~= files);
}

/// Is this one of the extensions of headers?
pub open spec fn is_header(e: Seq<char>) -> bool {
    e == "h"@ || e == "hh"@ || e == "hpp"@ || e == "hxx"@
}

/// Headers are looked into first: where they are preferred and one has a hit, what is
/// found is what the headers alone give; else it is what all files give. Without a
/// preference headers make no difference.
pub proof fn headers_are_preferred(
    target: Seq<char>,
    extensions: Seq<Seq<char>>,
    max: int,
    prefer: bool,
    files: Seq<SourceFileView>,
)
    ensures
        ({
            let r = found(target, extensions, max, prefer, files);
            let headers = extensions.filter(|e: Seq<char>| is_header(e));
            let in_headers = searched(files, target, headers, max);
            &&& !prefer ==> r == searched(files, target, extensions, max)
            &&& prefer && in_headers.candidates.len() > 0 ==> r == in_headers
            &&& prefer && in_headers.candidates.len() == 0 ==> r == searched(
                files,
                target,
                extensions,
                max,
            )
        }),
{
    let a = |e: Seq<char>| is_header(e);
    let b = |e: Seq<char>| header_extension(e);
    assert(a =~= b);
    let headers = extensions.filter(a);
    let in_headers = searched(files, target, headers, max);
    if headers.len() == 0 && in_headers.candidates.len() > 0 {
        searches_find_every_line(files, target, headers, max);
        let c = in_headers.candidates[0];
        assert(comes_from(
            c,
            files,
            word_pattern(last_component(target)),
            headers,
            files.len() as int,
        ));
    }
}

/// The usual extensions of C and C++ are searched by default.
pub proof fn usual_extensions_are_searched(e: Seq<char>)
    ensures
        default_extension_names().contains(e) <==> is_header(e) || e == "c"@ || e == "cc"@ || e
            == "cpp"@ || e == "cxx"@ || e == "inl"@,
{
    let d = default_extension_names();
    assert(d[0] == "c"@ && d[1] == "cc"@ && d[2] == "cpp"@ && d[3] == "cxx"@ && d[4] == "h"@ && d[5]
        == "hpp"@ && d[6] == "hh"@ && d[7] == "hxx"@ && d[8] == "inl"@);
}

proof fn units_before(text: Seq<u8>, order: UnitOrder, at: int, i: int, line: int)
    requires
        0 <= i <= text.len(),
        at <= line,
    ensures
        i <= unit_line(text, order, at, i, line) <= text.len(),
    decreases text.len() - i,
{
    if at < line && i + 1 < text.len() {
        if newline_unit(text, order, i) {
            units_before(text, order, at + 1, i + 2, line);
        } else {
            units_before(text, order, at, i + 2, line);
        }
    }
}

/// In wide text the first line starts with the file, and every further line that there
/// is starts just behind the two bytes of a newline.
pub proof fn wide_lines_start_behind_newlines(text: Seq<u8>, line: int)
    requires
        marked_order(text) is Some,
        1 <= line,
    ensures
        ({
            let i = line_offset(text, line);
            &&& 0 <= i <= text.len()
            &&& line == 1 ==> i == 0
            &&& line > 1 && i < text.len() ==> i >= 2 && ((text[i - 2] == NEWLINE && text[i - 1] == 0)
                || (text[i - 2] == 0 && text[i - 1] == NEWLINE))
        }),
{
    let order = marked_order(text)->0;
    units_before(text, order, 1, 0, line);
    if line > 1 {
        unit_line_follows_newline(text, order, 1, 0, line);
    }
}

proof fn unit_line_follows_newline(text: Seq<u8>, order: UnitOrder, at: int, i: int, line: int)
    requires
        0 <= i <= text.len(),
        at < line,
    ensures
        ({
            let j = unit_line(text, order, at, i, line);
            j < text.len() ==> j >= 2 && newline_unit(text, order, j - 2)
        }),
    decreases text.len() - i,
{
    if i + 1 < text.len() {
        if newline_unit(text, order, i) {
            if at + 1 < line {
                unit_line_follows_newline(text, order, at + 1, i + 2, line);
            } else {
                assert(unit_line(text, order, at + 1, i + 2, line) == i + 2);
            }
        } else {
            unit_line_follows_newline(text, order, at, i + 2, line);
        }
    }
}

// ---------------------------------------------------------------------------
// Macros
// ---------------------------------------------------------------------------

/// The macros that are discovered are those that a line of a file with one of the
/// extensions defines, all of them and no others.
pub proof fn discovered_macros_are_defined_in_a_file(
    files: Seq<SourceFileView>,
    extensions: Seq<Seq<char>>,
    k: int,
    x: Seq<char>,
)
    requires
        0 <= k <= files.len(),
    ensures
        defined_in(files, extensions, k).contains(x) <==> exists|j: int, l: int|
            #![trigger files[j], pieces(files[j].bytes, NEWLINE, 0)[l]]
            0 <= j < k && allowed(files[j].path, extensions) && 0 <= l < pieces(
                files[j].bytes,
                NEWLINE,
                0,
            ).len() && define_name(pieces(files[j].bytes, NEWLINE, 0)[l]) == Some(x),
    decreases k,
{
    if k > 0 {
        discovered_macros_are_defined_in_a_file(files, extensions, k - 1, x);
        let file = files[k - 1];
        let ls = pieces(file.bytes, NEWLINE, 0);
        if allowed(file.path, extensions) && defines(file.bytes).contains(x) {
            let l = choose|l: int| 0 <= l < ls.len() && #[trigger] define_name(ls[l]) == Some(x);
            assert(define_name(pieces(files[k - 1].bytes, NEWLINE, 0)[l]) == Some(x));
        }
        if exists|j: int, l: int|
            #![trigger files[j], pieces(files[j].bytes, NEWLINE, 0)[l]]
            0 <= j < k && allowed(files[j].path, extensions) && 0 <= l < pieces(
                files[j].bytes,
                NEWLINE,
                0,
            ).len() && define_name(pieces(files[j].bytes, NEWLINE, 0)[l]) == Some(x) {
            let (j, l) = choose|j: int, l: int|
                #![trigger files[j], pieces(files[j].bytes, NEWLINE, 0)[l]]
                0 <= j < k && allowed(files[j].path, extensions) && 0 <= l < pieces(
                    files[j].bytes,
                    NEWLINE,
                    0,
                ).len() && define_name(pieces(files[j].bytes, NEWLINE, 0)[l]) == Some(x);
            if j == k - 1 {
                assert(define_name(ls[l]) == Some(x));
            }
        }
    }
}

// ---------------------------------------------------------------------------
// Paths
// ---------------------------------------------------------------------------

/// Does a piece of a path between slashes name something, itself or its parent?
pub open spec fn counts(piece: Seq<char>) -> bool {
    piece.len() > 0 && piece != "."@
}

proof fn parts_follow_pieces(ps: Seq<Seq<char>>)
    ensures
        ({
            let kept = ps.filter(|p: Seq<char>| counts(p));
            let parts = parts_of(ps);
            let lead = if ps.len() > 0 && ps[0] == "."@ { 1int } else { 0 };
            &&& parts.len() == kept.len() + lead
            &&& lead == 1 ==> parts[0].rank == CURRENT
            &&& forall|k: int|
                0 <= k < kept.len() ==> is_part(#[trigger] kept[k], parts[k + lead])
        }),
    decreases ps.len(),
{
    reveal(Seq::filter);
    reveal_strlit(".");
    if ps.len() > 0 {
        parts_follow_pieces(ps.drop_last());
        let pick = |p: Seq<char>| counts(p);
        let kept = ps.filter(pick);
        let before = ps.drop_last().filter(pick);
        let lead = if ps[0] == "."@ { 1int } else { 0 };
        let parts = parts_of(ps);
        let head = parts_of(ps.drop_last());
        if ps.len() > 1 {
            assert(ps.drop_last()[0] == ps[0]);
        }
        assert forall|k: int| 0 <= k < kept.len() implies is_part(#[trigger] kept[k], parts[k + lead]) by {
            if k < before.len() {
                assert(kept[k] == before[k]);
                assert(parts[k + lead] == head[k + lead]);
            }
        }
    }
}

/// Is a component what a piece of a path stands for: the parent, or a name?
pub open spec fn is_part(piece: Seq<char>, part: PathPartView) -> bool {
    if piece == ".."@ {
        part.rank == PARENT
    } else {
        part.rank == NORMAL && part.name == piece
    }
}

/// The components of a path are its pieces between slashes, in order, without empty ones
/// and without dots that stand for where they are; a slash or a dot in front counts as
/// one of its own.
pub proof fn components_are_the_pieces(path: Seq<char>)
    ensures
        ({
            let ps = pieces(path, '/', 0);
            let kept = ps.filter(|p: Seq<char>| counts(p));
            let parts = components(path);
            let rooted = path.len() > 0 && path[0] == '/';
            let lead = if rooted || ps[0] == "."@ { 1int } else { 0 };
            &&& parts.len() == kept.len() + lead
            &&& rooted ==> parts[0].rank == ROOT
            &&& !rooted && lead == 1 ==> parts[0].rank == CURRENT
            &&& forall|k: int|
                0 <= k < kept.len() ==> is_part(#[trigger] kept[k], parts[k + lead])
        }),
{
    let ps = pieces(path, '/', 0);
    let kept = ps.filter(|p: Seq<char>| counts(p));
    parts_follow_pieces(ps);
    crate::laws::texts::pieces_join_back(path, '/');
    reveal_strlit(".");
    if path.len() > 0 && path[0] == '/' {
        assert(ps[0].len() == 0);
        let rest = parts_of(ps);
        assert forall|k: int| 0 <= k < kept.len() implies is_part(
            #[trigger] kept[k],
            components(path)[k + 1],
        ) by {
            assert(components(path)[k + 1] == rest[k]);
        }
    }
}

proof fn last_dot_is_last(name: Seq<char>, e: int)
    requires
        0 <= e <= name.len(),
    ensures
        match last_dot(name, e) {
            Some(i) => 0 <= i < e && name[i] == '.' && forall|j: int|
                i < j < e ==> (#[trigger] name[j]) != '.',
            None => forall|j: int| 0 <= j < e ==> (#[trigger] name[j]) != '.',
        },
    decreases e,
{
    if e > 0 && name[e - 1] != '.' {
        last_dot_is_last(name, e - 1);
    }
}

/// The extension of a path is what follows the last dot in the name of its file, where
/// that dot is not the first character of the name.
pub proof fn extensions_follow_the_last_dot(path: Seq<char>, x: Seq<char>)
    ensures
        extension(path) == Some(x) <==> components(path).len() > 0 && components(path).last().rank
            == NORMAL && ({
            let name = components(path).last().name;
            exists|stem: Seq<char>|
                stem.len() > 0 && name == #[trigger] (stem.push('.') + x) && !x.contains('.')
        }),
{
    if components(path).len() > 0 && components(path).last().rank == NORMAL {
        let name = components(path).last().name;
        last_dot_is_last(name, name.len() as int);
        if extension(path) == Some(x) {
            let i = last_dot(name, name.len() as int)->0;
            let stem = name.take(i);
            assert(name =~= stem.push('.') + x);
            assert(!x.contains('.')) by {
                if x.contains('.') {
                    let j = choose|j: int| 0 <= j < x.len() && x[j] == '.';
                    assert(name[i + 1 + j] == '.');
                }
            }
        }
        if exists|stem: Seq<char>|
            stem.len() > 0 && name == #[trigger] (stem.push('.') + x) && !x.contains('.') {
            let stem = choose|stem: Seq<char>|
                stem.len() > 0 && name == #[trigger] (stem.push('.') + x) && !x.contains('.');
            let n = stem.len() as int;
            assert(name[n] == '.');
            let i = last_dot(name, name.len() as int)->0;
            if i > n {
                assert(name[i] == x[i - n - 1]);
            }
            assert(i == n);
            assert(name.skip(i + 1) =~= x);
        }
    }
}

/// Is `c` a letter or digit of ASCII, or an underscore?
pub open spec fn is_word_char(c: char) -> bool {
    'a' <= c <= 'z' || 'A' <= c <= 'Z' || '0' <= c <= '9' || c == '_'
}

/// A name is searched for as a whole word: its pattern asks that a word starts before it
/// and ends behind it, and a name of word characters stands in between as it is.
pub proof fn names_are_searched_as_whole_words(needle: Seq<char>)
    requires
        needle.len() > 0,
    ensures
        has_prefix(word_pattern(needle), "\\b{start-half}"@),
        exists|middle: Seq<char>|
            word_pattern(needle) == #[trigger] ("\\b{start-half}"@ + middle) + "\\b{end-half}"@
                && middle.len() >= needle.len(),
        (forall|i: int| 0 <= i < needle.len() ==> is_word_char(#[trigger] needle[i]))
            ==> word_pattern(needle) == "\\b{start-half}"@ + needle + "\\b{end-half}"@,
{
    let start = "\\b{start-half}"@;
    let middle = escaped(needle);
    escaping_only_adds(needle);
    assert(word_pattern(needle) == (start + middle) + "\\b{end-half}"@);
    assert(word_pattern(needle).take(start.len() as int) =~= start);
    assert(has_prefix(word_pattern(needle), start));
}

/// Different names have different patterns, whatever characters they hold: what has a
/// meaning in a pattern is searched for as it stands.
pub proof fn patterns_tell_names_apart(a: Seq<char>, b: Seq<char>)
    requires
        a.len() > 0,
        b.len() > 0,
        word_pattern(a) == word_pattern(b),
    ensures
        a == b,
{
    let start = "\\b{start-half}"@;
    let end = "\\b{end-half}"@;
    let n = word_pattern(a).len() - end.len();
    assert(word_pattern(a).subrange(start.len() as int, n) =~= escaped(a));
    assert(word_pattern(b).subrange(start.len() as int, n) =~= escaped(b));
    escaping_tells_apart(a, b);
}

proof fn escaping_only_adds(s: Seq<char>)
    ensures
        escaped(s).len() >= s.len(),
        s.len() > 0 ==> escaped(s).last() == s.last(),
        (forall|i: int| 0 <= i < s.len() ==> is_word_char(#[trigger] s[i])) ==> escaped(s) == s,
    decreases s.len(),
{
    if s.len() > 0 {
        let before = s.drop_last();
        escaping_only_adds(before);
        if forall|i: int| 0 <= i < s.len() ==> is_word_char(#[trigger] s[i]) {
            assert forall|i: int| 0 <= i < before.len() implies is_word_char(
                #[trigger] before[i],
            ) by {
                assert(before[i] == s[i]);
            }
            assert(is_word_char(s[s.len() - 1]));
            assert(escaped(s) =~= s);
        }
    }
}

proof fn escaping_tells_apart(a: Seq<char>, b: Seq<char>)
    requires
        escaped(a) == escaped(b),
    ensures
        a == b,
    decreases a.len(),
{
    escaping_only_adds(a);
    escaping_only_adds(b);
    if a.len() > 0 && b.len() > 0 {
        let x = escaped(a.drop_last());
        let y = escaped(b.drop_last());
        assert(a.last() == b.last());
        assert(escaped(a).take(x.len() as int) =~= x);
        assert(escaped(b).take(y.len() as int) =~= y);
        assert(x.len() == y.len());
        escaping_tells_apart(a.drop_last(), b.drop_last());
        assert(a =~= a.drop_last().push(a.last()));
        assert(b =~= b.drop_last().push(b.last()));
    } else {
        assert(a =~= b);
    }
}

} // verus!
