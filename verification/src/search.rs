//! The candidate finder: which files and lines mention a name.
//!
//! This is a prefilter. For the sake of recall it looks for the last component of
//! the target alone, as a whole word; matching qualified names is left to the
//! engine.

use crate::ascii::NEWLINE;
use crate::engine::macros::{collect_defines, defines};
use crate::names::NameSet;
use crate::order::{in_order, in_order_sorts, ordered, sort_by_place, Place, Placed};
use crate::paths::{extension, extension_of, has_path, is_listed, same_path};
use crate::sources::{SourceFile, SourceFileView};
use crate::text::{
    chars_of, concat3, find_line, is_empty, is_one_of, last_component, last_component_of, line_start,
    same_str, substring_of, views,
};
use vstd::prelude::*;

verus! {

/// A line that mentions the target.
pub struct Candidate {
    pub file_path: String,
    /// 1-based line.
    pub line: usize,
    /// Byte offset of the start of the line in the file.
    pub byte_offset: usize,
    /// The line, without what ends it.
    pub snippet: String,
}

/// The mathematical value of a [`Candidate`].
pub struct CandidateView {
    pub file_path: Seq<char>,
    pub line: usize,
    pub byte_offset: usize,
    pub snippet: Seq<char>,
}

impl View for Candidate {
    type V = CandidateView;

    open spec fn view(&self) -> CandidateView {
        CandidateView {
            file_path: self.file_path@,
            line: self.line,
            byte_offset: self.byte_offset,
            snippet: self.snippet@,
        }
    }
}

impl Clone for Candidate {
    fn clone(&self) -> (r: Candidate)
        ensures
            r@ == self@,
    {
        Candidate {
            file_path: self.file_path.clone(),
            line: self.line,
            byte_offset: self.byte_offset,
            snippet: self.snippet.clone(),
        }
    }
}

impl Placed for Candidate {
    open spec fn place(v: CandidateView) -> Place {
        Place { path: v.file_path, position: v.byte_offset as int }
    }

    fn path_of(&self) -> (r: &str) {
        &self.file_path
    }

    fn position_of(&self) -> (r: usize) {
        self.byte_offset
    }
}

// ---------------------------------------------------------------------------
// Searching one file
// ---------------------------------------------------------------------------

/// The last `::`-separated component of a target: what is searched for.
pub fn bare_component(target: &str) -> (r: String)
    ensures
        r@ == last_component(target@),
{
    last_component_of(target)
}

/// Has `c` a meaning of its own in a regular expression?
pub open spec fn meta(c: char) -> bool {
    c == '\\' || c == '.' || c == '+' || c == '*' || c == '?' || c == '(' || c == ')' || c == '|' || c
        == '[' || c == ']' || c == '{' || c == '}' || c == '^' || c == '$' || c == '#' || c == '&' || c
        == '-' || c == '~'
}

/// `s` with a backslash before every character that has a meaning of its own.
pub open spec fn escaped(s: Seq<char>) -> Seq<char>
    decreases s.len(),
{
    if s.len() == 0 {
        s
    } else if meta(s.last()) {
        escaped(s.drop_last()).push('\\').push(s.last())
    } else {
        escaped(s.drop_last()).push(s.last())
    }
}

/// Wraps `regex::escape`, which puts a backslash before each of the characters
/// that have a meaning of their own in a pattern.
#[verifier::external_body]
fn escape(s: &str) -> (r: String)
    ensures
        r@ == escaped(s@),
{
    regex::escape(s)
}

/// The pattern that finds `needle` as a whole word: no word character stands just
/// before it, and none just after. What the needle itself starts or ends with does
/// not matter, so that the name of an operator is found too. An empty needle is
/// found wherever a word starts or ends.
pub open spec fn word_pattern(needle: Seq<char>) -> Seq<char> {
    if needle.len() == 0 {
        "\\b"@
    } else {
        "\\b{start-half}"@ + escaped(needle) + "\\b{end-half}"@
    }
}

fn word_pattern_of(needle: &str) -> (r: String)
    ensures
        r@ == word_pattern(needle@),
{
    if is_empty(needle) {
        "\\b".to_owned()
    } else {
        concat3("\\b{start-half}", &escape(needle), "\\b{end-half}")
    }
}

/// A line that a pattern matches.
pub struct MatchedLine {
    /// 1-based.
    pub line: u64,
    /// The line with what ends it.
    pub text: String,
}

/// The mathematical value of a [`MatchedLine`].
pub struct MatchedLineView {
    pub line: u64,
    pub text: Seq<char>,
}

impl View for MatchedLine {
    type V = MatchedLineView;

    open spec fn view(&self) -> MatchedLineView {
        MatchedLineView { line: self.line, text: self.text@ }
    }
}

/// Adds a line; tells the searcher to go on.
fn record(hits: &mut Vec<MatchedLine>, line: u64, text: &str) -> (go_on: bool)
    ensures
        go_on,
        views(final(hits)@) == views(old(hits)@).push(MatchedLineView { line, text: text@ }),
{
    let ghost before = views(hits@);
    hits.push(MatchedLine { line, text: text.to_owned() });
    assert(views(hits@) =~= before.push(MatchedLineView { line, text: text@ }));
    true
}

/// Can a matcher be built from a pattern?
pub uninterp spec fn pattern_builds(pattern: Seq<char>) -> bool;

/// Wraps `grep::regex::RegexMatcher::new`: whether it succeeds depends on the
/// pattern alone.
#[verifier::external_body]
fn matcher_builds(pattern: &str) -> (r: bool)
    ensures
        r == pattern_builds(pattern@),
{
    grep::regex::RegexMatcher::new(pattern).is_ok()
}

/// The lines of a text that a pattern matches, in order; `None` where the search
/// fails.
pub uninterp spec fn matching_lines(pattern: Seq<char>, text: Seq<u8>) -> Option<
    Seq<MatchedLineView>,
>;

/// Wraps `grep::searcher::Searcher::search_slice` with a matcher for `pattern`,
/// line numbers, and the sink that hands on each matching line as text. The lines
/// depend on the pattern and the text alone.
#[verifier::external_body]
fn search_text(pattern: &str, text: &[u8]) -> (r: Option<Vec<MatchedLine>>)
    ensures
        r is Some <==> matching_lines(pattern@, text@) is Some,
        r matches Some(v) ==> views(v@) == matching_lines(pattern@, text@)->0,
{
    let matcher = grep::regex::RegexMatcher::new(pattern).ok()?;
    let mut searcher = grep::searcher::SearcherBuilder::new().line_number(true).build();
    let mut hits = Vec::new();
    let sink = grep::searcher::sinks::Lossy(|line, text| Ok(record(&mut hits, line, text)));
    searcher.search_slice(&matcher, text, sink).ok()?;
    Some(hits)
}

/// Where `s` ends without the newlines and carriage returns that end it.
pub open spec fn line_end(s: Seq<char>, e: int) -> int
    decreases e,
{
    if e > 0 && (s[e - 1] == '\n' || s[e - 1] == '\r') {
        line_end(s, e - 1)
    } else {
        e
    }
}

/// The order of the two bytes of a UTF-16 code unit.
#[derive(Clone, Copy, PartialEq, Eq, Structural, Debug)]
pub enum UnitOrder {
    LowFirst,
    HighFirst,
}

/// The order of the bytes in a text that starts with the byte-order mark of UTF-16;
/// `None` for any other text.
pub open spec fn marked_order(text: Seq<u8>) -> Option<UnitOrder> {
    if text.len() < 2 {
        None
    } else if text[0] == 0xff && text[1] == 0xfe {
        Some(UnitOrder::LowFirst)
    } else if text[0] == 0xfe && text[1] == 0xff {
        Some(UnitOrder::HighFirst)
    } else {
        None
    }
}

/// Is the code unit at `i` a newline?
pub open spec fn newline_unit(text: Seq<u8>, order: UnitOrder, i: int) -> bool {
    match order {
        UnitOrder::LowFirst => text[i] == NEWLINE && text[i + 1] == 0,
        UnitOrder::HighFirst => text[i] == 0 && text[i + 1] == NEWLINE,
    }
}

/// Where line `line` of a text of code units starts, if line `at` goes on at `i`;
/// the end of the text if there are not so many lines.
pub open spec fn unit_line(text: Seq<u8>, order: UnitOrder, at: int, i: int, line: int) -> int
    decreases text.len() - i,
{
    if at >= line {
        i
    } else if i + 1 >= text.len() {
        text.len() as int
    } else if newline_unit(text, order, i) {
        unit_line(text, order, at + 1, i + 2, line)
    } else {
        unit_line(text, order, at, i + 2, line)
    }
}

/// The byte offset of the 1-based line `line` in a file: counted in code units where
/// the file is marked as UTF-16, else in bytes.
pub open spec fn line_offset(text: Seq<u8>, line: int) -> int {
    match marked_order(text) {
        Some(order) => unit_line(text, order, 1, 0, line),
        None => line_start(text, line),
    }
}

fn find_unit_line(text: &[u8], order: UnitOrder, line: u64) -> (r: usize)
    ensures
        r == unit_line(text@, order, 1, 0, line as int),
{
    let mut at: u64 = 1;
    let mut i: usize = 0;
    while at < line && text.len() - i > 1
        invariant
            i <= text@.len(),
            unit_line(text@, order, at as int, i as int, line as int) == unit_line(
                text@,
                order,
                1,
                0,
                line as int,
            ),
        decreases text@.len() - i,
    {
        let newline = match order {
            UnitOrder::LowFirst => text[i] == NEWLINE && text[i + 1] == 0,
            UnitOrder::HighFirst => text[i] == 0 && text[i + 1] == NEWLINE,
        };
        if newline {
            at += 1;
        }
        i += 2;
    }
    if at >= line {
        i
    } else {
        text.len()
    }
}

fn find_line_offset(text: &[u8], line: u64) -> (r: usize)
    ensures
        r == line_offset(text@, line as int),
{
    if text.len() > 1 && text[0] == 0xff && text[1] == 0xfe {
        find_unit_line(text, UnitOrder::LowFirst, line)
    } else if text.len() > 1 && text[0] == 0xfe && text[1] == 0xff {
        find_unit_line(text, UnitOrder::HighFirst, line)
    } else {
        match find_line(text, line) {
            Some(i) => i,
            None => text.len(),
        }
    }
}

/// The candidate that a matching line of a file is.
pub open spec fn candidate_of(file: SourceFileView, m: MatchedLineView) -> CandidateView {
    CandidateView {
        file_path: file.path,
        line: m.line as usize,
        byte_offset: line_offset(file.bytes, m.line as int) as usize,
        snippet: m.text.take(line_end(m.text, m.text.len() as int)),
    }
}

/// The candidates of a file; `None` where it cannot be searched.
pub open spec fn candidates_in(file: SourceFileView, pattern: Seq<char>) -> Option<
    Seq<CandidateView>,
> {
    match matching_lines(pattern, file.bytes) {
        Some(ms) => Some(ms.map_values(|m: MatchedLineView| candidate_of(file, m))),
        None => None,
    }
}

fn without_line_end(s: &str) -> (r: String)
    ensures
        r@ == s@.take(line_end(s@, s@.len() as int)),
{
    let c = chars_of(s);
    let mut e: usize = c.len();
    while e > 0 && (c[e - 1] == '\n' || c[e - 1] == '\r')
        invariant
            e <= c@.len(),
            line_end(c@, e as int) == line_end(c@, c@.len() as int),
        decreases e,
    {
        e -= 1;
    }
    assert(c@.subrange(0, e as int) =~= c@.take(e as int));
    substring_of(&c, 0, e)
}

/// The candidates of a file.
pub fn search_file(file: &SourceFile, pattern: &str) -> (r: Option<Vec<Candidate>>)
    ensures
        match r {
            Some(v) => candidates_in(file@, pattern@) == Some(views(v@)),
            None => candidates_in(file@, pattern@) is None,
        },
{
    match search_text(pattern, &file.bytes) {
        Some(lines) => Some(candidates_from(file, &lines)),
        None => None,
    }
}

/// The candidates that the given matching lines of a file are.
pub fn candidates_from(file: &SourceFile, lines: &Vec<MatchedLine>) -> (r: Vec<Candidate>)
    ensures
        views(r@) == views(lines@).map_values(|m: MatchedLineView| candidate_of(file@, m)),
{
    let ghost want = views(lines@).map_values(|m: MatchedLineView| candidate_of(file@, m));
    let mut out: Vec<Candidate> = Vec::new();
    let mut k: usize = 0;
    while k < lines.len()
        invariant
            k <= lines@.len(),
            want == views(lines@).map_values(|m: MatchedLineView| candidate_of(file@, m)),
            views(out@) =~= want.take(k as int),
        decreases lines@.len() - k,
    {
        let m = &lines[k];
        let ghost before = views(out@);
        let c = Candidate {
            file_path: file.path.clone(),
            line: m.line as usize,
            byte_offset: find_line_offset(&file.bytes, m.line),
            snippet: without_line_end(&m.text),
        };
        assert(c@ == want[k as int]);
        out.push(c);
        assert(views(out@) =~= before.push(want[k as int]));
        k += 1;
    }
    assert(want.take(k as int) =~= want);
    out
}

// ---------------------------------------------------------------------------
// Searching all files
// ---------------------------------------------------------------------------

/// The extensions that are searched by default.
pub open spec fn default_extension_names() -> Seq<Seq<char>> {
    seq!["c"@, "cc"@, "cpp"@, "cxx"@, "h"@, "hpp"@, "hh"@, "hxx"@, "inl"@]
}

/// The extensions that are searched by default.
pub fn default_extensions() -> (r: Vec<String>)
    ensures
        views(r@) == default_extension_names(),
{
    let mut r: Vec<String> = Vec::new();
    r.push("c".to_owned());
    r.push("cc".to_owned());
    r.push("cpp".to_owned());
    r.push("cxx".to_owned());
    r.push("h".to_owned());
    r.push("hpp".to_owned());
    r.push("hh".to_owned());
    r.push("hxx".to_owned());
    r.push("inl".to_owned());
    assert(views(r@) =~= default_extension_names());
    r
}

/// What to search, and how.
pub struct FinderConfig {
    /// The directories to walk. None means the current directory.
    pub roots: Vec<String>,
    /// The extensions to search, without the leading dot.
    pub extensions: Vec<String>,
    /// Honor ignore files and skip hidden files on the walk.
    pub respect_ignore: bool,
    /// The cap on the number of distinct files with a hit.
    pub max_candidates: usize,
    /// The number of threads that walk; `None` leaves it to the walker.
    pub threads: Option<usize>,
    /// Look into headers first, and into other files only if no header has a hit.
    pub prefer_headers: bool,
}

impl Default for FinderConfig {
    fn default() -> (r: FinderConfig)
        ensures
            views(r.roots@) == seq!["."@],
            views(r.extensions@) == default_extension_names(),
            r.respect_ignore,
            r.max_candidates == 200,
            r.threads is None,
            !r.prefer_headers,
    {
        let mut roots: Vec<String> = Vec::new();
        roots.push(".".to_owned());
        assert(views(roots@) =~= seq!["."@]);
        FinderConfig {
            roots,
            extensions: default_extensions(),
            respect_ignore: true,
            max_candidates: 200,
            threads: None,
            prefer_headers: false,
        }
    }
}

/// The result of a search.
pub struct FinderResult {
    pub candidates: Vec<Candidate>,
    /// Was the cap on distinct files hit?
    pub truncated: bool,
}

/// The mathematical value of a [`FinderResult`].
pub struct FinderResultView {
    pub candidates: Seq<CandidateView>,
    pub truncated: bool,
}

impl View for FinderResult {
    type V = FinderResultView;

    open spec fn view(&self) -> FinderResultView {
        FinderResultView { candidates: views(self.candidates@), truncated: self.truncated }
    }
}

/// No matcher could be built for a name.
#[derive(Debug)]
pub struct SearchError {
    pub needle: String,
}

/// Is the extension of a path one of the given ones?
pub open spec fn allowed(path: Seq<char>, extensions: Seq<Seq<char>>) -> bool {
    extension(path) matches Some(e) && extensions.contains(e)
}

/// Is the extension of a path one of the given ones?
pub fn ext_allowed(path: &str, extensions: &[String]) -> (r: bool)
    ensures
        r == allowed(path@, views(extensions@)),
{
    match extension_of(path) {
        Some(e) => is_one_of(&e, extensions),
        None => false,
    }
}

/// Is `ext` the extension of a header?
pub open spec fn header_extension(ext: Seq<char>) -> bool {
    ext == "h"@ || ext == "hpp"@ || ext == "hh"@ || ext == "hxx"@
}

fn is_header_ext(ext: &str) -> (r: bool)
    ensures
        r == header_extension(ext@),
{
    same_str(ext, "h") || same_str(ext, "hpp") || same_str(ext, "hh") || same_str(ext, "hxx")
}

/// What the search has gathered so far.
pub struct Gathered {
    pub candidates: Seq<CandidateView>,
    /// The distinct files that had a hit.
    pub files: Seq<Seq<char>>,
    pub truncated: bool,
}

/// What the search has gathered once it has seen the hits of one more file. A file
/// without a hit adds nothing. Once `max` distinct files have a hit, the next file
/// with one ends the search.
pub open spec fn with_hits(
    g: Gathered,
    path: Seq<char>,
    hits: Seq<CandidateView>,
    max: int,
) -> Gathered {
    if g.truncated || hits.len() == 0 {
        g
    } else if g.files.len() >= max {
        Gathered { truncated: true, ..g }
    } else {
        Gathered {
            candidates: g.candidates + hits,
            files: if has_path(g.files, path) {
                g.files
            } else {
                g.files.push(path)
            },
            truncated: false,
        }
    }
}

/// What the search has gathered once it has seen one more file. A file of another
/// extension, or that cannot be searched, adds nothing.
pub open spec fn gather(
    g: Gathered,
    file: SourceFileView,
    pattern: Seq<char>,
    extensions: Seq<Seq<char>>,
    max: int,
) -> Gathered {
    match candidates_in(file, pattern) {
        Some(hits) => if allowed(file.path, extensions) {
            with_hits(g, file.path, hits, max)
        } else {
            g
        },
        None => g,
    }
}

/// What a search has gathered so far.
pub struct Gathering {
    pub candidates: Vec<Candidate>,
    /// The distinct files that had a hit.
    pub files: Vec<String>,
    pub truncated: bool,
}

impl View for Gathering {
    type V = Gathered;

    open spec fn view(&self) -> Gathered {
        Gathered {
            candidates: views(self.candidates@),
            files: views(self.files@),
            truncated: self.truncated,
        }
    }
}

impl Gathering {
    /// Nothing gathered yet.
    pub fn new() -> (r: Gathering)
        ensures
            r@ == (Gathered {
                candidates: Seq::empty(),
                files: Seq::empty(),
                truncated: false,
            }),
    {
        let r = Gathering { candidates: Vec::new(), files: Vec::new(), truncated: false };
        assert(views(r.candidates@) =~= Seq::empty());
        assert(views(r.files@) =~= Seq::empty());
        r
    }

    /// Takes in the hits of one more file.
    pub fn add_hits(&mut self, path: &str, hits: Vec<Candidate>, max: usize)
        ensures
            final(self)@ == with_hits(old(self)@, path@, views(hits@), max as int),
    {
        assert(views(hits@).len() == hits@.len());
        assert(views(self.files@).len() == self.files@.len());
        if self.truncated || hits.len() == 0 {
            return ;
        }
        if self.files.len() >= max {
            self.truncated = true;
            return ;
        }
        if !is_listed(&self.files, path) {
            let ghost before = views(self.files@);
            self.files.push(path.to_owned());
            assert(views(self.files@) =~= before.push(path@));
        }
        let ghost before = views(self.candidates@);
        let ghost added = views(hits@);
        let mut hits = hits;
        self.candidates.append(&mut hits);
        assert(views(self.candidates@) =~= before + added);
    }
}

/// What the search has gathered from the first `k` files.
pub open spec fn gathered(
    files: Seq<SourceFileView>,
    pattern: Seq<char>,
    extensions: Seq<Seq<char>>,
    max: int,
    k: int,
) -> Gathered
    decreases k,
{
    if k <= 0 {
        Gathered { candidates: Seq::empty(), files: Seq::empty(), truncated: false }
    } else {
        gather(
            gathered(files, pattern, extensions, max, k - 1),
            files[k - 1],
            pattern,
            extensions,
            max,
        )
    }
}

/// The result of searching the files with the given extensions for a target.
pub open spec fn searched(
    files: Seq<SourceFileView>,
    target: Seq<char>,
    extensions: Seq<Seq<char>>,
    max: int,
) -> FinderResultView {
    let g = gathered(
        files,
        word_pattern(last_component(target)),
        extensions,
        max,
        files.len() as int,
    );
    FinderResultView {
        candidates: in_order::<Candidate>(g.candidates),
        truncated: g.truncated,
    }
}

/// The result of a search: with headers preferred, that of the headers alone if
/// they have a hit; else that of all files.
pub open spec fn found(
    target: Seq<char>,
    extensions: Seq<Seq<char>>,
    max: int,
    prefer_headers: bool,
    files: Seq<SourceFileView>,
) -> FinderResultView {
    let headers = extensions.filter(|e: Seq<char>| header_extension(e));
    let in_headers = searched(files, target, headers, max);
    if prefer_headers && headers.len() > 0 && in_headers.candidates.len() > 0 {
        in_headers
    } else {
        searched(files, target, extensions, max)
    }
}

/// Searches the files with the given extensions. Once `max` distinct files have a
/// hit, the next one ends the search, which is then truncated. Results come in
/// order of file and byte offset.
fn run_search(target: &str, extensions: &[String], max: usize, files: &[SourceFile]) -> (r: Result<
    FinderResult,
    SearchError,
>)
    ensures
        match r {
            Ok(res) => pattern_builds(word_pattern(last_component(target@))) && res@ == searched(
                views(files@),
                target@,
                views(extensions@),
                max as int,
            ),
            Err(e) => !pattern_builds(word_pattern(last_component(target@))) && e.needle@
                == last_component(target@),
        },
{
    let needle = bare_component(target);
    let pattern = word_pattern_of(&needle);
    if !matcher_builds(&pattern) {
        return Err(SearchError { needle });
    }
    let ghost fs = views(files@);
    let ghost exts = views(extensions@);
    let mut g = Gathering::new();
    let mut k: usize = 0;
    while k < files.len() && !g.truncated
        invariant
            k <= files@.len(),
            fs == views(files@),
            exts == views(extensions@),
            gathered(fs, pattern@, exts, max as int, k as int) == g@,
        decreases files@.len() - k,
    {
        let file = &files[k];
        assert(fs[k as int] == file@);
        if ext_allowed(&file.path, extensions) {
            if let Some(hits) = search_file(file, &pattern) {
                g.add_hits(&file.path, hits, max);
            }
        }
        k += 1;
    }
    proof {
        if g.truncated {
            truncation_is_final(fs, pattern@, exts, max as int, k as int, fs.len() as int);
        }
    }
    let Gathering { mut candidates, truncated, .. } = g;
    sort_by_place(&mut candidates);
    Ok(FinderResult { candidates, truncated })
}

/// Once a search is truncated, the files that follow change nothing.
pub proof fn truncation_is_final(
    files: Seq<SourceFileView>,
    pattern: Seq<char>,
    extensions: Seq<Seq<char>>,
    max: int,
    j: int,
    k: int,
)
    requires
        0 <= j <= k,
        gathered(files, pattern, extensions, max, j).truncated,
    ensures
        gathered(files, pattern, extensions, max, k) == gathered(
            files,
            pattern,
            extensions,
            max,
            j,
        ),
    decreases k - j,
{
    if j < k {
        truncation_is_final(files, pattern, extensions, max, j, k - 1);
    }
}

/// Finds the lines that mention `target` in the given files.
pub fn find_candidates(target: &str, cfg: &FinderConfig, files: &[SourceFile]) -> (r: Result<
    FinderResult,
    SearchError,
>)
    ensures
        match r {
            Ok(res) => pattern_builds(word_pattern(last_component(target@))) && res@ == found(
                target@,
                views(cfg.extensions@),
                cfg.max_candidates as int,
                cfg.prefer_headers,
                views(files@),
            ),
            Err(e) => !pattern_builds(word_pattern(last_component(target@))) && e.needle@
                == last_component(target@),
        },
{
    if cfg.prefer_headers {
        let headers = header_extensions(&cfg.extensions);
        assert(views(headers@).len() == headers@.len());
        if headers.len() > 0 {
            let res = run_search(target, &headers, cfg.max_candidates, files)?;
            assert(res@.candidates.len() == res.candidates@.len());
            if res.candidates.len() > 0 {
                return Ok(res);
            }
        }
    }
    run_search(target, &cfg.extensions, cfg.max_candidates, files)
}

fn header_extensions(extensions: &Vec<String>) -> (r: Vec<String>)
    ensures
        views(r@) == views(extensions@).filter(|e: Seq<char>| header_extension(e)),
{
    let ghost all = views(extensions@);
    let ghost pick = |e: Seq<char>| header_extension(e);
    let mut out: Vec<String> = Vec::new();
    let mut k: usize = 0;
    proof {
        reveal(Seq::filter);
        assert(all.take(0).filter(pick) =~= Seq::empty());
    }
    while k < extensions.len()
        invariant
            k <= extensions@.len(),
            all == views(extensions@),
            pick == (|e: Seq<char>| header_extension(e)),
            views(out@) =~= all.take(k as int).filter(pick),
        decreases extensions@.len() - k,
    {
        let ghost before = views(out@);
        assert(all[k as int] == extensions@[k as int]@);
        proof {
            reveal(Seq::filter);
            assert(all.take(k + 1).drop_last() =~= all.take(k as int));
        }
        if is_header_ext(&extensions[k]) {
            out.push(extensions[k].clone());
            assert(views(out@) =~= before.push(all[k as int]));
        }
        k += 1;
    }
    assert(all.take(k as int) =~= all);
    out
}

// ---------------------------------------------------------------------------
// What every search satisfies
// ---------------------------------------------------------------------------

/// Is a candidate in one of the files listed, and has its file one of the
/// extensions?
pub open spec fn accounted(c: CandidateView, files: Seq<Seq<char>>, extensions: Seq<Seq<char>>) -> bool {
    has_path(files, c.file_path) && allowed(c.file_path, extensions)
}

proof fn gathering_accounts(
    files: Seq<SourceFileView>,
    pattern: Seq<char>,
    extensions: Seq<Seq<char>>,
    max: int,
    k: int,
)
    requires
        0 <= max,
    ensures
        ({
            let g = gathered(files, pattern, extensions, max, k);
            &&& g.files.len() <= max
            &&& g.truncated ==> g.files.len() == max
            &&& forall|m: int|
                0 <= m < g.candidates.len() ==> accounted(
                    #[trigger] g.candidates[m],
                    g.files,
                    extensions,
                )
        }),
    decreases k,
{
    if k > 0 {
        gathering_accounts(files, pattern, extensions, max, k - 1);
        let before = gathered(files, pattern, extensions, max, k - 1);
        let g = gathered(files, pattern, extensions, max, k);
        let file = files[k - 1];
        if g.candidates != before.candidates {
            let hits = candidates_in(file, pattern)->0;
            assert(has_path(g.files, file.path)) by {
                if !has_path(before.files, file.path) {
                    assert(g.files[before.files.len() as int] == file.path);
                    assert(same_path(g.files[before.files.len() as int], file.path));
                }
            }
            assert forall|m: int| 0 <= m < g.candidates.len() implies accounted(
                #[trigger] g.candidates[m],
                g.files,
                extensions,
            ) by {
                if m < before.candidates.len() {
                    assert(g.candidates[m] == before.candidates[m]);
                    let p = g.candidates[m].file_path;
                    let j = choose|j: int|
                        0 <= j < before.files.len() && same_path(#[trigger] before.files[j], p);
                    assert(g.files[j] == before.files[j]);
                } else {
                    assert(g.candidates[m] == hits[m - before.candidates.len()]);
                }
            }
        }
    }
}

/// A search keeps to its cap and to its extensions: the candidates lie in at most
/// `max` distinct files, all with one of the extensions; a truncated search has
/// found `max` of them; and candidates come in order of file and byte offset.
pub proof fn search_keeps_to_cap(
    files: Seq<SourceFileView>,
    target: Seq<char>,
    extensions: Seq<Seq<char>>,
    max: int,
)
    requires
        0 <= max,
    ensures
        ({
            let r = searched(files, target, extensions, max);
            &&& ordered::<Candidate>(r.candidates)
            &&& exists|listed: Seq<Seq<char>>|
                #![trigger listed.len()]
                {
                    &&& listed.len() <= max
                    &&& r.truncated ==> listed.len() == max
                    &&& forall|m: int|
                        0 <= m < r.candidates.len() ==> accounted(
                            #[trigger] r.candidates[m],
                            listed,
                            extensions,
                        )
                }
        }),
{
    let pattern = word_pattern(last_component(target));
    let g = gathered(files, pattern, extensions, max, files.len() as int);
    let r = searched(files, target, extensions, max);
    gathering_accounts(files, pattern, extensions, max, files.len() as int);
    in_order_sorts::<Candidate>(g.candidates);
    assert forall|m: int| 0 <= m < r.candidates.len() implies accounted(
        #[trigger] r.candidates[m],
        g.files,
        extensions,
    ) by {
        let c = r.candidates[m];
        assert(r.candidates.contains(c));
        vstd::seq_lib::to_multiset_contains(r.candidates, c);
        vstd::seq_lib::to_multiset_contains(g.candidates, c);
        let j = choose|j: int| 0 <= j < g.candidates.len() && g.candidates[j] == c;
        assert(accounted(g.candidates[j], g.files, extensions));
    }
    assert(g.files.len() <= max);
}

/// With headers preferred, a hit in a header keeps every other file out.
pub proof fn headers_come_first(
    target: Seq<char>,
    extensions: Seq<Seq<char>>,
    max: int,
    files: Seq<SourceFileView>,
)
    requires
        0 <= max,
        searched(
            files,
            target,
            extensions.filter(|e: Seq<char>| header_extension(e)),
            max,
        ).candidates.len() > 0,
    ensures
        ({
            let r = found(target, extensions, max, true, files);
            forall|m: int|
                0 <= m < r.candidates.len() ==> (extension(
                    (#[trigger] r.candidates[m]).file_path,
                ) matches Some(e) && header_extension(e))
        }),
{
    let pick = |e: Seq<char>| header_extension(e);
    let headers = extensions.filter(pick);
    search_keeps_to_cap(files, target, headers, max);
    let r = searched(files, target, headers, max);
    let listed = choose|listed: Seq<Seq<char>>|
        #![trigger listed.len()]
        {
            &&& listed.len() <= max
            &&& forall|m: int|
                0 <= m < r.candidates.len() ==> accounted(
                    #[trigger] r.candidates[m],
                    listed,
                    headers,
                )
        };
    assert forall|m: int| 0 <= m < r.candidates.len() implies (extension(
        (#[trigger] r.candidates[m]).file_path,
    ) matches Some(e) && header_extension(e)) by {
        assert(accounted(r.candidates[m], listed, headers));
        let e = extension(r.candidates[m].file_path)->0;
        let j = choose|j: int| 0 <= j < headers.len() && headers[j] == e;
        extensions.lemma_filter_pred(pick, j);
    }
    if headers.len() == 0 {
        let c = r.candidates[0];
        assert(accounted(c, listed, headers));
    }
}

// ---------------------------------------------------------------------------
// Macro discovery
// ---------------------------------------------------------------------------

/// The macro names that the first `k` files with the given extensions define.
pub open spec fn defined_in(
    files: Seq<SourceFileView>,
    extensions: Seq<Seq<char>>,
    k: int,
) -> Set<Seq<char>>
    decreases k,
{
    if k <= 0 {
        Set::empty()
    } else {
        let before = defined_in(files, extensions, k - 1);
        if allowed(files[k - 1].path, extensions) {
            before.union(defines(files[k - 1].bytes))
        } else {
            before
        }
    }
}

/// Harvests the macro names that the searched files define.
pub fn discover_defines(cfg: &FinderConfig, files: &[SourceFile]) -> (r: NameSet)
    ensures
        r@ == defined_in(views(files@), views(cfg.extensions@), files@.len() as int),
{
    let ghost fs = views(files@);
    let mut out = NameSet::new();
    let mut k: usize = 0;
    while k < files.len()
        invariant
            k <= files@.len(),
            fs == views(files@),
            out@ == defined_in(fs, views(cfg.extensions@), k as int),
        decreases files@.len() - k,
    {
        assert(fs[k as int] == files@[k as int]@);
        if ext_allowed(&files[k].path, &cfg.extensions) {
            collect_defines(&files[k].bytes, &mut out);
        }
        k += 1;
    }
    out
}

} // verus!
