//! Flattens records into the source lines that the browser navigates.
//!
//! The shapes that a record can have are brought into one list of [`Hit`]s;
//! [`expand_to_lines`] then breaks the excerpt of each hit into lines.

use crate::interactive::tree::{Line, LineView};
use crate::output::{
    ChoiceView, FallbackWindowView, Record, RecordView, RefContextView, RefLocationView,
    ResolvedResultView, Status,
};
use crate::text::{
    clone_opt, concat3, decimal, decimal_of, is_one_of, lines, lines_of, opt_view, pieces,
    same_str, split, views,
};
use vstd::prelude::*;
use vstd::string::*;

verus! {

/// A definition, an overload, a reference, a candidate or a text window, anchored
/// to a file and a range of lines.
#[derive(Debug)]
pub struct Hit {
    pub target: String,
    pub file: String,
    pub start_line: usize,
    pub end_line: usize,
    pub label: String,
    pub qualified_name: Option<String>,
    /// The text of the lines, where the record carries it.
    pub excerpt: Option<String>,
}

/// The mathematical value of a [`Hit`].
pub struct HitView {
    pub target: Seq<char>,
    pub file: Seq<char>,
    pub start_line: usize,
    pub end_line: usize,
    pub label: Seq<char>,
    pub qualified_name: Option<Seq<char>>,
    pub excerpt: Option<Seq<char>>,
}

impl View for Hit {
    type V = HitView;

    open spec fn view(&self) -> HitView {
        HitView {
            target: self.target@,
            file: self.file@,
            start_line: self.start_line,
            end_line: self.end_line,
            label: self.label@,
            qualified_name: opt_view(self.qualified_name),
            excerpt: opt_view(self.excerpt),
        }
    }
}

/// `a + b`, or the largest number there is.
pub open spec fn sum(a: usize, b: int) -> usize {
    if a + b > usize::MAX {
        usize::MAX
    } else {
        (a + b) as usize
    }
}

/// `a - b`, or zero.
pub open spec fn difference(a: usize, b: usize) -> usize {
    if a < b {
        0
    } else {
        (a - b) as usize
    }
}

fn add_lines(a: usize, b: usize) -> (r: usize)
    ensures
        r == sum(a, b as int),
{
    if b > usize::MAX - a {
        usize::MAX
    } else {
        a + b
    }
}

fn take_lines(a: usize, b: usize) -> (r: usize)
    ensures
        r == difference(a, b),
{
    if a < b {
        0
    } else {
        a - b
    }
}

pub open spec fn result_hit(rec: RecordView, r: ResolvedResultView) -> HitView {
    HitView {
        target: rec.target,
        file: r.file_path,
        start_line: r.start_line,
        end_line: r.end_line,
        label: rec.resolution_type,
        qualified_name: r.qualified_name,
        excerpt: r.content,
    }
}

pub open spec fn location_hit(rec: RecordView, l: RefLocationView) -> HitView {
    HitView {
        target: rec.target,
        file: l.file,
        start_line: l.line,
        end_line: l.line,
        label: rec.resolution_type,
        qualified_name: None,
        excerpt: None,
    }
}

pub open spec fn context_hit(rec: RecordView, c: RefContextView) -> HitView {
    HitView {
        target: rec.target,
        file: c.file,
        start_line: c.scope_start_line,
        end_line: c.scope_end_line,
        label: rec.resolution_type + " (hit at L"@ + decimal(c.line as nat) + ")"@,
        qualified_name: None,
        excerpt: Some(c.content),
    }
}

pub open spec fn candidate_hit(rec: RecordView, c: ChoiceView) -> HitView {
    HitView {
        target: rec.target,
        file: c.file_path,
        start_line: c.line,
        end_line: c.line,
        label: "ambiguous"@,
        qualified_name: None,
        excerpt: c.snippet,
    }
}

pub open spec fn window_hit(rec: RecordView, w: FallbackWindowView) -> HitView {
    HitView {
        target: rec.target,
        file: w.file_path,
        start_line: difference(w.approximate_line, w.window_before),
        end_line: sum(w.approximate_line, w.window_after as int),
        label: "fallback"@,
        qualified_name: None,
        excerpt: Some(w.content_buffer),
    }
}

pub open spec fn number_or(n: Option<usize>, other: usize) -> usize {
    match n {
        Some(x) => x,
        None => other,
    }
}

/// The hits of a resolved record: its results, or its locations, or its contexts,
/// or the one place it names.
pub open spec fn resolved_hits(rec: RecordView) -> Seq<HitView> {
    if rec.results.len() > 0 {
        rec.results.map_values(|r: ResolvedResultView| result_hit(rec, r))
    } else if rec.locations.len() > 0 {
        rec.locations.map_values(|l: RefLocationView| location_hit(rec, l))
    } else if rec.contexts.len() > 0 {
        rec.contexts.map_values(|c: RefContextView| context_hit(rec, c))
    } else {
        match rec.file_path {
            Some(file) => seq![
                HitView {
                    target: rec.target,
                    file,
                    start_line: number_or(rec.start_line, 1),
                    end_line: number_or(rec.end_line, number_or(rec.start_line, 1)),
                    label: rec.resolution_type,
                    qualified_name: rec.qualified_name,
                    excerpt: rec.content,
                },
            ],
            None => Seq::empty(),
        }
    }
}

/// The hits of a record of text windows: its windows, or the one it holds.
pub open spec fn fallback_hits(rec: RecordView) -> Seq<HitView> {
    if rec.windows.len() > 0 {
        rec.windows.map_values(|w: FallbackWindowView| window_hit(rec, w))
    } else {
        match (rec.file_path, rec.approximate_line) {
            (Some(file), Some(line)) => seq![
                HitView {
                    target: rec.target,
                    file,
                    start_line: difference(line, number_or(rec.window_before, 0)),
                    end_line: sum(line, number_or(rec.window_after, 0) as int),
                    label: "fallback"@,
                    qualified_name: None,
                    excerpt: rec.content_buffer,
                },
            ],
            _ => Seq::empty(),
        }
    }
}

/// The hits of a record. One that was not found has none.
pub open spec fn record_hits(rec: RecordView) -> Seq<HitView> {
    match rec.status {
        Status::Resolved => resolved_hits(rec),
        Status::Ambiguous => rec.candidates.map_values(|c: ChoiceView| candidate_hit(rec, c)),
        Status::Fallback => fallback_hits(rec),
        Status::NotFound => Seq::empty(),
    }
}

/// The hits of the first `k` records, in order.
pub open spec fn hits_of(records: Seq<RecordView>, k: int) -> Seq<HitView>
    decreases k,
{
    if k <= 0 {
        Seq::empty()
    } else {
        hits_of(records, k - 1) + record_hits(records[k - 1])
    }
}

fn or_number(n: Option<usize>, other: usize) -> (r: usize)
    ensures
        r == number_or(n, other),
{
    match n {
        Some(x) => x,
        None => other,
    }
}

fn collect_resolved(rec: &Record) -> (hits: Vec<Hit>)
    ensures
        views(hits@) == resolved_hits(rec@),
{
    let mut hits: Vec<Hit> = Vec::new();
    let ghost want = resolved_hits(rec@);
    let ghost view = rec@;
    assert(view.results.len() == rec.results@.len());
    assert(view.locations.len() == rec.locations@.len());
    assert(view.contexts.len() == rec.contexts@.len());
    if rec.results.len() > 0 {
        let mut k: usize = 0;
        while k < rec.results.len()
            invariant
                k <= rec.results@.len(),
                view == rec@,
                want == view.results.map_values(|r: ResolvedResultView| result_hit(view, r)),
                views(hits@) =~= want.take(k as int),
            decreases rec.results@.len() - k,
        {
            let r = &rec.results[k];
            assert(view.results[k as int] == r@);
            let ghost before = views(hits@);
            hits.push(
                Hit {
                    target: rec.target.clone(),
                    file: r.file_path.clone(),
                    start_line: r.start_line,
                    end_line: r.end_line,
                    label: rec.resolution_type.clone(),
                    qualified_name: clone_opt(&r.qualified_name),
                    excerpt: clone_opt(&r.content),
                },
            );
            assert(views(hits@) =~= before.push(want[k as int]));
            k += 1;
        }
        assert(want.take(k as int) =~= want);
    } else if rec.locations.len() > 0 {
        let mut k: usize = 0;
        while k < rec.locations.len()
            invariant
                k <= rec.locations@.len(),
                view == rec@,
                want == view.locations.map_values(|l: RefLocationView| location_hit(view, l)),
                views(hits@) =~= want.take(k as int),
            decreases rec.locations@.len() - k,
        {
            let l = &rec.locations[k];
            assert(view.locations[k as int] == l@);
            let ghost before = views(hits@);
            hits.push(
                Hit {
                    target: rec.target.clone(),
                    file: l.file.clone(),
                    start_line: l.line,
                    end_line: l.line,
                    label: rec.resolution_type.clone(),
                    qualified_name: None,
                    excerpt: None,
                },
            );
            assert(views(hits@) =~= before.push(want[k as int]));
            k += 1;
        }
        assert(want.take(k as int) =~= want);
    } else if rec.contexts.len() > 0 {
        let mut k: usize = 0;
        while k < rec.contexts.len()
            invariant
                k <= rec.contexts@.len(),
                view == rec@,
                want == view.contexts.map_values(|c: RefContextView| context_hit(view, c)),
                views(hits@) =~= want.take(k as int),
            decreases rec.contexts@.len() - k,
        {
            let c = &rec.contexts[k];
            assert(view.contexts[k as int] == c@);
            let ghost before = views(hits@);
            let mut label = concat3(&rec.resolution_type, " (hit at L", &decimal_of(c.line));
            label.append(")");
            hits.push(
                Hit {
                    target: rec.target.clone(),
                    file: c.file.clone(),
                    start_line: c.scope_start_line,
                    end_line: c.scope_end_line,
                    label,
                    qualified_name: None,
                    excerpt: Some(c.content.clone()),
                },
            );
            assert(views(hits@) =~= before.push(want[k as int]));
            k += 1;
        }
        assert(want.take(k as int) =~= want);
    } else {
        if let Some(file) = &rec.file_path {
            let start = or_number(rec.start_line, 1);
            hits.push(
                Hit {
                    target: rec.target.clone(),
                    file: file.clone(),
                    start_line: start,
                    end_line: or_number(rec.end_line, start),
                    label: rec.resolution_type.clone(),
                    qualified_name: clone_opt(&rec.qualified_name),
                    excerpt: clone_opt(&rec.content),
                },
            );
        }
        assert(views(hits@) =~= want);
    }
    hits
}

fn collect_ambiguous(rec: &Record) -> (hits: Vec<Hit>)
    ensures
        views(hits@) == rec@.candidates.map_values(|c: ChoiceView| candidate_hit(rec@, c)),
{
    let mut hits: Vec<Hit> = Vec::new();
    let ghost view = rec@;
    let ghost want = view.candidates.map_values(|c: ChoiceView| candidate_hit(view, c));
    let mut k: usize = 0;
    while k < rec.candidates.len()
        invariant
            k <= rec.candidates@.len(),
            view == rec@,
            want == view.candidates.map_values(|c: ChoiceView| candidate_hit(view, c)),
            views(hits@) =~= want.take(k as int),
        decreases rec.candidates@.len() - k,
    {
        let c = &rec.candidates[k];
        assert(view.candidates[k as int] == c@);
        let ghost before = views(hits@);
        hits.push(
            Hit {
                target: rec.target.clone(),
                file: c.file_path.clone(),
                start_line: c.line,
                end_line: c.line,
                label: "ambiguous".to_owned(),
                qualified_name: None,
                excerpt: clone_opt(&c.snippet),
            },
        );
        assert(views(hits@) =~= before.push(want[k as int]));
        k += 1;
    }
    assert(view.candidates.len() == rec.candidates@.len());
    assert(want.take(k as int) =~= want);
    hits
}

fn collect_fallback(rec: &Record) -> (hits: Vec<Hit>)
    ensures
        views(hits@) == fallback_hits(rec@),
{
    let mut hits: Vec<Hit> = Vec::new();
    let ghost view = rec@;
    let ghost want = fallback_hits(view);
    assert(view.windows.len() == rec.windows@.len());
    if rec.windows.len() > 0 {
        let mut k: usize = 0;
        while k < rec.windows.len()
            invariant
                k <= rec.windows@.len(),
                view == rec@,
                want == view.windows.map_values(|w: FallbackWindowView| window_hit(view, w)),
                views(hits@) =~= want.take(k as int),
            decreases rec.windows@.len() - k,
        {
            let w = &rec.windows[k];
            assert(view.windows[k as int] == w@);
            let ghost before = views(hits@);
            hits.push(
                Hit {
                    target: rec.target.clone(),
                    file: w.file_path.clone(),
                    start_line: take_lines(w.approximate_line, w.window_before),
                    end_line: add_lines(w.approximate_line, w.window_after),
                    label: "fallback".to_owned(),
                    qualified_name: None,
                    excerpt: Some(w.content_buffer.clone()),
                },
            );
            assert(views(hits@) =~= before.push(want[k as int]));
            k += 1;
        }
        assert(want.take(k as int) =~= want);
    } else {
        if let (Some(file), Some(line)) = (&rec.file_path, rec.approximate_line) {
            hits.push(
                Hit {
                    target: rec.target.clone(),
                    file: file.clone(),
                    start_line: take_lines(line, or_number(rec.window_before, 0)),
                    end_line: add_lines(line, or_number(rec.window_after, 0)),
                    label: "fallback".to_owned(),
                    qualified_name: None,
                    excerpt: clone_opt(&rec.content_buffer),
                },
            );
        }
        assert(views(hits@) =~= want);
    }
    hits
}

/// The navigable hits of a record.
pub(crate) fn collect_record(rec: &Record) -> (hits: Vec<Hit>)
    ensures
        views(hits@) == record_hits(rec@),
{
    match rec.status {
        Status::Resolved => collect_resolved(rec),
        Status::Ambiguous => collect_ambiguous(rec),
        Status::Fallback => collect_fallback(rec),
        Status::NotFound => {
            let none: Vec<Hit> = Vec::new();
            assert(views(none@) =~= Seq::empty());
            none
        },
    }
}

/// The navigable hits of a batch of records, in record order.
pub fn collect_hits(records: &[Record]) -> (hits: Vec<Hit>)
    ensures
        views(hits@) == hits_of(views(records@), records@.len() as int),
{
    let ghost all = views(records@);
    let mut hits: Vec<Hit> = Vec::new();
    let mut k: usize = 0;
    assert(views(hits@) =~= Seq::empty());
    while k < records.len()
        invariant
            k <= records@.len(),
            all == views(records@),
            views(hits@) == hits_of(all, k as int),
        decreases records@.len() - k,
    {
        let rec = &records[k];
        assert(all[k as int] == rec@);
        let ghost before = views(hits@);
        let mut more = collect_record(rec);
        let ghost added = views(more@);
        hits.append(&mut more);
        assert(views(hits@) =~= before + added);
        k += 1;
    }
    hits
}

// ---------------------------------------------------------------------------
// Lines
// ---------------------------------------------------------------------------

/// The lines of the files that hits without an excerpt are in.
pub struct FileCache {
    files: Vec<CachedFile>,
}

/// The lines of a file.
pub struct CachedFile {
    pub file: String,
    pub lines: Vec<String>,
}

/// The mathematical value of a [`CachedFile`].
pub struct CachedFileView {
    pub file: Seq<char>,
    pub lines: Seq<Seq<char>>,
}

impl View for CachedFile {
    type V = CachedFileView;

    open spec fn view(&self) -> CachedFileView {
        CachedFileView { file: self.file@, lines: views(self.lines@) }
    }
}

impl View for FileCache {
    type V = Seq<CachedFileView>;

    closed spec fn view(&self) -> Seq<CachedFileView> {
        views(self.files@)
    }
}

/// The lines of the first of the files from `i` on with the given name; none if
/// there is no such file.
pub open spec fn cached_lines(cache: Seq<CachedFileView>, file: Seq<char>, i: int) -> Seq<Seq<char>>
    decreases cache.len() - i,
{
    if i < 0 || i >= cache.len() {
        Seq::empty()
    } else if cache[i].file == file {
        cache[i].lines
    } else {
        cached_lines(cache, file, i + 1)
    }
}

/// The text of a 1-based line of a file; empty if there is no such line.
pub open spec fn cached_line(cache: Seq<CachedFileView>, file: Seq<char>, line: usize) -> Seq<char> {
    let ls = cached_lines(cache, file, 0);
    let i = difference(line, 1) as int;
    if i < ls.len() {
        ls[i]
    } else {
        Seq::empty()
    }
}

impl FileCache {
    /// An empty cache.
    pub fn new() -> (r: FileCache)
        ensures
            r@ == Seq::<CachedFileView>::empty(),
    {
        let r = FileCache { files: Vec::new() };
        assert(r@ =~= Seq::empty());
        r
    }

    /// Adds a file that was read.
    pub fn add_file(&mut self, file: &str, text: &str)
        ensures
            final(self)@ == old(self)@.push(
                CachedFileView { file: file@, lines: lines(text@, 0) },
            ),
    {
        let ghost before = self@;
        let one = CachedFile { file: file.to_owned(), lines: lines_of(text) };
        let ghost v = one@;
        self.files.push(one);
        assert(self@ =~= before.push(v));
    }

    fn line_text(&self, file: &str, line: usize) -> (r: String)
        ensures
            r@ == cached_line(self@, file@, line),
    {
        let ghost cache = self@;
        let i = take_lines(line, 1);
        let mut k: usize = 0;
        while k < self.files.len()
            invariant
                k <= self.files@.len(),
                cache == views(self.files@),
                cache == self@,
                i == difference(line, 1),
                cached_lines(cache, file@, k as int) == cached_lines(cache, file@, 0),
            decreases self.files@.len() - k,
        {
            let f = &self.files[k];
            assert(cache[k as int] == f@);
            if same_str(&f.file, file) {
                assert(f@.lines.len() == f.lines@.len());
                if i < f.lines.len() {
                    assert(f@.lines[i as int] == f.lines@[i as int]@);
                    return f.lines[i].clone();
                }
                let none = String::new();
                assert(none@ =~= Seq::empty());
                return none;
            }
            k += 1;
        }
        let none = String::new();
        assert(none@ =~= Seq::empty());
        none
    }
}

/// The label of a hit.
pub open spec fn description(h: HitView) -> Seq<char> {
    let name = match h.qualified_name {
        Some(q) => seq![' '] + q,
        None => Seq::empty(),
    };
    let range = if h.start_line == h.end_line {
        decimal(h.start_line as nat)
    } else {
        decimal(h.start_line as nat) + "-"@ + decimal(h.end_line as nat)
    };
    "["@ + h.target + "] "@ + h.label + name + "  L"@ + range
}

fn describe(h: &Hit) -> (r: String)
    ensures
        r@ == description(h@),
{
    let mut s = concat3("[", &h.target, "] ");
    s.append(&h.label);
    if let Some(q) = &h.qualified_name {
        s.push(' ');
        s.append(q);
    }
    s.append("  L");
    s.append(&decimal_of(h.start_line));
    if h.start_line != h.end_line {
        s.append("-");
        s.append(&decimal_of(h.end_line));
    }
    assert(s@ =~= description(h@));
    s
}

/// Line `i` of the lines of an excerpt.
pub open spec fn excerpt_line(h: HitView, body: Seq<Seq<char>>, i: int) -> LineView {
    LineView {
        file: h.file,
        line: sum(h.start_line, i),
        text: body[i],
        anchor: i == 0,
        label: if i == 0 {
            Some(description(h))
        } else {
            None
        },
    }
}

/// The lines of a hit: those of its excerpt or, where it has none, the line that
/// it is on. The first carries the label.
pub open spec fn hit_lines(h: HitView, cache: Seq<CachedFileView>) -> Seq<LineView> {
    match h.excerpt {
        Some(text) => {
            let body = pieces(text, '\n', 0);
            Seq::new(body.len(), |i: int| excerpt_line(h, body, i))
        },
        None => seq![
            LineView {
                file: h.file,
                line: h.start_line,
                text: cached_line(cache, h.file, h.start_line),
                anchor: true,
                label: Some(description(h)),
            },
        ],
    }
}

/// The lines of the first `k` hits.
pub open spec fn lines_of_hits(hits: Seq<HitView>, cache: Seq<CachedFileView>, k: int) -> Seq<LineView>
    decreases k,
{
    if k <= 0 {
        Seq::empty()
    } else {
        lines_of_hits(hits, cache, k - 1) + hit_lines(hits[k - 1], cache)
    }
}

fn expand_hit(hit: &Hit, cache: &FileCache) -> (r: Vec<Line>)
    ensures
        views(r@) == hit_lines(hit@, cache@),
{
    let mut out: Vec<Line> = Vec::new();
    let ghost want = hit_lines(hit@, cache@);
    match &hit.excerpt {
        Some(text) => {
            let body = split(text, '\n');
            let ghost bs = pieces(text@, '\n', 0);
            let mut k: usize = 0;
            while k < body.len()
                invariant
                    k <= body@.len(),
                    views(body@) == bs,
                    want == Seq::new(bs.len(), |i: int| excerpt_line(hit@, bs, i)),
                    views(out@) =~= want.take(k as int),
                decreases body@.len() - k,
            {
                assert(bs[k as int] == body@[k as int]@);
                let ghost before = views(out@);
                out.push(
                    Line {
                        file: hit.file.clone(),
                        line: add_lines(hit.start_line, k),
                        text: body[k].clone(),
                        anchor: k == 0,
                        label: if k == 0 {
                            Some(describe(hit))
                        } else {
                            None
                        },
                    },
                );
                assert(views(out@) =~= before.push(want[k as int]));
                k += 1;
            }
            assert(bs.len() == body@.len());
            assert(want.take(k as int) =~= want);
        },
        None => {
            out.push(
                Line {
                    file: hit.file.clone(),
                    line: hit.start_line,
                    text: cache.line_text(&hit.file, hit.start_line),
                    anchor: true,
                    label: Some(describe(hit)),
                },
            );
            assert(views(out@) =~= want);
        },
    }
    out
}

/// Breaks the excerpt of every hit into lines. The first line of a hit carries its
/// label.
pub fn expand_to_lines(hits: &[Hit], cache: &FileCache) -> (r: Vec<Line>)
    ensures
        views(r@) == lines_of_hits(views(hits@), cache@, hits@.len() as int),
{
    let ghost all = views(hits@);
    let mut out: Vec<Line> = Vec::new();
    let mut k: usize = 0;
    assert(views(out@) =~= Seq::empty());
    while k < hits.len()
        invariant
            k <= hits@.len(),
            all == views(hits@),
            views(out@) == lines_of_hits(all, cache@, k as int),
        decreases hits@.len() - k,
    {
        assert(all[k as int] == hits@[k as int]@);
        let ghost before = views(out@);
        let mut more = expand_hit(&hits[k], cache);
        let ghost added = views(more@);
        out.append(&mut more);
        assert(views(out@) =~= before + added);
        k += 1;
    }
    out
}

/// The files of the first `k` hits that have no excerpt, each once.
pub open spec fn files_wanted(hits: Seq<HitView>, k: int) -> Seq<Seq<char>>
    decreases k,
{
    if k <= 0 {
        Seq::empty()
    } else {
        let before = files_wanted(hits, k - 1);
        let h = hits[k - 1];
        if h.excerpt is None && !before.contains(h.file) {
            before.push(h.file)
        } else {
            before
        }
    }
}

/// The files that a cache needs for the given hits.
pub fn files_to_read(hits: &[Hit]) -> (r: Vec<String>)
    ensures
        views(r@) == files_wanted(views(hits@), hits@.len() as int),
{
    let ghost all = views(hits@);
    let mut out: Vec<String> = Vec::new();
    let mut k: usize = 0;
    assert(views(out@) =~= Seq::empty());
    while k < hits.len()
        invariant
            k <= hits@.len(),
            all == views(hits@),
            views(out@) == files_wanted(all, k as int),
        decreases hits@.len() - k,
    {
        assert(all[k as int] == hits@[k as int]@);
        if hits[k].excerpt.is_none() && !is_one_of(&hits[k].file, &out) {
            let ghost before = views(out@);
            out.push(hits[k].file.clone());
            assert(views(out@) =~= before.push(all[k as int].file));
        }
        k += 1;
    }
    out
}

/// Every hit has a line, so there are at least as many lines as hits.
pub proof fn every_hit_has_a_line(hits: Seq<HitView>, cache: Seq<CachedFileView>, k: int)
    requires
        0 <= k <= hits.len(),
    ensures
        lines_of_hits(hits, cache, k).len() >= k,
    decreases k,
{
    if k > 0 {
        every_hit_has_a_line(hits, cache, k - 1);
        let h = hits[k - 1];
        if h.excerpt is Some {
            assert(pieces(h.excerpt->0, '\n', 0).len() > 0);
        }
    }
}

/// The hits of two batches one after the other are the hits of each.
pub proof fn hits_of_joined_batches(a: Seq<RecordView>, b: Seq<RecordView>)
    ensures
        hits_of(a + b, (a + b).len() as int) == hits_of(a, a.len() as int) + hits_of(
            b,
            b.len() as int,
        ),
{
    hits_of_leading(a, b, a.len() as int);
    hits_go_on(a, b, b.len() as int);
}

proof fn hits_of_leading(a: Seq<RecordView>, b: Seq<RecordView>, k: int)
    requires
        0 <= k <= a.len(),
    ensures
        hits_of(a + b, k) == hits_of(a, k),
    decreases k,
{
    if k > 0 {
        hits_of_leading(a, b, k - 1);
        assert((a + b)[k - 1] == a[k - 1]);
    }
}

proof fn hits_go_on(a: Seq<RecordView>, b: Seq<RecordView>, k: int)
    requires
        0 <= k <= b.len(),
    ensures
        hits_of(a + b, a.len() + k) == hits_of(a, a.len() as int) + hits_of(b, k),
    decreases k,
{
    if k > 0 {
        hits_go_on(a, b, k - 1);
        assert((a + b)[a.len() + k - 1] == b[k - 1]);
        assert(hits_of(a + b, a.len() + k) =~= hits_of(a, a.len() as int) + hits_of(b, k));
    } else {
        hits_of_leading(a, b, a.len() as int);
        assert(hits_of(a, a.len() as int) + hits_of(b, 0) =~= hits_of(a, a.len() as int));
    }
}

} // verus!
