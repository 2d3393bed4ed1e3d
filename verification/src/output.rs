//! The wire format.
//!
//! A record has a common envelope and fields that depend on its status. Absent
//! fields are omitted; payload text is never altered.

use crate::cli::{Format, IncludeField};
use crate::model::{Resolution, ResolutionView};
use crate::text::{
    byte_len, clone_opt, concat3, decimal, decimal_of, decimal_of_wide, from_utf8_lossy,
    has_infix, lossy, occurs_at, opt_view, utf8_len, views,
};
use vstd::prelude::*;
use vstd::string::*;

verus! {

pub const SCHEMA_VERSION: &'static str = "1.2";

pub const TOOL: &'static str = "cpp-navigator";

/// Outcome of a query.
#[derive(Clone, Copy, Debug, PartialEq, Eq, Structural)]
pub enum Status {
    Resolved,
    Ambiguous,
    Fallback,
    NotFound,
}

/// One candidate location of an ambiguous result.
#[derive(Debug)]
pub struct Candidate {
    pub file_path: String,
    pub line: usize,
    pub snippet: Option<String>,
}

/// A reference location.
#[derive(Debug)]
pub struct RefLocation {
    pub file: String,
    pub line: usize,
}

/// One of several resolved results.
#[derive(Debug)]
pub struct ResolvedResult {
    pub file_path: String,
    pub start_line: usize,
    pub end_line: usize,
    pub start_byte: Option<usize>,
    pub end_byte: Option<usize>,
    pub content: Option<String>,
    pub signature: Option<String>,
    pub type_spelling: Option<String>,
    pub doc: Option<String>,
    pub qualified_name: Option<String>,
}

/// A reference with the scope around it.
#[derive(Debug)]
pub struct RefContext {
    pub file: String,
    pub line: usize,
    pub scope_start_line: usize,
    pub scope_end_line: usize,
    pub content: String,
}

/// One of several text windows.
#[derive(Debug)]
pub struct FallbackWindow {
    pub file_path: String,
    pub approximate_line: usize,
    pub window_before: usize,
    pub window_after: usize,
    pub content_buffer: String,
}

/// A verbatim window of lines around a textual hit. `before` and `after` are the
/// numbers of lines retained, which are smaller than asked near a file edge.
#[derive(Debug)]
pub struct TextWindow {
    pub file_path: String,
    pub approximate_line: usize,
    pub before: usize,
    pub after: usize,
    pub content_buffer: String,
}

/// A single output record.
#[derive(Debug)]
pub struct Record {
    pub schema_version: &'static str,
    pub tool: &'static str,
    pub command: String,
    pub target: String,
    pub status: Status,
    pub resolution_type: String,
    pub engine: Option<String>,
    // A resolved definition or declaration.
    pub file_path: Option<String>,
    pub start_line: Option<usize>,
    pub end_line: Option<usize>,
    pub start_byte: Option<usize>,
    pub end_byte: Option<usize>,
    pub content: Option<String>,
    pub signature: Option<String>,
    pub type_spelling: Option<String>,
    pub doc: Option<String>,
    pub qualified_name: Option<String>,
    // Ambiguous matches.
    pub candidates: Vec<Candidate>,
    // Several resolved results.
    pub results: Vec<ResolvedResult>,
    // References.
    pub locations: Vec<RefLocation>,
    pub contexts: Vec<RefContext>,
    // Text windows.
    pub windows: Vec<FallbackWindow>,
    pub approximate_line: Option<usize>,
    pub window_before: Option<usize>,
    pub window_after: Option<usize>,
    pub content_buffer: Option<String>,
    // Markers.
    pub truncated: bool,
    pub budget_trimmed: bool,
    pub message: Option<String>,
}

// ---------------------------------------------------------------------------
// Mathematical values
// ---------------------------------------------------------------------------

pub struct ChoiceView {
    pub file_path: Seq<char>,
    pub line: usize,
    pub snippet: Option<Seq<char>>,
}

pub struct RefLocationView {
    pub file: Seq<char>,
    pub line: usize,
}

pub struct ResolvedResultView {
    pub file_path: Seq<char>,
    pub start_line: usize,
    pub end_line: usize,
    pub start_byte: Option<usize>,
    pub end_byte: Option<usize>,
    pub content: Option<Seq<char>>,
    pub signature: Option<Seq<char>>,
    pub type_spelling: Option<Seq<char>>,
    pub doc: Option<Seq<char>>,
    pub qualified_name: Option<Seq<char>>,
}

pub struct RefContextView {
    pub file: Seq<char>,
    pub line: usize,
    pub scope_start_line: usize,
    pub scope_end_line: usize,
    pub content: Seq<char>,
}

pub struct FallbackWindowView {
    pub file_path: Seq<char>,
    pub approximate_line: usize,
    pub window_before: usize,
    pub window_after: usize,
    pub content_buffer: Seq<char>,
}

pub struct TextWindowView {
    pub file_path: Seq<char>,
    pub approximate_line: usize,
    pub before: usize,
    pub after: usize,
    pub content_buffer: Seq<char>,
}

pub struct RecordView {
    pub schema_version: Seq<char>,
    pub tool: Seq<char>,
    pub command: Seq<char>,
    pub target: Seq<char>,
    pub status: Status,
    pub resolution_type: Seq<char>,
    pub engine: Option<Seq<char>>,
    pub file_path: Option<Seq<char>>,
    pub start_line: Option<usize>,
    pub end_line: Option<usize>,
    pub start_byte: Option<usize>,
    pub end_byte: Option<usize>,
    pub content: Option<Seq<char>>,
    pub signature: Option<Seq<char>>,
    pub type_spelling: Option<Seq<char>>,
    pub doc: Option<Seq<char>>,
    pub qualified_name: Option<Seq<char>>,
    pub candidates: Seq<ChoiceView>,
    pub results: Seq<ResolvedResultView>,
    pub locations: Seq<RefLocationView>,
    pub contexts: Seq<RefContextView>,
    pub windows: Seq<FallbackWindowView>,
    pub approximate_line: Option<usize>,
    pub window_before: Option<usize>,
    pub window_after: Option<usize>,
    pub content_buffer: Option<Seq<char>>,
    pub truncated: bool,
    pub budget_trimmed: bool,
    pub message: Option<Seq<char>>,
}

impl View for Candidate {
    type V = ChoiceView;

    open spec fn view(&self) -> ChoiceView {
        ChoiceView {
            file_path: self.file_path@,
            line: self.line,
            snippet: opt_view(self.snippet),
        }
    }
}

impl View for RefLocation {
    type V = RefLocationView;

    open spec fn view(&self) -> RefLocationView {
        RefLocationView { file: self.file@, line: self.line }
    }
}

impl View for ResolvedResult {
    type V = ResolvedResultView;

    open spec fn view(&self) -> ResolvedResultView {
        ResolvedResultView {
            file_path: self.file_path@,
            start_line: self.start_line,
            end_line: self.end_line,
            start_byte: self.start_byte,
            end_byte: self.end_byte,
            content: opt_view(self.content),
            signature: opt_view(self.signature),
            type_spelling: opt_view(self.type_spelling),
            doc: opt_view(self.doc),
            qualified_name: opt_view(self.qualified_name),
        }
    }
}

impl View for RefContext {
    type V = RefContextView;

    open spec fn view(&self) -> RefContextView {
        RefContextView {
            file: self.file@,
            line: self.line,
            scope_start_line: self.scope_start_line,
            scope_end_line: self.scope_end_line,
            content: self.content@,
        }
    }
}

impl View for FallbackWindow {
    type V = FallbackWindowView;

    open spec fn view(&self) -> FallbackWindowView {
        FallbackWindowView {
            file_path: self.file_path@,
            approximate_line: self.approximate_line,
            window_before: self.window_before,
            window_after: self.window_after,
            content_buffer: self.content_buffer@,
        }
    }
}

impl View for TextWindow {
    type V = TextWindowView;

    open spec fn view(&self) -> TextWindowView {
        TextWindowView {
            file_path: self.file_path@,
            approximate_line: self.approximate_line,
            before: self.before,
            after: self.after,
            content_buffer: self.content_buffer@,
        }
    }
}

impl View for Record {
    type V = RecordView;

    open spec fn view(&self) -> RecordView {
        RecordView {
            schema_version: self.schema_version@,
            tool: self.tool@,
            command: self.command@,
            target: self.target@,
            status: self.status,
            resolution_type: self.resolution_type@,
            engine: opt_view(self.engine),
            file_path: opt_view(self.file_path),
            start_line: self.start_line,
            end_line: self.end_line,
            start_byte: self.start_byte,
            end_byte: self.end_byte,
            content: opt_view(self.content),
            signature: opt_view(self.signature),
            type_spelling: opt_view(self.type_spelling),
            doc: opt_view(self.doc),
            qualified_name: opt_view(self.qualified_name),
            candidates: views(self.candidates@),
            results: views(self.results@),
            locations: views(self.locations@),
            contexts: views(self.contexts@),
            windows: views(self.windows@),
            approximate_line: self.approximate_line,
            window_before: self.window_before,
            window_after: self.window_after,
            content_buffer: opt_view(self.content_buffer),
            truncated: self.truncated,
            budget_trimmed: self.budget_trimmed,
            message: opt_view(self.message),
        }
    }
}

// ---------------------------------------------------------------------------
// The shapes of a record
// ---------------------------------------------------------------------------

/// A record with only the envelope populated.
pub open spec fn envelope(
    command: Seq<char>,
    target: Seq<char>,
    status: Status,
    resolution_type: Seq<char>,
) -> RecordView {
    RecordView {
        schema_version: SCHEMA_VERSION@,
        tool: TOOL@,
        command,
        target,
        status,
        resolution_type,
        engine: None,
        file_path: None,
        start_line: None,
        end_line: None,
        start_byte: None,
        end_byte: None,
        content: None,
        signature: None,
        type_spelling: None,
        doc: None,
        qualified_name: None,
        candidates: Seq::empty(),
        results: Seq::empty(),
        locations: Seq::empty(),
        contexts: Seq::empty(),
        windows: Seq::empty(),
        approximate_line: None,
        window_before: None,
        window_after: None,
        content_buffer: None,
        truncated: false,
        budget_trimmed: false,
        message: None,
    }
}

/// The record of a target that was not found.
pub open spec fn not_found_record(command: Seq<char>, target: Seq<char>) -> RecordView {
    RecordView {
        message: Some("No textual or semantic match in the searched roots."@),
        ..envelope(command, target, Status::NotFound, "not_found"@)
    }
}

/// The record of a target that one construct resolves.
pub open spec fn resolved_record(
    command: Seq<char>,
    target: Seq<char>,
    resolution_type: Seq<char>,
    r: ResolutionView,
) -> RecordView {
    RecordView {
        engine: Some(r.engine),
        file_path: Some(r.source_ref.file_path),
        start_line: Some(r.source_ref.span.start_line),
        end_line: Some(r.source_ref.span.end_line),
        start_byte: Some(r.source_ref.span.start_byte),
        end_byte: Some(r.source_ref.span.end_byte),
        content: Some(lossy(r.content_bytes)),
        signature: r.symbol.signature,
        type_spelling: r.symbol.type_spelling,
        doc: r.symbol.doc,
        qualified_name: r.symbol.qualified_name,
        ..envelope(command, target, Status::Resolved, resolution_type)
    }
}

/// The record of a target with too many matches.
pub open spec fn ambiguous_record(
    command: Seq<char>,
    target: Seq<char>,
    candidates: Seq<ChoiceView>,
) -> RecordView {
    RecordView {
        candidates,
        message: Some(
            "Found "@ + decimal(candidates.len())
                + " candidates. Returning raw candidate locations."@,
        ),
        ..envelope(command, target, Status::Ambiguous, "ambiguous_multiple_matches"@)
    }
}

/// The record of a target that was found in one place as text only.
pub open spec fn fallback_record(
    command: Seq<char>,
    target: Seq<char>,
    w: TextWindowView,
    message: Seq<char>,
) -> RecordView {
    RecordView {
        file_path: Some(w.file_path),
        approximate_line: Some(w.approximate_line),
        window_before: Some(w.before),
        window_after: Some(w.after),
        content_buffer: Some(w.content_buffer),
        message: Some(message),
        ..envelope(command, target, Status::Fallback, "partial_resolution_fallback"@)
    }
}

/// The record of a target that was found in several places as text only.
pub open spec fn fallback_multi_record(
    command: Seq<char>,
    target: Seq<char>,
    windows: Seq<FallbackWindowView>,
    message: Seq<char>,
) -> RecordView {
    RecordView {
        windows,
        message: Some(message),
        ..envelope(command, target, Status::Fallback, "partial_resolution_fallback"@)
    }
}

/// One of several results.
pub open spec fn result_of(r: ResolutionView) -> ResolvedResultView {
    ResolvedResultView {
        file_path: r.source_ref.file_path,
        start_line: r.source_ref.span.start_line,
        end_line: r.source_ref.span.end_line,
        start_byte: Some(r.source_ref.span.start_byte),
        end_byte: Some(r.source_ref.span.end_byte),
        content: Some(lossy(r.content_bytes)),
        signature: r.symbol.signature,
        type_spelling: r.symbol.type_spelling,
        doc: r.symbol.doc,
        qualified_name: r.symbol.qualified_name,
    }
}

/// The record of a target with several matches shown in full, out of `total`.
pub open spec fn multi_resolved_record(
    command: Seq<char>,
    target: Seq<char>,
    resolution_type: Seq<char>,
    resolutions: Seq<ResolutionView>,
    total: nat,
) -> RecordView {
    let shown = decimal(resolutions.len());
    RecordView {
        engine: Some(resolutions[0].engine),
        results: resolutions.map_values(|r: ResolutionView| result_of(r)),
        message: Some(
            if total > resolutions.len() {
                "Showing "@ + shown + " of "@ + decimal(total) + " matches (--max-results "@ + shown
                    + ")."@
            } else {
                "Found "@ + shown + " matches."@
            },
        ),
        ..envelope(command, target, Status::Resolved, resolution_type)
    }
}

/// The record of the references to a target.
pub open spec fn references_record(
    command: Seq<char>,
    target: Seq<char>,
    locations: Seq<RefLocationView>,
    truncated: bool,
) -> RecordView {
    RecordView {
        locations,
        truncated,
        message: Some("Found "@ + decimal(locations.len()) + " references."@),
        ..envelope(command, target, Status::Resolved, "references"@)
    }
}

/// The record of the references to a target with the scopes around them.
pub open spec fn contexts_record(
    command: Seq<char>,
    target: Seq<char>,
    contexts: Seq<RefContextView>,
    truncated: bool,
) -> RecordView {
    RecordView {
        contexts,
        truncated,
        message: Some("Found "@ + decimal(contexts.len()) + " references with context."@),
        ..envelope(command, target, Status::Resolved, "references_with_context"@)
    }
}

impl Record {
    /// A record with only the envelope populated.
    pub fn new(command: &str, target: &str, status: Status, resolution_type: &str) -> (r: Record)
        ensures
            r@ == envelope(command@, target@, status, resolution_type@),
    {
        let r = Record {
            schema_version: SCHEMA_VERSION,
            tool: TOOL,
            command: command.to_owned(),
            target: target.to_owned(),
            status,
            resolution_type: resolution_type.to_owned(),
            engine: None,
            file_path: None,
            start_line: None,
            end_line: None,
            start_byte: None,
            end_byte: None,
            content: None,
            signature: None,
            type_spelling: None,
            doc: None,
            qualified_name: None,
            candidates: Vec::new(),
            results: Vec::new(),
            locations: Vec::new(),
            contexts: Vec::new(),
            windows: Vec::new(),
            approximate_line: None,
            window_before: None,
            window_after: None,
            content_buffer: None,
            truncated: false,
            budget_trimmed: false,
            message: None,
        };
        assert(r@.candidates =~= Seq::empty());
        assert(r@.results =~= Seq::empty());
        assert(r@.locations =~= Seq::empty());
        assert(r@.contexts =~= Seq::empty());
        assert(r@.windows =~= Seq::empty());
        r
    }

    /// The record of a target that was not found.
    pub fn not_found(command: &str, target: &str) -> (r: Record)
        ensures
            r@ == not_found_record(command@, target@),
    {
        let mut r = Record::new(command, target, Status::NotFound, "not_found");
        r.message = Some("No textual or semantic match in the searched roots.".to_owned());
        r
    }

    /// The record of a target that one construct resolves. The content is the
    /// verbatim slice of the file.
    pub fn resolved(command: &str, target: &str, resolution_type: &str, res: &Resolution) -> (r:
        Record)
        ensures
            r@ == resolved_record(command@, target@, resolution_type@, res@),
    {
        let mut r = Record::new(command, target, Status::Resolved, resolution_type);
        let span = res.source_ref.span;
        r.engine = Some(res.engine.clone());
        r.file_path = Some(res.source_ref.file_path.clone());
        r.start_line = Some(span.start_line);
        r.end_line = Some(span.end_line);
        r.start_byte = Some(span.start_byte);
        r.end_byte = Some(span.end_byte);
        r.content = Some(from_utf8_lossy(&res.content_bytes));
        r.signature = clone_opt(&res.symbol.signature);
        r.type_spelling = clone_opt(&res.symbol.type_spelling);
        r.doc = clone_opt(&res.symbol.doc);
        r.qualified_name = clone_opt(&res.symbol.qualified_name);
        r
    }

    /// The record of a target with too many matches: locations only.
    pub fn ambiguous(command: &str, target: &str, candidates: Vec<Candidate>) -> (r: Record)
        ensures
            r@ == ambiguous_record(command@, target@, views(candidates@)),
    {
        let mut r = Record::new(command, target, Status::Ambiguous, "ambiguous_multiple_matches");
        assert(views(candidates@).len() == candidates@.len());
        r.message = Some(
            concat3(
                "Found ",
                &decimal_of(candidates.len()),
                " candidates. Returning raw candidate locations.",
            ),
        );
        r.candidates = candidates;
        r
    }

    /// The record of a target that was found in one place as text only.
    pub fn fallback(command: &str, target: &str, window: TextWindow, message: String) -> (r: Record)
        ensures
            r@ == fallback_record(command@, target@, window@, message@),
    {
        let mut r = Record::new(command, target, Status::Fallback, "partial_resolution_fallback");
        r.file_path = Some(window.file_path);
        r.approximate_line = Some(window.approximate_line);
        r.window_before = Some(window.before);
        r.window_after = Some(window.after);
        r.content_buffer = Some(window.content_buffer);
        r.message = Some(message);
        r
    }

    /// The record of a target that was found in several places as text only.
    pub fn fallback_multi(
        command: &str,
        target: &str,
        windows: Vec<FallbackWindow>,
        message: String,
    ) -> (r: Record)
        ensures
            r@ == fallback_multi_record(command@, target@, views(windows@), message@),
    {
        let mut r = Record::new(command, target, Status::Fallback, "partial_resolution_fallback");
        r.windows = windows;
        r.message = Some(message);
        r
    }

    /// The record of a target with several matches shown in full, out of `total`.
    pub fn multi_resolved(
        command: &str,
        target: &str,
        resolution_type: &str,
        resolutions: &[Resolution],
        total: usize,
    ) -> (r: Record)
        requires
            resolutions@.len() > 0,
        ensures
            r@ == multi_resolved_record(
                command@,
                target@,
                resolution_type@,
                views(resolutions@),
                total as nat,
            ),
    {
        let mut r = Record::new(command, target, Status::Resolved, resolution_type);
        let ghost all = views(resolutions@);
        assert(all[0] == resolutions@[0]@);
        r.engine = Some(resolutions[0].engine.clone());
        let results = results_of(resolutions);
        let shown = results.len();
        assert(views(results@).len() == results@.len());
        assert(all.len() == shown);
        r.results = results;
        let n = decimal_of(shown);
        if total > shown {
            let mut m = concat3("Showing ", &n, " of ");
            m.append(&decimal_of(total));
            m.append(" matches (--max-results ");
            m.append(&n);
            m.append(").");
            r.message = Some(m);
        } else {
            r.message = Some(concat3("Found ", &n, " matches."));
        }
        r
    }

    /// The record of the references to a target.
    pub fn references(
        command: &str,
        target: &str,
        locations: Vec<RefLocation>,
        truncated: bool,
    ) -> (r: Record)
        ensures
            r@ == references_record(command@, target@, views(locations@), truncated),
    {
        let mut r = Record::new(command, target, Status::Resolved, "references");
        assert(views(locations@).len() == locations@.len());
        r.message = Some(concat3("Found ", &decimal_of(locations.len()), " references."));
        r.locations = locations;
        r.truncated = truncated;
        r
    }

    /// The record of the references to a target with the scopes around them.
    pub fn references_with_context(
        command: &str,
        target: &str,
        contexts: Vec<RefContext>,
        truncated: bool,
    ) -> (r: Record)
        ensures
            r@ == contexts_record(command@, target@, views(contexts@), truncated),
    {
        let mut r = Record::new(command, target, Status::Resolved, "references_with_context");
        assert(views(contexts@).len() == contexts@.len());
        r.message = Some(
            concat3("Found ", &decimal_of(contexts.len()), " references with context."),
        );
        r.contexts = contexts;
        r.truncated = truncated;
        r
    }
}

fn results_of(resolutions: &[Resolution]) -> (r: Vec<ResolvedResult>)
    ensures
        views(r@) == views(resolutions@).map_values(|r: ResolutionView| result_of(r)),
{
    let ghost want = views(resolutions@).map_values(|r: ResolutionView| result_of(r));
    let mut out: Vec<ResolvedResult> = Vec::new();
    let mut k: usize = 0;
    while k < resolutions.len()
        invariant
            k <= resolutions@.len(),
            want == views(resolutions@).map_values(|r: ResolutionView| result_of(r)),
            views(out@) =~= want.take(k as int),
        decreases resolutions@.len() - k,
    {
        let r = &resolutions[k];
        let ghost before = views(out@);
        let one = ResolvedResult {
            file_path: r.source_ref.file_path.clone(),
            start_line: r.source_ref.span.start_line,
            end_line: r.source_ref.span.end_line,
            start_byte: Some(r.source_ref.span.start_byte),
            end_byte: Some(r.source_ref.span.end_byte),
            content: Some(from_utf8_lossy(&r.content_bytes)),
            signature: clone_opt(&r.symbol.signature),
            type_spelling: clone_opt(&r.symbol.type_spelling),
            doc: clone_opt(&r.symbol.doc),
            qualified_name: clone_opt(&r.symbol.qualified_name),
        };
        assert(one@ == want[k as int]);
        out.push(one);
        assert(views(out@) =~= before.push(want[k as int]));
        k += 1;
    }
    assert(want.take(k as int) =~= want);
    out
}

// ---------------------------------------------------------------------------
// Optional fields
// ---------------------------------------------------------------------------

/// Which of the heavy fields of a declaration are kept.
pub struct Wanted {
    pub content: bool,
    pub offsets: bool,
    pub types: bool,
}

/// The fields that a list asks for.
pub open spec fn wanted(include_fields: Seq<IncludeField>) -> Wanted {
    Wanted {
        content: include_fields.contains(IncludeField::Content),
        offsets: include_fields.contains(IncludeField::Offsets),
        types: include_fields.contains(IncludeField::Type),
    }
}

/// A result as it is emitted: one with a signature carries its content, offsets
/// and type only where they are wanted.
pub open spec fn projected_result(r: ResolvedResultView, w: Wanted) -> ResolvedResultView {
    if r.signature is Some {
        ResolvedResultView {
            content: if w.content { r.content } else { None },
            start_byte: if w.offsets { r.start_byte } else { None },
            end_byte: if w.offsets { r.end_byte } else { None },
            type_spelling: if w.types { r.type_spelling } else { None },
            ..r
        }
    } else {
        r
    }
}

/// A record as it is emitted.
pub open spec fn projected(r: RecordView, w: Wanted) -> RecordView {
    let results = r.results.map_values(|x: ResolvedResultView| projected_result(x, w));
    if r.signature is Some {
        RecordView {
            content: if w.content { r.content } else { None },
            start_byte: if w.offsets { r.start_byte } else { None },
            end_byte: if w.offsets { r.end_byte } else { None },
            type_spelling: if w.types { r.type_spelling } else { None },
            results,
            ..r
        }
    } else {
        RecordView { results, ..r }
    }
}

fn asks_for(include_fields: &[IncludeField], field: IncludeField) -> (r: bool)
    ensures
        r == include_fields@.contains(field),
{
    let mut k: usize = 0;
    while k < include_fields.len()
        invariant
            k <= include_fields@.len(),
            forall|m: int| 0 <= m < k ==> #[trigger] include_fields@[m] != field,
        decreases include_fields@.len() - k,
    {
        if include_fields[k] == field {
            return true;
        }
        k += 1;
    }
    false
}

fn wanted_fields(include_fields: &[IncludeField]) -> (r: Wanted)
    ensures
        r == wanted(include_fields@),
{
    Wanted {
        content: asks_for(include_fields, IncludeField::Content),
        offsets: asks_for(include_fields, IncludeField::Offsets),
        types: asks_for(include_fields, IncludeField::Type),
    }
}

fn project_result(result: ResolvedResult, w: &Wanted) -> (r: ResolvedResult)
    ensures
        r@ == projected_result(result@, *w),
{
    let mut r = result;
    if r.signature.is_some() {
        if !w.content {
            r.content = None;
        }
        if !w.offsets {
            r.start_byte = None;
            r.end_byte = None;
        }
        if !w.types {
            r.type_spelling = None;
        }
    }
    r
}

/// Leaves out the heavy fields of declarations that are not asked for.
pub fn project(record: Record, include_fields: &[IncludeField]) -> (r: Record)
    ensures
        r@ == projected(record@, wanted(include_fields@)),
{
    let w = wanted_fields(include_fields);
    let mut r = record;
    if r.signature.is_some() {
        if !w.content {
            r.content = None;
        }
        if !w.offsets {
            r.start_byte = None;
            r.end_byte = None;
        }
        if !w.types {
            r.type_spelling = None;
        }
    }
    let mut rest: Vec<ResolvedResult> = Vec::new();
    std::mem::swap(&mut rest, &mut r.results);
    let ghost all = views(rest@);
    let ghost want = all.map_values(|x: ResolvedResultView| projected_result(x, w));
    let n = rest.len();
    let mut done: Vec<ResolvedResult> = Vec::new();
    let mut k: usize = 0;
    while k < n
        invariant
            k <= n,
            rest@.len() == n - k,
            all.len() == n,
            want == all.map_values(|x: ResolvedResultView| projected_result(x, w)),
            views(rest@) =~= all.skip(k as int),
            views(done@) =~= want.take(k as int),
        decreases n - k,
    {
        let ghost before = views(done@);
        let ghost left = views(rest@);
        assert(left[0] == all[k as int]);
        let one = rest.remove(0);
        assert(one@ == all[k as int]);
        assert(views(rest@) =~= left.remove(0));
        done.push(project_result(one, &w));
        assert(views(done@) =~= before.push(want[k as int]));
        k += 1;
    }
    assert(want.take(k as int) =~= want);
    r.results = done;
    r
}

/// A field that is asked for, and every field of a record without signatures,
/// stays; and what is left out once stays out.
pub proof fn projection_only_omits(r: RecordView, w: Wanted)
    ensures
        w.content && w.offsets && w.types ==> projected(r, w) == r,
        projected(projected(r, w), w) == projected(r, w),
        projected(r, w).signature == r.signature && projected(r, w).doc == r.doc && projected(
            r,
            w,
        ).file_path == r.file_path && projected(r, w).start_line == r.start_line,
        projected(r, w).content is Some ==> projected(r, w).content == r.content,
{
    let p = projected(r, w);
    assert(projected(p, w).results =~= p.results);
    if w.content && w.offsets && w.types {
        assert(p.results =~= r.results);
    }
}

// ---------------------------------------------------------------------------
// Framing
// ---------------------------------------------------------------------------

/// Turns serialized records into the text of the selected [`Format`].
pub struct Writer {
    pub format: Format,
    pub legend: bool,
    /// The records of a bundle, until it is finished.
    pub buffered: Vec<String>,
}

/// The lines, each with its newline.
pub open spec fn as_lines(lines: Seq<Seq<char>>) -> Seq<char>
    decreases lines.len(),
{
    if lines.len() == 0 {
        Seq::empty()
    } else {
        as_lines(lines.drop_last()) + lines.last().push('\n')
    }
}

/// The number of bytes of the lines, without their newlines.
pub open spec fn line_bytes(lines: Seq<Seq<char>>) -> int
    decreases lines.len(),
{
    if lines.len() == 0 {
        0
    } else {
        line_bytes(lines.drop_last()) + utf8_len(lines.last())
    }
}

/// A bundle: an optional legend, the records in a fence, and an estimate of the
/// number of tokens at four bytes per token.
pub open spec fn bundle(lines: Seq<Seq<char>>, legend: bool) -> Seq<char> {
    let head = if legend {
        "// legend: each line is one JSON record; branch on `status` / `resolution_type`.\n"@
    } else {
        Seq::empty()
    };
    head + "```json\n"@ + as_lines(lines) + "```\n"@ + "// ~"@ + decimal(
        (line_bytes(lines) / 4) as nat,
    ) + " tokens\n"@
}

/// A bundle holds the very lines that are emitted one by one in the other formats.
pub proof fn profiles_share_their_lines(lines: Seq<Seq<char>>, legend: bool)
    ensures
        has_infix(bundle(lines, legend), as_lines(lines)),
{
    let head = if legend {
        "// legend: each line is one JSON record; branch on `status` / `resolution_type`.\n"@
    } else {
        Seq::empty()
    };
    let at = (head + "```json\n"@).len() as int;
    let b = bundle(lines, legend);
    assert(b.subrange(at, at + as_lines(lines).len()) =~= as_lines(lines));
    assert(occurs_at(b, as_lines(lines), at));
}

impl Writer {
    /// A writer with nothing written.
    pub fn new(format: Format, legend: bool) -> (r: Writer)
        ensures
            r.format == format,
            r.legend == legend,
            views(r.buffered@) == Seq::<Seq<char>>::empty(),
    {
        let r = Writer { format, legend, buffered: Vec::new() };
        assert(views(r.buffered@) =~= Seq::empty());
        r
    }

    /// Takes one serialized record and returns the text to emit at once: the record
    /// and a newline or, in a bundle, nothing yet.
    pub fn write(&mut self, line: &str) -> (text: String)
        ensures
            final(self).format == old(self).format,
            final(self).legend == old(self).legend,
            match old(self).format {
                Format::Bundle => text@ == Seq::<char>::empty() && views(final(self).buffered@)
                    == views(old(self).buffered@).push(line@),
                _ => text@ == line@.push('\n') && final(self).buffered@ == old(self).buffered@,
            },
    {
        let mut text = String::new();
        match self.format {
            Format::Bundle => {
                let ghost before = views(self.buffered@);
                self.buffered.push(line.to_owned());
                assert(views(self.buffered@) =~= before.push(line@));
                assert(text@ =~= Seq::empty());
            },
            _ => {
                text.append(line);
                text.push('\n');
                assert(text@ =~= line@.push('\n'));
            },
        }
        text
    }

    /// The text to emit at the end: the whole bundle; nothing in other formats.
    pub fn finish(self) -> (text: String)
        ensures
            text@ == (match self.format {
                Format::Bundle => bundle(views(self.buffered@), self.legend),
                _ => Seq::<char>::empty(),
            }),
    {
        let mut text = String::new();
        if self.format != Format::Bundle {
            assert(text@ =~= Seq::empty());
            return text;
        }
        if self.legend {
            text.append(
                "// legend: each line is one JSON record; branch on `status` / `resolution_type`.\n",
            );
        }
        text.append("```json\n");
        let ghost head = text@;
        let ghost all = views(self.buffered@);
        let mut bytes: u128 = 0;
        let mut k: usize = 0;
        assert(all.take(0).len() == 0);
        while k < self.buffered.len()
            invariant
                k <= self.buffered@.len(),
                all == views(self.buffered@),
                text@ =~= head + as_lines(all.take(k as int)),
                bytes == line_bytes(all.take(k as int)),
                bytes <= k * 0x1_0000_0000_0000_0000,
            decreases self.buffered@.len() - k,
        {
            let line = &self.buffered[k];
            proof {
                assert(all[k as int] == line@);
                assert(all.take(k + 1).drop_last() =~= all.take(k as int));
                assert(all.take(k + 1).last() == all[k as int]);
            }
            bytes = bytes + byte_len(line) as u128;
            text.append(line);
            text.push('\n');
            k += 1;
        }
        assert(all.take(k as int) =~= all);
        text.append("```\n");
        text.append("// ~");
        text.append(&decimal_of_wide(bytes / 4));
        text.append(" tokens\n");
        assert(text@ =~= bundle(all, self.legend));
        text
    }
}

} // verus!
