//! The syntactic backend.
//!
//! Each candidate file is parsed, and the byte-exact boundaries of the named
//! constructs are read off its syntax tree. A node matches if its declarator name
//! equals the last component of the target and, for a qualified target, if its
//! qualified name ends with the target.

use crate::ascii::NEWLINE;
use crate::engine::macros::{collect_defines, defines, has_macros, neutral, neutralize};
use crate::engine::outline::{
    class_of, classify, doc_above, doc_starts_before, field_child, field_child_of, is_name_match,
    leading_doc, name_matches, name_node, name_node_of, qualified_in, qualify, report_node,
    report_node_of, scopes, spelling, type_spelling, Mode,
};
use crate::engine::syntax::{
    ends_in_parent, ends_nest, first_outside_bounds, is_scope, last_above_bounds, node_text,
    opt_int, parent, parse, parsed, smallest_node, smallest_node_at, spans, subtree_end, text_of,
    tree_fits, Field, NodeKind, SyntaxNode, SyntaxTree,
};
use crate::engine::Engine;
use crate::model::{
    Kind, Resolution, ResolutionView, SourceRef, SourceRefView, Span, Status, Symbol, SymbolView,
};
use crate::names::NameSet;
use crate::order::{
    apart, in_order, in_order_goes_on, in_order_sorts, inserted, ordered, place_before,
    runs_commute, sort_by_place, Place, Placed,
};
use crate::paths::{
    components, has_path, is_listed, is_same_path, paths_are_ordered, same_path, PathPartView,
};
use crate::search::{Candidate, CandidateView};
use crate::sources::{contents, read, same_path_same_contents, SourceFile, SourceFileView};
use crate::text::{
    contains, find_byte, has_infix, is_empty, last_component, last_component_of, next_of, opt_view,
    same_str, trim, trimmed, views,
};
use vstd::prelude::*;
use vstd::slice::{slice_subrange, slice_to_vec};

verus! {

/// The name of the syntactic backend.
pub const ENGINE_NAME: &'static str = "tree-sitter";

/// Syntactic results are sure of boundaries but not of overload selection.
pub const SYNTACTIC_CONFIDENCE: u8 = 80;

/// The syntactic backend.
pub struct SyntacticEngine {
    /// Macros blanked at every occurrence.
    pub global_macros: NameSet,
    /// Macros blanked only in annotation position.
    pub annotation_macros: NameSet,
}

/// The names of the macros that an engine blanks: everywhere, and in annotation
/// position.
pub struct Macros {
    pub global: Set<Seq<char>>,
    pub annotation: Set<Seq<char>>,
}

impl SyntacticEngine {
    /// The macros that this engine blanks.
    pub open spec fn macros(&self) -> Macros {
        Macros { global: self.global_macros@, annotation: self.annotation_macros@ }
    }

    /// An engine that knows no macros.
    pub fn new() -> (r: SyntacticEngine)
        ensures
            r.global_macros@ == Set::<Seq<char>>::empty(),
            r.annotation_macros@ == Set::<Seq<char>>::empty(),
    {
        SyntacticEngine { global_macros: NameSet::new(), annotation_macros: NameSet::new() }
    }

    /// An engine that blanks the given macros everywhere.
    pub fn with_empty_macros(names: Vec<String>) -> (r: SyntacticEngine)
        ensures
            r.global_macros@ == views(names@).to_set(),
            r.annotation_macros@ == views(names@).to_set(),
    {
        let global = NameSet::from_names(&names);
        SyntacticEngine { annotation_macros: global.clone(), global_macros: global }
    }

    /// An engine that blanks `global` macros everywhere, and both these and the
    /// `discovered` ones in annotation position.
    pub fn with_macros(global: Vec<String>, discovered: &NameSet) -> (r: SyntacticEngine)
        ensures
            r.global_macros@ == views(global@).to_set(),
            r.annotation_macros@ == discovered@.union(views(global@).to_set()),
    {
        let global = NameSet::from_names(&global);
        let mut annotation = discovered.clone();
        annotation.add_all(&global);
        SyntacticEngine { global_macros: global, annotation_macros: annotation }
    }
}

impl Default for SyntacticEngine {
    fn default() -> (r: SyntacticEngine)
        ensures
            r.global_macros@ == Set::<Seq<char>>::empty(),
            r.annotation_macros@ == Set::<Seq<char>>::empty(),
    {
        SyntacticEngine::new()
    }
}

// ---------------------------------------------------------------------------
// Reading a file
// ---------------------------------------------------------------------------

/// Is this the kind of a class-like specifier?
pub open spec fn class_like(k: NodeKind) -> bool {
    k == NodeKind::ClassSpecifier || k == NodeKind::StructSpecifier || k == NodeKind::UnionSpecifier
}

/// The node that holds a macro between `class` and a class name, where node `i`
/// is such a class misread: a function with a body, whose declarator is a plain
/// identifier and whose return type is a class specifier without a body. No valid
/// function has that shape.
pub open spec fn class_macro(t: Seq<SyntaxNode>, i: int) -> Option<int> {
    match (
        field_child(t, i, Field::Type),
        field_child(t, i, Field::Declarator),
        field_child(t, i, Field::Body),
    ) {
        (Some(ty), Some(d), Some(b)) => if t[i].kind == NodeKind::FunctionDefinition && class_like(
            t[ty].kind,
        ) && field_child(t, ty, Field::Body) is None && t[d].kind == NodeKind::Identifier
            && t[b].kind == NodeKind::CompoundStatement {
            field_child(t, ty, Field::Name)
        } else {
            None
        },
        _ => None,
    }
}

/// The class macros among the first `k` nodes.
pub open spec fn class_macros(t: Seq<SyntaxNode>, src: Seq<u8>, k: int) -> Set<Seq<char>>
    decreases k,
{
    if k <= 0 {
        Set::empty()
    } else {
        match class_macro(t, k - 1) {
            Some(n) => class_macros(t, src, k - 1).insert(node_text(src, t[n])),
            None => class_macros(t, src, k - 1),
        }
    }
}

/// The number of errors and missing tokens among the first `k` nodes.
pub open spec fn fault_count(t: Seq<SyntaxNode>, k: int) -> int
    decreases k,
{
    if k <= 0 {
        0
    } else {
        fault_count(t, k - 1) + (if t[k - 1].faulty {
            1int
        } else {
            0
        })
    }
}

/// How a file is read: the buffer that was parsed, the file itself or a blanked
/// copy of it, and the tree.
pub struct Reading {
    pub buffer: Seq<u8>,
    pub tree: Seq<SyntaxNode>,
}

/// Is the tree of a blanked copy better than that of the file? It has fewer errors
/// or, where a class was misread, no more.
pub open spec fn recovered_wins(
    t: Seq<SyntaxNode>,
    recovered: Seq<SyntaxNode>,
    misread: bool,
) -> bool {
    let before = fault_count(t, t.len() as int);
    let after = fault_count(recovered, recovered.len() as int);
    after < before || (after == before && misread)
}

/// The best reading of a file.
///
/// The file is parsed as it is. Where that tree has errors, or misreads a class
/// because of a macro before its name, confirmed macros are blanked and the copy
/// is parsed. The second tree is taken if it has fewer errors or, where a class was
/// misread, if it has no more.
pub open spec fn reading(
    src: Seq<u8>,
    global: Set<Seq<char>>,
    annotation: Set<Seq<char>>,
) -> Option<Reading> {
    match parsed(src) {
        Some(t) => {
            let plain = Reading { buffer: src, tree: t };
            let found = class_macros(t, src, t.len() as int);
            let g = global.union(found);
            let a = annotation.union(defines(src));
            let copy = neutral(src, g, a);
            if !t[0].has_error && found == Set::<Seq<char>>::empty() || !has_macros(src, g, a) {
                Some(plain)
            } else {
                match parsed(copy) {
                    Some(r) => if recovered_wins(t, r, found != Set::<Seq<char>>::empty()) {
                        Some(Reading { buffer: copy, tree: r })
                    } else {
                        Some(plain)
                    },
                    None => Some(plain),
                }
            }
        },
        None => None,
    }
}

/// The tree of a file, with the blanked copy that was parsed in its place, if
/// any.
pub struct ParsedFile {
    pub copy: Option<Vec<u8>>,
    pub tree: SyntaxTree,
}

impl ParsedFile {
    /// How the file `src` was read.
    pub open spec fn reading_of(&self, src: Seq<u8>) -> Reading {
        Reading {
            buffer: match self.copy {
                Some(c) => c@,
                None => src,
            },
            tree: self.tree@,
        }
    }
}

/// A file has a reading whose tree fits it.
pub proof fn reading_fits(src: Seq<u8>, global: Set<Seq<char>>, annotation: Set<Seq<char>>)
    ensures
        reading(src, global, annotation) matches Some(r) ==> tree_fits(r.tree, src.len())
            && r.buffer.len() == src.len(),
{
}

fn class_macro_of(t: &SyntaxTree, i: usize) -> (r: Option<usize>)
    requires
        i < t@.len(),
    ensures
        opt_int(r) == class_macro(t@, i as int),
        r matches Some(n) ==> n < t@.len(),
{
    if t.node(i).kind != NodeKind::FunctionDefinition {
        return None;
    }
    let ty = match field_child_of(t, i, Field::Type) {
        Some(ty) => ty,
        None => return None,
    };
    let d = match field_child_of(t, i, Field::Declarator) {
        Some(d) => d,
        None => return None,
    };
    let b = match field_child_of(t, i, Field::Body) {
        Some(b) => b,
        None => return None,
    };
    let k = t.node(ty).kind;
    let like = k == NodeKind::ClassSpecifier || k == NodeKind::StructSpecifier || k
        == NodeKind::UnionSpecifier;
    if like && field_child_of(t, ty, Field::Body).is_none() && t.node(d).kind == NodeKind::Identifier
        && t.node(b).kind == NodeKind::CompoundStatement {
        field_child_of(t, ty, Field::Name)
    } else {
        None
    }
}

/// The macros before class names that make the parser misread the class.
pub fn discover_class_annotation_macros(t: &SyntaxTree, src: &[u8]) -> (r: NameSet)
    requires
        tree_fits(t@, src@.len()),
    ensures
        r@ == class_macros(t@, src@, t@.len() as int),
{
    let mut out = NameSet::new();
    let mut i: usize = 0;
    while i < t.len()
        invariant
            i <= t@.len(),
            tree_fits(t@, src@.len()),
            out@ == class_macros(t@, src@, i as int),
        decreases t@.len() - i,
    {
        if let Some(n) = class_macro_of(t, i) {
            let _ = out.insert(&text_of(src, t.node(n)));
        }
        i += 1;
    }
    out
}

fn error_count(t: &SyntaxTree) -> (r: usize)
    ensures
        r == fault_count(t@, t@.len() as int),
{
    let mut n: usize = 0;
    let mut i: usize = 0;
    while i < t.len()
        invariant
            i <= t@.len(),
            n <= i,
            n == fault_count(t@, i as int),
        decreases t@.len() - i,
    {
        if t.node(i).faulty {
            n += 1;
        }
        i += 1;
    }
    n
}

/// Is the tree of a blanked copy better than that of the file?
pub fn prefers_recovered(t: &SyntaxTree, recovered: &SyntaxTree, misread: bool) -> (r: bool)
    ensures
        r == recovered_wins(t@, recovered@, misread),
{
    let before = error_count(t);
    let after = error_count(recovered);
    after < before || (after == before && misread)
}

impl Macros {
    /// The best reading of a file.
    pub open spec fn reads(self, src: Seq<u8>) -> Option<Reading> {
        reading(src, self.global, self.annotation)
    }
}

impl SyntacticEngine {
    fn neutralize_for(&self, src: &[u8], extra_global: &NameSet) -> (r: Option<Vec<u8>>)
        ensures
            ({
                let g = self.global_macros@.union(extra_global@);
                let a = self.annotation_macros@.union(defines(src@));
                &&& r is Some <==> has_macros(src@, g, a)
                &&& r matches Some(out) ==> out@ == neutral(src@, g, a)
            }),
    {
        let mut annotation = self.annotation_macros.clone();
        collect_defines(src, &mut annotation);
        let mut global = self.global_macros.clone();
        global.add_all(extra_global);
        neutralize(src, &global, &annotation)
    }

    /// Parses `src`, recovering from macro damage where there is any. Offsets in
    /// the tree index `src` itself, whichever buffer was parsed.
    pub fn best_tree(&self, src: &[u8]) -> (r: Option<ParsedFile>)
        ensures
            match r {
                Some(p) => self.macros().reads(src@) == Some(p.reading_of(src@)) && tree_fits(
                    p.tree@,
                    src@.len(),
                ) && p.reading_of(src@).buffer.len() <= u32::MAX && parsed(
                    p.reading_of(src@).buffer,
                ) == Some(p.tree@),
                None => self.macros().reads(src@) is None,
            },
    {
        let tree = match parse(src) {
            Some(tree) => tree,
            None => return None,
        };
        let found = discover_class_annotation_macros(&tree, src);
        if !tree.node(0).has_error && found.is_empty() {
            return Some(ParsedFile { copy: None, tree });
        }
        if let Some(copy) = self.neutralize_for(src, &found) {
            if let Some(recovered) = parse(&copy) {
                if prefers_recovered(&tree, &recovered, !found.is_empty()) {
                    return Some(ParsedFile { copy: Some(copy), tree: recovered });
                }
            }
        }
        Some(ParsedFile { copy: None, tree })
    }
}

// ---------------------------------------------------------------------------
// Matching nodes
// ---------------------------------------------------------------------------

/// The byte, line and column span of a node; lines are counted from one.
pub open spec fn node_span(n: SyntaxNode) -> Span {
    Span {
        start_byte: n.start_byte,
        end_byte: n.end_byte,
        start_line: (n.start_row + 1) as usize,
        end_line: (n.end_row + 1) as usize,
        start_col: n.start_col,
        end_col: n.end_col,
    }
}

fn span_of(n: SyntaxNode) -> (r: Span)
    requires
        n.start_row < usize::MAX,
        n.end_row < usize::MAX,
    ensures
        r == node_span(n),
{
    Span {
        start_byte: n.start_byte,
        end_byte: n.end_byte,
        start_line: n.start_row + 1,
        end_line: n.end_row + 1,
        start_col: n.start_col,
        end_col: n.end_col,
    }
}

/// The bare name and the qualification written out, of a name node.
pub open spec fn written_name(n: SyntaxNode, src: Seq<u8>) -> (Seq<char>, Option<Seq<char>>) {
    let full = node_text(src, n);
    if n.kind == NodeKind::QualifiedIdentifier {
        (last_component(full), Some(full))
    } else {
        (full, None)
    }
}

/// The span reported for node `i`: that of its report node, extended backward over
/// the comments that lead it.
pub open spec fn reported_span(t: Seq<SyntaxNode>, src: Seq<u8>, i: int) -> Span {
    let report = report_node(t, i);
    match doc_above(t, src, report) {
        Some(d) => Span {
            start_byte: d.start_byte,
            start_line: d.start_line,
            start_col: d.start_col,
            ..node_span(t[report])
        },
        None => node_span(t[report]),
    }
}

/// The resolution of `target` that node `i` of the file `src` at `path` gives;
/// `None` if the node is no definition or declaration, as asked, of that name.
pub open spec fn resolution_at(
    t: Seq<SyntaxNode>,
    src: Seq<u8>,
    i: int,
    target: Seq<char>,
    mode: Mode,
    path: Seq<char>,
) -> Option<ResolutionView> {
    match (class_of(t, i, mode), name_node(t, i)) {
        (Some(kind), Some(n)) => {
            let (bare, explicit) = written_name(t[n], src);
            let qualified = qualified_in(scopes(t, src, i), bare, explicit);
            if node_text(src, t[n]).len() > 0 && name_matches(target, bare, qualified) {
                let report = report_node(t, i);
                let span = reported_span(t, src, i);
                let declared = mode == Mode::Declaration;
                Some(
                    ResolutionView {
                        symbol: SymbolView {
                            name: bare,
                            qualified_name: qualified,
                            kind: if t[report].kind == NodeKind::TemplateDeclaration {
                                Kind::Template
                            } else {
                                kind
                            },
                            signature: if declared {
                                Some(trimmed(node_text(src, t[i])))
                            } else {
                                None
                            },
                            type_spelling: if declared {
                                spelling(t, src, i)
                            } else {
                                None
                            },
                            doc: match doc_above(t, src, report) {
                                Some(d) => Some(d.text),
                                None => None,
                            },
                        },
                        source_ref: SourceRefView { file_path: path, span },
                        content_bytes: src.subrange(span.start_byte as int, span.end_byte as int),
                        engine: ENGINE_NAME@,
                        confidence: SYNTACTIC_CONFIDENCE,
                        status: Status::Resolved,
                    },
                )
            } else {
                None
            }
        },
        _ => None,
    }
}

fn try_match(
    t: &SyntaxTree,
    src: &[u8],
    i: usize,
    target: &str,
    mode: Mode,
    path: &str,
) -> (r: Option<Resolution>)
    requires
        i < t@.len(),
        tree_fits(t@, src@.len()),
    ensures
        opt_view(r) == resolution_at(t@, src@, i as int, target@, mode, path@),
{
    let kind = match classify(t, i, mode) {
        Some(kind) => kind,
        None => return None,
    };
    let n = match name_node_of(t, i) {
        Some(n) => n,
        None => return None,
    };
    let full = text_of(src, t.node(n));
    if is_empty(&full) {
        return None;
    }
    let explicit_name = t.node(n).kind == NodeKind::QualifiedIdentifier;
    let bare = if explicit_name {
        last_component_of(&full)
    } else {
        full.clone()
    };
    let explicit = if explicit_name {
        Some(full)
    } else {
        None
    };
    let qualified = qualify(t, src, i, &bare, explicit);
    if !is_name_match(target, &bare, &qualified) {
        return None;
    }
    let report = report_node_of(t, i);
    let decl_span = span_of(t.node(report));
    let doc_info = leading_doc(t, src, report);
    proof {
        doc_starts_before(t@, src@, report as int);
    }
    let span = match &doc_info {
        Some(d) => Span {
            start_byte: d.start_byte,
            end_byte: decl_span.end_byte,
            start_line: d.start_line,
            end_line: decl_span.end_line,
            start_col: d.start_col,
            end_col: decl_span.end_col,
        },
        None => decl_span,
    };
    let content_bytes = slice_to_vec(slice_subrange(src, span.start_byte, span.end_byte));
    let doc = match doc_info {
        Some(d) => Some(d.text),
        None => None,
    };
    let (signature, spelled) = if mode == Mode::Declaration {
        (Some(trim(&text_of(src, t.node(i)))), type_spelling(t, src, i))
    } else {
        (None, None)
    };
    let kind = if t.node(report).kind == NodeKind::TemplateDeclaration {
        Kind::Template
    } else {
        kind
    };
    Some(
        Resolution {
            symbol: Symbol {
                name: bare,
                qualified_name: qualified,
                kind,
                signature,
                type_spelling: spelled,
                doc,
            },
            source_ref: SourceRef { file_path: path.to_owned(), span },
            content_bytes,
            engine: ENGINE_NAME.to_owned(),
            confidence: SYNTACTIC_CONFIDENCE,
            status: Status::Resolved,
        },
    )
}

/// The resolutions that the first `k` nodes give, in order.
pub open spec fn resolutions_in(
    t: Seq<SyntaxNode>,
    src: Seq<u8>,
    target: Seq<char>,
    mode: Mode,
    path: Seq<char>,
    k: int,
) -> Seq<ResolutionView>
    decreases k,
{
    if k <= 0 {
        Seq::empty()
    } else {
        let before = resolutions_in(t, src, target, mode, path, k - 1);
        match resolution_at(t, src, k - 1, target, mode, path) {
            Some(r) => before.push(r),
            None => before,
        }
    }
}

/// The resolutions of `target` in the tree of the file `src` at `path`.
pub fn resolutions_in_tree(
    t: &SyntaxTree,
    src: &[u8],
    target: &str,
    mode: Mode,
    path: &str,
) -> (r: Vec<Resolution>)
    requires
        tree_fits(t@, src@.len()),
    ensures
        views(r@) == resolutions_in(t@, src@, target@, mode, path@, t@.len() as int),
{
    let mut out: Vec<Resolution> = Vec::new();
    let mut i: usize = 0;
    assert(views(out@) =~= Seq::empty());
    while i < t.len()
        invariant
            i <= t@.len(),
            tree_fits(t@, src@.len()),
            views(out@) == resolutions_in(t@, src@, target@, mode, path@, i as int),
        decreases t@.len() - i,
    {
        let ghost before = views(out@);
        if let Some(r) = try_match(t, src, i, target, mode, path) {
            out.push(r);
            assert(views(out@) =~= before.push(r@));
        }
        i += 1;
    }
    out
}

// ---------------------------------------------------------------------------
// Matching files
// ---------------------------------------------------------------------------

impl Placed for Resolution {
    open spec fn place(v: ResolutionView) -> Place {
        Place { path: v.source_ref.file_path, position: v.source_ref.span.start_byte as int }
    }

    fn path_of(&self) -> (r: &str) {
        &self.source_ref.file_path
    }

    fn position_of(&self) -> (r: usize) {
        self.source_ref.span.start_byte
    }
}

/// Do two resolutions cover the same bytes of the same file?
pub open spec fn same_extent(a: ResolutionView, b: ResolutionView) -> bool {
    &&& same_path(a.source_ref.file_path, b.source_ref.file_path)
    &&& a.source_ref.span.start_byte == b.source_ref.span.start_byte
    &&& a.source_ref.span.end_byte == b.source_ref.span.end_byte
}

/// `s` without the resolutions that cover the same bytes as the one kept before
/// them.
pub open spec fn without_repeats(s: Seq<ResolutionView>) -> Seq<ResolutionView>
    decreases s.len(),
{
    if s.len() == 0 {
        s
    } else {
        let kept = without_repeats(s.drop_last());
        if kept.len() > 0 && same_extent(s.last(), kept.last()) {
            kept
        } else {
            kept.push(s.last())
        }
    }
}

/// The distinct files of the first `k` candidates, in order of first mention.
pub open spec fn distinct_files(candidates: Seq<CandidateView>, k: int) -> Seq<Seq<char>>
    decreases k,
{
    if k <= 0 {
        Seq::empty()
    } else {
        let before = distinct_files(candidates, k - 1);
        let path = candidates[k - 1].file_path;
        if has_path(before, path) {
            before
        } else {
            before.push(path)
        }
    }
}

/// The distinct files of the candidates, in order of first mention.
pub fn distinct_files_of(candidates: &[Candidate]) -> (r: Vec<String>)
    ensures
        views(r@) == distinct_files(views(candidates@), candidates@.len() as int),
{
    let mut out: Vec<String> = Vec::new();
    let ghost all = views(candidates@);
    let mut k: usize = 0;
    assert(views(out@) =~= Seq::empty());
    while k < candidates.len()
        invariant
            k <= candidates@.len(),
            all == views(candidates@),
            views(out@) == distinct_files(all, k as int),
        decreases candidates@.len() - k,
    {
        let c = &candidates[k];
        assert(all[k as int] == c@);
        if !is_listed(&out, &c.file_path) {
            let ghost before = views(out@);
            out.push(c.file_path.clone());
            assert(views(out@) =~= before.push(c@.file_path));
        }
        k += 1;
    }
    out
}

impl Macros {
    /// The resolutions that the file at `path` gives.
    pub open spec fn file_resolutions(
        self,
        path: Seq<char>,
        target: Seq<char>,
        mode: Mode,
        files: Seq<SourceFileView>,
    ) -> Seq<ResolutionView> {
        match contents(files, path) {
            Some(src) => match self.reads(src) {
                Some(r) => resolutions_in(r.tree, src, target, mode, path, r.tree.len() as int),
                None => Seq::empty(),
            },
            None => Seq::empty(),
        }
    }

    /// The resolutions that the first `k` of the paths give, file after file.
    pub open spec fn all_resolutions(
        self,
        paths: Seq<Seq<char>>,
        target: Seq<char>,
        mode: Mode,
        files: Seq<SourceFileView>,
        k: int,
    ) -> Seq<ResolutionView>
        decreases k,
    {
        if k <= 0 {
            Seq::empty()
        } else {
            self.all_resolutions(paths, target, mode, files, k - 1) + self.file_resolutions(
                paths[k - 1],
                target,
                mode,
                files,
            )
        }
    }

    /// What the engine resolves: the matches in the distinct candidate files, in
    /// order of file and start byte, each extent once.
    pub open spec fn resolved(
        self,
        target: Seq<char>,
        candidates: Seq<CandidateView>,
        mode: Mode,
        files: Seq<SourceFileView>,
    ) -> Seq<ResolutionView> {
        let paths = distinct_files(candidates, candidates.len() as int);
        let found = self.all_resolutions(paths, target, mode, files, paths.len() as int);
        without_repeats(in_order::<Resolution>(found))
    }
}

impl SyntacticEngine {
    fn matches_in_file(&self, path: &str, target: &str, mode: Mode, files: &[SourceFile]) -> (r: Vec<
        Resolution,
    >)
        ensures
            views(r@) == self.macros().file_resolutions(path@, target@, mode, views(files@)),
    {
        if let Some(src) = read(files, path) {
            if let Some(file) = self.best_tree(src) {
                return resolutions_in_tree(&file.tree, src, target, mode, path);
            }
        }
        let out: Vec<Resolution> = Vec::new();
        assert(views(out@) =~= Seq::empty());
        out
    }

    fn run_over_files(
        &self,
        target: &str,
        candidates: &[Candidate],
        mode: Mode,
        files: &[SourceFile],
    ) -> (r: Vec<Resolution>)
        ensures
            views(r@) == self.macros().resolved(target@, views(candidates@), mode, views(files@)),
    {
        let paths = distinct_files_of(candidates);
        let ghost ps = distinct_files(views(candidates@), candidates@.len() as int);
        let ghost fs = views(files@);
        let mut found: Vec<Resolution> = Vec::new();
        let mut k: usize = 0;
        assert(views(found@) =~= Seq::empty());
        while k < paths.len()
            invariant
                k <= paths@.len(),
                views(paths@) == ps,
                fs == views(files@),
                views(found@) == self.macros().all_resolutions(ps, target@, mode, fs, k as int),
            decreases paths@.len() - k,
        {
            assert(ps[k as int] == paths@[k as int]@);
            let ghost before = views(found@);
            let mut more = self.matches_in_file(&paths[k], target, mode, files);
            let ghost added = views(more@);
            found.append(&mut more);
            assert(views(found@) =~= before + added);
            k += 1;
        }
        assert(ps.len() == paths@.len());
        sort_by_place(&mut found);
        drop_repeats(&found)
    }
}

fn is_same_extent(a: &Resolution, b: &Resolution) -> (r: bool)
    ensures
        r == same_extent(a@, b@),
{
    a.source_ref.span.start_byte == b.source_ref.span.start_byte && a.source_ref.span.end_byte
        == b.source_ref.span.end_byte && is_same_path(
        &a.source_ref.file_path,
        &b.source_ref.file_path,
    )
}

/// Drops the resolutions that cover the same bytes as the one kept before them.
pub(crate) fn drop_repeats(items: &Vec<Resolution>) -> (r: Vec<Resolution>)
    ensures
        views(r@) == without_repeats(views(items@)),
{
    let ghost all = views(items@);
    let mut out: Vec<Resolution> = Vec::new();
    let mut k: usize = 0;
    assert(views(out@) =~= all.take(0));
    while k < items.len()
        invariant
            k <= items@.len(),
            all == views(items@),
            views(out@) == without_repeats(all.take(k as int)),
        decreases items@.len() - k,
    {
        let ghost kept = views(out@);
        assert(all[k as int] == items@[k as int]@);
        assert(all.take(k + 1).drop_last() =~= all.take(k as int));
        let n = out.len();
        assert(kept.len() == n);
        if n > 0 {
            assert(kept.last() == out@[n - 1]@);
        }
        if !(n > 0 && is_same_extent(&items[k], &out[n - 1])) {
            out.push(items[k].clone());
            assert(views(out@) =~= kept.push(all[k as int]));
        }
        k += 1;
    }
    assert(all.take(k as int) =~= all);
    out
}

// ---------------------------------------------------------------------------
// Scopes around an offset
// ---------------------------------------------------------------------------

/// Does node `i` cover exactly the given bytes, with the given number of nodes in it?
/// Of nested nodes that cover the same bytes, no two hold equally many, so an extent of
/// at least one byte is that of one node. Empty nodes, such as missing tokens, can share
/// one with another at the same byte: the first of them in the tree is then taken, and
/// the scopes around it.
pub open spec fn is_extent(t: Seq<SyntaxNode>, i: int, extent: (usize, usize, usize)) -> bool {
    t[i].start_byte == extent.0 && t[i].end_byte == extent.1 && subtree_end(t, i) - i == extent.2
}

/// The first node from `i` on with the given extent.
pub open spec fn node_of_extent(
    t: Seq<SyntaxNode>,
    extent: (usize, usize, usize),
    i: int,
) -> Option<int>
    decreases t.len() - i,
{
    if i < 0 || i >= t.len() {
        None
    } else if is_extent(t, i, extent) {
        Some(i)
    } else {
        node_of_extent(t, extent, i + 1)
    }
}

/// The node with the given extent.
pub open spec fn located(t: Seq<SyntaxNode>, extent: Option<(usize, usize, usize)>) -> Option<int> {
    match extent {
        Some(e) => node_of_extent(t, e, 0),
        None => None,
    }
}

/// The nearest function definition or template declaration at or above node `i`.
pub open spec fn enclosing_function(t: Seq<SyntaxNode>, i: int) -> Option<int>
    decreases i,
{
    if t[i].kind == NodeKind::FunctionDefinition || t[i].kind == NodeKind::TemplateDeclaration {
        Some(i)
    } else {
        match parent(t, i) {
            Some(p) if 0 <= p < i => enclosing_function(t, p),
            _ => None,
        }
    }
}

/// The nearest class or struct at or above node `i`.
pub open spec fn enclosing_class(t: Seq<SyntaxNode>, i: int) -> Option<int>
    decreases i,
{
    if t[i].kind == NodeKind::ClassSpecifier || t[i].kind == NodeKind::StructSpecifier {
        Some(i)
    } else {
        match parent(t, i) {
            Some(p) if 0 <= p < i => enclosing_class(t, p),
            _ => None,
        }
    }
}

/// The span of the function or template around the node with the given extent.
pub open spec fn function_span(t: Seq<SyntaxNode>, extent: Option<(usize, usize, usize)>) -> Option<Span> {
    match located(t, extent) {
        Some(i) => match enclosing_function(t, i) {
            Some(f) => Some(node_span(t[f])),
            None => None,
        },
        None => None,
    }
}

/// The span of the class or struct around the node with the given extent, with its
/// template prefix.
pub open spec fn class_span(t: Seq<SyntaxNode>, extent: Option<(usize, usize, usize)>) -> Option<Span> {
    match located(t, extent) {
        Some(i) => match enclosing_class(t, i) {
            Some(c) => Some(node_span(t[report_node(t, c)])),
            None => None,
        },
        None => None,
    }
}

proof fn located_has_extent(t: Seq<SyntaxNode>, extent: (usize, usize, usize), i: int)
    requires
        0 <= i,
    ensures
        node_of_extent(t, extent, i) matches Some(k) ==> i <= k < t.len() && is_extent(t, k, extent),
    decreases t.len() - i,
{
    if i < t.len() && !is_extent(t, i, extent) {
        located_has_extent(t, extent, i + 1);
    }
}

proof fn parents_surround(t: Seq<SyntaxNode>, len: nat, i: int)
    requires
        tree_fits(t, len),
        0 <= i < t.len(),
    ensures
        parent(t, i) matches Some(p) ==> 0 <= p < i && t[p].start_byte <= t[i].start_byte
            && t[i].end_byte <= t[p].end_byte,
{
    reveal(ends_nest);
    last_above_bounds(t, i - 1, t[i].depth as int);
    assert(ends_in_parent(t, i));
}

proof fn functions_surround(t: Seq<SyntaxNode>, len: nat, i: int)
    requires
        tree_fits(t, len),
        0 <= i < t.len(),
    ensures
        enclosing_function(t, i) matches Some(f) ==> 0 <= f <= i && is_scope(t[f].kind)
            && t[f].start_byte <= t[i].start_byte && t[i].end_byte <= t[f].end_byte,
    decreases i,
{
    parents_surround(t, len, i);
    if let Some(p) = parent(t, i) {
        functions_surround(t, len, p);
    }
}

proof fn classes_surround(t: Seq<SyntaxNode>, len: nat, i: int)
    requires
        tree_fits(t, len),
        0 <= i < t.len(),
    ensures
        enclosing_class(t, i) matches Some(c) ==> 0 <= c <= i && is_scope(t[c].kind)
            && t[c].start_byte <= t[i].start_byte && t[i].end_byte <= t[c].end_byte,
    decreases i,
{
    parents_surround(t, len, i);
    if let Some(p) = parent(t, i) {
        classes_surround(t, len, p);
    }
}

/// Does a span lie around an offset, its end counted?
pub open spec fn is_around(span: Span, offset: usize) -> bool {
    span.start_byte <= offset <= span.end_byte
}

/// The function or the class found for a node that lies around an offset lies around
/// that offset itself; for the root none is found.
pub proof fn scopes_lie_around_their_offset(
    t: Seq<SyntaxNode>,
    len: nat,
    extent: (usize, usize, usize),
    offset: usize,
)
    requires
        tree_fits(t, len),
        spans(extent, offset, t.len()),
    ensures
        function_span(t, Some(extent)) matches Some(s) ==> is_around(s, offset),
        class_span(t, Some(extent)) matches Some(s) ==> is_around(s, offset),
{
    located_has_extent(t, extent, 0);
    if let Some(i) = node_of_extent(t, extent, 0) {
        functions_surround(t, len, i);
        classes_surround(t, len, i);
        first_outside_bounds(t, i + 1, t[i].depth as int);
        if let Some(c) = enclosing_class(t, i) {
            parents_surround(t, len, c);
        }
    }
}

fn locate(t: &SyntaxTree, extent: Option<(usize, usize, usize)>) -> (found: Option<usize>)
    ensures
        opt_int(found) == located(t@, extent),
        found matches Some(i) ==> i < t@.len(),
{
    let e = match extent {
        Some(e) => e,
        None => return None,
    };
    let mut i: usize = 0;
    while i < t.len()
        invariant
            i <= t@.len(),
            extent == Some(e),
            node_of_extent(t@, e, i as int) == node_of_extent(t@, e, 0),
        decreases t@.len() - i,
    {
        let n = t.node(i);
        if n.start_byte == e.0 && n.end_byte == e.1 && t.subtree_end(i) - i == e.2 {
            return Some(i);
        }
        i += 1;
    }
    None
}

/// Can the rows of every node be counted from one?
pub open spec fn rows_countable(t: Seq<SyntaxNode>) -> bool {
    forall|i: int|
        0 <= i < t.len() ==> (#[trigger] t[i]).start_row < usize::MAX && t[i].end_row < usize::MAX
}

/// Finds the function or template around the node with the given extent.
pub fn function_in_tree(t: &SyntaxTree, extent: Option<(usize, usize, usize)>) -> (r: Option<Span>)
    requires
        rows_countable(t@),
    ensures
        r == function_span(t@, extent),
{
    let start = match locate(t, extent) {
        Some(i) => i,
        None => return None,
    };
    let mut cur: usize = start;
    loop
        invariant
            cur < t@.len(),
            rows_countable(t@),
            located(t@, extent) == Some(start as int),
            enclosing_function(t@, cur as int) == enclosing_function(t@, start as int),
        ensures
            enclosing_function(t@, start as int) is None,
        decreases cur,
    {
        let n = t.node(cur);
        if n.kind == NodeKind::FunctionDefinition || n.kind == NodeKind::TemplateDeclaration {
            return Some(span_of(n));
        }
        match t.parent(cur) {
            Some(p) => {
                cur = p;
            },
            None => {
                break ;
            },
        }
    }
    None
}

/// Finds the class or struct around the node with the given extent.
pub fn class_in_tree(t: &SyntaxTree, extent: Option<(usize, usize, usize)>) -> (r: Option<Span>)
    requires
        rows_countable(t@),
    ensures
        r == class_span(t@, extent),
{
    let start = match locate(t, extent) {
        Some(i) => i,
        None => return None,
    };
    let mut cur: usize = start;
    loop
        invariant
            cur < t@.len(),
            rows_countable(t@),
            located(t@, extent) == Some(start as int),
            enclosing_class(t@, cur as int) == enclosing_class(t@, start as int),
        ensures
            enclosing_class(t@, start as int) is None,
        decreases cur,
    {
        let n = t.node(cur);
        if n.kind == NodeKind::ClassSpecifier || n.kind == NodeKind::StructSpecifier {
            return Some(span_of(t.node(report_node_of(t, cur))));
        }
        match t.parent(cur) {
            Some(p) => {
                cur = p;
            },
            None => {
                break ;
            },
        }
    }
    None
}

impl ParsedFile {
    /// The extent of the smallest node at an offset of the file `src`.
    fn extent_at(&self, src: &[u8], offset: usize) -> (r: Option<(usize, usize, usize)>)
        requires
            self.reading_of(src@).buffer.len() <= u32::MAX,
        ensures
            r == smallest_node(self.reading_of(src@).buffer, offset),
            parsed(self.reading_of(src@).buffer) == Some(self.tree@) ==> (r matches Some(x)
                ==> offset <= u32::MAX ==> spans(x, offset, self.tree@.len())),
    {
        match &self.copy {
            Some(copy) => smallest_node_at(copy, offset),
            None => smallest_node_at(src, offset),
        }
    }
}

// ---------------------------------------------------------------------------
// References to a qualified name
// ---------------------------------------------------------------------------

/// Is node `i` the final name of its reference, and not a scope in front of one,
/// like the `A` in `A::b`?
pub open spec fn name_final(t: Seq<SyntaxNode>, i: int) -> bool {
    match parent(t, i) {
        Some(p) => t[p].kind == NodeKind::QualifiedIdentifier ==> field_child(t, p, Field::Name)
            == Some(i),
        None => true,
    }
}

/// The outermost of the qualified identifiers nested around node `p`.
pub open spec fn outermost_qualified(t: Seq<SyntaxNode>, p: int) -> int
    decreases p,
{
    match parent(t, p) {
        Some(g) if 0 <= g < p && t[g].kind == NodeKind::QualifiedIdentifier => outermost_qualified(
            t,
            g,
        ),
        _ => p,
    }
}

/// The qualified name that the reference at node `i` denotes, where it can be
/// determined: an explicit qualification, or a member declared in a class. Member
/// accesses and bare uses are unknown.
pub open spec fn reference_name(t: Seq<SyntaxNode>, src: Seq<u8>, i: int, bare: Seq<char>) -> Option<
    Seq<char>,
> {
    match parent(t, i) {
        Some(p) => match t[p].kind {
            NodeKind::QualifiedIdentifier => Some(node_text(src, t[outermost_qualified(t, p)])),
            NodeKind::FieldExpression => None,
            _ => if t[i].kind == NodeKind::FieldIdentifier {
                qualified_in(scopes(t, src, i), bare, None)
            } else {
                None
            },
        },
        None => None,
    }
}

/// Can two names with one last component denote the same thing: is the
/// qualification of one a suffix, by components, of that of the other?
pub open spec fn compatible(target: Seq<char>, q: Seq<char>) -> bool {
    let bare = last_component(target);
    name_matches(target, bare, Some(q)) || name_matches(q, bare, Some(target))
}

/// Compatibility does not depend on which of two names is the target.
pub proof fn compatibility_is_symmetric(a: Seq<char>, b: Seq<char>)
    requires
        last_component(a) == last_component(b),
    ensures
        compatible(a, b) == compatible(b, a),
{
}

/// Is the reference at node `i` provably to something else than `target`?
pub open spec fn excluded(
    t: Seq<SyntaxNode>,
    src: Seq<u8>,
    i: int,
    bare: Seq<char>,
    target: Seq<char>,
) -> bool {
    reference_name(t, src, i, bare) matches Some(q) && !compatible(target, q)
}

/// Is node `i` an occurrence of `bare` that starts in `from..to`?
pub open spec fn occurrence(
    t: Seq<SyntaxNode>,
    src: Seq<u8>,
    i: int,
    from: int,
    to: int,
    bare: Seq<char>,
) -> bool {
    &&& t[i].kind == NodeKind::Identifier || t[i].kind == NodeKind::FieldIdentifier
    &&& from <= t[i].start_byte < to
    &&& name_final(t, i)
    &&& node_text(src, t[i]) == bare
}

/// How many occurrences of `bare` the nodes from `i` on have in `from..to`, and
/// how many of them are excluded. The subtree of a node that lies outside the
/// range is passed over.
pub open spec fn verdicts(
    t: Seq<SyntaxNode>,
    src: Seq<u8>,
    from: int,
    to: int,
    bare: Seq<char>,
    target: Seq<char>,
    i: int,
) -> (int, int)
    decreases t.len() - i,
    when 0 <= i
    via verdicts_decreases
{
    if i >= t.len() {
        (0, 0)
    } else if t[i].end_byte <= from || t[i].start_byte >= to {
        verdicts(t, src, from, to, bare, target, subtree_end(t, i))
    } else {
        let rest = verdicts(t, src, from, to, bare, target, i + 1);
        if !occurrence(t, src, i, from, to, bare) {
            rest
        } else if excluded(t, src, i, bare, target) {
            (rest.0 + 1, rest.1 + 1)
        } else {
            (rest.0 + 1, rest.1)
        }
    }
}

#[via_fn]
proof fn verdicts_decreases(
    t: Seq<SyntaxNode>,
    src: Seq<u8>,
    from: int,
    to: int,
    bare: Seq<char>,
    target: Seq<char>,
    i: int,
) {
    if i < t.len() {
        first_outside_bounds(t, i + 1, t[i].depth as int);
    }
}

/// Does the line that starts at `line_start` survive the precision pass? It is
/// dropped only if it has occurrences of the name and all of them are excluded.
pub open spec fn keeps_line(
    t: Seq<SyntaxNode>,
    src: Seq<u8>,
    line_start: int,
    target: Seq<char>,
) -> bool {
    let end = next_of(src, NEWLINE, line_start);
    let v = verdicts(t, src, line_start, end, last_component(target), target, 0);
    v.0 == 0 || v.1 < v.0
}

fn is_name_final(t: &SyntaxTree, i: usize) -> (r: bool)
    requires
        i < t@.len(),
    ensures
        r == name_final(t@, i as int),
{
    match t.parent(i) {
        Some(p) => if t.node(p).kind == NodeKind::QualifiedIdentifier {
            match field_child_of(t, p, Field::Name) {
                Some(n) => n == i,
                None => false,
            }
        } else {
            true
        },
        None => true,
    }
}

fn reference_qualified_name(t: &SyntaxTree, src: &[u8], i: usize, bare: &str) -> (r: Option<String>)
    requires
        i < t@.len(),
        tree_fits(t@, src@.len()),
    ensures
        opt_view(r) == reference_name(t@, src@, i as int, bare@),
{
    let p = match t.parent(i) {
        Some(p) => p,
        None => return None,
    };
    match t.node(p).kind {
        NodeKind::QualifiedIdentifier => {
            let mut top: usize = p;
            loop
                invariant
                    top < t@.len(),
                    tree_fits(t@, src@.len()),
                    outermost_qualified(t@, top as int) == outermost_qualified(t@, p as int),
                ensures
                    top == outermost_qualified(t@, p as int),
                decreases top,
            {
                match t.parent(top) {
                    Some(g) => {
                        if t.node(g).kind == NodeKind::QualifiedIdentifier {
                            top = g;
                        } else {
                            break ;
                        }
                    },
                    None => {
                        break ;
                    },
                }
            }
            Some(text_of(src, t.node(top)))
        },
        NodeKind::FieldExpression => None,
        _ => if t.node(i).kind == NodeKind::FieldIdentifier {
            qualify(t, src, i, bare, None)
        } else {
            None
        },
    }
}

/// Are two names scope-compatible?
pub fn qualified_compatible(target: &str, q: &str) -> (r: bool)
    ensures
        r == compatible(target@, q@),
{
    let bare = last_component_of(target);
    is_name_match(target, &bare, &Some(q.to_owned())) || is_name_match(
        q,
        &bare,
        &Some(target.to_owned()),
    )
}

fn reference_excluded(t: &SyntaxTree, src: &[u8], i: usize, bare: &str, target: &str) -> (r: bool)
    requires
        i < t@.len(),
        tree_fits(t@, src@.len()),
    ensures
        r == excluded(t@, src@, i as int, bare@, target@),
{
    match reference_qualified_name(t, src, i, bare) {
        Some(q) => !qualified_compatible(target, &q),
        None => false,
    }
}

/// Does the line that starts at `line_start` survive the precision pass?
pub fn keep_reference_line(t: &SyntaxTree, src: &[u8], line_start: usize, target: &str) -> (r: bool)
    requires
        tree_fits(t@, src@.len()),
    ensures
        r == keeps_line(t@, src@, line_start as int, target@),
{
    let bare = last_component_of(target);
    let line_end = if line_start <= src.len() {
        find_byte(src, NEWLINE, line_start)
    } else {
        src.len()
    };
    let ghost want = verdicts(
        t@,
        src@,
        line_start as int,
        line_end as int,
        bare@,
        target@,
        0,
    );
    let mut total: usize = 0;
    let mut gone: usize = 0;
    let mut i: usize = 0;
    while i < t.len()
        invariant
            i <= t@.len(),
            gone <= total <= i,
            tree_fits(t@, src@.len()),
            want == ({
                let rest = verdicts(
                    t@,
                    src@,
                    line_start as int,
                    line_end as int,
                    bare@,
                    target@,
                    i as int,
                );
                (rest.0 + total, rest.1 + gone)
            }),
        decreases t@.len() - i,
    {
        let n = t.node(i);
        if n.end_byte <= line_start || n.start_byte >= line_end {
            i = t.subtree_end(i);
        } else {
            if (n.kind == NodeKind::Identifier || n.kind == NodeKind::FieldIdentifier)
                && n.start_byte >= line_start && is_name_final(t, i) && same_str(
                &text_of(src, n),
                &bare,
            ) {
                total += 1;
                if reference_excluded(t, src, i, &bare, target) {
                    gone += 1;
                }
            }
            i += 1;
        }
    }
    total == 0 || gone < total
}

impl Macros {
    /// The span of the function or template around an offset of a file.
    pub open spec fn function_at(
        self,
        file: Seq<char>,
        byte_offset: usize,
        files: Seq<SourceFileView>,
    ) -> Option<Span> {
        match contents(files, file) {
            Some(src) => match self.reads(src) {
                Some(r) => function_span(r.tree, smallest_node(r.buffer, byte_offset)),
                None => None,
            },
            None => None,
        }
    }

    /// The span of the class or struct around an offset of a file.
    pub open spec fn class_at(
        self,
        file: Seq<char>,
        byte_offset: usize,
        files: Seq<SourceFileView>,
    ) -> Option<Span> {
        match contents(files, file) {
            Some(src) => match self.reads(src) {
                Some(r) => class_span(r.tree, smallest_node(r.buffer, byte_offset)),
                None => None,
            },
            None => None,
        }
    }

    /// Does a candidate survive the precision pass? One whose file cannot be read
    /// or parsed does.
    pub open spec fn keeps(
        self,
        target: Seq<char>,
        c: CandidateView,
        files: Seq<SourceFileView>,
    ) -> bool {
        match contents(files, c.file_path) {
            Some(src) => match self.reads(src) {
                Some(r) => keeps_line(r.tree, src, c.byte_offset as int, target),
                None => true,
            },
            None => true,
        }
    }

    /// The candidates among the first `k` that survive the precision pass.
    pub open spec fn kept(
        self,
        target: Seq<char>,
        candidates: Seq<CandidateView>,
        files: Seq<SourceFileView>,
        k: int,
    ) -> Seq<CandidateView>
        decreases k,
    {
        if k <= 0 {
            Seq::empty()
        } else {
            let before = self.kept(target, candidates, files, k - 1);
            if self.keeps(target, candidates[k - 1], files) {
                before.push(candidates[k - 1])
            } else {
                before
            }
        }
    }
}

pub(crate) fn copy_candidates(candidates: &[Candidate]) -> (r: Vec<Candidate>)
    ensures
        views(r@) == views(candidates@),
{
    let mut out: Vec<Candidate> = Vec::new();
    let mut k: usize = 0;
    while k < candidates.len()
        invariant
            k <= candidates@.len(),
            views(out@) =~= views(candidates@).take(k as int),
        decreases candidates@.len() - k,
    {
        let ghost before = views(out@);
        out.push(candidates[k].clone());
        assert(views(out@) =~= before.push(views(candidates@)[k as int]));
        k += 1;
    }
    assert(views(candidates@).take(k as int) =~= views(candidates@));
    out
}

impl Engine for SyntacticEngine {
    open spec fn name_spec(&self) -> Seq<char> {
        ENGINE_NAME@
    }

    open spec fn definitions_spec(
        &self,
        target: Seq<char>,
        candidates: Seq<CandidateView>,
        files: Seq<SourceFileView>,
    ) -> Seq<ResolutionView> {
        self.macros().resolved(target, candidates, Mode::Definition, files)
    }

    open spec fn declarations_spec(
        &self,
        target: Seq<char>,
        candidates: Seq<CandidateView>,
        files: Seq<SourceFileView>,
    ) -> Seq<ResolutionView> {
        self.macros().resolved(target, candidates, Mode::Declaration, files)
    }

    open spec fn scope_spec(
        &self,
        file: Seq<char>,
        byte_offset: usize,
        files: Seq<SourceFileView>,
    ) -> Option<Span> {
        self.macros().function_at(file, byte_offset, files)
    }

    open spec fn class_scope_spec(
        &self,
        file: Seq<char>,
        byte_offset: usize,
        files: Seq<SourceFileView>,
    ) -> Option<Span> {
        self.macros().class_at(file, byte_offset, files)
    }

    open spec fn references_spec(
        &self,
        target: Seq<char>,
        candidates: Seq<CandidateView>,
        files: Seq<SourceFileView>,
    ) -> Seq<CandidateView> {
        if has_infix(target, "::"@) {
            self.macros().kept(target, candidates, files, candidates.len() as int)
        } else {
            candidates
        }
    }

    fn name(&self) -> (r: &str) {
        ENGINE_NAME
    }

    fn definitions(&self, target: &str, candidates: &[Candidate], files: &[SourceFile]) -> (r: Vec<
        Resolution,
    >) {
        self.run_over_files(target, candidates, Mode::Definition, files)
    }

    fn declarations(&self, target: &str, candidates: &[Candidate], files: &[SourceFile]) -> (r: Vec<
        Resolution,
    >) {
        self.run_over_files(target, candidates, Mode::Declaration, files)
    }

    fn enclosing_scope(&self, file: &str, byte_offset: usize, files: &[SourceFile]) -> (r: Option<
        Span,
    >) {
        let src = match read(files, file) {
            Some(src) => src,
            None => return None,
        };
        match self.best_tree(src) {
            Some(p) => {
                let extent = p.extent_at(src, byte_offset);
                proof {
                    if extent is Some && byte_offset <= u32::MAX {
                        scopes_lie_around_their_offset(
                            p.tree@,
                            src@.len(),
                            extent->0,
                            byte_offset,
                        );
                    }
                }
                function_in_tree(&p.tree, extent)
            },
            None => None,
        }
    }

    fn enclosing_class_scope(&self, file: &str, byte_offset: usize, files: &[SourceFile]) -> (r:
        Option<Span>) {
        let src = match read(files, file) {
            Some(src) => src,
            None => return None,
        };
        match self.best_tree(src) {
            Some(p) => {
                let extent = p.extent_at(src, byte_offset);
                proof {
                    if extent is Some && byte_offset <= u32::MAX {
                        scopes_lie_around_their_offset(
                            p.tree@,
                            src@.len(),
                            extent->0,
                            byte_offset,
                        );
                    }
                }
                class_in_tree(&p.tree, extent)
            },
            None => None,
        }
    }

    fn filter_references(&self, target: &str, candidates: &[Candidate], files: &[SourceFile]) -> (r:
        Vec<Candidate>) {
        if !contains(target, "::") {
            return copy_candidates(candidates);
        }
        let ghost all = views(candidates@);
        let ghost fs = views(files@);
        let mut out: Vec<Candidate> = Vec::new();
        // The tree of the file read last serves its neighbours too.
        let mut cache: Option<(String, Option<ParsedFile>)> = None;
        let mut k: usize = 0;
        assert(views(out@) =~= Seq::empty());
        while k < candidates.len()
            invariant
                k <= candidates@.len(),
                all == views(candidates@),
                fs == views(files@),
                views(out@) == self.macros().kept(target@, all, fs, k as int),
                cache matches Some((path, file)) ==> self.caches(path@, file, fs),
            decreases candidates@.len() - k,
        {
            let c = &candidates[k];
            assert(all[k as int] == c@);
            let fresh = match &cache {
                Some((path, _)) => same_str(path, &c.file_path),
                None => false,
            };
            if !fresh {
                let file = match read(files, &c.file_path) {
                    Some(src) => self.best_tree(src),
                    None => None,
                };
                cache = Some((c.file_path.clone(), file));
            }
            let keep = match (&cache, read(files, &c.file_path)) {
                (Some((_, Some(file))), Some(src)) => keep_reference_line(
                    &file.tree,
                    src,
                    c.byte_offset,
                    target,
                ),
                _ => true,
            };
            if keep {
                let ghost before = views(out@);
                out.push(c.clone());
                assert(views(out@) =~= before.push(all[k as int]));
            }
            k += 1;
        }
        out
    }
}

impl SyntacticEngine {
    /// Is `file` what the engine makes of the file at `path`?
    spec fn caches(
        &self,
        path: Seq<char>,
        file: Option<ParsedFile>,
        files: Seq<SourceFileView>,
    ) -> bool {
        match contents(files, path) {
            Some(src) => match file {
                Some(p) => self.macros().reads(src) == Some(p.reading_of(src)) && tree_fits(
                    p.tree@,
                    src.len(),
                ),
                None => self.macros().reads(src) is None,
            },
            None => file is None,
        }
    }
}

// ---------------------------------------------------------------------------
// What every resolution satisfies
// ---------------------------------------------------------------------------

/// Is the content of a resolution exactly the bytes that its span covers in its
/// file?
pub open spec fn verbatim(r: ResolutionView, files: Seq<SourceFileView>) -> bool {
    match contents(files, r.source_ref.file_path) {
        Some(src) => {
            let span = r.source_ref.span;
            &&& span.start_byte <= span.end_byte <= src.len()
            &&& r.content_bytes == src.subrange(span.start_byte as int, span.end_byte as int)
        },
        None => false,
    }
}

proof fn file_resolutions_are_verbatim(
    t: Seq<SyntaxNode>,
    src: Seq<u8>,
    target: Seq<char>,
    mode: Mode,
    path: Seq<char>,
    files: Seq<SourceFileView>,
    k: int,
)
    requires
        contents(files, path) == Some(src),
        tree_fits(t, src.len()),
        0 <= k <= t.len(),
    ensures
        forall|m: int|
            0 <= m < resolutions_in(t, src, target, mode, path, k).len() ==> verbatim(
                #[trigger] resolutions_in(t, src, target, mode, path, k)[m],
                files,
            ),
    decreases k,
{
    if k > 0 {
        file_resolutions_are_verbatim(t, src, target, mode, path, files, k - 1);
        let before = resolutions_in(t, src, target, mode, path, k - 1);
        let all = resolutions_in(t, src, target, mode, path, k);
        last_above_bounds(t, k - 2, t[k - 1].depth as int);
        let report = report_node(t, k - 1);
        doc_starts_before(t, src, report);
        assert forall|m: int| 0 <= m < all.len() implies verbatim(#[trigger] all[m], files) by {
            if m < before.len() {
                assert(all[m] == before[m]);
            }
        }
    }
}

proof fn all_resolutions_are_verbatim(
    e: Macros,
    paths: Seq<Seq<char>>,
    target: Seq<char>,
    mode: Mode,
    files: Seq<SourceFileView>,
    k: int,
)
    ensures
        forall|m: int|
            0 <= m < e.all_resolutions(paths, target, mode, files, k).len() ==> verbatim(
                #[trigger] e.all_resolutions(paths, target, mode, files, k)[m],
                files,
            ),
    decreases k,
{
    if k > 0 {
        all_resolutions_are_verbatim(e, paths, target, mode, files, k - 1);
        let path = paths[k - 1];
        let before = e.all_resolutions(paths, target, mode, files, k - 1);
        let more = e.file_resolutions(path, target, mode, files);
        if contents(files, path) is Some && e.reads(contents(files, path)->0) is Some {
            let src = contents(files, path)->0;
            let t = e.reads(src)->0.tree;
            reading_fits(src, e.global, e.annotation);
            file_resolutions_are_verbatim(t, src, target, mode, path, files, t.len() as int);
        }
        let all = e.all_resolutions(paths, target, mode, files, k);
        assert forall|m: int| 0 <= m < all.len() implies verbatim(#[trigger] all[m], files) by {
            if m < before.len() {
                assert(all[m] == before[m]);
            } else {
                assert(all[m] == more[m - before.len()]);
            }
        }
    }
}

/// What is kept is part of what was given, in its order, and no two neighbours
/// cover the same bytes.
pub proof fn without_repeats_keeps_order(s: Seq<ResolutionView>)
    requires
        ordered::<Resolution>(s),
    ensures
        ordered::<Resolution>(without_repeats(s)),
        forall|m: int|
            0 <= m < without_repeats(s).len() ==> s.contains(#[trigger] without_repeats(s)[m]),
        forall|m: int|
            0 < m < without_repeats(s).len() ==> !same_extent(
                #[trigger] without_repeats(s)[m],
                without_repeats(s)[m - 1],
            ),
        s.len() > 0 ==> without_repeats(s).len() > 0,
    decreases s.len(),
{
    if s.len() > 0 {
        let head = s.drop_last();
        assert(ordered::<Resolution>(head)) by {
            assert forall|i: int, j: int| 0 <= i < j < head.len() implies !place_before(
                #[trigger] Resolution::place(head[j]),
                #[trigger] Resolution::place(head[i]),
            ) by {
                assert(head[i] == s[i] && head[j] == s[j]);
            }
        }
        without_repeats_keeps_order(head);
        let kept = without_repeats(head);
        let all = without_repeats(s);
        assert forall|m: int| 0 <= m < all.len() implies s.contains(#[trigger] all[m]) by {
            if m < kept.len() {
                assert(all[m] == kept[m]);
                let j = choose|j: int| 0 <= j < head.len() && head[j] == kept[m];
                assert(s[j] == all[m]);
            } else {
                assert(s[s.len() - 1] == all[m]);
            }
        }
        assert forall|i: int, j: int| 0 <= i < j < all.len() implies !place_before(
            #[trigger] Resolution::place(all[j]),
            #[trigger] Resolution::place(all[i]),
        ) by {
            assert(all[i] == kept[i]);
            if j < kept.len() {
                assert(all[j] == kept[j]);
            } else {
                let m = choose|m: int| 0 <= m < head.len() && head[m] == kept[i];
                assert(s[m] == all[i]);
                assert(s[s.len() - 1] == all[j]);
            }
        }
    }
}

/// Every resolution carries, byte for byte, what its span covers in its file, and
/// resolutions come in order of file and start byte without repeating an extent
/// next to each other.
pub proof fn resolutions_are_verbatim_and_ordered(
    e: Macros,
    target: Seq<char>,
    candidates: Seq<CandidateView>,
    mode: Mode,
    files: Seq<SourceFileView>,
)
    ensures
        forall|m: int|
            0 <= m < e.resolved(target, candidates, mode, files).len() ==> verbatim(
                #[trigger] e.resolved(target, candidates, mode, files)[m],
                files,
            ),
        ordered::<Resolution>(e.resolved(target, candidates, mode, files)),
        forall|m: int|
            0 < m < e.resolved(target, candidates, mode, files).len() ==> !same_extent(
                #[trigger] e.resolved(target, candidates, mode, files)[m],
                e.resolved(target, candidates, mode, files)[m - 1],
            ),
{
    let paths = distinct_files(candidates, candidates.len() as int);
    let found = e.all_resolutions(paths, target, mode, files, paths.len() as int);
    let sorted = in_order::<Resolution>(found);
    let all = e.resolved(target, candidates, mode, files);
    all_resolutions_are_verbatim(e, paths, target, mode, files, paths.len() as int);
    in_order_sorts::<Resolution>(found);
    without_repeats_keeps_order(sorted);
    assert forall|m: int| 0 <= m < all.len() implies verbatim(#[trigger] all[m], files) by {
        assert(sorted.contains(all[m]));
        vstd::seq_lib::to_multiset_contains(sorted, all[m]);
        vstd::seq_lib::to_multiset_contains(found, all[m]);
        let j = choose|j: int| 0 <= j < found.len() && found[j] == all[m];
        assert(verbatim(found[j], files));
    }
}

/// The precision pass only drops: what it keeps comes from the candidates, in
/// their order, and a bare target loses none.
pub proof fn references_are_only_dropped(
    e: SyntacticEngine,
    target: Seq<char>,
    candidates: Seq<CandidateView>,
    files: Seq<SourceFileView>,
)
    ensures
        !has_infix(target, "::"@) ==> e.references_spec(target, candidates, files) == candidates,
        has_infix(target, "::"@) ==> e.references_spec(target, candidates, files)
            == candidates.filter(|c: CandidateView| e.macros().keeps(target, c, files)),
{
    kept_is_filter(e.macros(), target, candidates, files, candidates.len() as int);
    assert(candidates.take(candidates.len() as int) =~= candidates);
}

proof fn kept_is_filter(
    e: Macros,
    target: Seq<char>,
    candidates: Seq<CandidateView>,
    files: Seq<SourceFileView>,
    k: int,
)
    requires
        0 <= k <= candidates.len(),
    ensures
        e.kept(target, candidates, files, k) == candidates.take(k).filter(
            |c: CandidateView| e.keeps(target, c, files),
        ),
    decreases k,
{
    reveal(Seq::filter);
    if k > 0 {
        kept_is_filter(e, target, candidates, files, k - 1);
        assert(candidates.take(k).drop_last() =~= candidates.take(k - 1));
        assert(candidates.take(k).last() == candidates[k - 1]);
    }
}

// ---------------------------------------------------------------------------
// What resolutions depend on
// ---------------------------------------------------------------------------

/// Does a candidate name the file at `path`, written like this?
pub open spec fn mentions(candidates: Seq<CandidateView>, path: Seq<char>) -> bool {
    exists|k: int| 0 <= k < candidates.len() && (#[trigger] candidates[k]).file_path == path
}

/// Is a candidate in the file at `path`, however the candidate writes that?
pub open spec fn is_in(candidates: Seq<CandidateView>, path: Seq<char>) -> bool {
    exists|k: int|
        0 <= k < candidates.len() && same_path((#[trigger] candidates[k]).file_path, path)
}

/// Do candidates in one file write its path alike?
pub open spec fn spelled_alike(candidates: Seq<CandidateView>) -> bool {
    forall|i: int, j: int|
        0 <= i < candidates.len() && 0 <= j < candidates.len() && same_path(
            (#[trigger] candidates[i]).file_path,
            (#[trigger] candidates[j]).file_path,
        ) ==> candidates[i].file_path == candidates[j].file_path
}

/// Are all the paths different?
pub open spec fn all_differ(paths: Seq<Seq<char>>) -> bool {
    forall|i: int, j: int|
        0 <= i < j < paths.len() ==> !same_path(#[trigger] paths[i], #[trigger] paths[j])
}

/// The first `k` paths without those of files that cannot be read.
spec fn readable_paths(paths: Seq<Seq<char>>, files: Seq<SourceFileView>, k: int) -> Seq<Seq<char>>
    decreases k,
{
    if k <= 0 {
        Seq::empty()
    } else {
        let before = readable_paths(paths, files, k - 1);
        if contents(files, paths[k - 1]) is Some {
            before.push(paths[k - 1])
        } else {
            before
        }
    }
}

pub(crate) proof fn distinct_files_cover(candidates: Seq<CandidateView>, k: int)
    requires
        0 <= k <= candidates.len(),
    ensures
        all_differ(distinct_files(candidates, k)),
        forall|i: int|
            0 <= i < k ==> has_path(
                distinct_files(candidates, k),
                (#[trigger] candidates[i]).file_path,
            ),
    decreases k,
{
    if k > 0 {
        distinct_files_cover(candidates, k - 1);
        let before = distinct_files(candidates, k - 1);
        let all = distinct_files(candidates, k);
        let path = candidates[k - 1].file_path;
        assert forall|i: int| 0 <= i < k implies has_path(
            all,
            (#[trigger] candidates[i]).file_path,
        ) by {
            if i < k - 1 {
                let m = choose|m: int|
                    0 <= m < before.len() && same_path(
                        #[trigger] before[m],
                        candidates[i].file_path,
                    );
                assert(all[m] == before[m]);
            } else if !has_path(before, path) {
                assert(all[all.len() - 1] == path);
            }
        }
    }
}

/// One way to write a path, the same for all ways to write it.
spec fn canonical(path: Seq<char>) -> Seq<char> {
    path_with(components(path))
}

spec fn path_with(parts: Seq<PathPartView>) -> Seq<char> {
    choose|q: Seq<char>| components(q) == parts
}

proof fn canonical_is_same(path: Seq<char>)
    ensures
        same_path(canonical(path), path),
        canonical(canonical(path)) == canonical(path),
{
    assert(components(path) == components(path));
    let q = path_with(components(path));
    assert(components(q) == components(path));
}

proof fn canonical_tells_apart(p: Seq<char>, q: Seq<char>)
    ensures
        canonical(p) == canonical(q) <==> same_path(p, q),
        same_path(canonical(p), canonical(q)) <==> same_path(p, q),
{
    canonical_is_same(p);
    canonical_is_same(q);
}

spec fn respelled(r: ResolutionView) -> ResolutionView {
    ResolutionView {
        source_ref: SourceRefView { file_path: canonical(r.source_ref.file_path), ..r.source_ref },
        ..r
    }
}

spec fn all_respelled(s: Seq<ResolutionView>) -> Seq<ResolutionView> {
    s.map_values(|r: ResolutionView| respelled(r))
}

proof fn places_are_respelled(x: ResolutionView, y: ResolutionView)
    ensures
        place_before(Resolution::place(respelled(x)), Resolution::place(respelled(y)))
            == place_before(Resolution::place(x), Resolution::place(y)),
        same_extent(respelled(x), respelled(y)) == same_extent(x, y),
{
    canonical_is_same(x.source_ref.file_path);
    canonical_is_same(y.source_ref.file_path);
}

proof fn inserted_respelled(s: Seq<ResolutionView>, x: ResolutionView, k: int)
    requires
        0 <= k <= s.len(),
    ensures
        inserted::<Resolution>(all_respelled(s), respelled(x), k) == all_respelled(
            inserted::<Resolution>(s, x, k),
        ),
    decreases k,
{
    if k > 0 {
        places_are_respelled(x, s[k - 1]);
        inserted_respelled(s, x, k - 1);
    }
    assert(all_respelled(s).insert(k, respelled(x)) =~= all_respelled(s.insert(k, x)));
}

proof fn in_order_respelled(s: Seq<ResolutionView>)
    ensures
        in_order::<Resolution>(all_respelled(s)) == all_respelled(in_order::<Resolution>(s)),
    decreases s.len(),
{
    if s.len() > 0 {
        let head = s.drop_last();
        in_order_respelled(head);
        assert(all_respelled(s).drop_last() =~= all_respelled(head));
        inserted_respelled(
            in_order::<Resolution>(head),
            s.last(),
            in_order::<Resolution>(head).len() as int,
        );
    } else {
        assert(all_respelled(s) =~= s);
    }
}

proof fn without_repeats_respelled(s: Seq<ResolutionView>)
    ensures
        without_repeats(all_respelled(s)) == all_respelled(without_repeats(s)),
    decreases s.len(),
{
    if s.len() > 0 {
        let kept = without_repeats(s.drop_last());
        without_repeats_respelled(s.drop_last());
        assert(all_respelled(s).drop_last() =~= all_respelled(s.drop_last()));
        if kept.len() > 0 {
            places_are_respelled(s.last(), kept.last());
        }
        assert(all_respelled(kept.push(s.last())) =~= all_respelled(kept).push(respelled(s.last())));
    } else {
        assert(all_respelled(s) =~= s);
    }
}

proof fn resolutions_respelled(
    t: Seq<SyntaxNode>,
    src: Seq<u8>,
    target: Seq<char>,
    mode: Mode,
    path: Seq<char>,
    k: int,
)
    ensures
        all_respelled(resolutions_in(t, src, target, mode, path, k)) == resolutions_in(
            t,
            src,
            target,
            mode,
            canonical(path),
            k,
        ),
    decreases k,
{
    if k > 0 {
        resolutions_respelled(t, src, target, mode, path, k - 1);
        let before = resolutions_in(t, src, target, mode, path, k - 1);
        if let Some(r) = resolution_at(t, src, k - 1, target, mode, path) {
            assert(resolution_at(t, src, k - 1, target, mode, canonical(path)) == Some(
                respelled(r),
            ));
            assert(all_respelled(before.push(r)) =~= all_respelled(before).push(respelled(r)));
        }
    } else {
        assert(all_respelled(Seq::empty()) =~= Seq::empty());
    }
}

proof fn file_resolutions_respelled(
    e: Macros,
    path: Seq<char>,
    target: Seq<char>,
    mode: Mode,
    files: Seq<SourceFileView>,
)
    ensures
        all_respelled(e.file_resolutions(path, target, mode, files)) == e.file_resolutions(
            canonical(path),
            target,
            mode,
            files,
        ),
{
    canonical_is_same(path);
    same_path_same_contents(files, canonical(path), path);
    if contents(files, path) is Some && e.reads(contents(files, path)->0) is Some {
        let src = contents(files, path)->0;
        let t = e.reads(src)->0.tree;
        resolutions_respelled(t, src, target, mode, path, t.len() as int);
    } else {
        assert(all_respelled(Seq::empty()) =~= Seq::empty());
    }
}

spec fn all_canonical(paths: Seq<Seq<char>>) -> Seq<Seq<char>> {
    paths.map_values(|p: Seq<char>| canonical(p))
}

proof fn all_resolutions_respelled(
    e: Macros,
    paths: Seq<Seq<char>>,
    target: Seq<char>,
    mode: Mode,
    files: Seq<SourceFileView>,
    k: int,
)
    requires
        k <= paths.len(),
    ensures
        all_respelled(e.all_resolutions(paths, target, mode, files, k)) == e.all_resolutions(
            all_canonical(paths),
            target,
            mode,
            files,
            k,
        ),
    decreases k,
{
    if k > 0 {
        all_resolutions_respelled(e, paths, target, mode, files, k - 1);
        file_resolutions_respelled(e, paths[k - 1], target, mode, files);
        let before = e.all_resolutions(paths, target, mode, files, k - 1);
        let more = e.file_resolutions(paths[k - 1], target, mode, files);
        assert(all_respelled(before + more) =~= all_respelled(before) + all_respelled(more));
    } else {
        assert(all_respelled(Seq::empty()) =~= Seq::empty());
    }
}

proof fn canonical_files(candidates: Seq<CandidateView>)
    ensures
        ({
            let paths = all_canonical(distinct_files(candidates, candidates.len() as int));
            &&& all_differ(paths)
            &&& forall|p: Seq<char>|
                #[trigger] paths.contains(p) <==> p == canonical(p) && is_in(candidates, p)
        }),
{
    let n = candidates.len() as int;
    let given = distinct_files(candidates, n);
    let paths = all_canonical(given);
    distinct_files_cover(candidates, n);
    distinct_files_come_from_candidates(candidates, n);
    assert forall|i: int, j: int| 0 <= i < j < paths.len() implies !same_path(
        #[trigger] paths[i],
        #[trigger] paths[j],
    ) by {
        canonical_tells_apart(given[i], given[j]);
    }
    assert forall|p: Seq<char>| #[trigger] paths.contains(p) <==> p == canonical(p) && is_in(
        candidates,
        p,
    ) by {
        if paths.contains(p) {
            let i = choose|i: int| 0 <= i < paths.len() && paths[i] == p;
            canonical_is_same(given[i]);
            assert(mentions(candidates, given[i]));
            let k = choose|k: int|
                0 <= k < candidates.len() && (#[trigger] candidates[k]).file_path == given[i];
            assert(same_path(candidates[k].file_path, p));
        }
        if p == canonical(p) && is_in(candidates, p) {
            let k = choose|k: int|
                0 <= k < candidates.len() && same_path((#[trigger] candidates[k]).file_path, p);
            assert(has_path(given, candidates[k].file_path));
            let m = choose|m: int|
                0 <= m < given.len() && same_path(#[trigger] given[m], candidates[k].file_path);
            canonical_tells_apart(given[m], p);
            assert(paths[m] == p);
        }
    }
}

proof fn readable_paths_are_kept(paths: Seq<Seq<char>>, files: Seq<SourceFileView>, k: int)
    requires
        all_differ(paths),
        0 <= k <= paths.len(),
    ensures
        all_differ(readable_paths(paths, files, k)),
        forall|p: Seq<char>|
            #[trigger] readable_paths(paths, files, k).contains(p) <==> contents(files, p) is Some
                && exists|i: int| 0 <= i < k && #[trigger] paths[i] == p,
    decreases k,
{
    if k > 0 {
        readable_paths_are_kept(paths, files, k - 1);
        let before = readable_paths(paths, files, k - 1);
        let all = readable_paths(paths, files, k);
        let path = paths[k - 1];
        assert forall|i: int, j: int| 0 <= i < j < all.len() implies !same_path(
            #[trigger] all[i],
            #[trigger] all[j],
        ) by {
            assert(before.contains(before[i]));
            let x = choose|x: int| 0 <= x < k - 1 && #[trigger] paths[x] == before[i];
            if j < before.len() {
                assert(all[i] == before[i] && all[j] == before[j]);
            } else {
                assert(!same_path(paths[x], paths[k - 1]));
            }
        }
        assert forall|p: Seq<char>| #[trigger] all.contains(p) <==> contents(files, p) is Some
            && exists|i: int| 0 <= i < k && #[trigger] paths[i] == p by {
            if all.contains(p) {
                let m = choose|m: int| 0 <= m < all.len() && all[m] == p;
                if m < before.len() {
                    assert(before[m] == p);
                    assert(before.contains(p));
                } else {
                    assert(paths[k - 1] == p);
                }
            }
            if contents(files, p) is Some && exists|i: int| 0 <= i < k && #[trigger] paths[i] == p {
                let i = choose|i: int| 0 <= i < k && #[trigger] paths[i] == p;
                if i < k - 1 {
                    assert(before.contains(p));
                    let m = choose|m: int| 0 <= m < before.len() && before[m] == p;
                    assert(all[m] == p);
                } else {
                    assert(all[all.len() - 1] == p);
                }
            }
        }
    }
}

proof fn later_paths_do_not_matter(
    e: Macros,
    a: Seq<Seq<char>>,
    b: Seq<Seq<char>>,
    target: Seq<char>,
    mode: Mode,
    files: Seq<SourceFileView>,
    k: int,
)
    requires
        k <= a.len(),
        k <= b.len(),
        forall|i: int| 0 <= i < k ==> a[i] == b[i],
    ensures
        e.all_resolutions(a, target, mode, files, k) == e.all_resolutions(b, target, mode, files, k),
    decreases k,
{
    if k > 0 {
        later_paths_do_not_matter(e, a, b, target, mode, files, k - 1);
    }
}

/// What the paths give, sorted.
spec fn sorted_over(
    e: Macros,
    paths: Seq<Seq<char>>,
    target: Seq<char>,
    mode: Mode,
    files: Seq<SourceFileView>,
) -> Seq<ResolutionView> {
    in_order::<Resolution>(e.all_resolutions(paths, target, mode, files, paths.len() as int))
}

proof fn one_more_path(
    e: Macros,
    paths: Seq<Seq<char>>,
    p: Seq<char>,
    target: Seq<char>,
    mode: Mode,
    files: Seq<SourceFileView>,
)
    ensures
        e.all_resolutions(paths.push(p), target, mode, files, paths.len() as int + 1) == e.all_resolutions(
            paths,
            target,
            mode,
            files,
            paths.len() as int,
        ) + e.file_resolutions(p, target, mode, files),
{
    later_paths_do_not_matter(e, paths.push(p), paths, target, mode, files, paths.len() as int);
}

proof fn unreadable_files_add_nothing(
    e: Macros,
    paths: Seq<Seq<char>>,
    target: Seq<char>,
    mode: Mode,
    files: Seq<SourceFileView>,
    k: int,
)
    requires
        0 <= k <= paths.len(),
    ensures
        ({
            let r = readable_paths(paths, files, k);
            e.all_resolutions(paths, target, mode, files, k) == e.all_resolutions(
                r,
                target,
                mode,
                files,
                r.len() as int,
            )
        }),
    decreases k,
{
    if k > 0 {
        unreadable_files_add_nothing(e, paths, target, mode, files, k - 1);
        let before = readable_paths(paths, files, k - 1);
        let all = e.all_resolutions(paths, target, mode, files, k - 1);
        if contents(files, paths[k - 1]) is Some {
            one_more_path(e, before, paths[k - 1], target, mode, files);
        } else {
            assert(all + Seq::<ResolutionView>::empty() =~= all);
        }
    }
}

proof fn file_resolutions_name_their_file(
    t: Seq<SyntaxNode>,
    src: Seq<u8>,
    target: Seq<char>,
    mode: Mode,
    path: Seq<char>,
    k: int,
)
    ensures
        forall|m: int|
            0 <= m < resolutions_in(t, src, target, mode, path, k).len() ==> (
            #[trigger] resolutions_in(t, src, target, mode, path, k)[m]).source_ref.file_path == path,
    decreases k,
{
    if k > 0 {
        file_resolutions_name_their_file(t, src, target, mode, path, k - 1);
        let before = resolutions_in(t, src, target, mode, path, k - 1);
        let all = resolutions_in(t, src, target, mode, path, k);
        assert forall|m: int| 0 <= m < all.len() implies (
        #[trigger] all[m]).source_ref.file_path == path by {
            if m < before.len() {
                assert(all[m] == before[m]);
            }
        }
    }
}

proof fn resolutions_name_their_file(
    e: Macros,
    path: Seq<char>,
    target: Seq<char>,
    mode: Mode,
    files: Seq<SourceFileView>,
)
    ensures
        forall|m: int|
            0 <= m < e.file_resolutions(path, target, mode, files).len() ==> (
            #[trigger] e.file_resolutions(path, target, mode, files)[m]).source_ref.file_path == path,
{
    if contents(files, path) is Some && e.reads(contents(files, path)->0) is Some {
        let src = contents(files, path)->0;
        let t = e.reads(src)->0.tree;
        file_resolutions_name_their_file(t, src, target, mode, path, t.len() as int);
    }
}

proof fn files_commute(
    e: Macros,
    paths: Seq<Seq<char>>,
    p: Seq<char>,
    q: Seq<char>,
    target: Seq<char>,
    mode: Mode,
    files: Seq<SourceFileView>,
)
    requires
        !same_path(p, q),
    ensures
        sorted_over(e, paths.push(p).push(q), target, mode, files) == sorted_over(
            e,
            paths.push(q).push(p),
            target,
            mode,
            files,
        ),
{
    let s = e.all_resolutions(paths, target, mode, files, paths.len() as int);
    let a = e.file_resolutions(p, target, mode, files);
    let b = e.file_resolutions(q, target, mode, files);
    one_more_path(e, paths, p, target, mode, files);
    one_more_path(e, paths, q, target, mode, files);
    one_more_path(e, paths.push(p), q, target, mode, files);
    one_more_path(e, paths.push(q), p, target, mode, files);
    resolutions_name_their_file(e, p, target, mode, files);
    resolutions_name_their_file(e, q, target, mode, files);
    paths_are_ordered(p, q, q);
    assert forall|i: int, j: int| 0 <= i < a.len() && 0 <= j < b.len() implies apart::<Resolution>(
        #[trigger] a[i],
        #[trigger] b[j],
    ) by {
        assert(a[i].source_ref.file_path == p);
        assert(b[j].source_ref.file_path == q);
    }
    runs_commute::<Resolution>(s, a, b);
}

proof fn file_moves_last(
    e: Macros,
    paths: Seq<Seq<char>>,
    j: int,
    target: Seq<char>,
    mode: Mode,
    files: Seq<SourceFileView>,
)
    requires
        all_differ(paths),
        0 <= j < paths.len(),
    ensures
        sorted_over(e, paths, target, mode, files) == sorted_over(
            e,
            paths.remove(j).push(paths[j]),
            target,
            mode,
            files,
        ),
    decreases paths.len(),
{
    let p = paths[j];
    let head = paths.drop_last();
    let q = paths.last();
    if j == paths.len() - 1 {
        assert(paths.remove(j).push(p) =~= paths);
    } else {
        assert forall|x: int, y: int| 0 <= x < y < head.len() implies !same_path(
            #[trigger] head[x],
            #[trigger] head[y],
        ) by {
            assert(head[x] == paths[x] && head[y] == paths[y]);
        }
        file_moves_last(e, head, j, target, mode, files);
        let rest = head.remove(j);
        assert(head.push(q) =~= paths);
        assert(rest.push(q) =~= paths.remove(j));
        one_more_path(e, head, q, target, mode, files);
        one_more_path(e, rest.push(p), q, target, mode, files);
        in_order_goes_on::<Resolution>(
            e.all_resolutions(head, target, mode, files, head.len() as int),
            e.all_resolutions(rest.push(p), target, mode, files, rest.len() as int + 1),
            e.file_resolutions(q, target, mode, files),
        );
        assert(!same_path(paths[j], paths[paths.len() - 1]));
        files_commute(e, rest, p, q, target, mode, files);
    }
}

proof fn same_files_sort_alike(
    e: Macros,
    a: Seq<Seq<char>>,
    b: Seq<Seq<char>>,
    target: Seq<char>,
    mode: Mode,
    files: Seq<SourceFileView>,
)
    requires
        all_differ(a),
        all_differ(b),
        forall|p: Seq<char>| #![trigger a.contains(p)] #![trigger b.contains(p)] a.contains(p) == b.contains(p),
    ensures
        sorted_over(e, a, target, mode, files) == sorted_over(e, b, target, mode, files),
    decreases a.len(),
{
    if a.len() == 0 {
        if b.len() > 0 {
            assert(b.contains(b[0]));
            assert(a.contains(b[0]));
        }
        assert(a =~= b);
    } else {
        let p = a.last();
        let head = a.drop_last();
        assert(a[a.len() - 1] == p);
        assert(a.contains(p));
        assert(b.contains(p));
        let j = choose|j: int| 0 <= j < b.len() && b[j] == p;
        let rest = b.remove(j);
        assert forall|x: int, y: int| 0 <= x < y < head.len() implies !same_path(
            #[trigger] head[x],
            #[trigger] head[y],
        ) by {
            assert(head[x] == a[x] && head[y] == a[y]);
        }
        assert forall|x: int, y: int| 0 <= x < y < rest.len() implies !same_path(
            #[trigger] rest[x],
            #[trigger] rest[y],
        ) by {
            let u = if x < j { x } else { x + 1 };
            let v = if y < j { y } else { y + 1 };
            assert(rest[x] == b[u] && rest[y] == b[v]);
        }
        assert forall|q: Seq<char>|
            #![trigger head.contains(q)]
            #![trigger rest.contains(q)]
            head.contains(q) == rest.contains(q) by {
            if head.contains(q) {
                let x = choose|x: int| 0 <= x < head.len() && head[x] == q;
                assert(a[x] == q);
                assert(!same_path(a[x], a[a.len() - 1]));
                assert(a.contains(q));
                assert(b.contains(q));
                let y = choose|y: int| 0 <= y < b.len() && b[y] == q;
                assert(rest[if y < j { y } else { y - 1 }] == q);
            }
            if rest.contains(q) {
                let y = choose|y: int| 0 <= y < rest.len() && rest[y] == q;
                let v = if y < j { y } else { y + 1 };
                assert(b[v] == q);
                if v < j {
                    assert(!same_path(b[v], b[j]));
                } else {
                    assert(!same_path(b[j], b[v]));
                }
                assert(b.contains(q));
                assert(a.contains(q));
                let x = choose|x: int| 0 <= x < a.len() && a[x] == q;
                assert(head[x] == q);
            }
        }
        same_files_sort_alike(e, head, rest, target, mode, files);
        file_moves_last(e, b, j, target, mode, files);
        one_more_path(e, head, p, target, mode, files);
        one_more_path(e, rest, p, target, mode, files);
        assert(head.push(p) =~= a);
        in_order_goes_on::<Resolution>(
            e.all_resolutions(head, target, mode, files, head.len() as int),
            e.all_resolutions(rest, target, mode, files, rest.len() as int),
            e.file_resolutions(p, target, mode, files),
        );
    }
}

/// Are two resolutions the same but for the way in which the path of their file is
/// written?
pub open spec fn same_but_spelling(x: ResolutionView, y: ResolutionView) -> bool {
    &&& same_path(x.source_ref.file_path, y.source_ref.file_path)
    &&& x == ResolutionView {
        source_ref: SourceRefView { file_path: x.source_ref.file_path, ..y.source_ref },
        ..y
    }
}

proof fn resolved_respelled(
    e: Macros,
    target: Seq<char>,
    candidates: Seq<CandidateView>,
    mode: Mode,
    files: Seq<SourceFileView>,
)
    ensures
        ({
            let paths = all_canonical(distinct_files(candidates, candidates.len() as int));
            let readable = readable_paths(paths, files, paths.len() as int);
            all_respelled(e.resolved(target, candidates, mode, files)) == without_repeats(
                sorted_over(e, readable, target, mode, files),
            )
        }),
{
    let given = distinct_files(candidates, candidates.len() as int);
    let paths = all_canonical(given);
    let n = given.len() as int;
    let found = e.all_resolutions(given, target, mode, files, n);
    all_resolutions_respelled(e, given, target, mode, files, n);
    in_order_respelled(found);
    without_repeats_respelled(in_order::<Resolution>(found));
    unreadable_files_add_nothing(e, paths, target, mode, files, n);
}

/// What the engine resolves depends on which files the candidates are in, and on
/// nothing else of the candidates: neither on their order and number nor on their lines
/// and offsets. Files that cannot be read add nothing. The path of a file is written as
/// the first candidate in it writes it; that alone may differ.
pub proof fn resolutions_depend_on_the_files(
    e: Macros,
    target: Seq<char>,
    a: Seq<CandidateView>,
    b: Seq<CandidateView>,
    mode: Mode,
    files: Seq<SourceFileView>,
)
    requires
        forall|p: Seq<char>|
            #![trigger is_in(a, p)]
            #![trigger is_in(b, p)]
            contents(files, p) is Some ==> is_in(a, p) == is_in(b, p),
    ensures
        e.resolved(target, a, mode, files).len() == e.resolved(target, b, mode, files).len(),
        forall|m: int|
            0 <= m < e.resolved(target, a, mode, files).len() ==> same_but_spelling(
                #[trigger] e.resolved(target, a, mode, files)[m],
                e.resolved(target, b, mode, files)[m],
            ),
{
    let pa = all_canonical(distinct_files(a, a.len() as int));
    let pb = all_canonical(distinct_files(b, b.len() as int));
    let ra = readable_paths(pa, files, pa.len() as int);
    let rb = readable_paths(pb, files, pb.len() as int);
    canonical_files(a);
    canonical_files(b);
    readable_paths_are_kept(pa, files, pa.len() as int);
    readable_paths_are_kept(pb, files, pb.len() as int);
    assert forall|p: Seq<char>|
        #![trigger ra.contains(p)]
        #![trigger rb.contains(p)]
        ra.contains(p) == rb.contains(p) by {
        assert(ra.contains(p) <==> contents(files, p) is Some && pa.contains(p));
        assert(rb.contains(p) <==> contents(files, p) is Some && pb.contains(p));
        assert(pa.contains(p) <==> p == canonical(p) && is_in(a, p));
        assert(pb.contains(p) <==> p == canonical(p) && is_in(b, p));
    }
    same_files_sort_alike(e, ra, rb, target, mode, files);
    resolved_respelled(e, target, a, mode, files);
    resolved_respelled(e, target, b, mode, files);
    let x = e.resolved(target, a, mode, files);
    let y = e.resolved(target, b, mode, files);
    assert(all_respelled(x) == all_respelled(y));
    assert(x.len() == all_respelled(x).len());
    assert(y.len() == all_respelled(y).len());
    assert forall|m: int| 0 <= m < x.len() implies same_but_spelling(#[trigger] x[m], y[m]) by {
        assert(all_respelled(x)[m] == respelled(x[m]));
        assert(all_respelled(y)[m] == respelled(y[m]));
        respelled_alike(x[m], y[m]);
    }
}

proof fn respelled_alike(x: ResolutionView, y: ResolutionView)
    requires
        respelled(x) == respelled(y),
    ensures
        same_but_spelling(x, y),
{
    canonical_tells_apart(x.source_ref.file_path, y.source_ref.file_path);
    assert(respelled(x).source_ref.file_path == respelled(y).source_ref.file_path);
    assert(respelled(x).source_ref.span == respelled(y).source_ref.span);
}

/// Where each list of candidates writes the path of a file in one way, and both in the
/// same, nothing differs at all.
pub proof fn resolutions_depend_on_the_paths(
    e: Macros,
    target: Seq<char>,
    a: Seq<CandidateView>,
    b: Seq<CandidateView>,
    mode: Mode,
    files: Seq<SourceFileView>,
)
    requires
        spelled_alike(a),
        spelled_alike(b),
        forall|p: Seq<char>|
            #![trigger mentions(a, p)]
            #![trigger mentions(b, p)]
            contents(files, p) is Some ==> mentions(a, p) == mentions(b, p),
    ensures
        e.resolved(target, a, mode, files) == e.resolved(target, b, mode, files),
{
    assert forall|p: Seq<char>|
        #![trigger is_in(a, p)]
        #![trigger is_in(b, p)]
        contents(files, p) is Some implies is_in(a, p) == is_in(b, p) by {
        if is_in(a, p) {
            let k = choose|k: int|
                0 <= k < a.len() && same_path((#[trigger] a[k]).file_path, p);
            same_path_same_contents(files, a[k].file_path, p);
            assert(mentions(a, a[k].file_path));
            assert(mentions(b, a[k].file_path));
        }
        if is_in(b, p) {
            let k = choose|k: int|
                0 <= k < b.len() && same_path((#[trigger] b[k]).file_path, p);
            same_path_same_contents(files, b[k].file_path, p);
            assert(mentions(b, b[k].file_path));
            assert(mentions(a, b[k].file_path));
        }
    }
    resolutions_depend_on_the_files(e, target, a, b, mode, files);
    resolutions_are_in_candidate_files(e, target, a, mode, files);
    resolutions_are_in_candidate_files(e, target, b, mode, files);
    resolutions_are_verbatim_and_ordered(e, target, a, mode, files);
    let x = e.resolved(target, a, mode, files);
    let y = e.resolved(target, b, mode, files);
    assert forall|m: int| 0 <= m < x.len() implies #[trigger] x[m] == y[m] by {
        let p = x[m].source_ref.file_path;
        let q = y[m].source_ref.file_path;
        assert(same_but_spelling(x[m], y[m]));
        assert(verbatim(x[m], files));
        assert(mentions(a, p) && mentions(b, p) && mentions(b, q));
        let i = choose|i: int| 0 <= i < b.len() && (#[trigger] b[i]).file_path == p;
        let j = choose|j: int| 0 <= j < b.len() && (#[trigger] b[j]).file_path == q;
        assert(same_path(b[i].file_path, b[j].file_path));
    }
    assert(x =~= y);
}

pub(crate) proof fn distinct_files_come_from_candidates(candidates: Seq<CandidateView>, k: int)
    requires
        0 <= k <= candidates.len(),
    ensures
        forall|i: int|
            0 <= i < distinct_files(candidates, k).len() ==> mentions(
                candidates,
                #[trigger] distinct_files(candidates, k)[i],
            ),
    decreases k,
{
    if k > 0 {
        distinct_files_come_from_candidates(candidates, k - 1);
        let before = distinct_files(candidates, k - 1);
        let all = distinct_files(candidates, k);
        assert forall|i: int| 0 <= i < all.len() implies mentions(candidates, #[trigger] all[i]) by {
            if i < before.len() {
                assert(all[i] == before[i]);
            } else {
                assert(candidates[k - 1].file_path == all[i]);
            }
        }
    }
}

proof fn all_resolutions_name_their_files(
    e: Macros,
    paths: Seq<Seq<char>>,
    target: Seq<char>,
    mode: Mode,
    files: Seq<SourceFileView>,
    k: int,
)
    requires
        0 <= k <= paths.len(),
    ensures
        forall|m: int|
            0 <= m < e.all_resolutions(paths, target, mode, files, k).len() ==> paths.contains(
                (#[trigger] e.all_resolutions(paths, target, mode, files, k)[m]).source_ref.file_path,
            ),
    decreases k,
{
    if k > 0 {
        all_resolutions_name_their_files(e, paths, target, mode, files, k - 1);
        resolutions_name_their_file(e, paths[k - 1], target, mode, files);
        let before = e.all_resolutions(paths, target, mode, files, k - 1);
        let more = e.file_resolutions(paths[k - 1], target, mode, files);
        let all = e.all_resolutions(paths, target, mode, files, k);
        assert forall|m: int| 0 <= m < all.len() implies paths.contains(
            (#[trigger] all[m]).source_ref.file_path,
        ) by {
            if m < before.len() {
                assert(all[m] == before[m]);
            } else {
                assert(all[m] == more[m - before.len()]);
                assert(paths[k - 1] == all[m].source_ref.file_path);
            }
        }
    }
}

/// Every resolution is in the file of a candidate.
pub proof fn resolutions_are_in_candidate_files(
    e: Macros,
    target: Seq<char>,
    candidates: Seq<CandidateView>,
    mode: Mode,
    files: Seq<SourceFileView>,
)
    ensures
        forall|m: int|
            0 <= m < e.resolved(target, candidates, mode, files).len() ==> mentions(
                candidates,
                (#[trigger] e.resolved(target, candidates, mode, files)[m]).source_ref.file_path,
            ),
{
    let paths = distinct_files(candidates, candidates.len() as int);
    let found = e.all_resolutions(paths, target, mode, files, paths.len() as int);
    let sorted = in_order::<Resolution>(found);
    let all = e.resolved(target, candidates, mode, files);
    distinct_files_come_from_candidates(candidates, candidates.len() as int);
    all_resolutions_name_their_files(e, paths, target, mode, files, paths.len() as int);
    in_order_sorts::<Resolution>(found);
    without_repeats_keeps_order(sorted);
    assert forall|m: int| 0 <= m < all.len() implies mentions(
        candidates,
        (#[trigger] all[m]).source_ref.file_path,
    ) by {
        assert(sorted.contains(all[m]));
        vstd::seq_lib::to_multiset_contains(sorted, all[m]);
        vstd::seq_lib::to_multiset_contains(found, all[m]);
        let j = choose|j: int| 0 <= j < found.len() && found[j] == all[m];
        assert(paths.contains(found[j].source_ref.file_path));
        let i = choose|i: int| 0 <= i < paths.len() && paths[i] == found[j].source_ref.file_path;
        assert(mentions(candidates, paths[i]));
    }
}

} // verus!
