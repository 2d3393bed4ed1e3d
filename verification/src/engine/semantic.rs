//! The semantic backend.
//!
//! A compiler front end parses each candidate file with the flags of the
//! compilation database; what it says of the entities of a translation unit is
//! held here as plain values. Which of them answer to a target, and what is
//! reported of them, is decided here.

use crate::ascii::NEWLINE;
use crate::engine::outline::Mode;
use crate::engine::syntactic::{copy_candidates, verbatim, Macros};
use crate::engine::{Engine, SyntacticEngine};
use crate::model::{
    Kind, Resolution, ResolutionView, SourceRef, SourceRefView, Span, Status, Symbol, SymbolView,
};
use crate::order::{in_order, in_order_sorts, ordered, sort_by_place};
use crate::paths::{is_same_path, same_path};
use crate::search::{Candidate, CandidateView};
use crate::sources::{contents, read, SourceFile, SourceFileView};
use crate::text::{
    after_space, after_space_at, chars_of, clone_opt, concat, contains, ends_with, find_line,
    from_utf8, has_infix, has_prefix, has_suffix, join, joined, last_component,
    last_component_of, line_at, line_numbers_count_newlines, line_start, lines_ascend, newlines,
    next_of, next_of_bounds, opt_view, same_str, starts_with, substring_of, views,
};
use vstd::prelude::*;
use vstd::slice::{slice_subrange, slice_to_vec};
use vstd::utf8::{decode_utf8, valid_utf8};

verus! {

/// The name of the semantic backend.
pub const SEMANTIC_NAME: &'static str = "libclang";

/// Semantic results rank above syntactic ones.
pub const SEMANTIC_CONFIDENCE: u8 = 95;

/// The kinds of entities that resolution tells apart.
#[derive(Clone, Copy, Debug, PartialEq, Eq, Structural)]
pub enum EntityKind {
    Namespace,
    ClassDecl,
    StructDecl,
    ClassTemplate,
    FunctionDecl,
    FunctionTemplate,
    Method,
    Constructor,
    Destructor,
    VarDecl,
    FieldDecl,
    MacroDefinition,
    TranslationUnit,
    Other,
}

/// A semantic parent of an entity.
pub struct SemanticScope {
    pub kind: EntityKind,
    pub name: Option<String>,
}

/// The mathematical value of a [`SemanticScope`].
pub struct SemanticScopeView {
    pub kind: EntityKind,
    pub name: Option<Seq<char>>,
}

impl View for SemanticScope {
    type V = SemanticScopeView;

    open spec fn view(&self) -> SemanticScopeView {
        SemanticScopeView { kind: self.kind, name: opt_view(self.name) }
    }
}

/// What the front end says of an entity.
pub struct SemanticEntity {
    pub kind: EntityKind,
    pub name: Option<String>,
    /// The semantic parents, innermost first.
    pub parents: Vec<SemanticScope>,
    pub is_definition: bool,
    /// The file that the entity is in, if any.
    pub file: Option<String>,
    /// 1-based line and column of the name, if known.
    pub start: Option<(usize, usize)>,
    /// 1-based line and column of the end, if known.
    pub end: Option<(usize, usize)>,
    pub comment: Option<String>,
    pub display_name: Option<String>,
    pub type_spelling: Option<String>,
}

/// The mathematical value of a [`SemanticEntity`].
pub struct SemanticEntityView {
    pub kind: EntityKind,
    pub name: Option<Seq<char>>,
    pub parents: Seq<SemanticScopeView>,
    pub is_definition: bool,
    pub file: Option<Seq<char>>,
    pub start: Option<(usize, usize)>,
    pub end: Option<(usize, usize)>,
    pub comment: Option<Seq<char>>,
    pub display_name: Option<Seq<char>>,
    pub type_spelling: Option<Seq<char>>,
}

impl View for SemanticEntity {
    type V = SemanticEntityView;

    open spec fn view(&self) -> SemanticEntityView {
        SemanticEntityView {
            kind: self.kind,
            name: opt_view(self.name),
            parents: views(self.parents@),
            is_definition: self.is_definition,
            file: opt_view(self.file),
            start: self.start,
            end: self.end,
            comment: opt_view(self.comment),
            display_name: opt_view(self.display_name),
            type_spelling: opt_view(self.type_spelling),
        }
    }
}

/// The entities of a file that was parsed, parents before children.
pub struct SemanticUnit {
    pub file: String,
    pub entities: Vec<SemanticEntity>,
}

/// The mathematical value of a [`SemanticUnit`].
pub struct SemanticUnitView {
    pub file: Seq<char>,
    pub entities: Seq<SemanticEntityView>,
}

impl View for SemanticUnit {
    type V = SemanticUnitView;

    open spec fn view(&self) -> SemanticUnitView {
        SemanticUnitView { file: self.file@, entities: views(self.entities@) }
    }
}

// ---------------------------------------------------------------------------
// Compile arguments
// ---------------------------------------------------------------------------

/// The arguments of a compile command, from `i` on, that are handed to the front
/// end: not those that name the source or the output, or choose what to produce.
/// With `skip`, the next one belongs to the output and goes too.
pub open spec fn kept_arguments(
    args: Seq<Seq<char>>,
    file: Seq<char>,
    i: int,
    skip: bool,
) -> Seq<Seq<char>>
    decreases args.len() - i,
{
    if i < 0 || i >= args.len() {
        Seq::empty()
    } else {
        let a = args[i];
        if skip {
            kept_arguments(args, file, i + 1, false)
        } else if a == "-o"@ {
            kept_arguments(args, file, i + 1, true)
        } else if a == "-c"@ || a == "-emit-ast"@ || a == "-fsyntax-only"@ || has_prefix(a, "-o"@)
            || same_path(a, file) {
            kept_arguments(args, file, i + 1, false)
        } else {
            seq![a] + kept_arguments(args, file, i + 1, false)
        }
    }
}

/// The arguments of a compile command that are handed to the front end. The first
/// one names the compiler and goes too.
pub fn compile_arguments(args: &[String], file: &str) -> (r: Vec<String>)
    ensures
        views(r@) == kept_arguments(views(args@), file@, 1, false),
{
    let ghost all = views(args@);
    let mut out: Vec<String> = Vec::new();
    let mut skip = false;
    let mut i: usize = 1;
    assert(views(out@) + kept_arguments(all, file@, 1, false) =~= kept_arguments(
        all,
        file@,
        1,
        false,
    ));
    while i < args.len()
        invariant
            1 <= i,
            i <= args@.len() || args@.len() == 0,
            all == views(args@),
            views(out@) + kept_arguments(all, file@, i as int, skip) == kept_arguments(
                all,
                file@,
                1,
                false,
            ),
        decreases args@.len() - i,
    {
        let a = &args[i];
        assert(all[i as int] == a@);
        let ghost before = views(out@);
        if skip {
            skip = false;
        } else if same_str(a, "-o") {
            skip = true;
        } else if same_str(a, "-c") || same_str(a, "-emit-ast") || same_str(a, "-fsyntax-only")
            || starts_with(a, "-o") || is_same_path(a, file) {
        } else {
            out.push(a.clone());
            assert(views(out@) =~= before.push(a@));
            assert(views(out@) + kept_arguments(all, file@, i + 1, false) =~= before + (seq![a@]
                + kept_arguments(all, file@, i + 1, false)));
        }
        i += 1;
    }
    assert(views(out@) + kept_arguments(all, file@, i as int, skip) =~= views(out@));
    out
}

// ---------------------------------------------------------------------------
// Names
// ---------------------------------------------------------------------------

/// Does an entity of this kind open a scope that qualifies names?
pub open spec fn qualifies(k: EntityKind) -> bool {
    k == EntityKind::Namespace || k == EntityKind::ClassDecl || k == EntityKind::StructDecl || k
        == EntityKind::ClassTemplate
}

/// The names of the scopes from parent `i` outward, up to the translation unit,
/// outermost first.
pub open spec fn scope_names(parents: Seq<SemanticScopeView>, i: int) -> Seq<Seq<char>>
    decreases parents.len() - i,
{
    if i < 0 || i >= parents.len() || parents[i].kind == EntityKind::TranslationUnit {
        Seq::empty()
    } else {
        let outer = scope_names(parents, i + 1);
        match parents[i].name {
            Some(n) => if qualifies(parents[i].kind) {
                outer.push(n)
            } else {
                outer
            },
            None => outer,
        }
    }
}

/// The names that make up the qualified name of an entity called `name`.
pub open spec fn name_parts(e: SemanticEntityView, name: Seq<char>) -> Seq<Seq<char>> {
    scope_names(e.parents, 0).push(name)
}

/// Does a qualified target match the qualified name of an entity, whole or by its
/// last components?
pub open spec fn matches_qualified(e: SemanticEntityView, target: Seq<char>) -> bool {
    match e.name {
        Some(name) => {
            let q = joined(name_parts(e, name), "::"@);
            q == target || has_suffix(q, "::"@ + target)
        },
        None => false,
    }
}

/// Does an entity answer to a target: by its name or, where the target is
/// qualified, by its qualified name?
pub open spec fn answers_to(e: SemanticEntityView, target: Seq<char>) -> bool {
    if has_infix(target, "::"@) {
        matches_qualified(e, target)
    } else {
        e.name == Some(last_component(target)) || (e.name is None && last_component(target).len()
            == 0)
    }
}

fn scope_names_of(parents: &Vec<SemanticScope>, i: usize) -> (r: Vec<String>)
    ensures
        views(r@) == scope_names(views(parents@), i as int),
    decreases parents@.len() - i,
{
    if i >= parents.len() || parents[i].kind == EntityKind::TranslationUnit {
        let out: Vec<String> = Vec::new();
        assert(views(out@) =~= Seq::empty());
        assert(i < parents@.len() ==> views(parents@)[i as int] == parents@[i as int]@);
        return out;
    }
    assert(views(parents@)[i as int] == parents@[i as int]@);
    let mut out = scope_names_of(parents, i + 1);
    let ghost outer = views(out@);
    let k = parents[i].kind;
    if let Some(n) = &parents[i].name {
        if k == EntityKind::Namespace || k == EntityKind::ClassDecl || k == EntityKind::StructDecl
            || k == EntityKind::ClassTemplate {
            out.push(n.clone());
            assert(views(out@) =~= outer.push(n@));
        }
    }
    out
}

fn name_parts_of(e: &SemanticEntity, name: &String) -> (r: Vec<String>)
    ensures
        views(r@) == name_parts(e@, name@),
{
    let mut parts = scope_names_of(&e.parents, 0);
    let ghost outer = views(parts@);
    parts.push(name.clone());
    assert(views(parts@) =~= outer.push(name@));
    parts
}

/// The qualified name of an entity; `None` for one in no scope or without a name.
pub open spec fn entity_qualified_name(e: SemanticEntityView) -> Option<Seq<char>> {
    match e.name {
        Some(name) => if name_parts(e, name).len() > 1 {
            Some(joined(name_parts(e, name), "::"@))
        } else {
            None
        },
        None => None,
    }
}

fn build_qualified_name(e: &SemanticEntity) -> (r: Option<String>)
    ensures
        opt_view(r) == entity_qualified_name(e@),
{
    match &e.name {
        Some(name) => {
            let parts = name_parts_of(e, name);
            assert(views(parts@).len() == parts@.len());
            if parts.len() > 1 {
                Some(join(&parts, "::"))
            } else {
                None
            }
        },
        None => None,
    }
}

fn is_answer(e: &SemanticEntity, target: &str) -> (r: bool)
    ensures
        r == answers_to(e@, target@),
{
    if contains(target, "::") {
        match &e.name {
            Some(name) => {
                let q = join(&name_parts_of(e, name), "::");
                same_str(&q, target) || ends_with(&q, &concat("::", target))
            },
            None => false,
        }
    } else {
        let bare = last_component_of(target);
        match &e.name {
            Some(name) => same_str(name, &bare),
            None => crate::text::is_empty(&bare),
        }
    }
}

// ---------------------------------------------------------------------------
// Places
// ---------------------------------------------------------------------------

/// The byte offset of a 1-based line and column. A column past the end of the text
/// counts as the end, unless the line itself starts there.
pub open spec fn byte_at(src: Seq<u8>, line: int, col: int) -> Option<int> {
    let along = if col < 1 { 0 } else { col - 1 };
    if line == 0 {
        None
    } else {
        match line_at(src, 1, 0, line) {
            Some(start) => if start < src.len() && start + along > src.len() {
                Some(src.len() as int)
            } else {
                Some(start + along)
            },
            None => None,
        }
    }
}

/// Converts a 1-based line and column to a byte offset.
pub fn line_col_to_byte(src: &[u8], line: usize, col: usize) -> (r: Option<usize>)
    requires
        src@.len() + col <= usize::MAX,
    ensures
        match r {
            Some(i) => byte_at(src@, line as int, col as int) == Some(i as int),
            None => byte_at(src@, line as int, col as int) is None,
        },
{
    if line == 0 {
        return None;
    }
    let along: usize = if col < 1 { 0 } else { col - 1 };
    match find_line(src, line as u64) {
        Some(start) => if start < src.len() && start + along > src.len() {
            Some(src.len())
        } else {
            Some(start + along)
        },
        None => None,
    }
}

/// Is there a line with this 1-based number? The end of the text counts as a line
/// only where it is the first.
pub open spec fn line_exists(src: Seq<u8>, line: int) -> bool {
    line == 1 || (line > 1 && (line_at(src, 1, 0, line) matches Some(i) && i < src.len()))
}

/// The bytes of a line with its newline.
pub open spec fn line_text(src: Seq<u8>, line: int) -> Seq<u8> {
    src.subrange(line_start(src, line), line_start(src, line + 1))
}

/// Does a line begin, after whitespace, as a comment does or goes on?
pub open spec fn comment_line(src: Seq<u8>, line: int) -> bool {
    let b = line_text(src, line);
    let t = if valid_utf8(b) { decode_utf8(b) } else { Seq::empty() };
    let u = t.skip(after_space(t, 0));
    has_prefix(u, "//"@) || has_prefix(u, "/*"@) || has_prefix(u, "*"@)
}

/// The first line of the run of comment lines that ends at `line`; the line after
/// it if it is none.
pub open spec fn comment_run(src: Seq<u8>, line: int) -> int
    decreases line,
{
    if line >= 1 && comment_line(src, line) {
        comment_run(src, line - 1)
    } else {
        line + 1
    }
}

/// Where the comment block just above the 1-based line `decl` starts: byte and
/// line; `None` if there is none.
pub open spec fn comment_start(src: Seq<u8>, decl: int) -> Option<(int, int)> {
    let top = comment_run(src, decl - 1);
    if line_exists(src, decl) && top < decl {
        Some((line_start(src, top), top))
    } else {
        None
    }
}

fn line_start_of(src: &[u8], line: usize) -> (r: usize)
    ensures
        r == line_start(src@, line as int),
        r <= src@.len(),
{
    match find_line(src, line as u64) {
        Some(i) => i,
        None => src.len(),
    }
}

fn is_comment_line(src: &[u8], line: usize) -> (r: bool)
    requires
        line < usize::MAX,
    ensures
        r == comment_line(src@, line as int),
{
    let a = line_start_of(src, line);
    let b = line_start_of(src, line + 1);
    proof {
        lines_ascend(src@, line as int, line + 1);
    }
    let bytes = slice_subrange(src, a, b);
    let text = match from_utf8(bytes) {
        Some(t) => t,
        None => String::new(),
    };
    let c = chars_of(&text);
    let from = after_space_at(&c, 0);
    assert(c@.subrange(from as int, c@.len() as int) =~= c@.skip(from as int));
    let u = substring_of(&c, from, c.len());
    assert(valid_utf8(bytes@) || text@ =~= Seq::<char>::empty());
    starts_with(&u, "//") || starts_with(&u, "/*") || starts_with(&u, "*")
}

/// Finds the comment block just above the 1-based line `decl`.
pub fn leading_comment_start(src: &[u8], decl: usize) -> (r: Option<(usize, usize)>)
    ensures
        match r {
            Some(p) => comment_start(src@, decl as int) == Some((p.0 as int, p.1 as int)),
            None => comment_start(src@, decl as int) is None,
        },
        r matches Some(p) ==> p.1 < decl,
{
    let present = if decl == 1 {
        true
    } else if decl > 1 {
        match find_line(src, decl as u64) {
            Some(i) => i < src.len(),
            None => false,
        }
    } else {
        false
    };
    if !present {
        return None;
    }
    let mut top: usize = decl;
    while top > 1 && is_comment_line(src, top - 1)
        invariant
            1 <= top <= decl,
            comment_run(src@, top - 1) == comment_run(src@, decl - 1),
        decreases top,
    {
        top -= 1;
    }
    assert(comment_run(src@, top - 1) == top);
    if top < decl {
        Some((line_start_of(src, top), top))
    } else {
        None
    }
}

// ---------------------------------------------------------------------------
// Resolving entities
// ---------------------------------------------------------------------------

/// What an entity is in the model.
pub open spec fn model_kind(kind: EntityKind, mode: Mode) -> Kind {
    match kind {
        EntityKind::FunctionDecl => Kind::Function,
        EntityKind::Method | EntityKind::Constructor | EntityKind::Destructor => Kind::Method,
        EntityKind::VarDecl => Kind::Variable,
        EntityKind::FieldDecl => Kind::Member,
        EntityKind::ClassDecl => Kind::Class,
        EntityKind::StructDecl => Kind::Struct,
        EntityKind::FunctionTemplate | EntityKind::ClassTemplate => Kind::Template,
        EntityKind::MacroDefinition => Kind::Macro,
        _ => match mode {
            Mode::Declaration => Kind::Function,
            Mode::Definition => Kind::Variable,
        },
    }
}

/// What an entity is in the model.
pub fn entity_kind_to_model_kind(kind: EntityKind, mode: Mode) -> (r: Kind)
    ensures
        r == model_kind(kind, mode),
{
    match kind {
        EntityKind::FunctionDecl => Kind::Function,
        EntityKind::Method | EntityKind::Constructor | EntityKind::Destructor => Kind::Method,
        EntityKind::VarDecl => Kind::Variable,
        EntityKind::FieldDecl => Kind::Member,
        EntityKind::ClassDecl => Kind::Class,
        EntityKind::StructDecl => Kind::Struct,
        EntityKind::FunctionTemplate | EntityKind::ClassTemplate => Kind::Template,
        EntityKind::MacroDefinition => Kind::Macro,
        _ => match mode {
            Mode::Declaration => Kind::Function,
            Mode::Definition => Kind::Variable,
        },
    }
}

/// Can the places of an entity be looked up in a file?
pub open spec fn places_fit(start: (usize, usize), end: (usize, usize), len: nat) -> bool {
    len + start.1 <= usize::MAX && len + end.1 <= usize::MAX
}

/// The resolution that an entity gives; `None` for a declaration where definitions
/// are asked for, or the other way round, and for an entity without a place in one
/// of the given files.
pub open spec fn entity_resolution(
    e: SemanticEntityView,
    mode: Mode,
    files: Seq<SourceFileView>,
) -> Option<ResolutionView> {
    match (e.file, e.start, e.end) {
        (Some(path), Some(start), Some(end)) => match contents(files, path) {
            Some(src) => {
                let from = byte_at(src, start.0 as int, start.1 as int);
                let to = byte_at(src, end.0 as int, end.1 as int);
                if e.is_definition == (mode == Mode::Definition) && places_fit(start, end, src.len())
                    && from is Some && to is Some && from->0 < to->0 <= src.len() {
                    let (first_byte, first_line) = match comment_start(src, start.0 as int) {
                        Some(p) => p,
                        None => (from->0, start.0 as int),
                    };
                    let declared = mode == Mode::Declaration;
                    Some(
                        ResolutionView {
                            symbol: SymbolView {
                                name: match e.name {
                                    Some(n) => n,
                                    None => Seq::empty(),
                                },
                                qualified_name: entity_qualified_name(e),
                                kind: model_kind(e.kind, mode),
                                signature: if declared { e.display_name } else { None },
                                type_spelling: if declared { e.type_spelling } else { None },
                                doc: e.comment,
                            },
                            source_ref: SourceRefView {
                                file_path: path,
                                span: Span {
                                    start_byte: first_byte as usize,
                                    end_byte: to->0 as usize,
                                    start_line: first_line as usize,
                                    end_line: end.0,
                                    start_col: (first_byte - line_start(src, first_line)) as usize,
                                    end_col: (to->0 - line_start(src, end.0 as int)) as usize,
                                },
                            },
                            content_bytes: src.subrange(first_byte, to->0),
                            engine: SEMANTIC_NAME@,
                            confidence: SEMANTIC_CONFIDENCE,
                            status: Status::Resolved,
                        },
                    )
                } else {
                    None
                }
            },
            None => None,
        },
        _ => None,
    }
}

/// A comment block above the line of an entity starts before the entity.
proof fn comment_precedes(src: Seq<u8>, line: int, col: int)
    requires
        byte_at(src, line, col) is Some,
        comment_start(src, line) is Some,
    ensures
        0 <= (comment_start(src, line)->0).0 <= byte_at(src, line, col)->0,
        0 <= (comment_start(src, line)->0).1 < line,
{
    let top = comment_run(src, line - 1);
    comment_run_bounds(src, line - 1);
    lines_ascend(src, top, line);
}

proof fn comment_run_bounds(src: Seq<u8>, line: int)
    requires
        0 <= line,
    ensures
        1 <= comment_run(src, line) <= line + 1,
    decreases line,
{
    if line >= 1 && comment_line(src, line) {
        comment_run_bounds(src, line - 1);
    }
}

fn try_resolve_entity(e: &SemanticEntity, mode: Mode, files: &[SourceFile]) -> (r: Option<Resolution>)
    ensures
        opt_view(r) == entity_resolution(e@, mode, views(files@)),
{
    if e.is_definition != (mode == Mode::Definition) {
        return None;
    }
    let path = match &e.file {
        Some(p) => p,
        None => return None,
    };
    let start = match e.start {
        Some(p) => p,
        None => return None,
    };
    let end = match e.end {
        Some(p) => p,
        None => return None,
    };
    let src = match read(files, path) {
        Some(src) => src,
        None => return None,
    };
    if src.len() > usize::MAX - start.1 || src.len() > usize::MAX - end.1 {
        return None;
    }
    let start_byte = match line_col_to_byte(src, start.0, start.1) {
        Some(i) => i,
        None => return None,
    };
    let end_byte = match line_col_to_byte(src, end.0, end.1) {
        Some(i) => i,
        None => return None,
    };
    if start_byte >= end_byte || end_byte > src.len() {
        return None;
    }
    let (first_byte, first_line) = match leading_comment_start(src, start.0) {
        Some(p) => {
            proof {
                comment_precedes(src@, start.0 as int, start.1 as int);
            }
            p
        },
        None => (start_byte, start.0),
    };
    let content_bytes = slice_to_vec(slice_subrange(src.as_slice(), first_byte, end_byte));
    let name = match &e.name {
        Some(n) => n.clone(),
        None => {
            let s = String::new();
            assert(s@ =~= Seq::empty());
            s
        },
    };
    let (signature, type_spelling) = if mode == Mode::Declaration {
        (clone_opt(&e.display_name), clone_opt(&e.type_spelling))
    } else {
        (None, None)
    };
    Some(
        Resolution {
            symbol: Symbol {
                name,
                qualified_name: build_qualified_name(e),
                kind: entity_kind_to_model_kind(e.kind, mode),
                signature,
                type_spelling,
                doc: clone_opt(&e.comment),
            },
            source_ref: SourceRef {
                file_path: path.clone(),
                span: Span {
                    start_byte: first_byte,
                    end_byte,
                    start_line: first_line,
                    end_line: end.0,
                    start_col: first_byte - line_start_of(src.as_slice(), first_line),
                    end_col: end_byte - line_start_of(src.as_slice(), end.0),
                },
            },
            content_bytes,
            engine: SEMANTIC_NAME.to_owned(),
            confidence: SEMANTIC_CONFIDENCE,
            status: Status::Resolved,
        },
    )
}

/// Does one of the resolutions start where `r` does?
pub open spec fn has_start(rs: Seq<ResolutionView>, r: ResolutionView) -> bool {
    exists|k: int|
        0 <= k < rs.len() && (#[trigger] rs[k]).source_ref.span.start_byte
            == r.source_ref.span.start_byte && same_path(
            rs[k].source_ref.file_path,
            r.source_ref.file_path,
        )
}

/// The resolutions of a target among the first `k` entities of a unit, at most one
/// for each place.
pub open spec fn unit_resolutions(
    entities: Seq<SemanticEntityView>,
    target: Seq<char>,
    mode: Mode,
    files: Seq<SourceFileView>,
    k: int,
) -> Seq<ResolutionView>
    decreases k,
{
    if k <= 0 {
        Seq::empty()
    } else {
        let before = unit_resolutions(entities, target, mode, files, k - 1);
        if answers_to(entities[k - 1], target) {
            match entity_resolution(entities[k - 1], mode, files) {
                Some(r) => if has_start(before, r) {
                    before
                } else {
                    before.push(r)
                },
                None => before,
            }
        } else {
            before
        }
    }
}

fn is_start_listed(rs: &Vec<Resolution>, r: &Resolution) -> (found: bool)
    ensures
        found == has_start(views(rs@), r@),
{
    let mut k: usize = 0;
    while k < rs.len()
        invariant
            k <= rs@.len(),
            forall|m: int|
                0 <= m < k ==> !((#[trigger] views(rs@)[m]).source_ref.span.start_byte
                    == r@.source_ref.span.start_byte && same_path(
                    views(rs@)[m].source_ref.file_path,
                    r@.source_ref.file_path,
                )),
        decreases rs@.len() - k,
    {
        assert(views(rs@)[k as int] == rs@[k as int]@);
        if rs[k].source_ref.span.start_byte == r.source_ref.span.start_byte && is_same_path(
            &rs[k].source_ref.file_path,
            &r.source_ref.file_path,
        ) {
            return true;
        }
        k += 1;
    }
    assert(views(rs@).len() == rs@.len());
    false
}

fn collect_matches(
    entities: &Vec<SemanticEntity>,
    target: &str,
    mode: Mode,
    files: &[SourceFile],
) -> (r: Vec<Resolution>)
    ensures
        views(r@) == unit_resolutions(
            views(entities@),
            target@,
            mode,
            views(files@),
            entities@.len() as int,
        ),
{
    let ghost es = views(entities@);
    let ghost fs = views(files@);
    let mut out: Vec<Resolution> = Vec::new();
    let mut k: usize = 0;
    assert(views(out@) =~= Seq::empty());
    while k < entities.len()
        invariant
            k <= entities@.len(),
            es == views(entities@),
            fs == views(files@),
            views(out@) == unit_resolutions(es, target@, mode, fs, k as int),
        decreases entities@.len() - k,
    {
        assert(es[k as int] == entities@[k as int]@);
        if is_answer(&entities[k], target) {
            if let Some(r) = try_resolve_entity(&entities[k], mode, files) {
                if !is_start_listed(&out, &r) {
                    let ghost before = views(out@);
                    out.push(r);
                    assert(views(out@) =~= before.push(r@));
                }
            }
        }
        k += 1;
    }
    out
}

// ---------------------------------------------------------------------------
// The engine
// ---------------------------------------------------------------------------

/// The semantic backend.
pub struct SemanticEngine {
    /// Path to the compilation database, or the directory that holds it.
    pub compile_db_path: String,
    /// The files that were parsed with it; none if it cannot be loaded.
    pub units: Vec<SemanticUnit>,
    /// The files that the entities are in.
    pub sources: Vec<SourceFile>,
}

/// The entities of the unit of a file, from unit `i` on; none if there is no such
/// unit.
pub open spec fn unit_entities(units: Seq<SemanticUnitView>, file: Seq<char>, i: int) -> Seq<
    SemanticEntityView,
>
    decreases units.len() - i,
{
    if i < 0 || i >= units.len() {
        Seq::empty()
    } else if units[i].file == file {
        units[i].entities
    } else {
        unit_entities(units, file, i + 1)
    }
}

/// The resolutions of a target in the first `k` of the given files.
pub open spec fn units_resolutions(
    units: Seq<SemanticUnitView>,
    paths: Seq<Seq<char>>,
    target: Seq<char>,
    mode: Mode,
    sources: Seq<SourceFileView>,
    k: int,
) -> Seq<ResolutionView>
    decreases k,
{
    if k <= 0 {
        Seq::empty()
    } else {
        let es = unit_entities(units, paths[k - 1], 0);
        units_resolutions(units, paths, target, mode, sources, k - 1) + unit_resolutions(
            es,
            target,
            mode,
            sources,
            es.len() as int,
        )
    }
}

impl SemanticEngine {
    /// An engine for the compilation database at `path`, with no file parsed yet.
    pub fn new(path: String) -> (r: SemanticEngine)
        ensures
            r.compile_db_path == path,
            r.units@.len() == 0,
            r.sources@.len() == 0,
    {
        SemanticEngine { compile_db_path: path, units: Vec::new(), sources: Vec::new() }
    }

    /// What the engine resolves: the matches in the distinct candidate files, in
    /// order of file and start byte.
    pub open spec fn resolved(
        &self,
        target: Seq<char>,
        candidates: Seq<CandidateView>,
        mode: Mode,
    ) -> Seq<ResolutionView> {
        let paths = crate::engine::syntactic::distinct_files(candidates, candidates.len() as int);
        in_order::<Resolution>(
            units_resolutions(
                views(self.units@),
                paths,
                target,
                mode,
                views(self.sources@),
                paths.len() as int,
            ),
        )
    }

    fn find_in_file(&self, path: &str, target: &str, mode: Mode) -> (r: Vec<Resolution>)
        ensures
            ({
                let es = unit_entities(views(self.units@), path@, 0);
                views(r@) == unit_resolutions(
                    es,
                    target@,
                    mode,
                    views(self.sources@),
                    es.len() as int,
                )
            }),
    {
        let ghost us = views(self.units@);
        let mut i: usize = 0;
        while i < self.units.len()
            invariant
                i <= self.units@.len(),
                us == views(self.units@),
                unit_entities(us, path@, i as int) == unit_entities(us, path@, 0),
            decreases self.units@.len() - i,
        {
            assert(us[i as int] == self.units@[i as int]@);
            if same_str(&self.units[i].file, path) {
                return collect_matches(&self.units[i].entities, target, mode, &self.sources);
            }
            i += 1;
        }
        let out: Vec<Resolution> = Vec::new();
        assert(views(out@) =~= Seq::empty());
        out
    }

    fn resolve(&self, target: &str, candidates: &[Candidate], mode: Mode) -> (r: Vec<Resolution>)
        ensures
            views(r@) == self.resolved(target@, views(candidates@), mode),
    {
        let paths = crate::engine::syntactic::distinct_files_of(candidates);
        let ghost ps = views(paths@);
        let ghost us = views(self.units@);
        let ghost ss = views(self.sources@);
        let mut found: Vec<Resolution> = Vec::new();
        let mut k: usize = 0;
        assert(views(found@) =~= Seq::empty());
        while k < paths.len()
            invariant
                k <= paths@.len(),
                views(paths@) == ps,
                us == views(self.units@),
                ss == views(self.sources@),
                views(found@) == units_resolutions(us, ps, target@, mode, ss, k as int),
            decreases paths@.len() - k,
        {
            assert(ps[k as int] == paths@[k as int]@);
            let ghost before = views(found@);
            let mut more = self.find_in_file(&paths[k], target, mode);
            let ghost added = views(more@);
            found.append(&mut more);
            assert(views(found@) =~= before + added);
            k += 1;
        }
        assert(ps.len() == paths@.len());
        sort_by_place(&mut found);
        found
    }
}

/// An engine that blanks no macros.
pub open spec fn no_macros() -> Macros {
    Macros { global: Set::empty(), annotation: Set::empty() }
}

impl Engine for SemanticEngine {
    open spec fn name_spec(&self) -> Seq<char> {
        SEMANTIC_NAME@
    }

    open spec fn definitions_spec(
        &self,
        target: Seq<char>,
        candidates: Seq<CandidateView>,
        files: Seq<SourceFileView>,
    ) -> Seq<ResolutionView> {
        self.resolved(target, candidates, Mode::Definition)
    }

    open spec fn declarations_spec(
        &self,
        target: Seq<char>,
        candidates: Seq<CandidateView>,
        files: Seq<SourceFileView>,
    ) -> Seq<ResolutionView> {
        self.resolved(target, candidates, Mode::Declaration)
    }

    open spec fn scope_spec(
        &self,
        file: Seq<char>,
        byte_offset: usize,
        files: Seq<SourceFileView>,
    ) -> Option<Span> {
        no_macros().function_at(file, byte_offset, files)
    }

    open spec fn class_scope_spec(
        &self,
        file: Seq<char>,
        byte_offset: usize,
        files: Seq<SourceFileView>,
    ) -> Option<Span> {
        no_macros().class_at(file, byte_offset, files)
    }

    open spec fn references_spec(
        &self,
        target: Seq<char>,
        candidates: Seq<CandidateView>,
        files: Seq<SourceFileView>,
    ) -> Seq<CandidateView> {
        candidates
    }

    fn name(&self) -> (r: &str) {
        SEMANTIC_NAME
    }

    fn definitions(&self, target: &str, candidates: &[Candidate], files: &[SourceFile]) -> (r: Vec<
        Resolution,
    >) {
        self.resolve(target, candidates, Mode::Definition)
    }

    fn declarations(&self, target: &str, candidates: &[Candidate], files: &[SourceFile]) -> (r: Vec<
        Resolution,
    >) {
        self.resolve(target, candidates, Mode::Declaration)
    }

    fn enclosing_scope(&self, file: &str, byte_offset: usize, files: &[SourceFile]) -> (r: Option<
        Span,
    >) {
        SyntacticEngine::new().enclosing_scope(file, byte_offset, files)
    }

    fn enclosing_class_scope(&self, file: &str, byte_offset: usize, files: &[SourceFile]) -> (r:
        Option<Span>) {
        SyntacticEngine::new().enclosing_class_scope(file, byte_offset, files)
    }

    fn filter_references(&self, target: &str, candidates: &[Candidate], files: &[SourceFile]) -> (r:
        Vec<Candidate>) {
        copy_candidates(candidates)
    }
}

// ---------------------------------------------------------------------------
// What every resolution satisfies
// ---------------------------------------------------------------------------

/// Does the span of a resolution lie in its file, with its content, and do its lines
/// and columns name the same bytes as its offsets?
pub open spec fn well_placed(r: ResolutionView, files: Seq<SourceFileView>) -> bool {
    let span = r.source_ref.span;
    verbatim(r, files) && (contents(files, r.source_ref.file_path) matches Some(src) ==> {
        &&& span.start_byte == line_start(src, span.start_line as int) + span.start_col
        &&& span.end_byte == line_start(src, span.end_line as int) + span.end_col
    })
}

proof fn entity_resolution_is_well_placed(
    e: SemanticEntityView,
    mode: Mode,
    files: Seq<SourceFileView>,
)
    requires
        forall|k: int| 0 <= k < files.len() ==> (#[trigger] files[k]).bytes.len() <= usize::MAX,
    ensures
        entity_resolution(e, mode, files) matches Some(r) ==> well_placed(r, files),
{
    if entity_resolution(e, mode, files) is Some {
        let path = e.file->0;
        let src = contents(files, path)->0;
        let (line, col) = e.start->0;
        contents_come_from_files(files, path, 0);
        if comment_start(src, line as int) is Some {
            comment_precedes(src, line as int, col as int);
        } else {
            lines_ascend(src, line as int, line as int);
        }
        lines_ascend(src, (e.end->0).0 as int, (e.end->0).0 as int);
    }
}

proof fn contents_come_from_files(files: Seq<SourceFileView>, path: Seq<char>, i: int)
    requires
        0 <= i,
        crate::sources::contents_from(files, path, i) is Some,
    ensures
        exists|k: int|
            0 <= k < files.len() && (#[trigger] files[k]).bytes
                == crate::sources::contents_from(files, path, i)->0,
    decreases files.len() - i,
{
    if !same_path(files[i].path, path) {
        contents_come_from_files(files, path, i + 1);
    } else {
        assert(files[i].bytes == crate::sources::contents_from(files, path, i)->0);
    }
}

proof fn unit_resolutions_are_well_placed(
    entities: Seq<SemanticEntityView>,
    target: Seq<char>,
    mode: Mode,
    files: Seq<SourceFileView>,
    k: int,
)
    requires
        forall|j: int| 0 <= j < files.len() ==> (#[trigger] files[j]).bytes.len() <= usize::MAX,
    ensures
        forall|m: int|
            0 <= m < unit_resolutions(entities, target, mode, files, k).len() ==> well_placed(
                #[trigger] unit_resolutions(entities, target, mode, files, k)[m],
                files,
            ),
    decreases k,
{
    if k > 0 {
        unit_resolutions_are_well_placed(entities, target, mode, files, k - 1);
        entity_resolution_is_well_placed(entities[k - 1], mode, files);
        let before = unit_resolutions(entities, target, mode, files, k - 1);
        let all = unit_resolutions(entities, target, mode, files, k);
        assert forall|m: int| 0 <= m < all.len() implies well_placed(#[trigger] all[m], files) by {
            if m < before.len() {
                assert(all[m] == before[m]);
            }
        }
    }
}

proof fn units_resolutions_are_well_placed(
    units: Seq<SemanticUnitView>,
    paths: Seq<Seq<char>>,
    target: Seq<char>,
    mode: Mode,
    files: Seq<SourceFileView>,
    k: int,
)
    requires
        forall|j: int| 0 <= j < files.len() ==> (#[trigger] files[j]).bytes.len() <= usize::MAX,
    ensures
        forall|m: int|
            0 <= m < units_resolutions(units, paths, target, mode, files, k).len() ==> well_placed(
                #[trigger] units_resolutions(units, paths, target, mode, files, k)[m],
                files,
            ),
    decreases k,
{
    if k > 0 {
        units_resolutions_are_well_placed(units, paths, target, mode, files, k - 1);
        let es = unit_entities(units, paths[k - 1], 0);
        unit_resolutions_are_well_placed(es, target, mode, files, es.len() as int);
        let before = units_resolutions(units, paths, target, mode, files, k - 1);
        let more = unit_resolutions(es, target, mode, files, es.len() as int);
        let all = units_resolutions(units, paths, target, mode, files, k);
        assert forall|m: int| 0 <= m < all.len() implies well_placed(#[trigger] all[m], files) by {
            if m < before.len() {
                assert(all[m] == before[m]);
            } else {
                assert(all[m] == more[m - before.len()]);
            }
        }
    }
}

/// Every semantic resolution carries, byte for byte, what its span covers in its
/// file, the lines and columns of the span name the bytes that its offsets name, and
/// resolutions come in order of file and start byte.
pub proof fn semantic_resolutions_are_verbatim_and_ordered(
    engine: SemanticEngine,
    target: Seq<char>,
    candidates: Seq<CandidateView>,
    mode: Mode,
)
    ensures
        forall|m: int|
            0 <= m < engine.resolved(target, candidates, mode).len() ==> well_placed(
                #[trigger] engine.resolved(target, candidates, mode)[m],
                views(engine.sources@),
            ),
        ordered::<Resolution>(engine.resolved(target, candidates, mode)),
{
    let files = views(engine.sources@);
    assert forall|k: int| 0 <= k < files.len() implies (#[trigger] files[k]).bytes.len()
        <= usize::MAX by {
        let bytes = engine.sources@[k].bytes;
        assert(bytes.len() == bytes@.len());
    }
    let paths = crate::engine::syntactic::distinct_files(candidates, candidates.len() as int);
    let found = units_resolutions(
        views(engine.units@),
        paths,
        target,
        mode,
        files,
        paths.len() as int,
    );
    let all = engine.resolved(target, candidates, mode);
    units_resolutions_are_well_placed(
        views(engine.units@),
        paths,
        target,
        mode,
        files,
        paths.len() as int,
    );
    in_order_sorts::<Resolution>(found);
    assert forall|m: int| 0 <= m < all.len() implies well_placed(#[trigger] all[m], files) by {
        assert(all.contains(all[m]));
        vstd::seq_lib::to_multiset_contains(all, all[m]);
        vstd::seq_lib::to_multiset_contains(found, all[m]);
        let j = choose|j: int| 0 <= j < found.len() && found[j] == all[m];
        assert(well_placed(found[j], files));
    }
}

/// The line numbers in the span of a semantic resolution count the newlines before
/// its start and before its end, for an entity whose columns lie on their lines.
pub proof fn semantic_lines_count_newlines(
    e: SemanticEntityView,
    mode: Mode,
    files: Seq<SourceFileView>,
)
    requires
        forall|k: int| 0 <= k < files.len() ==> (#[trigger] files[k]).bytes.len() <= usize::MAX,
        entity_resolution(e, mode, files) is Some,
    ensures
        ({
            let src = contents(files, e.file->0)->0;
            let span = (entity_resolution(e, mode, files)->0).source_ref.span;
            &&& on_its_line(src, e.start->0) ==> span.start_line == 1 + newlines(
                src.take(span.start_byte as int),
            )
            &&& on_its_line(src, e.end->0) ==> span.end_line == 1 + newlines(
                src.take(span.end_byte as int),
            )
        }),
{
    let src = contents(files, e.file->0)->0;
    let (line, col) = e.start->0;
    let (end_line, end_col) = e.end->0;
    contents_come_from_files(files, e.file->0, 0);
    lines_ascend(src, line as int, line as int);
    lines_ascend(src, end_line as int, end_line as int);
    if comment_start(src, line as int) is Some {
        let top = comment_run(src, line - 1);
        comment_precedes(src, line as int, col as int);
        comment_run_bounds(src, line - 1);
        lines_ascend(src, top, top);
        earlier_line_exists(src, 1, 0, top, line as int);
        next_of_bounds(src, NEWLINE, line_start(src, top));
        line_numbers_count_newlines(src, top, line_start(src, top));
    } else if on_its_line(src, e.start->0) {
        line_numbers_count_newlines(src, line as int, byte_at(src, line as int, col as int)->0);
    }
    if on_its_line(src, e.end->0) {
        line_numbers_count_newlines(
            src,
            end_line as int,
            byte_at(src, end_line as int, end_col as int)->0,
        );
    }
}

/// Does a place lie on its own line, the newline at its end counted?
pub open spec fn on_its_line(src: Seq<u8>, place: (usize, usize)) -> bool {
    byte_at(src, place.0 as int, place.1 as int) matches Some(i) && i <= next_of(
        src,
        NEWLINE,
        line_start(src, place.0 as int),
    )
}

proof fn earlier_line_exists(src: Seq<u8>, at: int, from: int, a: int, b: int)
    requires
        a <= b,
        line_at(src, at, from, b) is Some,
    ensures
        line_at(src, at, from, a) is Some,
    decreases b - at,
{
    if at < a {
        let end = next_of(src, NEWLINE, from);
        earlier_line_exists(src, at + 1, end + 1, a, b);
    }
}

} // verus!
