//! Internal data model.
//!
//! These are the engine-internal types. They are distinct from the wire types in
//! [`crate::output`], so that the two can evolve independently.

use crate::text::{clone_opt, opt_view};
use vstd::prelude::*;

verus! {

/// Byte- and line-accurate span within a single file.
///
/// `start_byte..end_byte` is the authoritative slice; lines and columns are
/// derived conveniences.
#[derive(Clone, Copy, Debug, PartialEq, Eq, Structural)]
pub struct Span {
    pub start_byte: usize,
    pub end_byte: usize,
    /// 1-based line of `start_byte`.
    pub start_line: usize,
    /// 1-based line of `end_byte`.
    pub end_line: usize,
    /// 0-based byte column within `start_line`.
    pub start_col: usize,
    /// 0-based byte column within `end_line`.
    pub end_col: usize,
}

/// A span anchored to a concrete file.
#[derive(Debug)]
pub struct SourceRef {
    pub file_path: String,
    pub span: Span,
}

/// What kind of construct a resolution refers to.
#[derive(Clone, Copy, Debug, PartialEq, Eq, Structural)]
pub enum Kind {
    Function,
    Variable,
    Template,
    Class,
    Struct,
    Method,
    Member,
    Macro,
}

/// A resolved C++ symbol and its optional declaration metadata.
#[derive(Debug)]
pub struct Symbol {
    pub name: String,
    pub qualified_name: Option<String>,
    pub kind: Kind,
    /// Declaration signature.
    pub signature: Option<String>,
    /// Type spelling, e.g. `void(size_t)`.
    pub type_spelling: Option<String>,
    /// Adjacent leading comment block.
    pub doc: Option<String>,
}

/// Outcome class for a query.
#[derive(Clone, Copy, Debug, PartialEq, Eq, Structural)]
pub enum Status {
    Resolved,
    Ambiguous,
    Fallback,
    NotFound,
}

/// A single resolved result of an [`crate::engine::Engine`].
#[derive(Debug)]
pub struct Resolution {
    pub symbol: Symbol,
    pub source_ref: SourceRef,
    /// Verbatim bytes `file[start_byte..end_byte]`. Never normalized.
    pub content_bytes: Vec<u8>,
    /// Engine that produced this result, e.g. `"tree-sitter"`.
    pub engine: String,
    /// Confidence in percent; semantic results rank above syntactic ones.
    pub confidence: u8,
    pub status: Status,
}

/// The mathematical value of a [`SourceRef`].
pub struct SourceRefView {
    pub file_path: Seq<char>,
    pub span: Span,
}

/// The mathematical value of a [`Symbol`].
pub struct SymbolView {
    pub name: Seq<char>,
    pub qualified_name: Option<Seq<char>>,
    pub kind: Kind,
    pub signature: Option<Seq<char>>,
    pub type_spelling: Option<Seq<char>>,
    pub doc: Option<Seq<char>>,
}

/// The mathematical value of a [`Resolution`].
pub struct ResolutionView {
    pub symbol: SymbolView,
    pub source_ref: SourceRefView,
    pub content_bytes: Seq<u8>,
    pub engine: Seq<char>,
    pub confidence: u8,
    pub status: Status,
}

impl View for SourceRef {
    type V = SourceRefView;

    open spec fn view(&self) -> SourceRefView {
        SourceRefView { file_path: self.file_path@, span: self.span }
    }
}

impl View for Symbol {
    type V = SymbolView;

    open spec fn view(&self) -> SymbolView {
        SymbolView {
            name: self.name@,
            qualified_name: opt_view(self.qualified_name),
            kind: self.kind,
            signature: opt_view(self.signature),
            type_spelling: opt_view(self.type_spelling),
            doc: opt_view(self.doc),
        }
    }
}

impl View for Resolution {
    type V = ResolutionView;

    open spec fn view(&self) -> ResolutionView {
        ResolutionView {
            symbol: self.symbol@,
            source_ref: self.source_ref@,
            content_bytes: self.content_bytes@,
            engine: self.engine@,
            confidence: self.confidence,
            status: self.status,
        }
    }
}

impl Clone for SourceRef {
    fn clone(&self) -> (r: SourceRef)
        ensures
            r@ == self@,
    {
        SourceRef { file_path: self.file_path.clone(), span: self.span }
    }
}

impl Clone for Symbol {
    fn clone(&self) -> (r: Symbol)
        ensures
            r@ == self@,
    {
        Symbol {
            name: self.name.clone(),
            qualified_name: clone_opt(&self.qualified_name),
            kind: self.kind,
            signature: clone_opt(&self.signature),
            type_spelling: clone_opt(&self.type_spelling),
            doc: clone_opt(&self.doc),
        }
    }
}

impl Clone for Resolution {
    fn clone(&self) -> (r: Resolution)
        ensures
            r@ == self@,
    {
        Resolution {
            symbol: self.symbol.clone(),
            source_ref: self.source_ref.clone(),
            content_bytes: vstd::slice::slice_to_vec(&self.content_bytes),
            engine: self.engine.clone(),
            confidence: self.confidence,
            status: self.status,
        }
    }
}

} // verus!
