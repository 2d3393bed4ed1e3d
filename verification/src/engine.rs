//! Resolution backends.
//!
//! [`SyntacticEngine`] reads syntax trees and needs no build setup;
//! [`SemanticEngine`] reads what a compiler front end has resolved. Both implement
//! [`Engine`], against which the query pipeline is written.

use crate::model::{Resolution, ResolutionView, Span};
use crate::search::{Candidate, CandidateView};
use crate::sources::{SourceFile, SourceFileView};
use crate::text::views;
use vstd::prelude::*;

pub mod macros;
pub mod outline;
pub mod semantic;
pub mod syntactic;
pub mod syntax;

pub use semantic::SemanticEngine;
pub use syntactic::SyntacticEngine;

use syntactic::is_around;

verus! {

/// Common interface over the syntactic and semantic backends. Every method works
/// on the given files and on nothing else.
pub trait Engine {
    /// The name of the backend.
    spec fn name_spec(&self) -> Seq<char>;

    /// The definitions of `target` among the files of the candidates.
    spec fn definitions_spec(
        &self,
        target: Seq<char>,
        candidates: Seq<CandidateView>,
        files: Seq<SourceFileView>,
    ) -> Seq<ResolutionView>;

    /// The declarations of `target` among the files of the candidates.
    spec fn declarations_spec(
        &self,
        target: Seq<char>,
        candidates: Seq<CandidateView>,
        files: Seq<SourceFileView>,
    ) -> Seq<ResolutionView>;

    /// The function or template around a byte offset.
    spec fn scope_spec(
        &self,
        file: Seq<char>,
        byte_offset: usize,
        files: Seq<SourceFileView>,
    ) -> Option<Span>;

    /// The class or struct around a byte offset.
    spec fn class_scope_spec(
        &self,
        file: Seq<char>,
        byte_offset: usize,
        files: Seq<SourceFileView>,
    ) -> Option<Span>;

    /// The candidates that are not proved to belong to another scope than a
    /// qualified `target`.
    spec fn references_spec(
        &self,
        target: Seq<char>,
        candidates: Seq<CandidateView>,
        files: Seq<SourceFileView>,
    ) -> Seq<CandidateView>;

    /// The name of the backend, e.g. `"tree-sitter"` or `"libclang"`.
    fn name(&self) -> (r: &str)
        ensures
            r@ == self.name_spec(),
    ;

    /// Resolves definitions (with a body or an initializer) named `target` among
    /// the files of the candidates.
    fn definitions(&self, target: &str, candidates: &[Candidate], files: &[SourceFile]) -> (r: Vec<
        Resolution,
    >)
        ensures
            views(r@) == self.definitions_spec(target@, views(candidates@), views(files@)),
    ;

    /// Resolves declarations (signature, no body) named `target`.
    fn declarations(&self, target: &str, candidates: &[Candidate], files: &[SourceFile]) -> (r: Vec<
        Resolution,
    >)
        ensures
            views(r@) == self.declarations_spec(target@, views(candidates@), views(files@)),
    ;

    /// Finds the function or template around a byte offset. Offsets are counted in 32
    /// bits.
    fn enclosing_scope(&self, file: &str, byte_offset: usize, files: &[SourceFile]) -> (r: Option<
        Span,
    >)
        ensures
            r == self.scope_spec(file@, byte_offset, views(files@)),
            r matches Some(span) ==> byte_offset <= u32::MAX ==> is_around(span, byte_offset),
    ;

    /// Finds the class or struct, with its template prefix, around a byte offset.
    /// `None` when the offset is not lexically inside one.
    fn enclosing_class_scope(&self, file: &str, byte_offset: usize, files: &[SourceFile]) -> (r:
        Option<Span>)
        ensures
            r == self.class_scope_spec(file@, byte_offset, views(files@)),
            r matches Some(span) ==> byte_offset <= u32::MAX ==> is_around(span, byte_offset),
    ;

    /// Prunes the hits that provably belong to a different scope than a qualified
    /// `target`. Whatever cannot be placed is kept.
    fn filter_references(&self, target: &str, candidates: &[Candidate], files: &[SourceFile]) -> (r:
        Vec<Candidate>)
        ensures
            views(r@) == self.references_spec(target@, views(candidates@), views(files@)),
    ;
}

} // verus!
