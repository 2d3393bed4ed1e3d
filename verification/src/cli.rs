//! The options of a run.

use crate::text::views;
use vstd::prelude::*;

verus! {

/// Output presentation profile.
#[derive(Clone, Copy, Debug, PartialEq, Eq, Structural)]
pub enum Format {
    /// One JSON object per line.
    Jsonl,
    /// A single fenced block to paste into a chat.
    Bundle,
    /// Human-readable text for terminal use.
    Human,
}

/// Optional heavy fields for machine-readable output.
#[derive(Clone, Copy, Debug, PartialEq, Eq, Structural)]
pub enum IncludeField {
    /// The raw source text of a declaration.
    Content,
    /// Byte offsets for exact re-slicing.
    Offsets,
    /// The normalized type spelling.
    Type,
}

/// The three query commands.
#[derive(Debug)]
pub enum Command {
    /// Find the definitions of the named symbols; with `scope`, those of the class
    /// around a class member.
    FindDef { name: Vec<String>, scope: bool },
    /// Find the declarations of the named symbols.
    FindDecl { name: Vec<String> },
    /// Find references to the named symbols; with `context`, the function or
    /// template around each.
    FindRefs { name: Vec<String>, context: bool },
}

/// Everything that was asked for on the command line.
#[derive(Debug)]
pub struct Cli {
    pub command: Command,
    /// Search roots.
    pub root: Vec<String>,
    /// Use the semantic backend.
    pub semantic: bool,
    /// Explicit path to the compilation database.
    pub compile_db: Option<String>,
    /// The extensions to search; none means the default ones.
    pub lang: Vec<String>,
    /// Cap on candidate files.
    pub max_candidates: usize,
    /// Cap on the matches that are shown in full.
    pub max_results: usize,
    /// Fallback context window in lines.
    pub window: usize,
    /// Threads.
    pub jobs: Option<usize>,
    /// Do not honor ignore files.
    pub no_ignore: bool,
    pub format: Format,
    /// In bundle mode, prepend a field legend.
    pub legend: bool,
    /// Heavy fields to keep.
    pub include_fields: Vec<IncludeField>,
    /// A file with further targets.
    pub manifest: Option<String>,
    /// Cap on estimated output tokens.
    pub budget: Option<usize>,
    /// Macros to blank everywhere.
    pub empty_macro: Vec<String>,
    /// Suppress diagnostics.
    pub quiet: bool,
    /// Browse the results instead of printing them.
    pub interactive: bool,
    /// Editor to spawn from the browser.
    pub editor: Option<String>,
    /// Template of the arguments that open a line in the editor.
    pub editor_template: Option<String>,
}

/// The names that a command was given.
pub open spec fn names_of(c: Command) -> Seq<Seq<char>> {
    match c {
        Command::FindDef { name, .. } => views(name@),
        Command::FindDecl { name } => views(name@),
        Command::FindRefs { name, .. } => views(name@),
    }
}

} // verus!
