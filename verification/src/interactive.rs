//! The interactive browser: the hits of a run as a collapsible tree of folders,
//! files and lines.

use crate::text::{concat3, join, joined, views};
use vstd::prelude::*;
use vstd::string::*;

pub mod browser;
pub mod census;
pub mod editor;
pub mod fold;
pub mod hits;
pub mod ide;
pub mod keys;
pub mod tree;

verus! {

/// The title of the browser.
pub open spec fn title_text(command: Seq<char>, targets: Seq<Seq<char>>) -> Seq<char> {
    "cpp-navigator "@ + command + " "@ + joined(targets, " "@)
}

/// The title of the browser.
pub fn title(command: &str, targets: &[String]) -> (r: String)
    ensures
        r@ == title_text(command@, views(targets@)),
{
    let mut t = concat3("cpp-navigator ", command, " ");
    t.append(&join(targets, " "));
    t
}

/// What is said when there is nothing to browse.
pub open spec fn no_results_text(command: Seq<char>, targets: Seq<Seq<char>>) -> Seq<char> {
    "cpp-navigator: no results for "@ + command + " "@ + joined(targets, " "@)
}

/// What is said when there is nothing to browse.
pub fn no_results(command: &str, targets: &[String]) -> (r: String)
    ensures
        r@ == no_results_text(command@, views(targets@)),
{
    let mut t = concat3("cpp-navigator: no results for ", command, " ");
    t.append(&join(targets, " "));
    t
}

} // verus!
