//! Source files held in memory.

use crate::paths::{is_same_path, same_path};
use crate::text::views;
use vstd::prelude::*;

verus! {

/// A file that was read: its path and its bytes.
pub struct SourceFile {
    pub path: String,
    pub bytes: Vec<u8>,
}

/// The mathematical value of a [`SourceFile`].
pub struct SourceFileView {
    pub path: Seq<char>,
    pub bytes: Seq<u8>,
}

impl View for SourceFile {
    type V = SourceFileView;

    open spec fn view(&self) -> SourceFileView {
        SourceFileView { path: self.path@, bytes: self.bytes@ }
    }
}

/// The bytes of the first file of `files[i..]` with the given path, however that is
/// written.
pub open spec fn contents_from(files: Seq<SourceFileView>, path: Seq<char>, i: int) -> Option<
    Seq<u8>,
>
    decreases files.len() - i,
{
    if i < 0 || i >= files.len() {
        None
    } else if same_path(files[i].path, path) {
        Some(files[i].bytes)
    } else {
        contents_from(files, path, i + 1)
    }
}

/// The bytes of the file with the given path; `None` if there is no such file.
pub open spec fn contents(files: Seq<SourceFileView>, path: Seq<char>) -> Option<Seq<u8>> {
    contents_from(files, path, 0)
}

/// The bytes of the file with the given path.
pub fn read<'a>(files: &'a [SourceFile], path: &str) -> (r: Option<&'a Vec<u8>>)
    ensures
        match r {
            Some(b) => contents(views(files@), path@) == Some(b@),
            None => contents(views(files@), path@) is None,
        },
{
    let ghost all = views(files@);
    let mut i: usize = 0;
    while i < files.len()
        invariant
            i <= files@.len(),
            all == views(files@),
            contents_from(all, path@, i as int) == contents_from(all, path@, 0),
        decreases files@.len() - i,
    {
        assert(all[i as int] == files@[i as int]@);
        if is_same_path(&files[i].path, path) {
            return Some(&files[i].bytes);
        }
        i += 1;
    }
    None
}

proof fn same_path_same_contents_from(
    files: Seq<SourceFileView>,
    p: Seq<char>,
    q: Seq<char>,
    i: int,
)
    requires
        same_path(p, q),
    ensures
        contents_from(files, p, i) == contents_from(files, q, i),
    decreases files.len() - i,
{
    if 0 <= i < files.len() {
        same_path_same_contents_from(files, p, q, i + 1);
    }
}

/// Two ways to write a path name one file.
pub proof fn same_path_same_contents(files: Seq<SourceFileView>, p: Seq<char>, q: Seq<char>)
    requires
        same_path(p, q),
    ensures
        contents(files, p) == contents(files, q),
{
    same_path_same_contents_from(files, p, q, 0);
}

} // verus!
