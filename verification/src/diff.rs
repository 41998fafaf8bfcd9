//! The differences that the comparison reports, and the way they are handed on.

use crate::path::{copy_bytes, RelativePath};
use vstd::prelude::*;

verus! {

/// One difference between the two trees: the directory it was found in,
/// relative to the roots, and the name of the entry.
#[derive(Debug)]
pub enum Diff {
    InDir1Only(RelativePath, Vec<u8>),
    InDir2Only(RelativePath, Vec<u8>),
    Different(RelativePath, Vec<u8>),
    SameButDifferentMTime(RelativePath, Vec<u8>),
}

/// What a difference is, as a mathematical value.
pub enum DiffView {
    InDir1Only(Seq<Seq<u8>>, Seq<u8>),
    InDir2Only(Seq<Seq<u8>>, Seq<u8>),
    Different(Seq<Seq<u8>>, Seq<u8>),
    SameButDifferentMTime(Seq<Seq<u8>>, Seq<u8>),
}

impl View for Diff {
    type V = DiffView;

    open spec fn view(&self) -> DiffView {
        match self {
            Diff::InDir1Only(dir, name) => DiffView::InDir1Only(dir@, name@),
            Diff::InDir2Only(dir, name) => DiffView::InDir2Only(dir@, name@),
            Diff::Different(dir, name) => DiffView::Different(dir@, name@),
            Diff::SameButDifferentMTime(dir, name) => DiffView::SameButDifferentMTime(
                dir@,
                name@,
            ),
        }
    }
}

impl DiffView {
    /// The directory in which the difference was found.
    pub open spec fn dir(self) -> Seq<Seq<u8>> {
        match self {
            DiffView::InDir1Only(dir, _) => dir,
            DiffView::InDir2Only(dir, _) => dir,
            DiffView::Different(dir, _) => dir,
            DiffView::SameButDifferentMTime(dir, _) => dir,
        }
    }

    /// The name of the entry that differs.
    pub open spec fn name(self) -> Seq<u8> {
        match self {
            DiffView::InDir1Only(_, name) => name,
            DiffView::InDir2Only(_, name) => name,
            DiffView::Different(_, name) => name,
            DiffView::SameButDifferentMTime(_, name) => name,
        }
    }

    /// The path of the entry that differs, relative to the roots.
    pub open spec fn path(self) -> Seq<Seq<u8>> {
        self.dir().push(self.name())
    }

    /// The difference as it reads with the two trees exchanged.
    pub open spec fn mirrored(self) -> DiffView {
        match self {
            DiffView::InDir1Only(dir, name) => DiffView::InDir2Only(dir, name),
            DiffView::InDir2Only(dir, name) => DiffView::InDir1Only(dir, name),
            other => other,
        }
    }

    /// The words that tell a reader what kind of difference it is.
    pub open spec fn label(self) -> Seq<char> {
        match self {
            DiffView::Different(_, _) => "Files differ"@,
            DiffView::InDir1Only(_, _) => "Present in first dir. only"@,
            DiffView::InDir2Only(_, _) => "Present in second dir. only"@,
            DiffView::SameButDifferentMTime(_, _) => "Differ by mtime only"@,
        }
    }
}

impl Clone for Diff {
    fn clone(&self) -> (copy: Self)
        ensures
            copy@ == self@,
    {
        match self {
            Diff::InDir1Only(dir, name) => Diff::InDir1Only(
                dir.clone(),
                copy_bytes(name.as_slice()),
            ),
            Diff::InDir2Only(dir, name) => Diff::InDir2Only(
                dir.clone(),
                copy_bytes(name.as_slice()),
            ),
            Diff::Different(dir, name) => Diff::Different(dir.clone(), copy_bytes(name.as_slice())),
            Diff::SameButDifferentMTime(dir, name) => Diff::SameButDifferentMTime(
                dir.clone(),
                copy_bytes(name.as_slice()),
            ),
        }
    }
}

/// Receives the differences as they are found. One handler serves all the
/// workers, which call it from their own threads.
pub trait DiffHandler {
    /// Takes note of one difference between the trees below `root1` and
    /// `root2`.
    fn process(&self, root1: &[u8], root2: &[u8], diff: Diff);
}

/// Tells what to write for a difference so that the output can be searched
/// line by line: a label for the kind of difference, and the path of the
/// entry.
#[derive(Debug, Clone, Copy)]
pub struct GrepableHandler;

impl GrepableHandler {
    /// Makes the handler, which has nothing to set up.
    pub fn new() -> Self {
        Self
    }

    /// The label and the path that make the line for `diff`.
    pub fn describe(&self, diff: Diff) -> (line: (&'static str, RelativePath))
        ensures
            line.0@ == diff@.label(),
            line.1@ == diff@.path(),
    {
        let (diff_type, mut p, file) = match diff {
            Diff::Different(dir, file) => ("Files differ", dir, file),
            Diff::InDir1Only(dir, file) => ("Present in first dir. only", dir, file),
            Diff::InDir2Only(dir, file) => ("Present in second dir. only", dir, file),
            Diff::SameButDifferentMTime(dir, file) => ("Differ by mtime only", dir, file),
        };
        p.push(file);
        (diff_type, p)
    }
}

} // verus!
