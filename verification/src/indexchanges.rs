use crate::indexfile::IndexFile;
use crate::text::views_of;
use vstd::prelude::*;

verus! {

/// One structural mutation the diff engine discovered; paths are relative
/// component paths.
#[derive(Debug, PartialEq, Eq)]
pub enum IndexChange {
    /// Ensure a directory with this path exists: whether it is new to the
    /// index, and the add-bytes of its subtree.
    AddDir(Vec<Vec<u8>>, bool, u64),
    /// Add or update a file's record.
    AddFile(Vec<Vec<u8>>, IndexFile),
    /// Make the path a symlink pointing at the second path.
    AddSymlink(Vec<Vec<u8>>, Vec<u8>),
    /// Remove a file or symlink.
    RemoveFile(Vec<Vec<u8>>),
    /// Remove a directory with everything under it.
    RemoveDir(Vec<Vec<u8>>),
}

/// The mathematical shape of one change.
pub ghost enum ChangeV {
    AddDir(Seq<Seq<u8>>, bool, u64),
    AddFile(Seq<Seq<u8>>, IndexFile),
    AddSymlink(Seq<Seq<u8>>, Seq<u8>),
    RemoveFile(Seq<Seq<u8>>),
    RemoveDir(Seq<Seq<u8>>),
}

impl View for IndexChange {
    type V = ChangeV;

    open spec fn view(&self) -> ChangeV {
        match self {
            IndexChange::AddDir(p, n, s) => ChangeV::AddDir(views_of(p@), *n, *s),
            IndexChange::AddFile(p, f) => ChangeV::AddFile(views_of(p@), *f),
            IndexChange::AddSymlink(p, t) => ChangeV::AddSymlink(views_of(p@), t@),
            IndexChange::RemoveFile(p) => ChangeV::RemoveFile(views_of(p@)),
            IndexChange::RemoveDir(p) => ChangeV::RemoveDir(views_of(p@)),
        }
    }
}

/// The views of a list of changes.
pub open spec fn change_views(s: Seq<IndexChange>) -> Seq<ChangeV> {
    Seq::new(s.len(), |i: int| s[i]@)
}

/// Whether a change is a symlink addition; those run last during an apply.
pub open spec fn spec_is_symlink_add(c: ChangeV) -> bool {
    c is AddSymlink
}

impl IndexChange {
    /// Whether this change is a symlink addition.
    pub fn is_symlink_add(&self) -> (r: bool)
        ensures
            r == spec_is_symlink_add(self@),
    {
        match self {
            IndexChange::AddSymlink(..) => true,
            _ => false,
        }
    }
}

} // verus!
