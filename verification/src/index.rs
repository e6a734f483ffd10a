//! The staging area: files staged for the next commit and files staged
//! for removal.

use vstd::prelude::*;
use crate::filemap::{FileMap, NameSet, Duplicate};

verus! {

/// The staging area.
#[derive(Debug)]
pub struct Index {
    /// File name to the id of the blob staged for it.
    pub files: FileMap<String>,
    /// Names of the files staged for removal.
    pub removed: NameSet,
}

/// The staging area taken as plain values.
pub struct IndexView {
    pub files: Map<Seq<char>, Seq<char>>,
    pub removed: Set<Seq<char>>,
}

impl View for Index {
    type V = IndexView;

    open spec fn view(&self) -> IndexView {
        IndexView { files: self.files@, removed: self.removed@ }
    }
}

impl Index {
    /// An empty staging area.
    pub fn new() -> (r: Index)
        ensures
            r@.files == Map::<Seq<char>, Seq<char>>::empty(),
            r@.removed == Set::<Seq<char>>::empty(),
    {
        Index { files: FileMap::new(), removed: NameSet::new() }
    }

    /// True when nothing is staged.
    pub fn is_clear(&self) -> (r: bool)
        ensures
            r <==> self@.files == Map::<Seq<char>, Seq<char>>::empty() && self@.removed == Set::<
                Seq<char>,
            >::empty(),
    {
        self.files.is_empty() && self.removed.is_empty()
    }
}

impl Duplicate for Index {
    fn duplicate(&self) -> (r: Self) {
        Index { files: self.files.duplicate(), removed: self.removed.clone() }
    }
}

} // verus!
