//! A repository: an object store and its branch heads.
use crate::db::files_view;
use crate::db::Database;
use crate::db::ObjectFile;
use crate::refs::refs_view;
use crate::refs::RefFile;
use crate::refs::Refs;
use vstd::prelude::*;

verus! {

/// The two parts of a repository that a walk reads.
pub struct Repository {
    pub database: Database,
    pub refs: Refs,
}

impl Repository {
    /// A repository over the files of its object store and of its heads.
    pub fn new(objects: Vec<ObjectFile>, heads: Vec<RefFile>) -> (r: Self)
        ensures
            r.database@ == files_view(objects@),
            r.refs@ == refs_view(heads@),
    {
        Repository { database: Database::new(objects), refs: Refs::new(heads) }
    }
}

} // verus!
