//! The two inventories under comparison.

use crate::compare::{compared, distinct_paths, no_loads, paths_are_distinct, Comparison};
use crate::file::{FileRecord, ScanedFile};
use vstd::prelude::*;

verus! {

/// The inventories of the two trees: `files_a` of the baseline, `files_b`
/// of the candidate. A record's position in its inventory is its handle.
pub struct FileStore {
    pub files_a: Vec<ScanedFile>,
    pub files_b: Vec<ScanedFile>,
}

/// The two inventories as sequences of records.
pub struct StoreView {
    pub a: Seq<FileRecord>,
    pub b: Seq<FileRecord>,
}

/// The records of an inventory.
pub open spec fn records(files: Seq<ScanedFile>) -> Seq<FileRecord> {
    Seq::new(files.len(), |i: int| files[i]@)
}

impl View for FileStore {
    type V = StoreView;

    open spec fn view(&self) -> StoreView {
        StoreView { a: records(self.files_a@), b: records(self.files_b@) }
    }
}

impl FileStore {
    /// A store of two scanned inventories.
    pub fn new(files_a: Vec<ScanedFile>, files_b: Vec<ScanedFile>) -> (store: Self)
        ensures
            store.files_a == files_a,
            store.files_b == files_b,
    {
        FileStore { files_a, files_b }
    }

    /// Whether each inventory names every file once. Scanned inventories do;
    /// a comparison is defined without it, but is meant for such stores.
    pub fn paths_are_distinct(&self) -> (distinct: bool)
        ensures
            distinct == (distinct_paths(self@.a) && distinct_paths(self@.b)),
    {
        paths_are_distinct(&self.files_a) && paths_are_distinct(&self.files_b)
    }

    /// Classifies every record of both inventories, comparing the files that
    /// both trees hold by the contents their records have cached. Nothing is
    /// loaded: a record without cached contents is compared as absent.
    pub fn compare_files(&mut self)
        ensures
            final(self)@ == compared(old(self)@, no_loads(old(self)@.b.len() as int)),
    {
        let ghost origin = self@;
        let mut store = FileStore { files_a: Vec::new(), files_b: Vec::new() };
        std::mem::swap(self, &mut store);
        let mut comparison = Comparison::begin(store);
        while !comparison.is_finished()
            invariant
                comparison.wf(),
                comparison.origin() == origin,
                comparison.loads() == no_loads(comparison.position()),
            decreases origin.b.len() - comparison.position(),
        {
            let ghost at = comparison.position();
            comparison.supply(None, None);
            proof {
                crate::compare::lemma_next_pair(origin, at + 1);
                assert(comparison.loads() =~= no_loads(comparison.position()));
            }
        }
        *self = comparison.finish();
    }
}

} // verus!
