//! Walking a directory tree into an inventory.
//!
//! The scanner decides what to visit and what to record; its caller does the
//! reading. The scanner names a directory, the caller lists it and feeds the
//! entries back, and so on until the scanner names none. The walk is depth
//! first: the entries of a directory are taken in the order they were
//! listed, and a subdirectory is walked where it stands among them.
//!
//! A directory that cannot be listed adds nothing and the walk goes on,
//! with one exception: a root that does not exist fails the walk.

use crate::file::{fresh_record, FileRecord, ScanedFile};
use crate::filestore::records;
use crate::path::{
    has_file_name, join_path, joined, lemma_joined_stays_under, names_file, relative_to,
};
use vstd::prelude::*;

verus! {

/// What a directory entry turned out to be.
#[derive(Debug, Clone, Copy)]
pub enum EntryKind {
    /// A regular file. `size` is its length in bytes, or `None` where its
    /// metadata could not be read.
    File { size: Option<u64> },
    /// A directory.
    Directory,
    /// Neither of the two: a link, a device, a socket.
    Other,
}

/// One entry of a listed directory.
pub struct DirEntry {
    pub name: String,
    pub kind: EntryKind,
}

/// A `DirEntry` as mathematical values.
pub struct EntryView {
    pub name: Seq<char>,
    pub kind: EntryKind,
}

impl View for DirEntry {
    type V = EntryView;

    open spec fn view(&self) -> EntryView {
        EntryView { name: self.name@, kind: self.kind }
    }
}

/// Why a directory could not be listed.
#[derive(Debug, Clone, Copy, PartialEq, Eq, Structural)]
pub enum ListError {
    /// Nothing exists at the path.
    Missing,
    /// Something is there, but it cannot be read as a directory.
    Unreadable,
}

/// Why a walk failed.
#[derive(Debug, Clone, Copy, PartialEq, Eq, Structural)]
pub enum ScanError {
    /// The root of the walk does not exist.
    RootMissing,
}

/// Something the walk has found and not yet dealt with.
pub struct Pending {
    pub path: Seq<char>,
    pub kind: EntryKind,
}

/// The entries of a listing, as mathematical values.
pub open spec fn entries(listing: Seq<DirEntry>) -> Seq<EntryView> {
    Seq::new(listing.len(), |i: int| listing[i]@)
}

/// What the attempt to list a directory gave: its entries, or `None` where
/// it failed.
pub open spec fn listed(listing: Result<Vec<DirEntry>, ListError>) -> Option<Seq<EntryView>> {
    match listing {
        Ok(l) => Some(entries(l@)),
        Err(_) => None,
    }
}

/// The entries of the directory `dir` as things to deal with, each under
/// its full path.
pub open spec fn children(dir: Seq<char>, listing: Seq<EntryView>) -> Seq<Pending> {
    Seq::new(
        listing.len(),
        |i: int| Pending { path: joined(dir, listing[i].name), kind: listing[i].kind },
    )
}

/// The entries that a read of the directory `dir` contributes: those of the
/// listing, or none where the directory could not be listed.
pub open spec fn contributed(dir: Seq<char>, listing: Option<Seq<EntryView>>) -> Seq<Pending> {
    match listing {
        Some(l) => children(dir, l),
        None => Seq::empty(),
    }
}

/// What dealing with something that is no directory adds to the inventory:
/// one record for a regular file whose size is known and whose path names a
/// file, and nothing for anything else.
pub open spec fn recorded_for(root: Seq<char>, item: Pending) -> Seq<FileRecord> {
    match item.kind {
        EntryKind::File { size: Some(n) } => if has_file_name(item.path) {
            seq![fresh_record(item.path, root, n)]
        } else {
            Seq::empty()
        },
        _ => Seq::empty(),
    }
}

/// Deals with what stands before the first directory of `todo`. Gives the
/// inventory and what is left to do.
pub open spec fn drain(root: Seq<char>, files: Seq<FileRecord>, todo: Seq<Pending>) -> (
    Seq<FileRecord>,
    Seq<Pending>,
)
    decreases todo.len(),
{
    if todo.len() == 0 || todo[0].kind is Directory {
        (files, todo)
    } else {
        drain(root, files + recorded_for(root, todo[0]), todo.skip(1))
    }
}

/// Whether every path of `todo` lies at or under `root`.
pub open spec fn all_under(root: Seq<char>, todo: Seq<Pending>) -> bool {
    forall|i: int| 0 <= i < todo.len() ==> relative_to((#[trigger] todo[i]).path, root) is Some
}

/// Whether `r` is as a walk from `root` records a file: its path lies under
/// the root and names a file, its relative path is that path with the root
/// removed, its name and extension are those of the path, no contents are
/// loaded and no label is set.
pub open spec fn as_recorded(root: Seq<char>, r: FileRecord) -> bool {
    &&& relative_to(r.full_path, root) is Some
    &&& has_file_name(r.full_path)
    &&& r == fresh_record(r.full_path, root, r.size_bytes)
}

/// Whether every record of `found` is as a walk from `root` records it.
pub open spec fn all_recorded(root: Seq<char>, found: Seq<FileRecord>) -> bool {
    forall|i: int| 0 <= i < found.len() ==> as_recorded(root, #[trigger] found[i])
}

struct WorkItem {
    path: String,
    kind: EntryKind,
}

impl WorkItem {
    spec fn pending(&self) -> Pending {
        Pending { path: self.path@, kind: self.kind }
    }
}

/// The work stack read from its top.
spec fn top_down(work: Seq<WorkItem>) -> Seq<Pending> {
    Seq::new(work.len(), |i: int| work[work.len() - 1 - i].pending())
}

/// A walk in progress.
pub struct Scanner {
    root: String,
    work: Vec<WorkItem>,
    files: Vec<ScanedFile>,
    started: bool,
}

impl Scanner {
    /// The root of the walk.
    pub closed spec fn root(&self) -> Seq<char> {
        self.root@
    }

    /// The inventory so far.
    pub closed spec fn found(&self) -> Seq<FileRecord> {
        records(self.files@)
    }

    /// What is left to deal with, next first.
    pub closed spec fn todo(&self) -> Seq<Pending> {
        top_down(self.work@)
    }

    /// Whether the walk has yet to be given the listing of its root.
    pub closed spec fn at_root(&self) -> bool {
        !self.started
    }

    /// Whether the walk is over.
    pub open spec fn is_done(&self) -> bool {
        self.todo().len() == 0
    }

    /// The walk is over or waits for the listing of a directory; all it has
    /// left to do lies under the root; every record it found is as a walk
    /// records it; and before the first listing it has found nothing and
    /// waits for the root.
    pub open spec fn wf(&self) -> bool {
        &&& self.todo().len() > 0 ==> self.todo()[0].kind is Directory
        &&& all_under(self.root(), self.todo())
        &&& all_recorded(self.root(), self.found())
        &&& self.at_root() ==> {
            &&& self.found().len() == 0
            &&& self.todo() == seq![Pending { path: self.root(), kind: EntryKind::Directory }]
        }
    }

    /// A walk of the tree under `root`, which waits for the listing of
    /// `root` itself.
    pub fn new(root: String) -> (scanner: Scanner)
        ensures
            scanner.wf(),
            scanner.at_root(),
            scanner.root() == root@,
            scanner.found() == Seq::<FileRecord>::empty(),
            scanner.todo() == seq![Pending { path: root@, kind: EntryKind::Directory }],
    {
        let mut work: Vec<WorkItem> = Vec::new();
        work.push(WorkItem { path: root.clone(), kind: EntryKind::Directory });
        let scanner = Scanner { root, work, files: Vec::new(), started: false };
        proof {
            assert(scanner.todo() =~= seq![Pending { path: root@, kind: EntryKind::Directory }]);
            assert(scanner.found() =~= Seq::<FileRecord>::empty());
            assert(root@.is_prefix_of(root@));
        }
        scanner
    }

    /// The directory whose listing the walk waits for, or `None` when the
    /// walk is over.
    pub fn wanted(&self) -> (dir: Option<&str>)
        ensures
            match dir {
                Some(path) => !self.is_done() && path@ == self.todo()[0].path,
                None => self.is_done(),
            },
    {
        let n = self.work.len();
        if n == 0 {
            None
        } else {
            Some(self.work[n - 1].path.as_str())
        }
    }

    /// Takes in what the attempt to list the directory the walk waits for
    /// gave, and walks on to the next directory.
    ///
    /// The entries take the place of the directory in what is left to do; a
    /// directory that could not be listed leaves nothing in its place. If the
    /// directory is the root and it does not exist, the walk fails: it is
    /// over and has found nothing. Does nothing once the walk is over.
    pub fn feed(&mut self, listing: Result<Vec<DirEntry>, ListError>) -> (outcome: Result<
        (),
        ScanError,
    >)
        requires
            old(self).wf(),
        ensures
            final(self).wf(),
            !final(self).at_root(),
            final(self).root() == old(self).root(),
            outcome is Err <==> old(self).at_root() && listing == Err::<Vec<DirEntry>, ListError>(
                ListError::Missing,
            ),
            outcome is Err ==> {
                &&& outcome == Err::<(), ScanError>(ScanError::RootMissing)
                &&& final(self).found().len() == 0
                &&& final(self).is_done()
            },
            outcome is Ok && old(self).is_done() ==> {
                &&& final(self).found() == old(self).found()
                &&& final(self).todo() == old(self).todo()
            },
            outcome is Ok && !old(self).is_done() ==> (final(self).found(), final(self).todo())
                == drain(
                old(self).root(),
                old(self).found(),
                contributed(old(self).todo()[0].path, listed(listing)) + old(self).todo().skip(1),
            ),
    {
        let ghost before = self.todo();
        let first = !self.started;
        let dir = match self.work.pop() {
            Some(item) => item,
            None => {
                return Ok(());
            },
        };
        self.started = true;
        let ghost rest = before.skip(1);
        proof {
            assert(self.todo() =~= rest);
            assert(dir.pending() == before[0]);
            assert forall|i: int| 0 <= i < rest.len() implies relative_to(
                (#[trigger] rest[i]).path,
                self.root@,
            ) is Some by {
                assert(rest[i] == before[i + 1]);
            }
        }
        match listing {
            Ok(listed) => {
                let ghost fresh = children(dir.path@, entries(listed@));
                let mut i: usize = listed.len();
                proof {
                    assert(self.todo() =~= fresh.skip(i as int) + rest);
                }
                while i > 0
                    invariant
                        i <= listed.len(),
                        self.root@ == old(self).root@,
                        self.files@ == old(self).files@,
                        self.started,
                        fresh == children(dir.path@, entries(listed@)),
                        relative_to(dir.path@, self.root@) is Some,
                        all_under(self.root@, rest),
                        self.todo() == fresh.skip(i as int) + rest,
                        all_under(self.root@, self.todo()),
                    decreases i,
                {
                    i = i - 1;
                    let ghost earlier = self.todo();
                    let path = join_path(dir.path.as_str(), listed[i].name.as_str());
                    let kind = listed[i].kind;
                    self.work.push(WorkItem { path, kind });
                    proof {
                        lemma_joined_stays_under(self.root@, dir.path@, listed@[i as int].name@);
                        assert(self.todo() =~= seq![fresh[i as int]] + earlier);
                        assert(self.todo() =~= fresh.skip(i as int) + rest);
                        assert forall|k: int| 0 <= k < self.todo().len() implies relative_to(
                            (#[trigger] self.todo()[k]).path,
                            self.root@,
                        ) is Some by {
                            if k > 0 {
                                assert(self.todo()[k] == earlier[k - 1]);
                            }
                        }
                    }
                }
                proof {
                    assert(fresh.skip(0) =~= fresh);
                }
            },
            Err(ListError::Missing) => {
                if first {
                    proof {
                        assert(rest.len() == 0);
                    }
                    return Err(ScanError::RootMissing);
                }
                proof {
                    assert(self.todo() =~= Seq::<Pending>::empty() + rest);
                }
            },
            Err(ListError::Unreadable) => {
                proof {
                    assert(self.todo() =~= Seq::<Pending>::empty() + rest);
                }
            },
        }
        self.settle();
        Ok(())
    }

    /// Records and passes over what stands before the next directory.
    fn settle(&mut self)
        requires
            old(self).started,
            all_under(old(self).root(), old(self).todo()),
            all_recorded(old(self).root(), old(self).found()),
        ensures
            final(self).wf(),
            final(self).started,
            final(self).root() == old(self).root(),
            (final(self).found(), final(self).todo()) == drain(
                old(self).root(),
                old(self).found(),
                old(self).todo(),
            ),
    {
        let mut waiting = false;
        while !waiting && self.work.len() > 0
            invariant
                self.started,
                self.root@ == old(self).root@,
                all_under(self.root@, self.todo()),
                all_recorded(self.root@, self.found()),
                drain(self.root@, self.found(), self.todo()) == drain(
                    old(self).root(),
                    old(self).found(),
                    old(self).todo(),
                ),
                waiting ==> self.todo().len() > 0 && self.todo()[0].kind is Directory,
            decreases self.work.len() + if waiting { 0int } else { 1int },
        {
            let n = self.work.len();
            let kind = self.work[n - 1].kind;
            let ghost todo = self.todo();
            let ghost found = self.found();
            proof {
                assert(todo[0] == self.work@[n - 1].pending());
            }
            match kind {
                EntryKind::Directory => {
                    waiting = true;
                },
                EntryKind::File { size: Some(size) } => {
                    if let Some(item) = self.work.pop() {
                        if names_file(item.path.as_str()) {
                            let file = ScanedFile::new(item.path, self.root.clone(), size);
                            self.files.push(file);
                        }
                    }
                    proof {
                        assert(self.todo() =~= todo.skip(1));
                        assert(self.found() =~= found + recorded_for(self.root@, todo[0]));
                    }
                },
                _ => {
                    self.work.pop();
                    proof {
                        assert(self.todo() =~= todo.skip(1));
                        assert(self.found() =~= found + recorded_for(self.root@, todo[0]));
                    }
                },
            }
            proof {
                assert forall|k: int| 0 <= k < self.todo().len() implies relative_to(
                    (#[trigger] self.todo()[k]).path,
                    self.root@,
                ) is Some by {
                    if !waiting {
                        assert(self.todo()[k] == todo[k + 1]);
                    }
                }
                assert forall|k: int| 0 <= k < self.found().len() implies as_recorded(
                    self.root@,
                    #[trigger] self.found()[k],
                ) by {
                    if k < found.len() {
                        assert(self.found()[k] == found[k]);
                    }
                }
            }
        }
    }

    /// Whether the walk is over.
    pub fn is_finished(&self) -> (done: bool)
        ensures
            done == self.is_done(),
    {
        self.work.len() == 0
    }

    /// The inventory so far.
    pub fn files(&self) -> (files: &Vec<ScanedFile>)
        ensures
            records(files@) == self.found(),
    {
        &self.files
    }

    /// Ends the walk and hands the inventory over. Every record in it is as
    /// the walk recorded it.
    pub fn finish(self) -> (files: Vec<ScanedFile>)
        ensures
            records(files@) == self.found(),
            self.wf() ==> all_recorded(self.root(), records(files@)),
    {
        self.files
    }
}

} // verus!
