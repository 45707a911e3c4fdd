//! What a store hands to whoever presents it: the list of its records, and
//! the contents of one file on request.

use crate::file::{text_of, ComparsionResult, FileRecord, ScanedFile};
use crate::filestore::FileStore;
use vstd::prelude::*;
use vstd::string::*;

verus! {

/// One record as it is listed.
pub struct FileInfo {
    pub name: String,
    pub path: String,
    pub extension: String,
    pub size_bytes: u64,
    pub comparison_result: String,
}

/// A `FileInfo` as mathematical values.
pub struct FileInfoView {
    pub name: Seq<char>,
    pub path: Seq<char>,
    pub extension: Seq<char>,
    pub size_bytes: u64,
    pub comparison_result: Seq<char>,
}

impl View for FileInfo {
    type V = FileInfoView;

    open spec fn view(&self) -> FileInfoView {
        FileInfoView {
            name: self.name@,
            path: self.path@,
            extension: self.extension@,
            size_bytes: self.size_bytes,
            comparison_result: self.comparison_result@,
        }
    }
}

/// The contents of one file, with what identifies it.
pub struct FileContents {
    pub name: String,
    pub path: String,
    pub contents: String,
}

/// A `FileContents` as mathematical values.
pub struct FileContentsView {
    pub name: Seq<char>,
    pub path: Seq<char>,
    pub contents: Seq<char>,
}

impl View for FileContents {
    type V = FileContentsView;

    open spec fn view(&self) -> FileContentsView {
        FileContentsView { name: self.name@, path: self.path@, contents: self.contents@ }
    }
}

/// Why the contents of a file could not be handed out.
#[derive(Debug, Clone, Copy, PartialEq, Eq, Structural)]
pub enum LookupError {
    /// The inventory has no record at the position asked for.
    IndexOutOfRange,
    /// The record is there, but the file has no contents to show: it could
    /// not be read as text, and nothing was cached.
    NoContents,
}

/// The word under which a label is listed; a record that no comparison has
/// labelled is listed as unknown.
pub open spec fn label_of(result: Option<ComparsionResult>) -> Seq<char> {
    match result {
        Some(ComparsionResult::Baseline) => "baseline"@,
        Some(ComparsionResult::Added) => "added"@,
        Some(ComparsionResult::Removed) => "removed"@,
        Some(ComparsionResult::Modified) => "modified"@,
        Some(ComparsionResult::Renamed) => "renamed"@,
        None => "unknown"@,
    }
}

/// How the record `r` is listed.
pub open spec fn info_of(r: FileRecord) -> FileInfoView {
    FileInfoView {
        name: r.name,
        path: r.small_path,
        extension: r.extension,
        size_bytes: r.size_bytes,
        comparison_result: label_of(r.comparison_result),
    }
}

/// The record `r` with what a read of its file returned taken in: text
/// replaces the cached contents, a failed read leaves them.
pub open spec fn reloaded(r: FileRecord, loaded: Option<Seq<char>>) -> FileRecord {
    FileRecord {
        contents: if loaded is Some {
            loaded
        } else {
            r.contents
        },
        ..r
    }
}

/// The word under which a label is listed.
pub fn comparison_label(result: Option<ComparsionResult>) -> (label: String)
    ensures
        label@ == label_of(result),
{
    match result {
        Some(ComparsionResult::Baseline) => String::from_str("baseline"),
        Some(ComparsionResult::Added) => String::from_str("added"),
        Some(ComparsionResult::Removed) => String::from_str("removed"),
        Some(ComparsionResult::Modified) => String::from_str("modified"),
        Some(ComparsionResult::Renamed) => String::from_str("renamed"),
        None => String::from_str("unknown"),
    }
}

/// How `file` is listed.
pub fn file_info(file: &ScanedFile) -> (info: FileInfo)
    ensures
        info@ == info_of(file@),
{
    FileInfo {
        name: file.name.clone(),
        path: file.small_path.clone(),
        extension: file.extension.clone(),
        size_bytes: file.size_bytes,
        comparison_result: comparison_label(file.comparison_result),
    }
}

/// The listing of an inventory, record by record and in its order.
pub fn file_infos(files: &Vec<ScanedFile>) -> (infos: Vec<FileInfo>)
    ensures
        infos@.len() == files@.len(),
        forall|i: int| 0 <= i < files@.len() ==> (#[trigger] infos@[i])@ == info_of(files@[i]@),
{
    let mut infos: Vec<FileInfo> = Vec::new();
    let mut i: usize = 0;
    while i < files.len()
        invariant
            i <= files.len(),
            infos@.len() == i,
            forall|k: int| 0 <= k < i ==> (#[trigger] infos@[k])@ == info_of(files@[k]@),
        decreases files.len() - i,
    {
        infos.push(file_info(&files[i]));
        i = i + 1;
    }
    infos
}

/// The contents of the file at `file_index`, given what a read of that file
/// just returned. The read is cached in the record and stays there. An
/// index past the end of the inventory is an error, and so is a file that
/// has no contents after the read.
pub fn file_contents(files: &mut Vec<ScanedFile>, file_index: usize, loaded: Option<String>) -> (found:
    Result<FileContents, LookupError>)
    ensures
        final(files)@.len() == old(files)@.len(),
        forall|k: int|
            0 <= k < old(files)@.len() && k != file_index ==> (#[trigger] final(files)@[k])@ == old(
                files,
            )@[k]@,
        file_index >= old(files)@.len() ==> found == Err::<FileContents, LookupError>(
            LookupError::IndexOutOfRange,
        ),
        file_index < old(files)@.len() ==> {
            let now = reloaded(old(files)@[file_index as int]@, text_of(loaded));
            &&& final(files)@[file_index as int]@ == now
            &&& match now.contents {
                Some(text) => found is Ok && found->Ok_0@ == (FileContentsView {
                    name: now.name,
                    path: now.small_path,
                    contents: text,
                }),
                None => found == Err::<FileContents, LookupError>(LookupError::NoContents),
            }
        },
{
    if file_index >= files.len() {
        return Err(LookupError::IndexOutOfRange);
    }
    files[file_index].read_contents(loaded);
    let file = &files[file_index];
    match &file.contents {
        Some(text) => Ok(
            FileContents {
                name: file.name.clone(),
                path: file.small_path.clone(),
                contents: text.clone(),
            },
        ),
        None => Err(LookupError::NoContents),
    }
}

impl FileStore {
    /// The listing of the baseline inventory.
    pub fn get_files_a(&self) -> (infos: Vec<FileInfo>)
        ensures
            infos@.len() == self@.a.len(),
            forall|i: int| 0 <= i < self@.a.len() ==> (#[trigger] infos@[i])@ == info_of(self@.a[i]),
    {
        file_infos(&self.files_a)
    }

    /// The listing of the candidate inventory.
    pub fn get_files_b(&self) -> (infos: Vec<FileInfo>)
        ensures
            infos@.len() == self@.b.len(),
            forall|i: int| 0 <= i < self@.b.len() ==> (#[trigger] infos@[i])@ == info_of(self@.b[i]),
    {
        file_infos(&self.files_b)
    }

    /// The contents of the file at `file_index` of the baseline inventory,
    /// given what a read of that file just returned.
    pub fn get_file_a_contents(&mut self, file_index: usize, loaded: Option<String>) -> (found:
        Result<FileContents, LookupError>)
        ensures
            final(self)@.b == old(self)@.b,
            final(self)@.a.len() == old(self)@.a.len(),
            file_index >= old(self)@.a.len() ==> {
                &&& found == Err::<FileContents, LookupError>(LookupError::IndexOutOfRange)
                &&& final(self)@.a == old(self)@.a
            },
            file_index < old(self)@.a.len() ==> {
                let now = reloaded(old(self)@.a[file_index as int], text_of(loaded));
                &&& final(self)@.a == old(self)@.a.update(file_index as int, now)
                &&& match now.contents {
                    Some(text) => found is Ok && found->Ok_0@ == (FileContentsView {
                        name: now.name,
                        path: now.small_path,
                        contents: text,
                    }),
                    None => found == Err::<FileContents, LookupError>(LookupError::NoContents),
                }
            },
    {
        let found = file_contents(&mut self.files_a, file_index, loaded);
        proof {
            if file_index < old(self)@.a.len() {
                let now = reloaded(old(self)@.a[file_index as int], text_of(loaded));
                assert(self@.a =~= old(self)@.a.update(file_index as int, now));
            } else {
                assert(self@.a =~= old(self)@.a);
            }
        }
        found
    }

    /// The contents of the file at `file_index` of the candidate inventory,
    /// given what a read of that file just returned.
    pub fn get_file_b_contents(&mut self, file_index: usize, loaded: Option<String>) -> (found:
        Result<FileContents, LookupError>)
        ensures
            final(self)@.a == old(self)@.a,
            final(self)@.b.len() == old(self)@.b.len(),
            file_index >= old(self)@.b.len() ==> {
                &&& found == Err::<FileContents, LookupError>(LookupError::IndexOutOfRange)
                &&& final(self)@.b == old(self)@.b
            },
            file_index < old(self)@.b.len() ==> {
                let now = reloaded(old(self)@.b[file_index as int], text_of(loaded));
                &&& final(self)@.b == old(self)@.b.update(file_index as int, now)
                &&& match now.contents {
                    Some(text) => found is Ok && found->Ok_0@ == (FileContentsView {
                        name: now.name,
                        path: now.small_path,
                        contents: text,
                    }),
                    None => found == Err::<FileContents, LookupError>(LookupError::NoContents),
                }
            },
    {
        let found = file_contents(&mut self.files_b, file_index, loaded);
        proof {
            if file_index < old(self)@.b.len() {
                let now = reloaded(old(self)@.b[file_index as int], text_of(loaded));
                assert(self@.b =~= old(self)@.b.update(file_index as int, now));
            } else {
                assert(self@.b =~= old(self)@.b);
            }
        }
        found
    }
}

} // verus!
