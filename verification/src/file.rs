//! One file of a scanned tree, and the label a comparison gives it.

use crate::path::{
    extension, extension_of, file_name, final_segment, has_file_name, relative_path, relative_to,
};
use vstd::prelude::*;
use vstd::string::*;

verus! {

/// How a file in one tree relates to the other tree.
///
/// `Renamed` is part of the vocabulary, but no comparison assigns it: a file
/// that moved shows up as one `Removed` and one `Added` record.
#[derive(Debug, Clone, Copy, PartialEq, Eq, Structural)]
pub enum ComparsionResult {
    Baseline,
    Added,
    Removed,
    Modified,
    Renamed,
}

impl ComparsionResult {
    /// The variant's name as text.
    pub open spec fn text(self) -> Seq<char> {
        match self {
            ComparsionResult::Baseline => "Baseline"@,
            ComparsionResult::Added => "Added"@,
            ComparsionResult::Removed => "Removed"@,
            ComparsionResult::Modified => "Modified"@,
            ComparsionResult::Renamed => "Renamed"@,
        }
    }

    /// The variant's name, for display.
    pub fn to_string(&self) -> (s: String)
        ensures
            s@ == self.text(),
    {
        match self {
            ComparsionResult::Baseline => String::from_str("Baseline"),
            ComparsionResult::Added => String::from_str("Added"),
            ComparsionResult::Removed => String::from_str("Removed"),
            ComparsionResult::Modified => String::from_str("Modified"),
            ComparsionResult::Renamed => String::from_str("Renamed"),
        }
    }
}

/// What a `ScanedFile` holds, as mathematical values.
pub struct FileRecord {
    pub full_path: Seq<char>,
    pub small_path: Seq<char>,
    pub name: Seq<char>,
    pub extension: Seq<char>,
    pub size_bytes: u64,
    pub contents: Option<Seq<char>>,
    pub comparison_result: Option<ComparsionResult>,
}

/// The characters of an optional text.
pub open spec fn text_of(text: Option<String>) -> Option<Seq<char>> {
    match text {
        Some(t) => Some(t@),
        None => None,
    }
}

/// The record of a file that a scan has just found at `full_path` under
/// `root_dir`: no contents loaded, not yet compared.
pub open spec fn fresh_record(full_path: Seq<char>, root_dir: Seq<char>, size_bytes: u64) -> FileRecord {
    FileRecord {
        full_path,
        small_path: relative_to(full_path, root_dir)->0,
        name: final_segment(full_path),
        extension: extension_of(final_segment(full_path)),
        size_bytes,
        contents: None,
        comparison_result: None,
    }
}

/// One regular file found under a scanned root.
///
/// `small_path`, the path relative to the root, is what identifies the file
/// across two trees. `contents` is a cache that is filled on demand and
/// cleared after use; `comparison_result` stays unset until a comparison ran.
pub struct ScanedFile {
    pub full_path: String,
    pub small_path: String,
    pub name: String,
    pub extension: String,
    pub size_bytes: u64,
    pub contents: Option<String>,
    pub comparison_result: Option<ComparsionResult>,
}

impl View for ScanedFile {
    type V = FileRecord;

    open spec fn view(&self) -> FileRecord {
        FileRecord {
            full_path: self.full_path@,
            small_path: self.small_path@,
            name: self.name@,
            extension: self.extension@,
            size_bytes: self.size_bytes,
            contents: text_of(self.contents),
            comparison_result: self.comparison_result,
        }
    }
}

impl ScanedFile {
    /// The record of the file at `full_path`, found under `root_dir`, whose
    /// metadata gave the length `size_bytes`. The path must lie under the
    /// root and name a file.
    pub fn new(full_path: String, root_dir: String, size_bytes: u64) -> (file: Self)
        requires
            relative_to(full_path@, root_dir@) is Some,
            has_file_name(full_path@),
        ensures
            file@ == fresh_record(full_path@, root_dir@, size_bytes),
    {
        let small_path = match relative_path(full_path.as_str(), root_dir.as_str()) {
            Some(rel) => rel,
            None => String::new(),
        };
        let name = file_name(full_path.as_str());
        let extension = extension(name.as_str());
        ScanedFile {
            full_path,
            small_path,
            name,
            extension,
            size_bytes,
            contents: None,
            comparison_result: None,
        }
    }

    /// Takes in what a read of the file gave: text replaces the cached
    /// contents, a failed read (`None`) leaves the cache as it was.
    pub fn read_contents(&mut self, loaded: Option<String>)
        ensures
            final(self)@ == (FileRecord {
                contents: if loaded is Some {
                    text_of(loaded)
                } else {
                    old(self)@.contents
                },
                ..old(self)@
            }),
    {
        if let Some(text) = loaded {
            self.contents = Some(text);
        }
    }

    /// Drops the cached contents.
    pub fn clear_contents(&mut self)
        ensures
            final(self)@ == (FileRecord { contents: None, ..old(self)@ }),
    {
        self.contents = None;
    }

    /// Labels the file with `result`.
    pub fn set_comparison_result(&mut self, result: ComparsionResult)
        ensures
            final(self)@ == (FileRecord { comparison_result: Some(result), ..old(self)@ }),
    {
        self.comparison_result = Some(result);
    }
}

} // verus!
