use folder_diff::file::{ComparsionResult, ScanedFile};
use folder_diff::filestore::FileStore;
use folder_diff::report::{comparison_label, file_contents, file_info, file_infos, LookupError};

fn record(root: &str, rel: &str, size: u64) -> ScanedFile {
    ScanedFile::new(format!("{root}/{rel}"), root.to_string(), size)
}

fn sample_store() -> FileStore {
    let mut kept_a = record("/a", "docs/kept.md", 10);
    kept_a.contents = Some("old".to_string());
    let mut kept_b = record("/b", "docs/kept.md", 12);
    kept_b.contents = Some("new".to_string());
    FileStore::new(vec![record("/a", "gone.txt", 3), kept_a], vec![kept_b, record("/b", "fresh", 0)])
}

#[test]
fn labels_are_lower_case_words() {
    assert_eq!(comparison_label(Some(ComparsionResult::Baseline)), "baseline");
    assert_eq!(comparison_label(Some(ComparsionResult::Added)), "added");
    assert_eq!(comparison_label(Some(ComparsionResult::Removed)), "removed");
    assert_eq!(comparison_label(Some(ComparsionResult::Modified)), "modified");
    assert_eq!(comparison_label(Some(ComparsionResult::Renamed)), "renamed");
    assert_eq!(comparison_label(None), "unknown");
}

#[test]
fn file_info_copies_what_identifies_the_file() {
    let mut file = record("/a", "docs/kept.md", 10);
    file.set_comparison_result(ComparsionResult::Modified);
    let info = file_info(&file);
    assert_eq!(info.name, "kept.md");
    assert_eq!(info.path, "docs/kept.md");
    assert_eq!(info.extension, "md");
    assert_eq!(info.size_bytes, 10);
    assert_eq!(info.comparison_result, "modified");
}

#[test]
fn listing_before_a_comparison_is_unknown() {
    let store = sample_store();
    let infos = store.get_files_a();
    assert_eq!(infos.len(), 2);
    assert!(infos.iter().all(|i| i.comparison_result == "unknown"));
    assert_eq!(store.get_files_b().len(), 2);
}

#[test]
fn listing_after_a_comparison() {
    let mut store = sample_store();
    store.compare_files();
    let a = store.get_files_a();
    let b = store.get_files_b();
    assert_eq!(a[0].path, "gone.txt");
    assert_eq!(a[0].comparison_result, "removed");
    assert_eq!(a[1].path, "docs/kept.md");
    assert_eq!(a[1].comparison_result, "baseline");
    assert_eq!(a[1].size_bytes, 10);
    assert_eq!(b[0].path, "docs/kept.md");
    assert_eq!(b[0].comparison_result, "modified");
    assert_eq!(b[0].size_bytes, 12);
    assert_eq!(b[1].name, "fresh");
    assert_eq!(b[1].extension, "");
    assert_eq!(b[1].comparison_result, "added");
}

#[test]
fn listing_of_an_empty_inventory() {
    assert!(file_infos(&Vec::new()).is_empty());
}

#[test]
fn contents_of_a_file_that_was_read() {
    let mut store = sample_store();
    let found = store.get_file_a_contents(0, Some("abc".to_string())).ok().unwrap();
    assert_eq!(found.name, "gone.txt");
    assert_eq!(found.path, "gone.txt");
    assert_eq!(found.contents, "abc");
    assert_eq!(store.files_a[0].contents, Some("abc".to_string()));
    assert_eq!(store.files_a[1].contents, Some("old".to_string()));
}

#[test]
fn contents_index_past_the_end() {
    let mut store = sample_store();
    assert_eq!(store.get_file_a_contents(2, Some("abc".to_string())).err(), Some(LookupError::IndexOutOfRange));
    assert_eq!(store.get_file_b_contents(usize::MAX, None).err(), Some(LookupError::IndexOutOfRange));
    assert_eq!(store.files_a.len(), 2);
    assert_eq!(store.files_a[0].contents, None);
}

#[test]
fn contents_of_an_unreadable_file() {
    let mut store = sample_store();
    assert_eq!(store.get_file_b_contents(1, None).err(), Some(LookupError::NoContents));
    assert_eq!(store.files_b[1].contents, None);
}

#[test]
fn contents_fall_back_on_the_cache() {
    let mut store = sample_store();
    let found = store.get_file_b_contents(0, None).ok().unwrap();
    assert_eq!(found.contents, "new");
    assert_eq!(found.path, "docs/kept.md");
    assert_eq!(found.name, "kept.md");
}

#[test]
fn a_fresh_read_replaces_the_cache() {
    let mut store = sample_store();
    let found = store.get_file_a_contents(1, Some("newer".to_string())).ok().unwrap();
    assert_eq!(found.contents, "newer");
    assert_eq!(store.files_a[1].contents, Some("newer".to_string()));
    assert_eq!(store.files_b[0].contents, Some("new".to_string()));
}

#[test]
fn contents_from_a_plain_inventory() {
    let mut files = vec![record("/a", "one", 1)];
    assert_eq!(file_contents(&mut files, 0, None).err(), Some(LookupError::NoContents));
    assert_eq!(file_contents(&mut files, 1, None).err(), Some(LookupError::IndexOutOfRange));
    let found = file_contents(&mut files, 0, Some(String::new())).ok().unwrap();
    assert_eq!(found.contents, "");
}
