use folder_diff::compare::{index_paths, paths_are_distinct, same_text, CompareStep, Comparison};
use folder_diff::file::{ComparsionResult, ScanedFile};
use folder_diff::filestore::FileStore;

/// A scanned record of `rel` under `root`.
fn scanned(root: &str, rel: &str) -> ScanedFile {
    ScanedFile::new(format!("{root}/{rel}"), root.to_string(), 0)
}

/// A record of `rel` under `root` that has `text` cached.
fn cached(root: &str, rel: &str, text: &str) -> ScanedFile {
    let mut file = scanned(root, rel);
    file.size_bytes = text.len() as u64;
    file.contents = Some(text.to_string());
    file
}

/// What a read of `full_path` returns from a disk that holds `disk`.
fn read_from(disk: &[(&str, &str)], full_path: &str) -> Option<String> {
    disk.iter().find(|(path, _)| *path == full_path).map(|(_, text)| text.to_string())
}

/// Runs a whole comparison, reading from `disk` what the comparison asks
/// for. Gives the store and the paths that were read, in order.
fn compare_on_disk(store: FileStore, disk: &[(&str, &str)]) -> (FileStore, Vec<String>) {
    let mut reads = Vec::new();
    let mut comparison = Comparison::begin(store);
    loop {
        match comparison.pending() {
            CompareStep::Done => break,
            CompareStep::Load { index_a, load_a, index_b, load_b } => {
                let path_a = comparison.store().files_a[index_a].full_path.clone();
                let path_b = comparison.store().files_b[index_b].full_path.clone();
                let loaded_a = if load_a {
                    reads.push(path_a.clone());
                    read_from(disk, &path_a)
                } else {
                    None
                };
                let loaded_b = if load_b {
                    reads.push(path_b.clone());
                    read_from(disk, &path_b)
                } else {
                    None
                };
                comparison.supply(loaded_a, loaded_b);
            }
        }
    }
    assert!(comparison.is_finished());
    (comparison.finish(), reads)
}

fn labels(files: &[ScanedFile]) -> Vec<(String, Option<ComparsionResult>)> {
    files.iter().map(|f| (f.small_path.clone(), f.comparison_result)).collect()
}

#[test]
fn scenario_removed_baseline_added() {
    let store = FileStore::new(
        vec![scanned("/a", "x.txt"), scanned("/a", "y.txt")],
        vec![scanned("/b", "y.txt"), scanned("/b", "z.txt")],
    );
    let disk = [
        ("/a/x.txt", "hello"),
        ("/a/y.txt", "same"),
        ("/b/y.txt", "same"),
        ("/b/z.txt", "new"),
    ];
    let (store, _) = compare_on_disk(store, &disk);
    assert_eq!(
        labels(&store.files_a),
        vec![
            ("x.txt".to_string(), Some(ComparsionResult::Removed)),
            ("y.txt".to_string(), Some(ComparsionResult::Baseline)),
        ]
    );
    assert_eq!(
        labels(&store.files_b),
        vec![
            ("y.txt".to_string(), Some(ComparsionResult::Baseline)),
            ("z.txt".to_string(), Some(ComparsionResult::Added)),
        ]
    );
}

#[test]
fn scenario_modified() {
    let store = FileStore::new(vec![scanned("/a", "a.txt")], vec![scanned("/b", "a.txt")]);
    let disk = [("/a/a.txt", "v1"), ("/b/a.txt", "v2")];
    let (store, _) = compare_on_disk(store, &disk);
    assert_eq!(labels(&store.files_a), vec![("a.txt".to_string(), Some(ComparsionResult::Baseline))]);
    assert_eq!(labels(&store.files_b), vec![("a.txt".to_string(), Some(ComparsionResult::Modified))]);
}

#[test]
fn scenario_removed_baseline_added_from_cached_contents() {
    let mut store = FileStore::new(
        vec![cached("/a", "x.txt", "hello"), cached("/a", "y.txt", "same")],
        vec![cached("/b", "y.txt", "same"), cached("/b", "z.txt", "new")],
    );
    store.compare_files();
    assert_eq!(
        labels(&store.files_a),
        vec![
            ("x.txt".to_string(), Some(ComparsionResult::Removed)),
            ("y.txt".to_string(), Some(ComparsionResult::Baseline)),
        ]
    );
    assert_eq!(
        labels(&store.files_b),
        vec![
            ("y.txt".to_string(), Some(ComparsionResult::Baseline)),
            ("z.txt".to_string(), Some(ComparsionResult::Added)),
        ]
    );
}

#[test]
fn scenario_modified_from_cached_contents() {
    let mut store =
        FileStore::new(vec![cached("/a", "a.txt", "v1")], vec![cached("/b", "a.txt", "v2")]);
    store.compare_files();
    assert_eq!(store.files_a[0].comparison_result, Some(ComparsionResult::Baseline));
    assert_eq!(store.files_b[0].comparison_result, Some(ComparsionResult::Modified));
}

#[test]
fn file_only_in_a_is_removed_and_absent_from_b() {
    let mut store = FileStore::new(
        vec![cached("/a", "gone.txt", "x"), cached("/a", "dir/gone.txt", "y")],
        vec![cached("/b", "other.txt", "x")],
    );
    store.compare_files();
    assert_eq!(store.files_a[0].comparison_result, Some(ComparsionResult::Removed));
    assert_eq!(store.files_a[1].comparison_result, Some(ComparsionResult::Removed));
    assert!(store.files_b.iter().all(|f| f.small_path != "gone.txt"));
    assert_eq!(store.files_b.len(), 1);
}

#[test]
fn file_only_in_b_is_added() {
    let mut store = FileStore::new(
        vec![cached("/a", "old.txt", "x")],
        vec![cached("/b", "new.txt", "x"), cached("/b", "sub/new.txt", "x")],
    );
    store.compare_files();
    assert_eq!(store.files_b[0].comparison_result, Some(ComparsionResult::Added));
    assert_eq!(store.files_b[1].comparison_result, Some(ComparsionResult::Added));
    assert_eq!(store.files_a[0].comparison_result, Some(ComparsionResult::Removed));
}

#[test]
fn paths_are_matched_exactly() {
    let mut store = FileStore::new(
        vec![cached("/a", "Readme.md", "x"), cached("/a", "sub/a.txt", "x")],
        vec![cached("/b", "readme.md", "x"), cached("/b", "a.txt", "x")],
    );
    store.compare_files();
    assert_eq!(store.files_a[0].comparison_result, Some(ComparsionResult::Removed));
    assert_eq!(store.files_a[1].comparison_result, Some(ComparsionResult::Removed));
    assert_eq!(store.files_b[0].comparison_result, Some(ComparsionResult::Added));
    assert_eq!(store.files_b[1].comparison_result, Some(ComparsionResult::Added));
}

#[test]
fn contents_are_compared_exactly() {
    let mut store = FileStore::new(
        vec![cached("/a", "eol.txt", "line\n"), cached("/a", "space.txt", "a b")],
        vec![cached("/b", "eol.txt", "line\r\n"), cached("/b", "space.txt", "a  b")],
    );
    store.compare_files();
    assert_eq!(store.files_b[0].comparison_result, Some(ComparsionResult::Modified));
    assert_eq!(store.files_b[1].comparison_result, Some(ComparsionResult::Modified));
    assert_eq!(store.files_a[0].comparison_result, Some(ComparsionResult::Baseline));
    assert_eq!(store.files_a[1].comparison_result, Some(ComparsionResult::Baseline));
}

#[test]
fn order_and_identity_are_kept() {
    let mut store = FileStore::new(
        vec![cached("/a", "2.txt", "b"), cached("/a", "1.txt", "a"), cached("/a", "3.txt", "c")],
        vec![cached("/b", "3.txt", "c"), cached("/b", "0.txt", "z"), cached("/b", "1.txt", "A")],
    );
    store.compare_files();
    let paths_a: Vec<&str> = store.files_a.iter().map(|f| f.small_path.as_str()).collect();
    let paths_b: Vec<&str> = store.files_b.iter().map(|f| f.small_path.as_str()).collect();
    assert_eq!(paths_a, vec!["2.txt", "1.txt", "3.txt"]);
    assert_eq!(paths_b, vec!["3.txt", "0.txt", "1.txt"]);
    assert_eq!(store.files_a[1].full_path, "/a/1.txt");
    assert_eq!(store.files_a[1].name, "1.txt");
    assert_eq!(store.files_a[1].extension, "txt");
    assert_eq!(store.files_a[1].size_bytes, 1);
    assert_eq!(store.files_b[2].full_path, "/b/1.txt");
    assert_eq!(store.files_b[2].size_bytes, 1);
    assert_eq!(store.files_a[0].comparison_result, Some(ComparsionResult::Removed));
    assert_eq!(store.files_a[1].comparison_result, Some(ComparsionResult::Baseline));
    assert_eq!(store.files_a[2].comparison_result, Some(ComparsionResult::Baseline));
    assert_eq!(store.files_b[0].comparison_result, Some(ComparsionResult::Baseline));
    assert_eq!(store.files_b[1].comparison_result, Some(ComparsionResult::Added));
    assert_eq!(store.files_b[2].comparison_result, Some(ComparsionResult::Modified));
}

#[test]
fn contents_are_released_after_a_comparison() {
    let mut store = FileStore::new(
        vec![cached("/a", "both.txt", "one"), cached("/a", "only_a.txt", "keep")],
        vec![cached("/b", "both.txt", "two"), cached("/b", "only_b.txt", "keep")],
    );
    store.compare_files();
    assert_eq!(store.files_a[0].contents, None);
    assert_eq!(store.files_b[0].contents, None);
    assert_eq!(store.files_a[0].small_path, "both.txt");
    assert_eq!(store.files_a[0].name, "both.txt");
    assert_eq!(store.files_a[0].size_bytes, 3);
    assert_eq!(store.files_b[0].small_path, "both.txt");
    assert_eq!(store.files_b[0].size_bytes, 3);
    assert_eq!(store.files_a[1].contents, Some("keep".to_string()));
    assert_eq!(store.files_b[1].contents, Some("keep".to_string()));
}

#[test]
fn contents_are_released_after_each_pair() {
    let store = FileStore::new(
        vec![scanned("/a", "1.txt"), scanned("/a", "2.txt")],
        vec![scanned("/b", "1.txt"), scanned("/b", "2.txt")],
    );
    let mut comparison = Comparison::begin(store);
    comparison.supply(Some("x".to_string()), Some("y".to_string()));
    assert!(comparison.store().files_a.iter().all(|f| f.contents.is_none()));
    assert!(comparison.store().files_b.iter().all(|f| f.contents.is_none()));
    assert_eq!(comparison.store().files_b[0].comparison_result, Some(ComparsionResult::Modified));
    assert_eq!(comparison.store().files_b[1].comparison_result, None);
    comparison.supply(Some("z".to_string()), Some("z".to_string()));
    let store = comparison.finish();
    assert!(store.files_a.iter().all(|f| f.contents.is_none()));
    assert!(store.files_b.iter().all(|f| f.contents.is_none()));
    assert_eq!(store.files_b[1].comparison_result, Some(ComparsionResult::Baseline));
}

#[test]
fn only_shared_files_are_read() {
    let store = FileStore::new(
        vec![scanned("/a", "x.txt"), scanned("/a", "y.txt"), scanned("/a", "w.txt")],
        vec![scanned("/b", "z.txt"), scanned("/b", "y.txt"), scanned("/b", "v.txt")],
    );
    let disk = [
        ("/a/x.txt", "1"),
        ("/a/y.txt", "2"),
        ("/a/w.txt", "3"),
        ("/b/z.txt", "4"),
        ("/b/y.txt", "5"),
        ("/b/v.txt", "6"),
    ];
    let (store, reads) = compare_on_disk(store, &disk);
    assert_eq!(reads, vec!["/a/y.txt", "/b/y.txt"]);
    assert_eq!(store.files_b[1].comparison_result, Some(ComparsionResult::Modified));
}

#[test]
fn comparing_twice_gives_the_same_labels() {
    let store = FileStore::new(
        vec![scanned("/a", "same.txt"), scanned("/a", "changed.txt"), scanned("/a", "gone.txt")],
        vec![scanned("/b", "changed.txt"), scanned("/b", "new.txt"), scanned("/b", "same.txt")],
    );
    let disk = [
        ("/a/same.txt", "s"),
        ("/a/changed.txt", "before"),
        ("/a/gone.txt", "g"),
        ("/b/changed.txt", "after"),
        ("/b/new.txt", "n"),
        ("/b/same.txt", "s"),
    ];
    let (store, _) = compare_on_disk(store, &disk);
    let first_a = labels(&store.files_a);
    let first_b = labels(&store.files_b);
    assert_eq!(first_b[0].1, Some(ComparsionResult::Modified));
    assert_eq!(first_b[1].1, Some(ComparsionResult::Added));
    assert_eq!(first_b[2].1, Some(ComparsionResult::Baseline));
    assert_eq!(first_a[2].1, Some(ComparsionResult::Removed));
    let (store, _) = compare_on_disk(store, &disk);
    assert_eq!(labels(&store.files_a), first_a);
    assert_eq!(labels(&store.files_b), first_b);
}

#[test]
fn two_unreadable_files_count_as_equal() {
    let store = FileStore::new(vec![scanned("/a", "bin.dat")], vec![scanned("/b", "bin.dat")]);
    let (store, reads) = compare_on_disk(store, &[]);
    assert_eq!(reads.len(), 2);
    assert_eq!(store.files_b[0].comparison_result, Some(ComparsionResult::Baseline));
    assert_eq!(store.files_a[0].comparison_result, Some(ComparsionResult::Baseline));
}

#[test]
fn records_without_contents_count_as_equal() {
    let mut store = FileStore::new(vec![scanned("/a", "f")], vec![scanned("/b", "f")]);
    store.compare_files();
    assert_eq!(store.files_b[0].comparison_result, Some(ComparsionResult::Baseline));
}

#[test]
fn one_unreadable_file_differs_from_a_readable_one() {
    let store = FileStore::new(
        vec![scanned("/a", "f"), scanned("/a", "g")],
        vec![scanned("/b", "f"), scanned("/b", "g")],
    );
    let disk = [("/a/f", ""), ("/b/g", "text")];
    let (store, _) = compare_on_disk(store, &disk);
    assert_eq!(store.files_b[0].comparison_result, Some(ComparsionResult::Modified));
    assert_eq!(store.files_b[1].comparison_result, Some(ComparsionResult::Modified));
}

#[test]
fn cached_contents_are_not_read_again() {
    let store = FileStore::new(vec![cached("/a", "f", "kept")], vec![scanned("/b", "f")]);
    let mut comparison = Comparison::begin(store);
    match comparison.pending() {
        CompareStep::Load { index_a, load_a, index_b, load_b } => {
            assert_eq!((index_a, index_b), (0, 0));
            assert!(!load_a);
            assert!(load_b);
        }
        CompareStep::Done => panic!("a pair is pending"),
    }
    comparison.supply(Some("ignored".to_string()), Some("kept".to_string()));
    assert!(matches!(comparison.pending(), CompareStep::Done));
    let store = comparison.finish();
    assert_eq!(store.files_b[0].comparison_result, Some(ComparsionResult::Baseline));
}

#[test]
fn begin_labels_up_to_the_first_pair() {
    let store = FileStore::new(
        vec![scanned("/a", "shared"), scanned("/a", "old")],
        vec![scanned("/b", "n1"), scanned("/b", "n2"), scanned("/b", "shared"), scanned("/b", "n3")],
    );
    let comparison = Comparison::begin(store);
    assert!(!comparison.is_finished());
    let store = comparison.store();
    assert_eq!(store.files_a[0].comparison_result, Some(ComparsionResult::Baseline));
    assert_eq!(store.files_a[1].comparison_result, Some(ComparsionResult::Baseline));
    assert_eq!(store.files_b[0].comparison_result, Some(ComparsionResult::Added));
    assert_eq!(store.files_b[1].comparison_result, Some(ComparsionResult::Added));
    assert_eq!(store.files_b[2].comparison_result, None);
    assert_eq!(store.files_b[3].comparison_result, None);
    assert!(matches!(
        comparison.pending(),
        CompareStep::Load { index_a: 0, load_a: true, index_b: 2, load_b: true }
    ));
}

#[test]
fn removals_are_marked_when_b_is_exhausted() {
    let store = FileStore::new(
        vec![scanned("/a", "shared"), scanned("/a", "old")],
        vec![scanned("/b", "shared"), scanned("/b", "n3")],
    );
    let mut comparison = Comparison::begin(store);
    assert_eq!(comparison.store().files_a[1].comparison_result, Some(ComparsionResult::Baseline));
    comparison.supply(Some("t".to_string()), Some("t".to_string()));
    assert!(comparison.is_finished());
    let store = comparison.finish();
    assert_eq!(store.files_a[0].comparison_result, Some(ComparsionResult::Baseline));
    assert_eq!(store.files_a[1].comparison_result, Some(ComparsionResult::Removed));
    assert_eq!(store.files_b[0].comparison_result, Some(ComparsionResult::Baseline));
    assert_eq!(store.files_b[1].comparison_result, Some(ComparsionResult::Added));
}

#[test]
fn supplying_after_the_end_changes_nothing() {
    let store = FileStore::new(vec![scanned("/a", "f")], vec![scanned("/b", "f")]);
    let mut comparison = Comparison::begin(store);
    comparison.supply(Some("1".to_string()), Some("2".to_string()));
    assert!(comparison.is_finished());
    comparison.supply(Some("same".to_string()), Some("same".to_string()));
    let store = comparison.finish();
    assert_eq!(store.files_b[0].comparison_result, Some(ComparsionResult::Modified));
    assert_eq!(store.files_b[0].contents, None);
}

#[test]
fn empty_inventories() {
    let mut store = FileStore::new(Vec::new(), Vec::new());
    store.compare_files();
    assert!(store.files_a.is_empty());
    assert!(store.files_b.is_empty());

    let mut store = FileStore::new(vec![cached("/a", "f", "x")], Vec::new());
    store.compare_files();
    assert_eq!(store.files_a[0].comparison_result, Some(ComparsionResult::Removed));
    assert_eq!(store.files_a[0].contents, Some("x".to_string()));

    let mut store = FileStore::new(Vec::new(), vec![cached("/b", "f", "x")]);
    store.compare_files();
    assert_eq!(store.files_b[0].comparison_result, Some(ComparsionResult::Added));
    assert_eq!(store.files_b[0].contents, Some("x".to_string()));
}

#[test]
fn renamed_is_never_assigned() {
    let mut store = FileStore::new(
        vec![cached("/a", "old_name.txt", "same text"), cached("/a", "kept.txt", "k")],
        vec![cached("/b", "new_name.txt", "same text"), cached("/b", "kept.txt", "k2")],
    );
    store.compare_files();
    assert_eq!(store.files_a[0].comparison_result, Some(ComparsionResult::Removed));
    assert_eq!(store.files_b[0].comparison_result, Some(ComparsionResult::Added));
    for file in store.files_a.iter().chain(store.files_b.iter()) {
        assert_ne!(file.comparison_result, Some(ComparsionResult::Renamed));
        assert_ne!(file.comparison_result, None);
    }
}

#[test]
fn earlier_labels_are_overwritten() {
    let mut a = cached("/a", "f", "x");
    a.comparison_result = Some(ComparsionResult::Removed);
    let mut b = cached("/b", "f", "x");
    b.comparison_result = Some(ComparsionResult::Added);
    let mut store = FileStore::new(vec![a], vec![b]);
    store.compare_files();
    assert_eq!(store.files_a[0].comparison_result, Some(ComparsionResult::Baseline));
    assert_eq!(store.files_b[0].comparison_result, Some(ComparsionResult::Baseline));
}

#[test]
fn repeated_path_in_a_pairs_with_its_last_record() {
    let store = FileStore::new(
        vec![cached("/a", "dup", "first"), cached("/a2", "dup", "second")],
        vec![cached("/b", "dup", "second")],
    );
    let comparison = Comparison::begin(store);
    assert!(matches!(comparison.pending(), CompareStep::Load { index_a: 1, index_b: 0, .. }));
    let mut store = comparison.finish();
    store.compare_files();
    assert_eq!(store.files_b[0].comparison_result, Some(ComparsionResult::Baseline));
    assert_eq!(store.files_a[0].comparison_result, Some(ComparsionResult::Baseline));
    assert_eq!(store.files_a[0].contents, Some("first".to_string()));
    assert_eq!(store.files_a[1].contents, None);
}

#[test]
fn same_text_compares_optional_texts() {
    assert!(same_text(&None, &None));
    assert!(same_text(&Some("a".to_string()), &Some("a".to_string())));
    assert!(same_text(&Some(String::new()), &Some(String::new())));
    assert!(!same_text(&Some("a".to_string()), &Some("b".to_string())));
    assert!(!same_text(&Some(String::new()), &None));
    assert!(!same_text(&None, &Some("a".to_string())));
}

#[test]
fn index_paths_maps_each_path_to_its_last_position() {
    let files = vec![scanned("/a", "x"), scanned("/a", "y"), scanned("/a2", "x")];
    let index = index_paths(&files);
    assert_eq!(index.len(), 2);
    assert_eq!(index.get("x"), Some(&2));
    assert_eq!(index.get("y"), Some(&1));
    assert_eq!(index.get("z"), None);
}

#[test]
fn distinct_paths_are_recognised() {
    assert!(paths_are_distinct(&Vec::new()));
    assert!(paths_are_distinct(&vec![scanned("/a", "x")]));
    assert!(paths_are_distinct(&vec![scanned("/a", "x"), scanned("/a", "y"), scanned("/a", "d/x")]));
    assert!(!paths_are_distinct(&vec![scanned("/a", "x"), scanned("/a", "y"), scanned("/a2", "x")]));
    assert!(!paths_are_distinct(&vec![scanned("/a", "x"), scanned("/a2", "x")]));
}

#[test]
fn store_with_a_repeated_path_is_not_distinct() {
    let store = FileStore::new(
        vec![scanned("/a", "x"), scanned("/a", "y")],
        vec![scanned("/b", "x"), scanned("/b", "y")],
    );
    assert!(store.paths_are_distinct());
    let store = FileStore::new(
        vec![scanned("/a", "x"), scanned("/a", "y")],
        vec![scanned("/b", "x"), scanned("/b2", "x")],
    );
    assert!(!store.paths_are_distinct());
    let store = FileStore::new(
        vec![scanned("/a", "y"), scanned("/a2", "y")],
        vec![scanned("/b", "x")],
    );
    assert!(!store.paths_are_distinct());
}
