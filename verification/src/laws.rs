//! What holds of every comparison.

use crate::compare::{
    cached_a_at, compared, distinct_paths, effective, has_path, last_with_path,
    lemma_distinct_paths, lemma_last_with_path, progress, verdict, Loaded,
};
use crate::file::{ComparsionResult, FileRecord};
use crate::filestore::StoreView;
use vstd::prelude::*;

verus! {

/// Whether two records are the same file: path, name, extension and size
/// agree.
pub open spec fn same_identity(x: FileRecord, y: FileRecord) -> bool {
    &&& x.full_path == y.full_path
    &&& x.small_path == y.small_path
    &&& x.name == y.name
    &&& x.extension == y.extension
    &&& x.size_bytes == y.size_bytes
}

/// Whether no record of either inventory has contents cached, as after a
/// scan.
pub open spec fn nothing_cached(s: StoreView) -> bool {
    &&& forall|i: int| 0 <= i < s.a.len() ==> (#[trigger] s.a[i]).contents is None
    &&& forall|j: int| 0 <= j < s.b.len() ==> (#[trigger] s.b[j]).contents is None
}

/// Two inventories whose records have the same paths, position by position,
/// hold the same paths.
pub proof fn lemma_same_paths(x: Seq<FileRecord>, y: Seq<FileRecord>, path: Seq<char>)
    requires
        x.len() == y.len(),
        forall|i: int| 0 <= i < x.len() ==> (#[trigger] x[i]).small_path == y[i].small_path,
    ensures
        has_path(x, path) == has_path(y, path),
{
    if has_path(x, path) {
        let w = choose|i: int| 0 <= i < x.len() && (#[trigger] x[i]).small_path == path;
        assert(y[w].small_path == path);
    }
    if has_path(y, path) {
        let w = choose|i: int| 0 <= i < y.len() && (#[trigger] y[i]).small_path == path;
        assert(x[w].small_path == path);
    }
}

/// A comparison neither drops nor reorders records, leaves what identifies
/// a file untouched, and gives every record one of the four labels that a
/// comparison assigns.
pub proof fn law_every_record_classified(s: StoreView, loads: Seq<Loaded>)
    ensures
        compared(s, loads).a.len() == s.a.len(),
        compared(s, loads).b.len() == s.b.len(),
        forall|i: int|
            0 <= i < s.a.len() ==> {
                let r = #[trigger] compared(s, loads).a[i];
                &&& same_identity(r, s.a[i])
                &&& r.comparison_result == Some(ComparsionResult::Baseline) || r.comparison_result
                    == Some(ComparsionResult::Removed)
            },
        forall|j: int|
            0 <= j < s.b.len() ==> {
                let r = #[trigger] compared(s, loads).b[j];
                &&& same_identity(r, s.b[j])
                &&& r.comparison_result == Some(ComparsionResult::Baseline) || r.comparison_result
                    == Some(ComparsionResult::Added) || r.comparison_result == Some(
                    ComparsionResult::Modified,
                )
            },
{
}

/// A file that only A holds is `Removed` in A, and no record of B bears its
/// path.
pub proof fn law_only_in_a_is_removed(s: StoreView, loads: Seq<Loaded>, i: int)
    requires
        0 <= i < s.a.len(),
        !has_path(s.b, s.a[i].small_path),
    ensures
        compared(s, loads).a[i].comparison_result == Some(ComparsionResult::Removed),
        !has_path(compared(s, loads).b, s.a[i].small_path),
{
    lemma_same_paths(compared(s, loads).b, s.b, s.a[i].small_path);
}

/// A file that only B holds is `Added` in B.
pub proof fn law_only_in_b_is_added(s: StoreView, loads: Seq<Loaded>, j: int)
    requires
        0 <= j < s.b.len(),
        !has_path(s.a, s.b[j].small_path),
    ensures
        compared(s, loads).b[j].comparison_result == Some(ComparsionResult::Added),
{
}

/// A file that both trees hold is `Baseline` in B if the contents the two
/// records are compared by are equal, and `Modified` in B if they differ.
/// Every record of A with its path is `Baseline` either way.
pub proof fn law_in_both(s: StoreView, loads: Seq<Loaded>, j: int)
    requires
        0 <= j < s.b.len(),
        has_path(s.a, s.b[j].small_path),
    ensures
        ({
            let contents_a = effective(cached_a_at(s, j), loads[j].a);
            let contents_b = effective(s.b[j].contents, loads[j].b);
            let label = compared(s, loads).b[j].comparison_result;
            &&& contents_a == contents_b ==> label == Some(ComparsionResult::Baseline)
            &&& contents_a != contents_b ==> label == Some(ComparsionResult::Modified)
        }),
        forall|i: int|
            0 <= i < s.a.len() && s.a[i].small_path == s.b[j].small_path ==> (#[trigger] compared(
                s,
                loads,
            ).a[i]).comparison_result == Some(ComparsionResult::Baseline),
{
    assert(has_path(s.b, s.b[j].small_path));
}

/// In inventories that name every file once, a file that both trees hold is
/// labelled in B by comparing what its two records have cached or, where a
/// record has nothing cached, what was loaded for it. Its record in A is
/// `Baseline`, and neither record keeps contents.
pub proof fn law_in_both_distinct(s: StoreView, loads: Seq<Loaded>, i: int, j: int)
    requires
        distinct_paths(s.a),
        distinct_paths(s.b),
        0 <= i < s.a.len(),
        0 <= j < s.b.len(),
        s.a[i].small_path == s.b[j].small_path,
    ensures
        ({
            let after = compared(s, loads);
            &&& after.b[j].comparison_result == Some(
                verdict(
                    effective(s.a[i].contents, loads[j].a),
                    effective(s.b[j].contents, loads[j].b),
                ),
            )
            &&& after.a[i].comparison_result == Some(ComparsionResult::Baseline)
            &&& after.a[i].contents is None
            &&& after.b[j].contents is None
        }),
{
    let path = s.b[j].small_path;
    lemma_distinct_paths(s.a);
    assert(last_with_path(s.a, s.a[i].small_path) == i);
    let earlier = s.b.take(j);
    if has_path(earlier, path) {
        let w = choose|k: int| 0 <= k < earlier.len() && (#[trigger] earlier[k]).small_path == path;
        assert(s.b[w].small_path == path);
    }
    assert(s.b.take(s.b.len() as int)[j].small_path == path);
}

/// Once a pair has been compared, neither of its two records has contents
/// cached, and what identifies each file is as it was.
pub proof fn law_contents_released(s: StoreView, loads: Seq<Loaded>, k: int, j: int)
    requires
        0 <= j < k <= s.b.len(),
        has_path(s.a, s.b[j].small_path),
    ensures
        ({
            let i = last_with_path(s.a, s.b[j].small_path);
            let now = progress(s, loads, k);
            &&& 0 <= i < s.a.len()
            &&& now.a[i].contents is None
            &&& now.b[j].contents is None
            &&& same_identity(now.a[i], s.a[i])
            &&& same_identity(now.b[j], s.b[j])
        }),
{
    let path = s.b[j].small_path;
    lemma_last_with_path(s.a, path);
    assert(s.b.take(k)[j].small_path == path);
}

/// Comparing freshly scanned inventories a second time, with every read
/// returning what it returned the first time, changes nothing.
pub proof fn law_compare_twice(s: StoreView, loads: Seq<Loaded>)
    requires
        nothing_cached(s),
    ensures
        compared(compared(s, loads), loads) == compared(s, loads),
{
    let once = compared(s, loads);
    let twice = compared(once, loads);
    let n = s.b.len() as int;
    assert(s.b.take(n) == s.b);
    assert(once.b.take(n) == once.b);
    assert forall|i: int| 0 <= i < s.a.len() implies twice.a[i] == once.a[i] by {
        lemma_same_paths(once.b, s.b, s.a[i].small_path);
        assert(s.a[i].contents is None);
    }
    assert forall|j: int| 0 <= j < s.b.len() implies twice.b[j] == once.b[j] by {
        let path = s.b[j].small_path;
        lemma_same_paths(once.a, s.a, path);
        assert(s.b[j].contents is None);
        if has_path(s.a, path) {
            lemma_last_with_path(s.a, path);
            lemma_last_with_path(once.a, path);
            assert(s.a[last_with_path(s.a, path)].contents is None);
            assert(once.a[last_with_path(once.a, path)].contents is None);
            assert(cached_a_at(s, j) is None);
            assert(cached_a_at(once, j) is None);
        }
    }
    assert(twice.a =~= once.a);
    assert(twice.b =~= once.b);
}

} // verus!
