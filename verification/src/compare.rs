//! Reconciling two inventories by relative path and by contents.
//!
//! A comparison walks the second inventory. A record whose path the first
//! inventory lacks is `Added` at once. A record whose path both hold needs
//! the contents of the two files, and those are loaded only then: the
//! comparison stops, says which pair it needs, and goes on when it is given
//! what the reads returned. When the second inventory is exhausted, every
//! record of the first whose path the second lacks becomes `Removed`.

use crate::file::{text_of, ComparsionResult, FileRecord, ScanedFile};
use crate::filestore::{records, FileStore, StoreView};
use vstd::hash_map::*;
use vstd::prelude::*;

verus! {

/// Whether some record of `files` has the relative path `path`.
pub open spec fn has_path(files: Seq<FileRecord>, path: Seq<char>) -> bool {
    exists|i: int| 0 <= i < files.len() && (#[trigger] files[i]).small_path == path
}

/// The position of the last record of `files` with the relative path
/// `path`, or -1 if there is none. Where a path occurs once, as it does in a
/// scanned inventory, this is the position of its record.
pub open spec fn last_with_path(files: Seq<FileRecord>, path: Seq<char>) -> int
    decreases files.len(),
{
    if files.len() == 0 {
        -1
    } else if files.last().small_path == path {
        files.len() - 1
    } else {
        last_with_path(files.drop_last(), path)
    }
}

/// What the two reads for one pair of files returned: the text, or `None`
/// where the file could not be read as text.
pub struct Loaded {
    pub a: Option<Seq<char>>,
    pub b: Option<Seq<char>>,
}

/// The contents a record is compared by: what it has cached, else what the
/// read returned.
pub open spec fn effective(cached: Option<Seq<char>>, loaded: Option<Seq<char>>) -> Option<
    Seq<char>,
> {
    if cached is Some {
        cached
    } else {
        loaded
    }
}

/// The label of the second file of a pair: equal contents are `Baseline`,
/// differing ones `Modified`. Two absent contents count as equal.
pub open spec fn verdict(a: Option<Seq<char>>, b: Option<Seq<char>>) -> ComparsionResult {
    if a == b {
        ComparsionResult::Baseline
    } else {
        ComparsionResult::Modified
    }
}

/// What the record in A that pairs with `s.b[j]` has cached when that pair
/// is compared: its own cache, unless an earlier record of B with the same
/// path has used and cleared it.
pub open spec fn cached_a_at(s: StoreView, j: int) -> Option<Seq<char>> {
    if has_path(s.b.take(j), s.b[j].small_path) {
        None
    } else {
        s.a[last_with_path(s.a, s.b[j].small_path)].contents
    }
}

/// The record `s.b[j]` once the comparison has dealt with it.
pub open spec fn settled_b(s: StoreView, loads: Seq<Loaded>, j: int) -> FileRecord {
    let r = s.b[j];
    if has_path(s.a, r.small_path) {
        FileRecord {
            contents: None,
            comparison_result: Some(
                verdict(
                    effective(cached_a_at(s, j), loads[j].a),
                    effective(r.contents, loads[j].b),
                ),
            ),
            ..r
        }
    } else {
        FileRecord { comparison_result: Some(ComparsionResult::Added), ..r }
    }
}

/// The record `s.a[i]` once the comparison has dealt with the first `k`
/// records of B; `closed` says whether the pass that marks removals ran.
pub open spec fn staged_a(s: StoreView, k: int, closed: bool, i: int) -> FileRecord {
    let r = s.a[i];
    FileRecord {
        contents: if i == last_with_path(s.a, r.small_path) && has_path(
            s.b.take(k),
            r.small_path,
        ) {
            None
        } else {
            r.contents
        },
        comparison_result: Some(
            if closed && !has_path(s.b, r.small_path) {
                ComparsionResult::Removed
            } else {
                ComparsionResult::Baseline
            },
        ),
        ..r
    }
}

/// The two inventories once the comparison has dealt with the first `k`
/// records of B.
pub open spec fn staged(s: StoreView, loads: Seq<Loaded>, k: int, closed: bool) -> StoreView {
    StoreView {
        a: Seq::new(s.a.len(), |i: int| staged_a(s, k, closed, i)),
        b: Seq::new(
            s.b.len(),
            |j: int|
                if j < k {
                    settled_b(s, loads, j)
                } else {
                    s.b[j]
                },
        ),
    }
}

/// The two inventories at the point where a comparison that began on `s`
/// stands before record `k` of B, having been given `loads`. Removals are
/// marked as soon as B is exhausted.
pub open spec fn progress(s: StoreView, loads: Seq<Loaded>, k: int) -> StoreView {
    staged(s, loads, k, k >= s.b.len())
}

/// The two inventories after a whole comparison of `s` in which the reads
/// for the pair of `s.b[j]` returned `loads[j]`.
pub open spec fn compared(s: StoreView, loads: Seq<Loaded>) -> StoreView {
    progress(s, loads, s.b.len() as int)
}

/// The first position from `from` on whose record in B has a partner in A,
/// or the length of B if there is none.
pub open spec fn next_pair(s: StoreView, from: int) -> int
    decreases s.b.len() - from,
{
    if from < 0 || from >= s.b.len() {
        s.b.len() as int
    } else if has_path(s.a, s.b[from].small_path) {
        from
    } else {
        next_pair(s, from + 1)
    }
}

/// `n` pairs for which nothing was loaded.
pub open spec fn no_loads(n: int) -> Seq<Loaded> {
    Seq::new(n as nat, |j: int| Loaded { a: None, b: None })
}

/// `index` maps exactly the paths of `files`, each to the position of the
/// last record that has it.
pub open spec fn indexes(index: Map<Seq<char>, usize>, files: Seq<FileRecord>) -> bool {
    forall|path: Seq<char>|
        {
            &&& index.contains_key(path) <==> #[trigger] last_with_path(files, path) >= 0
            &&& index.contains_key(path) ==> index[path] == last_with_path(files, path)
        }
}

/// `last_with_path` finds a record with the path exactly when there is one,
/// and no later record has it.
pub proof fn lemma_last_with_path(files: Seq<FileRecord>, path: Seq<char>)
    ensures
        -1 <= last_with_path(files, path) < files.len(),
        last_with_path(files, path) >= 0 ==> files[last_with_path(files, path)].small_path == path,
        forall|i: int|
            last_with_path(files, path) < i < files.len() ==> (#[trigger] files[i]).small_path
                != path,
        has_path(files, path) <==> last_with_path(files, path) >= 0,
    decreases files.len(),
{
    if files.len() > 0 && files.last().small_path != path {
        let front = files.drop_last();
        lemma_last_with_path(front, path);
        assert forall|i: int| last_with_path(files, path) < i < files.len() implies (
        #[trigger] files[i]).small_path != path by {
            if i < front.len() {
                assert(front[i] == files[i]);
            }
        }
        if has_path(files, path) {
            let w = choose|i: int| 0 <= i < files.len() && (#[trigger] files[i]).small_path == path;
            assert(front[w].small_path == path);
        }
        if last_with_path(files, path) >= 0 {
            assert(files[last_with_path(files, path)].small_path == path);
        }
    } else if files.len() > 0 {
        assert(files[files.len() - 1].small_path == path);
    }
}

/// A path occurs among the first `j + 1` records if it occurs among the
/// first `j` or is the path of record `j`.
pub proof fn lemma_has_path_take(files: Seq<FileRecord>, j: int, path: Seq<char>)
    requires
        0 <= j < files.len(),
    ensures
        has_path(files.take(j + 1), path) <==> has_path(files.take(j), path) || files[j].small_path
            == path,
        has_path(files.take(j + 1), path) ==> has_path(files, path),
{
    let shorter = files.take(j);
    let longer = files.take(j + 1);
    if has_path(longer, path) {
        let w = choose|i: int| 0 <= i < longer.len() && (#[trigger] longer[i]).small_path == path;
        assert(files[w].small_path == path);
        if w < j {
            assert(shorter[w].small_path == path);
        }
    }
    if has_path(shorter, path) {
        let w = choose|i: int| 0 <= i < shorter.len() && (#[trigger] shorter[i]).small_path == path;
        assert(longer[w].small_path == path);
    }
    if files[j].small_path == path {
        assert(longer[j].small_path == path);
    }
}

/// `next_pair` lands on a record with a partner or on the end, and passes
/// only records without one.
pub proof fn lemma_next_pair(s: StoreView, from: int)
    requires
        0 <= from <= s.b.len(),
    ensures
        from <= next_pair(s, from) <= s.b.len(),
        next_pair(s, from) < s.b.len() ==> has_path(s.a, s.b[next_pair(s, from)].small_path),
        forall|j: int| from <= j < next_pair(s, from) ==> !has_path(s.a, (#[trigger] s.b[j]).small_path),
        next_pair(s, next_pair(s, from)) == next_pair(s, from),
    decreases s.b.len() - from,
{
    if from < s.b.len() && !has_path(s.a, s.b[from].small_path) {
        lemma_next_pair(s, from + 1);
    }
}

/// Whether no two records of `files` have the same relative path. It holds
/// of the inventory of a tree, where a path names one file.
pub open spec fn distinct_paths(files: Seq<FileRecord>) -> bool {
    forall|i: int, j: int|
        0 <= i < j < files.len() ==> (#[trigger] files[i]).small_path != (
        #[trigger] files[j]).small_path
}

/// Paths are distinct exactly when every record is the last with its path.
pub proof fn lemma_distinct_paths(files: Seq<FileRecord>)
    ensures
        distinct_paths(files) <==> forall|i: int|
            0 <= i < files.len() ==> last_with_path(files, (#[trigger] files[i]).small_path) == i,
{
    if distinct_paths(files) {
        assert forall|i: int| 0 <= i < files.len() implies last_with_path(
            files,
            (#[trigger] files[i]).small_path,
        ) == i by {
            lemma_last_with_path(files, files[i].small_path);
        }
    }
    if forall|i: int|
        0 <= i < files.len() ==> last_with_path(files, (#[trigger] files[i]).small_path) == i {
        assert forall|i: int, j: int| 0 <= i < j < files.len() implies (
        #[trigger] files[i]).small_path != (#[trigger] files[j]).small_path by {
            if files[i].small_path == files[j].small_path {
                assert(last_with_path(files, files[i].small_path) == i);
                assert(last_with_path(files, files[j].small_path) == j);
            }
        }
    }
}

/// Whether two optional texts are the same: both absent, or both present
/// and equal character for character.
pub fn same_text(a: &Option<String>, b: &Option<String>) -> (same: bool)
    ensures
        same == (text_of(*a) == text_of(*b)),
{
    match (a, b) {
        (Some(x), Some(y)) => *x == *y,
        (None, None) => true,
        _ => false,
    }
}

/// A lookup from each relative path in `files` to the position of the last
/// record that has it.
pub fn index_paths(files: &Vec<ScanedFile>) -> (index: StringHashMap<usize>)
    ensures
        indexes(index@, records(files@)),
{
    let ghost all = records(files@);
    let mut index: StringHashMap<usize> = StringHashMap::new();
    let mut i: usize = 0;
    while i < files.len()
        invariant
            i <= files.len(),
            all == records(files@),
            indexes(index@, all.take(i as int)),
        decreases files.len() - i,
    {
        let ghost before = index@;
        index.insert(files[i].small_path.clone(), i);
        proof {
            let path_i = all[i as int].small_path;
            assert(all.take(i + 1).drop_last() == all.take(i as int));
            assert forall|path: Seq<char>|
                {
                    &&& index@.contains_key(path) <==> #[trigger] last_with_path(
                        all.take(i + 1),
                        path,
                    ) >= 0
                    &&& index@.contains_key(path) ==> index@[path] == last_with_path(
                        all.take(i + 1),
                        path,
                    )
                } by {
                if path != path_i {
                    assert(before.contains_key(path) <==> last_with_path(all.take(i as int), path)
                        >= 0);
                }
            }
        }
        i = i + 1;
    }
    proof {
        assert(all.take(files.len() as int) == all);
    }
    index
}

/// Whether no two records of `files` have the same relative path.
pub fn paths_are_distinct(files: &Vec<ScanedFile>) -> (distinct: bool)
    ensures
        distinct == distinct_paths(records(files@)),
{
    let ghost all = records(files@);
    let index = index_paths(files);
    let mut i: usize = 0;
    while i < files.len()
        invariant
            i <= files.len(),
            all == records(files@),
            indexes(index@, all),
            forall|k: int| 0 <= k < i ==> last_with_path(all, (#[trigger] all[k]).small_path) == k,
        decreases files.len() - i,
    {
        proof {
            lemma_last_with_path(all, all[i as int].small_path);
            lemma_distinct_paths(all);
        }
        match index.get(files[i].small_path.as_str()) {
            Some(at) => {
                if *at != i {
                    return false;
                }
            },
            None => {
                return false;
            },
        }
        i = i + 1;
    }
    proof {
        lemma_distinct_paths(all);
    }
    true
}

/// What a comparison asks of its caller next.
#[derive(Debug, Clone, Copy, PartialEq, Eq, Structural)]
pub enum CompareStep {
    /// The files at `index_a` in A and `index_b` in B have the same relative
    /// path. Where `load_a` is set, the file in A has nothing cached and is to
    /// be read; likewise `load_b`.
    Load { index_a: usize, load_a: bool, index_b: usize, load_b: bool },
    /// Every record is classified.
    Done,
}

/// A comparison in progress. It owns the two inventories until `finish`
/// hands them back.
pub struct Comparison {
    store: FileStore,
    lookup: StringHashMap<usize>,
    cursor: usize,
    origin: Ghost<StoreView>,
    loads: Ghost<Seq<Loaded>>,
}

impl Comparison {
    /// The two inventories as they were when the comparison began.
    pub closed spec fn origin(&self) -> StoreView {
        self.origin@
    }

    /// What has been loaded so far, by position in B. A record for which
    /// nothing was asked has `None` twice.
    pub closed spec fn loads(&self) -> Seq<Loaded> {
        self.loads@
    }

    /// How many records of B the comparison has dealt with.
    pub closed spec fn position(&self) -> int {
        self.cursor as int
    }

    /// The two inventories as they are now.
    pub closed spec fn current(&self) -> StoreView {
        self.store@
    }

    /// The lookup is the index of A's paths, and no record came or went.
    pub closed spec fn indexed(&self) -> bool {
        &&& indexes(self.lookup@, self.origin@.a)
        &&& self.store.files_a@.len() == self.origin@.a.len()
        &&& self.store.files_b@.len() == self.origin@.b.len()
    }

    /// Whether every record is classified.
    pub open spec fn is_done(&self) -> bool {
        self.position() >= self.origin().b.len()
    }

    /// The comparison either waits for the contents of a pair or is done,
    /// and the inventories are what the loads given so far make of those it
    /// began with.
    pub open spec fn wf(&self) -> bool {
        &&& self.indexed()
        &&& 0 <= self.position() <= self.origin().b.len()
        &&& self.loads().len() == self.position()
        &&& self.position() == next_pair(self.origin(), self.position())
        &&& self.current() == progress(self.origin(), self.loads(), self.position())
    }

    /// Whether the state holds between two records, before removals are
    /// marked.
    spec fn between(&self) -> bool {
        &&& self.indexed()
        &&& self.cursor <= self.origin@.b.len()
        &&& self.loads@.len() == self.cursor
        &&& self.store@ == staged(self.origin@, self.loads@, self.cursor as int, false)
    }

    /// Begins a comparison: every record of A is `Baseline` for now, and the
    /// records of B up to the first one with a partner in A are `Added`.
    pub fn begin(store: FileStore) -> (c: Comparison)
        ensures
            c.wf(),
            c.origin() == store@,
            c.position() == next_pair(store@, 0),
            c.loads() == no_loads(c.position()),
    {
        let ghost origin = store@;
        let mut store = store;
        let lookup = index_paths(&store.files_a);
        let mut i: usize = 0;
        while i < store.files_a.len()
            invariant
                i <= store.files_a.len() == origin.a.len(),
                indexes(lookup@, origin.a),
                records(store.files_b@) == origin.b,
                forall|k: int|
                    0 <= k < i ==> (#[trigger] store.files_a@[k])@ == staged_a(origin, 0, false, k),
                forall|k: int| i <= k < origin.a.len() ==> (#[trigger] store.files_a@[k])@ == origin.a[k],
            decreases store.files_a.len() - i,
        {
            store.files_a[i].set_comparison_result(ComparsionResult::Baseline);
            proof {
                assert(origin.b.take(0).len() == 0);
            }
            i = i + 1;
        }
        let mut c = Comparison {
            store,
            lookup,
            cursor: 0,
            origin: Ghost(origin),
            loads: Ghost(Seq::empty()),
        };
        proof {
            assert(c.store@.a =~= staged(origin, c.loads@, 0, false).a);
            assert(c.store@.b =~= staged(origin, c.loads@, 0, false).b);
        }
        c.advance();
        c
    }

    /// Labels the records of B from the cursor on as `Added` until one has a
    /// partner in A; at the end of B, marks the removals in A.
    fn advance(&mut self)
        requires
            old(self).between(),
        ensures
            final(self).wf(),
            final(self).origin() == old(self).origin(),
            final(self).position() == next_pair(old(self).origin(), old(self).position()),
            final(self).loads() == old(self).loads() + no_loads(
                final(self).position() - old(self).position(),
            ),
    {
        let ghost origin = self.origin@;
        let ghost start = self.cursor as int;
        let ghost loads0 = self.loads@;
        let len_b = self.store.files_b.len();
        let mut waiting = false;
        proof {
            assert(self.loads@ =~= loads0 + no_loads(0));
        }
        while !waiting && self.cursor < len_b
            invariant
                self.between(),
                self.origin@ == origin,
                len_b == origin.b.len(),
                start <= self.cursor <= len_b,
                next_pair(origin, self.cursor as int) == next_pair(origin, start),
                self.loads@ == loads0 + no_loads(self.cursor - start),
                waiting ==> self.cursor < len_b && has_path(
                    origin.a,
                    origin.b[self.cursor as int].small_path,
                ),
            decreases len_b - self.cursor + if waiting { 0int } else { 1int },
        {
            let j = self.cursor;
            let ghost path = origin.b[j as int].small_path;
            proof {
                lemma_last_with_path(origin.a, path);
                assert(self.store@.b[j as int] == self.store.files_b@[j as int]@);
            }
            if self.lookup.contains_key(self.store.files_b[j].small_path.as_str()) {
                waiting = true;
            } else {
                let ghost before = self.store@;
                let ghost loads = self.loads@;
                self.store.files_b[j].set_comparison_result(ComparsionResult::Added);
                self.cursor = j + 1;
                self.loads = Ghost(loads.push(Loaded { a: None, b: None }));
                proof {
                    let after = staged(origin, self.loads@, j + 1, false);
                    assert forall|i: int| 0 <= i < origin.a.len() implies staged_a(
                        origin,
                        j + 1,
                        false,
                        i,
                    ) == staged_a(origin, j as int, false, i) by {
                        lemma_has_path_take(origin.b, j as int, origin.a[i].small_path);
                        assert(has_path(origin.a, origin.a[i].small_path));
                    }
                    assert(self.store@.a =~= before.a);
                    assert(self.store@.a =~= after.a);
                    assert forall|n: int| 0 <= n < origin.b.len() implies (
                    #[trigger] self.store@.b[n]) == after.b[n] by {
                        assert(self.store@.b[n] == self.store.files_b@[n]@);
                        assert(before.b[n] == staged(origin, loads, j as int, false).b[n]);
                    }
                    assert(self.store@.b =~= after.b);
                    assert(self.loads@ =~= loads0 + no_loads(self.cursor - start));
                }
            }
        }
        proof {
            lemma_next_pair(origin, self.cursor as int);
            lemma_next_pair(origin, start);
        }
        if self.cursor >= len_b {
            self.close();
        }
    }

    /// Marks as `Removed` every record of A whose path B lacks.
    fn close(&mut self)
        requires
            old(self).between(),
            old(self).cursor == old(self).origin@.b.len(),
        ensures
            final(self).indexed(),
            final(self).origin@ == old(self).origin@,
            final(self).loads@ == old(self).loads@,
            final(self).cursor == old(self).cursor,
            final(self).store@ == staged(
                old(self).origin@,
                old(self).loads@,
                old(self).cursor as int,
                true,
            ),
    {
        let ghost origin = self.origin@;
        let ghost loads = self.loads@;
        let ghost k = self.cursor as int;
        let in_b = index_paths(&self.store.files_b);
        let mut i: usize = 0;
        proof {
            assert forall|n: int| 0 <= n < origin.a.len() implies (
            #[trigger] self.store.files_a@[n])@ == staged_a(origin, k, false, n) by {
                assert(self.store@.a[n] == self.store.files_a@[n]@);
            }
        }
        while i < self.store.files_a.len()
            invariant
                i <= self.store.files_a.len() == origin.a.len(),
                self.origin@ == origin,
                self.loads@ == loads,
                self.cursor == k,
                self.indexed(),
                records(self.store.files_b@) == staged(origin, loads, k, false).b,
                indexes(in_b@, staged(origin, loads, k, false).b),
                forall|n: int|
                    0 <= n < i ==> (#[trigger] self.store.files_a@[n])@ == staged_a(origin, k, true, n),
                forall|n: int|
                    i <= n < origin.a.len() ==> (#[trigger] self.store.files_a@[n])@ == staged_a(
                        origin,
                        k,
                        false,
                        n,
                    ),
            decreases self.store.files_a.len() - i,
        {
            let ghost path = origin.a[i as int].small_path;
            proof {
                let now_b = staged(origin, loads, k, false).b;
                lemma_last_with_path(now_b, path);
                if has_path(now_b, path) {
                    let w = choose|j: int| 0 <= j < now_b.len() && (#[trigger] now_b[j]).small_path == path;
                    assert(origin.b[w].small_path == path);
                }
                if has_path(origin.b, path) {
                    let w = choose|j: int|
                        0 <= j < origin.b.len() && (#[trigger] origin.b[j]).small_path == path;
                    assert(now_b[w].small_path == path);
                }
            }
            if !in_b.contains_key(self.store.files_a[i].small_path.as_str()) {
                self.store.files_a[i].set_comparison_result(ComparsionResult::Removed);
            }
            i = i + 1;
        }
        proof {
            assert(self.store@.a =~= staged(origin, loads, k, true).a);
            assert(self.store@.b =~= staged(origin, loads, k, true).b);
        }
    }

    /// What the comparison needs next.
    pub fn pending(&self) -> (step: CompareStep)
        requires
            self.wf(),
        ensures
            match step {
                CompareStep::Done => self.is_done(),
                CompareStep::Load { index_a, load_a, index_b, load_b } => {
                    &&& !self.is_done()
                    &&& index_b == self.position()
                    &&& index_a == last_with_path(
                        self.origin().a,
                        self.origin().b[self.position()].small_path,
                    )
                    &&& index_a < self.origin().a.len()
                    &&& load_a == (self.current().a[index_a as int].contents is None)
                    &&& load_b == (self.current().b[index_b as int].contents is None)
                },
            },
    {
        if self.cursor >= self.store.files_b.len() {
            return CompareStep::Done;
        }
        let index_b = self.cursor;
        proof {
            let path = self.origin@.b[index_b as int].small_path;
            lemma_next_pair(self.origin@, index_b as int);
            lemma_last_with_path(self.origin@.a, path);
            assert(self.store@.b[index_b as int] == self.store.files_b@[index_b as int]@);
        }
        match self.lookup.get(self.store.files_b[index_b].small_path.as_str()) {
            Some(found) => {
                let index_a = *found;
                proof {
                    assert(self.store@.a[index_a as int] == self.store.files_a@[index_a as int]@);
                }
                CompareStep::Load {
                    index_a,
                    load_a: self.store.files_a[index_a].contents.is_none(),
                    index_b,
                    load_b: self.store.files_b[index_b].contents.is_none(),
                }
            },
            None => CompareStep::Done,
        }
    }

    /// Settles the pending pair with what the two reads returned, and moves
    /// on to the next pair. A file that has contents cached is compared by
    /// those, whatever was loaded for it. The record in B becomes `Baseline`
    /// if the two contents are equal and `Modified` if not; the contents of
    /// both records are cleared. Does nothing once the comparison is done.
    pub fn supply(&mut self, loaded_a: Option<String>, loaded_b: Option<String>)
        requires
            old(self).wf(),
        ensures
            final(self).wf(),
            final(self).origin() == old(self).origin(),
            old(self).is_done() ==> {
                &&& final(self).position() == old(self).position()
                &&& final(self).loads() == old(self).loads()
            },
            !old(self).is_done() ==> {
                &&& final(self).position() == next_pair(old(self).origin(), old(self).position() + 1)
                &&& final(self).loads() == old(self).loads().push(
                    Loaded { a: text_of(loaded_a), b: text_of(loaded_b) },
                ) + no_loads(final(self).position() - old(self).position() - 1)
            },
    {
        let ghost origin = self.origin@;
        let ghost loads = self.loads@;
        let ghost before = self.store@;
        let ghost given = Loaded { a: text_of(loaded_a), b: text_of(loaded_b) };
        if self.cursor >= self.store.files_b.len() {
            return;
        }
        let j = self.cursor;
        let ghost path = origin.b[j as int].small_path;
        proof {
            lemma_next_pair(origin, j as int);
            lemma_last_with_path(origin.a, path);
            assert(before.b[j as int] == self.store.files_b@[j as int]@);
        }
        let i = match self.lookup.get(self.store.files_b[j].small_path.as_str()) {
            Some(found) => *found,
            None => { return; },
        };
        proof {
            assert(before.a[i as int] == self.store.files_a@[i as int]@);
            assert(origin.a[i as int].small_path == path);
        }
        if self.store.files_a[i].contents.is_none() {
            self.store.files_a[i].read_contents(loaded_a);
        }
        if self.store.files_b[j].contents.is_none() {
            self.store.files_b[j].read_contents(loaded_b);
        }
        if same_text(&self.store.files_a[i].contents, &self.store.files_b[j].contents) {
            self.store.files_b[j].set_comparison_result(ComparsionResult::Baseline);
        } else {
            self.store.files_b[j].set_comparison_result(ComparsionResult::Modified);
        }
        self.store.files_a[i].clear_contents();
        self.store.files_b[j].clear_contents();
        self.cursor = j + 1;
        self.loads = Ghost(loads.push(given));
        proof {
            let after = staged(origin, self.loads@, j + 1, false);
            assert(origin.b.take(j + 1)[j as int].small_path == path);
            assert forall|n: int| 0 <= n < origin.a.len() implies (#[trigger] self.store@.a[n])
                == after.a[n] by {
                lemma_has_path_take(origin.b, j as int, origin.a[n].small_path);
                assert(self.store@.a[n] == self.store.files_a@[n]@);
                assert(before.a[n] == staged_a(origin, j as int, false, n));
            }
            assert(self.store@.a =~= after.a);
            assert forall|n: int| 0 <= n < origin.b.len() implies (#[trigger] self.store@.b[n])
                == after.b[n] by {
                assert(self.store@.b[n] == self.store.files_b@[n]@);
                assert(before.b[n] == staged(origin, loads, j as int, false).b[n]);
            }
            assert(self.store@.b =~= after.b);
        }
        self.advance();
        proof {
            assert(self.loads@ =~= loads.push(given) + no_loads(self.cursor - j - 1));
        }
    }

    /// Whether every record is classified.
    pub fn is_finished(&self) -> (done: bool)
        requires
            self.wf(),
        ensures
            done == self.is_done(),
    {
        self.cursor >= self.store.files_b.len()
    }

    /// The two inventories as they are now.
    pub fn store(&self) -> (store: &FileStore)
        ensures
            store@ == self.current(),
    {
        &self.store
    }

    /// Ends the comparison and hands the two inventories back. After a
    /// comparison that ran to its end they are compared in full.
    pub fn finish(self) -> (store: FileStore)
        ensures
            store@ == self.current(),
            self.wf() && self.is_done() ==> store@ == compared(self.origin(), self.loads()),
    {
        self.store
    }
}

} // verus!
