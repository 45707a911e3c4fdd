//! A directory tree as a value, and what a walk of it finds.
//!
//! The scanner sees a tree one listing at a time. This module says what the
//! listings add up to: the inventory of a tree is defined by recursion on
//! the tree, and a walk that is fed what the tree holds is shown to end
//! with exactly that inventory.

use crate::compare::distinct_paths;
use crate::file::{fresh_record, FileRecord};
use crate::path::{
    dot, has_file_name, joined, lemma_final_segment_of_joined, lemma_joined_stays_under,
    lemma_leading_separators, lemma_without_leading_separators, relative_to, separator,
};
use crate::scanner::{
    all_recorded, as_recorded, contributed, drain, recorded_for, EntryKind, EntryView,
    Pending,
};
use vstd::prelude::*;

verus! {

/// What stands under one name in a directory.
pub enum Tree {
    /// A regular file; `size` is `None` where its metadata cannot be read.
    File { name: Seq<char>, size: Option<u64> },
    /// A directory; `listing` is `None` where it cannot be listed.
    Directory { name: Seq<char>, listing: Option<Seq<Tree>> },
    /// Neither of the two.
    Other { name: Seq<char> },
}

impl Tree {
    /// The name under which the node stands in its directory.
    pub open spec fn name(self) -> Seq<char> {
        match self {
            Tree::File { name, .. } => name,
            Tree::Directory { name, .. } => name,
            Tree::Other { name } => name,
        }
    }

    /// What a listing of the directory says the node is.
    pub open spec fn kind(self) -> EntryKind {
        match self {
            Tree::File { size, .. } => EntryKind::File { size },
            Tree::Directory { .. } => EntryKind::Directory,
            Tree::Other { .. } => EntryKind::Other,
        }
    }

    /// The node as an entry of a listing.
    pub open spec fn entry(self) -> EntryView {
        EntryView { name: self.name(), kind: self.kind() }
    }
}

/// What listing a directory gives, given what the tree holds for it.
pub open spec fn listing_of(held: Option<Seq<Tree>>) -> Option<Seq<EntryView>> {
    match held {
        Some(nodes) => Some(Seq::new(nodes.len(), |i: int| nodes[i].entry())),
        None => None,
    }
}

/// A node that a walk has yet to deal with, under its full path.
pub struct Visit {
    pub path: Seq<char>,
    pub node: Tree,
}

impl Visit {
    /// What the scanner knows of the visit: path and kind.
    pub open spec fn pending(self) -> Pending {
        Pending { path: self.path, kind: self.node.kind() }
    }
}

/// The records that dealing with `visit` adds: for a directory that can be
/// listed the inventory of its nodes, for anything else what the scanner
/// records for it.
pub open spec fn yield_of(root: Seq<char>, visit: Visit) -> Seq<FileRecord>
    decreases visit.node,
{
    match visit.node {
        Tree::Directory { listing: Some(inner), .. } => inventory(root, visit.path, inner),
        Tree::Directory { listing: None, .. } => Seq::empty(),
        _ => recorded_for(root, visit.pending()),
    }
}

/// The inventory of the nodes `nodes` of the directory `dir`, on a walk
/// from `root`: what each node yields, node by node in their order.
pub open spec fn inventory(root: Seq<char>, dir: Seq<char>, nodes: Seq<Tree>) -> Seq<FileRecord>
    decreases nodes,
{
    if nodes.len() == 0 {
        Seq::empty()
    } else {
        yield_of(root, Visit { path: joined(dir, nodes[0].name()), node: nodes[0] }) + inventory(
            root,
            dir,
            nodes.skip(1),
        )
    }
}

/// The nodes of the directory `dir` as things to deal with.
pub open spec fn visits(dir: Seq<char>, held: Option<Seq<Tree>>) -> Seq<Visit> {
    match held {
        Some(nodes) => Seq::new(
            nodes.len(),
            |i: int| Visit { path: joined(dir, nodes[i].name()), node: nodes[i] },
        ),
        None => Seq::empty(),
    }
}

/// What the scanner knows of `work`.
pub open spec fn pendings(work: Seq<Visit>) -> Seq<Pending> {
    Seq::new(work.len(), |i: int| work[i].pending())
}

/// The records that dealing with all of `work` adds, in order.
pub open spec fn remaining(root: Seq<char>, work: Seq<Visit>) -> Seq<FileRecord>
    decreases work.len(),
{
    if work.len() == 0 {
        Seq::empty()
    } else {
        yield_of(root, work[0]) + remaining(root, work.skip(1))
    }
}

/// The number of directories that `node` is or holds, at every level.
pub open spec fn directories_of(node: Tree) -> nat
    decreases node,
{
    match node {
        Tree::Directory { listing: Some(inner), .. } => 1 + directories_in(inner),
        Tree::Directory { listing: None, .. } => 1,
        _ => 0,
    }
}

/// The number of directories among `nodes` and below them.
pub open spec fn directories_in(nodes: Seq<Tree>) -> nat
    decreases nodes,
{
    if nodes.len() == 0 {
        0
    } else {
        directories_of(nodes[0]) + directories_in(nodes.skip(1))
    }
}

/// The number of directories that a walk with `work` before it has yet to
/// list.
pub open spec fn listings_left(work: Seq<Visit>) -> nat
    decreases work.len(),
{
    if work.len() == 0 {
        0
    } else {
        directories_of(work[0].node) + listings_left(work.skip(1))
    }
}

/// The walk from the state in which `found` is found and `work` is left,
/// carried on for `steps` listings, each of which gives what the tree
/// holds for the directory listed. Each step is the step of the scanner.
/// Gives what is found and what is left at the end.
pub open spec fn walk(root: Seq<char>, found: Seq<FileRecord>, work: Seq<Visit>, steps: nat) -> (
    Seq<FileRecord>,
    Seq<Visit>,
)
    decreases steps,
{
    if steps == 0 || work.len() == 0 || !(work[0].node is Directory) {
        (found, work)
    } else {
        let held = work[0].node->listing;
        let fed = visits(work[0].path, held) + work.skip(1);
        let (found2, todo2) = drain(
            root,
            found,
            contributed(pendings(work)[0].path, listing_of(held)) + pendings(work).skip(1),
        );
        walk(root, found2, fed.skip(fed.len() - todo2.len()), (steps - 1) as nat)
    }
}

/// What remains of two stretches of work is what remains of the first, then
/// of the second; and likewise the listings left.
pub proof fn lemma_remaining_concat(root: Seq<char>, x: Seq<Visit>, y: Seq<Visit>)
    ensures
        remaining(root, x + y) == remaining(root, x) + remaining(root, y),
        listings_left(x + y) == listings_left(x) + listings_left(y),
    decreases x.len(),
{
    if x.len() == 0 {
        assert(x + y =~= y);
        assert(remaining(root, x) + remaining(root, y) =~= remaining(root, y));
    } else {
        assert((x + y).skip(1) =~= x.skip(1) + y);
        assert((x + y)[0] == x[0]);
        lemma_remaining_concat(root, x.skip(1), y);
        assert(remaining(root, x + y) =~= remaining(root, x) + remaining(root, y));
    }
}

/// What remains of the nodes of a directory is the directory's inventory,
/// and the listings left are the directories among the nodes.
pub proof fn lemma_remaining_of_visits(root: Seq<char>, dir: Seq<char>, nodes: Seq<Tree>)
    ensures
        remaining(root, visits(dir, Some(nodes))) == inventory(root, dir, nodes),
        listings_left(visits(dir, Some(nodes))) == directories_in(nodes),
    decreases nodes.len(),
{
    let work = visits(dir, Some(nodes));
    if nodes.len() > 0 {
        assert(work.skip(1) =~= visits(dir, Some(nodes.skip(1))));
        lemma_remaining_of_visits(root, dir, nodes.skip(1));
    }
}

/// Draining records exactly what the leading nodes of `work` yield, none of
/// them a directory, and stops before the first directory.
pub proof fn lemma_drain_keeps_total(root: Seq<char>, found: Seq<FileRecord>, work: Seq<Visit>)
    ensures
        ({
            let (found2, todo2) = drain(root, found, pendings(work));
            let work2 = work.skip(work.len() - todo2.len());
            &&& todo2.len() <= work.len()
            &&& todo2 == pendings(work2)
            &&& work2.len() > 0 ==> work2[0].node is Directory
            &&& found2 + remaining(root, work2) == found + remaining(root, work)
            &&& listings_left(work2) == listings_left(work)
        }),
    decreases work.len(),
{
    let todo = pendings(work);
    if work.len() == 0 || work[0].node is Directory {
        assert(work.skip(0) =~= work);
    } else {
        let later = work.skip(1);
        let found1 = found + recorded_for(root, todo[0]);
        assert(todo.skip(1) =~= pendings(later));
        lemma_drain_keeps_total(root, found1, later);
        let (found2, todo2) = drain(root, found1, pendings(later));
        assert(later.skip(later.len() - todo2.len()) =~= work.skip(work.len() - todo2.len()));
        assert(found1 + remaining(root, later) =~= found + remaining(root, work));
    }
}

/// A walk that begins at `root` has the inventory of the tree under `root`
/// before it.
pub proof fn law_walk_begins_with_all(root: Seq<char>, name: Seq<char>, held: Option<Seq<Tree>>)
    ensures
        ({
            let start = seq![Visit { path: root, node: Tree::Directory { name, listing: held } }];
            &&& pendings(start) == seq![Pending { path: root, kind: EntryKind::Directory }]
            &&& remaining(root, start) == match held {
                Some(nodes) => inventory(root, root, nodes),
                None => Seq::empty(),
            }
        }),
{
    let start = seq![Visit { path: root, node: Tree::Directory { name, listing: held } }];
    assert(pendings(start) =~= seq![Pending { path: root, kind: EntryKind::Directory }]);
    assert(start.skip(1).len() == 0);
    assert(remaining(root, start.skip(1)) =~= Seq::<FileRecord>::empty());
    assert(remaining(root, start) =~= yield_of(root, start[0]));
}

/// Feeding the scanner what the tree holds for the directory it waits for
/// keeps the end of the walk fixed: the records found so far, followed by
/// those the work still to do yields, are the same before and after, and
/// one listing fewer is left. The scanner then waits for a directory of the
/// tree again, or the walk is over and what it found is all there was to
/// find.
pub proof fn law_feed_follows_tree(root: Seq<char>, found: Seq<FileRecord>, work: Seq<Visit>)
    requires
        work.len() > 0,
        work[0].node is Directory,
    ensures
        ({
            let (found2, work2) = walk(root, found, work, 1);
            &&& drain(
                root,
                found,
                contributed(pendings(work)[0].path, listing_of(work[0].node->listing)) + pendings(
                    work,
                ).skip(1),
            ) == (found2, pendings(work2))
            &&& work2.len() > 0 ==> work2[0].node is Directory
            &&& found2 + remaining(root, work2) == found + remaining(root, work)
            &&& listings_left(work2) + 1 == listings_left(work)
            &&& work2.len() == 0 ==> found2 == found + remaining(root, work)
        }),
{
    let held = work[0].node->listing;
    let fed = visits(work[0].path, held) + work.skip(1);
    assert(contributed(pendings(work)[0].path, listing_of(held)) + pendings(work).skip(1)
        =~= pendings(fed));
    lemma_drain_keeps_total(root, found, fed);
    lemma_remaining_concat(root, visits(work[0].path, held), work.skip(1));
    if held is Some {
        lemma_remaining_of_visits(root, work[0].path, held->0);
    }
    let (found2, todo2) = drain(root, found, pendings(fed));
    let work2 = fed.skip(fed.len() - todo2.len());
    assert(walk(root, found2, work2, 0) == (found2, work2));
    if work2.len() == 0 {
        assert(found2 + remaining(root, work2) =~= found2);
    }
}

/// A walk that is fed what the tree holds, for as many listings as are
/// left, is over and has found what it had found before, followed by all
/// that the work before it yields.
pub proof fn lemma_walk_ends(root: Seq<char>, found: Seq<FileRecord>, work: Seq<Visit>)
    requires
        work.len() > 0 ==> work[0].node is Directory,
    ensures
        walk(root, found, work, listings_left(work)) == (
            found + remaining(root, work),
            Seq::<Visit>::empty(),
        ),
    decreases listings_left(work),
{
    if work.len() == 0 {
        assert(found + remaining(root, work) =~= found);
        assert(work =~= Seq::<Visit>::empty());
    } else {
        let held = work[0].node->listing;
        let fed = visits(work[0].path, held) + work.skip(1);
        let (found2, todo2) = drain(
            root,
            found,
            contributed(pendings(work)[0].path, listing_of(held)) + pendings(work).skip(1),
        );
        let work2 = fed.skip(fed.len() - todo2.len());
        let steps = listings_left(work);
        assert(directories_of(work[0].node) >= 1);
        assert(walk(root, found2, work2, 0) == (found2, work2));
        assert(walk(root, found, work, 1) == (found2, work2));
        assert(walk(root, found, work, steps) == walk(root, found2, work2, (steps - 1) as nat));
        law_feed_follows_tree(root, found, work);
        lemma_walk_ends(root, found2, work2);
    }
}

/// Every record of an inventory is as a walk records it: its relative path
/// is its full path with the root removed, its name is the final segment of
/// its path, nothing is loaded and no label is set.
pub proof fn law_inventory_records(root: Seq<char>, dir: Seq<char>, nodes: Seq<Tree>)
    requires
        relative_to(dir, root) is Some,
    ensures
        all_recorded(root, inventory(root, dir, nodes)),
    decreases nodes,
{
    if nodes.len() > 0 {
        let below = joined(dir, nodes[0].name());
        let first = yield_of(root, Visit { path: below, node: nodes[0] });
        let rest = inventory(root, dir, nodes.skip(1));
        lemma_joined_stays_under(root, dir, nodes[0].name());
        if let Tree::Directory { listing: Some(inner), .. } = nodes[0] {
            law_inventory_records(root, below, inner);
        }
        law_inventory_records(root, dir, nodes.skip(1));
        assert forall|i: int| 0 <= i < inventory(root, dir, nodes).len() implies as_recorded(
            root,
            #[trigger] inventory(root, dir, nodes)[i],
        ) by {
            if i < first.len() {
                assert(inventory(root, dir, nodes)[i] == first[i]);
            } else {
                assert(inventory(root, dir, nodes)[i] == rest[i - first.len()]);
            }
        }
    }
}

/// A name as a directory holds it: not empty, without a separator, and
/// neither `.` nor `..`.
pub open spec fn plain(name: Seq<char>) -> bool {
    &&& name.len() > 0
    &&& forall|i: int| 0 <= i < name.len() ==> name[i] != separator()
    &&& name != seq![dot()]
    &&& name != seq![dot(), dot()]
}

/// Whether `nodes` are as a file system holds them: every name is plain and
/// stands once in its directory, at every level.
pub open spec fn tidy(nodes: Seq<Tree>) -> bool
    decreases nodes,
{
    if nodes.len() == 0 {
        true
    } else {
        &&& plain(nodes[0].name())
        &&& forall|j: int| 1 <= j < nodes.len() ==> (#[trigger] nodes[j]).name() != nodes[0].name()
        &&& match nodes[0] {
            Tree::Directory { listing: Some(inner), .. } => tidy(inner),
            _ => true,
        }
        &&& tidy(nodes.skip(1))
    }
}

/// Each of `paths` behind the directory name `name`.
pub open spec fn inside(name: Seq<char>, paths: Seq<Seq<char>>) -> Seq<Seq<char>> {
    Seq::new(paths.len(), |i: int| name + seq![separator()] + paths[i])
}

/// The paths, relative to the directory that holds `node`, of the files
/// that a walk records for `node`.
pub open spec fn paths_of(node: Tree) -> Seq<Seq<char>>
    decreases node,
{
    match node {
        Tree::File { name, size: Some(_) } => seq![name],
        Tree::Directory { name, listing: Some(inner) } => inside(name, inner_paths(inner)),
        _ => Seq::empty(),
    }
}

/// The paths, relative to their directory, of the files that a walk of
/// `nodes` records, in the order of the walk: the names from the directory
/// down to the file, with separators between them. There is one for every
/// regular file of known size that the walk can reach.
pub open spec fn inner_paths(nodes: Seq<Tree>) -> Seq<Seq<char>>
    decreases nodes,
{
    if nodes.len() == 0 {
        Seq::empty()
    } else {
        paths_of(nodes[0]) + inner_paths(nodes.skip(1))
    }
}

/// Whether `path` begins with the segment `name`.
pub open spec fn begins_with(path: Seq<char>, name: Seq<char>) -> bool {
    &&& name.is_prefix_of(path)
    &&& path.len() == name.len() || path[name.len() as int] == separator()
}

/// A path begins with one plain name only.
pub proof fn lemma_one_first_segment(path: Seq<char>, x: Seq<char>, y: Seq<char>)
    requires
        plain(x),
        plain(y),
        begins_with(path, x),
        begins_with(path, y),
    ensures
        x == y,
{
    if x.len() < y.len() {
        assert(path[x.len() as int] == y[x.len() as int]);
    } else if y.len() < x.len() {
        assert(path[y.len() as int] == x[y.len() as int]);
    } else {
        assert(x =~= y);
    }
}

/// An entry of an entry: the path is that of the inner path behind the
/// outer name.
pub proof fn lemma_joined_twice(dir: Seq<char>, name: Seq<char>, rest: Seq<char>)
    requires
        plain(name),
    ensures
        joined(joined(dir, name), rest) == joined(dir, name + seq![separator()] + rest),
{
    let outer = joined(dir, name);
    assert(outer.last() == name.last());
    assert(joined(outer, rest) =~= joined(dir, name + seq![separator()] + rest));
}

/// A plain name in a directory names a file.
pub proof fn lemma_plain_names_file(dir: Seq<char>, name: Seq<char>)
    requires
        plain(name),
    ensures
        has_file_name(joined(dir, name)),
{
    lemma_final_segment_of_joined(dir, name);
}

/// Every inner path of tidy nodes begins with the name of one of them.
pub proof fn lemma_inner_paths_begin(nodes: Seq<Tree>, i: int)
    requires
        tidy(nodes),
        0 <= i < inner_paths(nodes).len(),
    ensures
        exists|k: int|
            0 <= k < nodes.len() && begins_with(inner_paths(nodes)[i], (#[trigger] nodes[k]).name()),
        inner_paths(nodes)[i].len() > 0,
        inner_paths(nodes)[i][0] != separator(),
    decreases nodes.len(),
{
    let first = paths_of(nodes[0]);
    if i < first.len() {
        assert(inner_paths(nodes)[i] == first[i]);
        assert(nodes[0].name().is_prefix_of(first[i]));
        assert(begins_with(inner_paths(nodes)[i], nodes[0].name()));
        assert(first[i][0] == nodes[0].name()[0]);
    } else {
        let later = nodes.skip(1);
        lemma_inner_paths_begin(later, i - first.len());
        let k = choose|k: int|
            0 <= k < later.len() && begins_with(
                inner_paths(later)[i - first.len()],
                (#[trigger] later[k]).name(),
            );
        assert(inner_paths(nodes)[i] == inner_paths(later)[i - first.len()]);
        assert(nodes[k + 1] == later[k]);
    }
}

/// Every name of tidy nodes is plain and stands once.
pub proof fn lemma_tidy_names(nodes: Seq<Tree>, k: int)
    requires
        tidy(nodes),
        0 <= k < nodes.len(),
    ensures
        plain(nodes[k].name()),
        forall|j: int| 0 <= j < nodes.len() && j != k ==> (#[trigger] nodes[j]).name() != nodes[k].name(),
    decreases nodes.len(),
{
    let later = nodes.skip(1);
    if k > 0 {
        lemma_tidy_names(later, k - 1);
        assert(later[k - 1] == nodes[k]);
        assert forall|j: int| 0 <= j < nodes.len() && j != k implies (#[trigger] nodes[j]).name()
            != nodes[k].name() by {
            if j > 0 {
                assert(later[j - 1] == nodes[j]);
            }
        }
    }
}

/// No two files of tidy nodes have the same inner path.
pub proof fn lemma_inner_paths_distinct(nodes: Seq<Tree>)
    requires
        tidy(nodes),
    ensures
        forall|i: int, j: int|
            0 <= i < j < inner_paths(nodes).len() ==> inner_paths(nodes)[i] != inner_paths(nodes)[j],
    decreases nodes,
{
    if nodes.len() > 0 {
        let later = nodes.skip(1);
        let name = nodes[0].name();
        let first = paths_of(nodes[0]);
        let all = inner_paths(nodes);
        lemma_inner_paths_distinct(later);
        if let Tree::Directory { listing: Some(inner), .. } = nodes[0] {
            lemma_inner_paths_distinct(inner);
        }
        assert forall|i: int, j: int| 0 <= i < j < all.len() implies all[i] != all[j] by {
            if j < first.len() {
                if let Tree::Directory { listing: Some(inner), .. } = nodes[0] {
                    let head = name + seq![separator()];
                    assert(all[i] == head + inner_paths(inner)[i]);
                    assert(all[j] == head + inner_paths(inner)[j]);
                    assert((head + inner_paths(inner)[i]).skip(head.len() as int)
                        =~= inner_paths(inner)[i]);
                    assert((head + inner_paths(inner)[j]).skip(head.len() as int)
                        =~= inner_paths(inner)[j]);
                }
            } else if i >= first.len() {
                assert(all[i] == inner_paths(later)[i - first.len()]);
                assert(all[j] == inner_paths(later)[j - first.len()]);
            } else {
                assert(all[i] == first[i]);
                assert(name.is_prefix_of(first[i]));
                assert(begins_with(all[i], name));
                lemma_inner_paths_begin(later, j - first.len());
                let k = choose|k: int|
                    0 <= k < later.len() && begins_with(
                        inner_paths(later)[j - first.len()],
                        (#[trigger] later[k]).name(),
                    );
                assert(all[j] == inner_paths(later)[j - first.len()]);
                assert(later[k] == nodes[k + 1]);
                lemma_tidy_names(nodes, k + 1);
                if all[i] == all[j] {
                    lemma_one_first_segment(all[i], name, later[k].name());
                }
            }
        }
    }
}

/// The records of the inventory of tidy nodes stand for the files of the
/// tree, one each and in the order of the walk: the full path of a record
/// is the file's inner path under the directory, and its relative path is
/// the same inner path under the directory's own relative path. On a walk
/// of the root's nodes the relative path is the inner path itself.
pub proof fn law_inventory_paths(root: Seq<char>, dir: Seq<char>, nodes: Seq<Tree>)
    requires
        relative_to(dir, root) is Some,
        tidy(nodes),
    ensures
        inventory(root, dir, nodes).len() == inner_paths(nodes).len(),
        forall|i: int|
            0 <= i < inner_paths(nodes).len() ==> {
                let r = #[trigger] inventory(root, dir, nodes)[i];
                &&& r.full_path == joined(dir, inner_paths(nodes)[i])
                &&& r.small_path == joined(relative_to(dir, root)->0, inner_paths(nodes)[i])
            },
        dir == root ==> forall|i: int|
            0 <= i < inner_paths(nodes).len() ==> (#[trigger] inventory(
                root,
                dir,
                nodes,
            )[i]).small_path == inner_paths(nodes)[i],
    decreases nodes,
{
    let rel = relative_to(dir, root)->0;
    lemma_without_leading_separators(dir.skip(root.len() as int));
    if nodes.len() > 0 {
        let later = nodes.skip(1);
        let name = nodes[0].name();
        let below = joined(dir, name);
        let first_paths = paths_of(nodes[0]);
        let first = yield_of(root, Visit { path: below, node: nodes[0] });
        lemma_joined_stays_under(root, dir, name);
        lemma_plain_names_file(dir, name);
        if let Tree::Directory { listing: Some(inner), .. } = nodes[0] {
            law_inventory_paths(root, below, inner);
        }
        law_inventory_paths(root, dir, later);
        assert(first.len() == first_paths.len());
        assert forall|i: int| 0 <= i < inner_paths(nodes).len() implies {
            let r = #[trigger] inventory(root, dir, nodes)[i];
            &&& r.full_path == joined(dir, inner_paths(nodes)[i])
            &&& r.small_path == joined(rel, inner_paths(nodes)[i])
        } by {
            let path = inner_paths(nodes)[i];
            lemma_joined_stays_under(root, dir, path);
            lemma_inner_paths_begin(nodes, i);
            lemma_leading_separators(joined(rel, path), 0);
            assert(joined(rel, path).skip(0) =~= joined(rel, path));
            if i < first.len() {
                assert(inventory(root, dir, nodes)[i] == first[i]);
                assert(path == first_paths[i]);
                if let Tree::Directory { listing: Some(inner), .. } = nodes[0] {
                    lemma_joined_twice(dir, name, inner_paths(inner)[i]);
                }
            } else {
                assert(inventory(root, dir, nodes)[i] == inventory(root, dir, later)[i
                    - first.len()]);
                assert(path == inner_paths(later)[i - first.len()]);
            }
        }
    }
    if dir == root {
        assert(rel =~= Seq::<char>::empty());
        assert forall|i: int| 0 <= i < inner_paths(nodes).len() implies (#[trigger] inventory(
            root,
            dir,
            nodes,
        )[i]).small_path == inner_paths(nodes)[i] by {
            assert(joined(Seq::<char>::empty(), inner_paths(nodes)[i]) =~= inner_paths(nodes)[i]);
        }
    }
}

/// The inventory of tidy nodes names every file once: no two of its records
/// have the same relative path.
pub proof fn law_inventory_distinct(root: Seq<char>, dir: Seq<char>, nodes: Seq<Tree>)
    requires
        relative_to(dir, root) is Some,
        tidy(nodes),
    ensures
        distinct_paths(inventory(root, dir, nodes)),
{
    let found = inventory(root, dir, nodes);
    let rel = relative_to(dir, root)->0;
    law_inventory_paths(root, dir, nodes);
    lemma_inner_paths_distinct(nodes);
    assert forall|i: int, j: int| 0 <= i < j < found.len() implies (#[trigger] found[i]).small_path
        != (#[trigger] found[j]).small_path by {
        let x = inner_paths(nodes)[i];
        let y = inner_paths(nodes)[j];
        let head = joined(rel, Seq::<char>::empty());
        assert(joined(rel, x) =~= head + x);
        assert(joined(rel, y) =~= head + y);
        assert((head + x).skip(head.len() as int) =~= x);
        assert((head + y).skip(head.len() as int) =~= y);
    }
}

/// The whole walk of a tree. A scanner that begins at `root` and is fed,
/// for every directory it waits for, what the tree holds for it, is over
/// after as many listings as the tree has directories that the walk
/// reaches, and has then found the inventory of the tree: every record as a
/// walk records it, its relative path being its full path with the root
/// removed. Where the tree is as a file system holds it, there is one
/// record for every regular file of known size, under the path that the
/// names from the root down to the file make, and none has the relative
/// path of another.
pub proof fn law_walk_of_tree(root: Seq<char>, name: Seq<char>, nodes: Seq<Tree>)
    ensures
        ({
            let start = seq![
                Visit { path: root, node: Tree::Directory { name, listing: Some(nodes) } },
            ];
            let (found, left) = walk(root, Seq::empty(), start, 1 + directories_in(nodes));
            &&& pendings(start) == seq![Pending { path: root, kind: EntryKind::Directory }]
            &&& left.len() == 0
            &&& found == inventory(root, root, nodes)
            &&& all_recorded(root, found)
            &&& tidy(nodes) ==> {
                &&& found.len() == inner_paths(nodes).len()
                &&& forall|i: int|
                    0 <= i < found.len() ==> {
                        &&& (#[trigger] found[i]).full_path == joined(root, inner_paths(nodes)[i])
                        &&& found[i].small_path == inner_paths(nodes)[i]
                    }
                &&& distinct_paths(found)
            }
        }),
{
    let start = seq![Visit { path: root, node: Tree::Directory { name, listing: Some(nodes) } }];
    law_walk_begins_with_all(root, name, Some(nodes));
    assert(start.skip(1).len() == 0);
    assert(listings_left(start.skip(1)) == 0);
    assert(listings_left(start) == 1 + directories_in(nodes));
    lemma_walk_ends(root, Seq::empty(), start);
    assert(Seq::<FileRecord>::empty() + remaining(root, start) =~= remaining(root, start));
    assert(root.is_prefix_of(root));
    law_inventory_records(root, root, nodes);
    if tidy(nodes) {
        law_inventory_paths(root, root, nodes);
        law_inventory_distinct(root, root, nodes);
    }
}

/// Whether every entry of `listing` is a regular file whose metadata could
/// be read, under a plain name.
pub open spec fn only_regular_files(listing: Seq<EntryView>) -> bool {
    forall|i: int|
        0 <= i < listing.len() ==> {
            &&& (#[trigger] listing[i]).kind matches EntryKind::File { size: Some(_) }
            &&& plain(listing[i].name)
        }
}

/// A walk of a root that holds regular files only is over after the one
/// listing, with one record per file, in the order of the listing. Each
/// record's relative path is the file's name, which is its path with the
/// root removed; its contents are not loaded and it bears no label.
pub proof fn law_flat_directory(root: Seq<char>, listing: Seq<EntryView>)
    requires
        only_regular_files(listing),
    ensures
        ({
            let start = seq![Pending { path: root, kind: EntryKind::Directory }];
            let (found, todo) = drain(
                root,
                Seq::empty(),
                contributed(start[0].path, Some(listing)) + start.skip(1),
            );
            &&& todo.len() == 0
            &&& found.len() == listing.len()
            &&& forall|i: int|
                0 <= i < listing.len() ==> {
                    let r = #[trigger] found[i];
                    &&& r.full_path == joined(root, listing[i].name)
                    &&& r.small_path == listing[i].name
                    &&& relative_to(r.full_path, root) == Some(r.small_path)
                    &&& listing[i].kind == (EntryKind::File { size: Some(r.size_bytes) })
                    &&& r.contents is None
                    &&& r.comparison_result is None
                }
        }),
{
    let nodes = Seq::new(
        listing.len(),
        |i: int|
            Tree::File {
                name: listing[i].name,
                size: match listing[i].kind {
                    EntryKind::File { size } => size,
                    _ => None,
                },
            },
    );
    let start = seq![Visit { path: root, node: Tree::Directory { name: root, listing: Some(nodes) } }];
    assert(listing_of(Some(nodes))->0 =~= listing);
    assert(pendings(start) =~= seq![Pending { path: root, kind: EntryKind::Directory }]);
    lemma_only_files(root, root, nodes);
    law_feed_follows_tree(root, Seq::empty(), start);
    law_walk_begins_with_all(root, root, Some(nodes));
    let (found, work2) = walk(root, Seq::empty(), start, 1);
    assert(work2.len() == 0) by {
        if work2.len() > 0 {
            assert(work2[0].node is Directory);
            assert(listings_left(work2) >= 1);
            assert(listings_left(start.skip(1)) == 0);
        }
    }
    assert(Seq::<FileRecord>::empty() + remaining(root, start) =~= remaining(root, start));
    assert(pendings(work2) =~= Seq::<Pending>::empty());
    assert(root.is_prefix_of(root));
    assert forall|i: int| 0 <= i < listing.len() implies {
        let r = #[trigger] found[i];
        &&& r.full_path == joined(root, listing[i].name)
        &&& r.small_path == listing[i].name
        &&& relative_to(r.full_path, root) == Some(r.small_path)
        &&& listing[i].kind == (EntryKind::File { size: Some(r.size_bytes) })
        &&& r.contents is None
        &&& r.comparison_result is None
    } by {
        let entry_name = listing[i].name;
        lemma_joined_stays_under(root, root, entry_name);
        lemma_without_leading_separators(root.skip(root.len() as int));
        lemma_leading_separators(entry_name, 0);
        assert(entry_name.skip(0) =~= entry_name);
        assert(joined(Seq::<char>::empty(), entry_name) =~= entry_name);
    }
}

/// The inventory of nodes that are all regular files of known size under
/// plain names has one record per node, in order.
pub proof fn lemma_only_files(root: Seq<char>, dir: Seq<char>, nodes: Seq<Tree>)
    requires
        forall|i: int|
            0 <= i < nodes.len() ==> {
                &&& (#[trigger] nodes[i]) matches Tree::File { size: Some(_), .. }
                &&& plain(nodes[i].name())
            },
    ensures
        inventory(root, dir, nodes).len() == nodes.len(),
        directories_in(nodes) == 0,
        forall|i: int|
            0 <= i < nodes.len() ==> (#[trigger] inventory(root, dir, nodes)[i]) == fresh_record(
                joined(dir, nodes[i].name()),
                root,
                nodes[i]->size->0,
            ),
    decreases nodes.len(),
{
    if nodes.len() > 0 {
        let later = nodes.skip(1);
        assert forall|i: int| 0 <= i < later.len() implies {
            &&& (#[trigger] later[i]) matches Tree::File { size: Some(_), .. }
            &&& plain(later[i].name())
        } by {
            assert(later[i] == nodes[i + 1]);
        }
        lemma_only_files(root, dir, later);
        lemma_plain_names_file(dir, nodes[0].name());
        assert(directories_of(nodes[0]) == 0);
        let first = yield_of(root, Visit { path: joined(dir, nodes[0].name()), node: nodes[0] });
        assert(first.len() == 1);
        assert forall|i: int| 0 <= i < nodes.len() implies (#[trigger] inventory(
            root,
            dir,
            nodes,
        )[i]) == fresh_record(joined(dir, nodes[i].name()), root, nodes[i]->size->0) by {
            if i > 0 {
                assert(inventory(root, dir, nodes)[i] == inventory(root, dir, later)[i - 1]);
                assert(later[i - 1] == nodes[i]);
            }
        }
    }
}

} // verus!
