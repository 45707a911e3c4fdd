//! Paths as text: segments separated by `/`.
//!
//! The inventory keeps every path as a `String`, and the functions here are
//! the only place where a path is taken apart or put together.

use vstd::prelude::*;
use vstd::string::*;

verus! {

/// The separator between the segments of a path.
pub open spec fn separator() -> char {
    '/'
}

/// The extension marker inside a file name.
pub open spec fn dot() -> char {
    '.'
}

/// The position of the last `c` in `s`, or -1 if `s` holds none.
pub open spec fn last_position(s: Seq<char>, c: char) -> int
    decreases s.len(),
{
    if s.len() == 0 {
        -1
    } else if s.last() == c {
        s.len() - 1
    } else {
        last_position(s.drop_last(), c)
    }
}

/// The path of the entry `name` inside the directory `dir`: a separator is
/// put between the two unless `dir` is empty or already ends with one.
pub open spec fn joined(dir: Seq<char>, name: Seq<char>) -> Seq<char> {
    if dir.len() == 0 || dir.last() == separator() {
        dir + name
    } else {
        dir + seq![separator()] + name
    }
}

/// `s` without the separators it begins with.
pub open spec fn without_leading_separators(s: Seq<char>) -> Seq<char>
    decreases s.len(),
{
    if s.len() > 0 && s[0] == separator() {
        without_leading_separators(s.skip(1))
    } else {
        s
    }
}

/// `full` with the prefix `root` and every separator behind it removed, or
/// `None` if `full` does not lie at or under `root`. The result never
/// begins with a separator.
pub open spec fn relative_to(full: Seq<char>, root: Seq<char>) -> Option<Seq<char>> {
    let rest = full.skip(root.len() as int);
    if !root.is_prefix_of(full) {
        None
    } else if root.len() == 0 || root.last() == separator() || rest.len() == 0 || rest[0]
        == separator() {
        Some(without_leading_separators(rest))
    } else {
        None
    }
}

/// The final segment of `path`: what follows its last separator, or all of
/// it if it holds none.
pub open spec fn final_segment(path: Seq<char>) -> Seq<char> {
    path.skip(last_position(path, separator()) + 1)
}

/// Whether `name` can be the name of a file: it is not empty, and it is
/// neither `.` nor `..`.
pub open spec fn is_file_name(name: Seq<char>) -> bool {
    &&& name.len() > 0
    &&& name != seq![dot()]
    &&& name != seq![dot(), dot()]
}

/// Whether `path` names a file: its final segment can be a file's name. A
/// path that is empty, ends with a separator or ends in `.` or `..` names
/// none.
pub open spec fn has_file_name(path: Seq<char>) -> bool {
    is_file_name(final_segment(path))
}

/// The extension of the file name `name`: what follows its last dot, and
/// nothing if it holds none.
pub open spec fn extension_of(name: Seq<char>) -> Seq<char> {
    let at = last_position(name, dot());
    if at < 0 {
        Seq::<char>::empty()
    } else {
        name.skip(at + 1)
    }
}

/// `last_position` finds an occurrence, and no later one exists.
pub proof fn lemma_last_position(s: Seq<char>, c: char)
    ensures
        -1 <= last_position(s, c) < s.len(),
        last_position(s, c) >= 0 ==> s[last_position(s, c)] == c,
        forall|i: int| last_position(s, c) < i < s.len() ==> s[i] != c,
    decreases s.len(),
{
    if s.len() > 0 && s.last() != c {
        let front = s.drop_last();
        lemma_last_position(front, c);
        assert forall|i: int| last_position(s, c) < i < s.len() implies s[i] != c by {
            if i < front.len() {
                assert(front[i] == s[i]);
            }
        }
    }
}

/// Where the first `k` characters of `s` are separators and the next one is
/// not, `s` without its leading separators is `s` from `k` on.
pub proof fn lemma_leading_separators(s: Seq<char>, k: int)
    requires
        0 <= k <= s.len(),
        forall|i: int| 0 <= i < k ==> s[i] == separator(),
        k == s.len() || s[k] != separator(),
    ensures
        without_leading_separators(s) == s.skip(k),
    decreases k,
{
    if k == 0 {
        assert(s.skip(0) =~= s);
    } else {
        lemma_leading_separators(s.skip(1), k - 1);
        assert(s.skip(1).skip(k - 1) =~= s.skip(k));
    }
}

/// What is left without the leading separators is the end of `s`, does not
/// begin with a separator, and only separators were dropped.
pub proof fn lemma_without_leading_separators(s: Seq<char>)
    ensures
        ({
            let kept = without_leading_separators(s);
            let k = s.len() - kept.len();
            &&& 0 <= k <= s.len()
            &&& kept == s.skip(k)
            &&& forall|i: int| 0 <= i < k ==> s[i] == separator()
            &&& kept.len() == 0 || kept[0] != separator()
        }),
    decreases s.len(),
{
    if s.len() > 0 && s[0] == separator() {
        let tail = s.skip(1);
        lemma_without_leading_separators(tail);
        let kept = without_leading_separators(tail);
        let k = tail.len() - kept.len();
        assert(tail.skip(k) =~= s.skip(k + 1));
        assert forall|i: int| 0 <= i < k + 1 implies s[i] == separator() by {
            if i > 0 {
                assert(tail[i - 1] == s[i]);
            }
        }
    } else {
        assert(s.skip(0) =~= s);
    }
}

/// Removing the root from a joined path gives back the relative part,
/// without the separators it began with.
pub proof fn lemma_relative_of_joined(root: Seq<char>, rest: Seq<char>)
    ensures
        relative_to(joined(root, rest), root) == Some(without_leading_separators(rest)),
{
    let full = joined(root, rest);
    lemma_without_leading_separators(rest);
    let k = rest.len() - without_leading_separators(rest).len();
    if root.len() == 0 || root.last() == separator() {
        assert(full.skip(root.len() as int) =~= rest);
    } else {
        let behind = full.skip(root.len() as int);
        assert(behind =~= seq![separator()] + rest);
        lemma_leading_separators(behind, k + 1);
        assert(behind.skip(k + 1) =~= rest.skip(k));
    }
}

/// An entry of a directory under `root` lies under `root` too, at the
/// entry's path under the directory's relative path.
pub proof fn lemma_joined_stays_under(root: Seq<char>, dir: Seq<char>, name: Seq<char>)
    requires
        relative_to(dir, root) is Some,
    ensures
        relative_to(joined(dir, name), root) == Some(
            without_leading_separators(joined(relative_to(dir, root)->0, name)),
        ),
{
    let full = joined(dir, name);
    let rel = relative_to(dir, root)->0;
    let behind_dir = dir.skip(root.len() as int);
    let behind = full.skip(root.len() as int);
    lemma_without_leading_separators(behind_dir);
    lemma_without_leading_separators(name);
    let k = behind_dir.len() - rel.len();
    let n = name.len() - without_leading_separators(name).len();
    assert(root.is_prefix_of(full));
    if rel.len() > 0 {
        assert(rel.last() == dir.last());
        assert(behind =~= behind_dir.take(k) + joined(rel, name));
        lemma_leading_separators(behind, k);
        assert(behind.skip(k) =~= joined(rel, name));
        lemma_leading_separators(joined(rel, name), 0);
    } else if dir.len() == 0 || dir.last() == separator() {
        assert(behind =~= behind_dir + name);
        lemma_leading_separators(behind, k + n);
        assert(behind.skip(k + n) =~= name.skip(n));
    } else {
        assert(behind =~= behind_dir + seq![separator()] + name);
        lemma_leading_separators(behind, k + 1 + n);
        assert(behind.skip(k + 1 + n) =~= name.skip(n));
    }
}

/// The final segment of an entry's path is the entry's name, where the name
/// holds no separator.
pub proof fn lemma_final_segment_of_joined(dir: Seq<char>, name: Seq<char>)
    requires
        forall|i: int| 0 <= i < name.len() ==> name[i] != separator(),
    ensures
        final_segment(joined(dir, name)) == name,
{
    let full = joined(dir, name);
    let head = full.take(full.len() - name.len());
    assert(full =~= head + name);
    lemma_last_in_front(head, name);
    assert(full.skip(head.len() as int) =~= name);
}

/// Behind a front that is empty or ends with a separator, a tail without
/// separators leaves the last separator at the end of the front.
pub proof fn lemma_last_in_front(front: Seq<char>, tail: Seq<char>)
    requires
        front.len() == 0 || front.last() == separator(),
        forall|i: int| 0 <= i < tail.len() ==> tail[i] != separator(),
    ensures
        last_position(front + tail, separator()) == front.len() - 1,
    decreases tail.len(),
{
    let all = front + tail;
    if tail.len() == 0 {
        assert(all =~= front);
    } else {
        assert(all.last() == tail.last());
        assert(all.drop_last() =~= front + tail.drop_last());
        lemma_last_in_front(front, tail.drop_last());
    }
}

/// The position of the last `c` in `s`.
pub fn find_last(s: &str, c: char) -> (found: Option<usize>)
    ensures
        match found {
            Some(at) => at == last_position(s@, c),
            None => last_position(s@, c) == -1,
        },
{
    let len: usize = s.unicode_len();
    let mut found: Option<usize> = None;
    let mut i: usize = 0;
    for ch in it: s.chars()
        invariant
            len == s@.len(),
            it.seq() == s@,
            i == it.index(),
            match found {
                Some(at) => at == last_position(s@.take(i as int), c),
                None => last_position(s@.take(i as int), c) == -1,
            },
    {
        assert(s@.take(i + 1).drop_last() == s@.take(i as int));
        if ch == c {
            found = Some(i);
        }
        i = i + 1;
    }
    assert(s@.take(len as int) == s@);
    found
}

/// Whether `prefix` is a prefix of `s`, character for character.
pub fn starts_with(s: &str, prefix: &str) -> (yes: bool)
    ensures
        yes == prefix@.is_prefix_of(s@),
{
    let len: usize = s.unicode_len();
    let prefix_len: usize = prefix.unicode_len();
    if prefix_len > len {
        return false;
    }
    let head = String::from_str(s.substring_char(0, prefix_len));
    let wanted = String::from_str(prefix);
    head == wanted
}

/// The path of the entry `name` inside the directory `dir`.
pub fn join_path(dir: &str, name: &str) -> (path: String)
    ensures
        path@ == joined(dir@, name@),
{
    let len: usize = dir.unicode_len();
    if len == 0 || dir.get_char(len - 1) == '/' {
        String::from_str(dir).concat(name)
    } else {
        proof {
            reveal_strlit("/");
            assert("/"@ == seq![separator()]);
        }
        String::from_str(dir).concat("/").concat(name)
    }
}

/// `full` relative to `root`, or `None` if `full` does not lie at or under
/// `root`.
pub fn relative_path(full: &str, root: &str) -> (rel: Option<String>)
    ensures
        match rel {
            Some(r) => relative_to(full@, root@) == Some(r@),
            None => relative_to(full@, root@) is None,
        },
{
    if !starts_with(full, root) {
        return None;
    }
    let len: usize = full.unicode_len();
    let root_len: usize = root.unicode_len();
    let ghost behind = full@.skip(root_len as int);
    if !(root_len == 0 || root.get_char(root_len - 1) == '/' || len == root_len || full.get_char(
        root_len,
    ) == '/') {
        return None;
    }
    let mut from: usize = root_len;
    let mut more = from < len;
    while more
        invariant
            len == full@.len(),
            root_len <= from <= len,
            behind == full@.skip(root_len as int),
            forall|i: int| 0 <= i < from - root_len ==> behind[i] == separator(),
            more ==> from < len,
            !more ==> from == len || full@[from as int] != separator(),
        decreases len - from + if more { 1int } else { 0int },
    {
        if full.get_char(from) == '/' {
            from = from + 1;
            more = from < len;
        } else {
            more = false;
        }
    }
    proof {
        lemma_leading_separators(behind, from - root_len);
        assert(behind.skip(from - root_len) =~= full@.subrange(from as int, len as int));
    }
    Some(String::from_str(full.substring_char(from, len)))
}

/// What follows the last separator of `path`.
fn last_segment(path: &str) -> (name: String)
    ensures
        name@ == final_segment(path@),
{
    let len: usize = path.unicode_len();
    proof {
        lemma_last_position(path@, separator());
    }
    let from: usize = match find_last(path, '/') {
        Some(at) => at + 1,
        None => 0,
    };
    proof {
        assert(path@.subrange(from as int, len as int) == path@.skip(from as int));
    }
    String::from_str(path.substring_char(from, len))
}

/// Whether `name` can be the name of a file.
fn can_name_file(name: &str) -> (yes: bool)
    ensures
        yes == is_file_name(name@),
{
    let len: usize = name.unicode_len();
    proof {
        assert(seq![dot()].len() == 1);
        assert(seq![dot(), dot()].len() == 2);
    }
    if len == 0 {
        false
    } else if len == 1 {
        let only = name.get_char(0);
        proof {
            if only == dot() {
                assert(name@ =~= seq![dot()]);
            } else {
                assert(name@[0] != seq![dot()][0]);
            }
        }
        only != '.'
    } else if len == 2 {
        let first = name.get_char(0);
        let second = name.get_char(1);
        proof {
            if first == dot() && second == dot() {
                assert(name@ =~= seq![dot(), dot()]);
            } else {
                assert(name@[0] != seq![dot(), dot()][0] || name@[1] != seq![dot(), dot()][1]);
            }
        }
        !(first == '.' && second == '.')
    } else {
        true
    }
}

/// Whether `path` names a file.
pub fn names_file(path: &str) -> (yes: bool)
    ensures
        yes == has_file_name(path@),
{
    let name = last_segment(path);
    can_name_file(name.as_str())
}

/// The name of the file that `path` names: its final segment.
pub fn file_name(path: &str) -> (name: String)
    requires
        has_file_name(path@),
    ensures
        name@ == final_segment(path@),
{
    last_segment(path)
}

/// The extension of the file name `name`.
pub fn extension(name: &str) -> (ext: String)
    ensures
        ext@ == extension_of(name@),
{
    let len: usize = name.unicode_len();
    proof {
        lemma_last_position(name@, dot());
    }
    match find_last(name, '.') {
        Some(at) => {
            proof {
                assert(name@.subrange(at + 1, len as int) == name@.skip(at + 1));
            }
            String::from_str(name.substring_char(at + 1, len))
        },
        None => String::new(),
    }
}

} // verus!
