//! Slash-separated paths as text.
//!
//! A path is a `String` whose components are separated by `/`. The functions
//! here form child paths, recover the part of a path that lies below a root,
//! and find the directory that contains a path. Their contracts are stated
//! over the character sequences that the strings view as.

use vstd::prelude::*;
use vstd::string::*;

verus! {

/// The character that separates the components of a path.
pub open spec fn separator() -> char {
    '/'
}

/// `dir` made ready to take a name behind it: unchanged where it is empty or
/// already ends in a separator, with a separator added otherwise.
pub open spec fn with_separator(dir: Seq<char>) -> Seq<char> {
    if dir.len() == 0 || dir.last() == separator() {
        dir
    } else {
        dir.push(separator())
    }
}

/// The path of the entry `name` inside the directory `dir`.
pub open spec fn joined(dir: Seq<char>, name: Seq<char>) -> Seq<char> {
    with_separator(dir) + name
}

/// Whether `path` lies strictly below `root`: it continues `root` past a
/// separator with at least one more character.
pub open spec fn is_below(root: Seq<char>, path: Seq<char>) -> bool {
    let base = with_separator(root);
    base.len() < path.len() && path.subrange(0, base.len() as int) == base
}

/// Whether `path` is `anchor` or lies below it.
pub open spec fn at_or_below(anchor: Seq<char>, path: Seq<char>) -> bool {
    path == anchor || is_below(anchor, path)
}

/// Whether `path` is an immediate child of `dir`: it lies below `dir`, and
/// what it adds to `dir` is a single name.
pub open spec fn is_child(dir: Seq<char>, path: Seq<char>) -> bool {
    is_below(dir, path) && !relative_part(dir, path).unwrap().contains(separator())
}

/// What is left of `path` once `root` and the separator behind it are taken
/// away, where `path` lies below `root`.
pub open spec fn relative_part(root: Seq<char>, path: Seq<char>) -> Option<Seq<char>> {
    if is_below(root, path) {
        Some(path.subrange(with_separator(root).len() as int, path.len() as int))
    } else {
        None
    }
}

/// The index of the last separator in `path`, or -1 where it has none.
pub open spec fn last_separator(path: Seq<char>) -> int
    decreases path.len(),
{
    if path.len() == 0 {
        -1
    } else if path.last() == separator() {
        path.len() - 1
    } else {
        last_separator(path.drop_last())
    }
}

/// The directory that contains `path`: everything before the last
/// separator, or the root directory itself where that separator is the
/// first character. A path without a separator, and the root directory, have
/// no parent.
pub open spec fn parent_part(path: Seq<char>) -> Option<Seq<char>> {
    let cut = last_separator(path);
    if cut < 0 || path.len() <= 1 {
        None
    } else if cut == 0 {
        Some(path.subrange(0, 1))
    } else {
        Some(path.subrange(0, cut))
    }
}

/// `last_separator` points at a separator, and none follows it.
pub proof fn lemma_last_separator(path: Seq<char>)
    ensures
        -1 <= last_separator(path) < path.len(),
        last_separator(path) >= 0 ==> path[last_separator(path)] == separator(),
        forall|i: int| last_separator(path) < i < path.len() ==> path[i] != separator(),
    decreases path.len(),
{
    if path.len() > 0 && path.last() != separator() {
        let front = path.drop_last();
        lemma_last_separator(front);
        assert forall|i: int| last_separator(path) < i < path.len() implies path[i]
            != separator() by {
            if i < front.len() {
                assert(path[i] == front[i]);
            }
        }
    }
}

/// A child path lies below its directory, and its relative part is the
/// child's name.
pub proof fn lemma_relative_of_joined(dir: Seq<char>, name: Seq<char>)
    requires
        name.len() > 0,
    ensures
        is_below(dir, joined(dir, name)),
        relative_part(dir, joined(dir, name)) == Some(name),
{
    let base = with_separator(dir);
    let path = joined(dir, name);
    assert(path.subrange(0, base.len() as int) =~= base);
    assert(path.subrange(base.len() as int, path.len() as int) =~= name);
}

/// What lies below a directory that lies below `root` lies below `root`, and
/// its relative part is the directory's followed by its own.
pub proof fn lemma_below_is_transitive(root: Seq<char>, dir: Seq<char>, path: Seq<char>)
    requires
        is_below(root, dir),
        is_below(dir, path),
    ensures
        is_below(root, path),
        relative_part(root, path) == Some(
            joined(relative_part(root, dir).unwrap(), relative_part(dir, path).unwrap()),
        ),
{
    let base = with_separator(root);
    let mid = with_separator(dir);
    assert(mid.subrange(0, dir.len() as int) =~= dir || mid == dir);
    assert(path.subrange(0, base.len() as int) =~= base) by {
        assert(forall|i: int|
            0 <= i < base.len() ==> path[i] == path.subrange(0, mid.len() as int)[i]);
        assert(forall|i: int|
            0 <= i < base.len() ==> dir[i] == dir.subrange(0, base.len() as int)[i]);
    }
    let rel_dir = dir.subrange(base.len() as int, dir.len() as int);
    let rel_path = path.subrange(mid.len() as int, path.len() as int);
    assert(path.subrange(base.len() as int, path.len() as int) =~= joined(rel_dir, rel_path)) by {
        assert(forall|i: int|
            0 <= i < mid.len() ==> path[i] == path.subrange(0, mid.len() as int)[i]);
    }
}

/// What is at or below a path that lies below `root` lies below `root`.
pub proof fn lemma_below_reaches_down(root: Seq<char>, dir: Seq<char>, path: Seq<char>)
    requires
        is_below(root, dir),
        at_or_below(dir, path),
    ensures
        is_below(root, path),
{
    if path != dir {
        lemma_below_is_transitive(root, dir, path);
    }
}

/// A child of `dir` that `name` names is a child in the sense of `is_child`,
/// where `name` is a single name.
pub proof fn lemma_joined_is_child(dir: Seq<char>, name: Seq<char>)
    requires
        name.len() > 0,
        !name.contains(separator()),
    ensures
        is_child(dir, joined(dir, name)),
{
    lemma_relative_of_joined(dir, name);
}

/// A child ends in its name, so that a separator has to be added before
/// anything can follow it.
proof fn lemma_child_takes_separator(dir: Seq<char>, child: Seq<char>)
    requires
        is_child(dir, child),
    ensures
        with_separator(child) == child.push(separator()),
        with_separator(dir).len() < child.len(),
{
    let n = with_separator(dir).len() as int;
    let name = child.subrange(n, child.len() as int);
    assert(name[name.len() - 1] == child.last());
    assert(name.contains(child.last()));
}

/// A child of `dir` is not at or below another child of `dir`.
proof fn lemma_child_is_outside(dir: Seq<char>, a: Seq<char>, b: Seq<char>)
    requires
        is_child(dir, a),
        is_child(dir, b),
        a != b,
    ensures
        !at_or_below(b, a),
{
    lemma_child_takes_separator(dir, a);
    lemma_child_takes_separator(dir, b);
    let n = with_separator(dir).len() as int;
    let name = a.subrange(n, a.len() as int);
    if is_below(b, a) {
        let m = b.len() as int;
        assert(a.subrange(0, m + 1)[m] == b.push(separator())[m]);
        assert(name[m - n] == separator());
        assert(name.contains(separator()));
    }
}

/// Two different children of one directory have nothing in common: no path
/// is at or below both.
pub proof fn lemma_children_keep_apart(
    dir: Seq<char>,
    a: Seq<char>,
    b: Seq<char>,
    path: Seq<char>,
)
    requires
        is_child(dir, a),
        is_child(dir, b),
        a != b,
        at_or_below(a, path),
    ensures
        !at_or_below(b, path),
{
    lemma_child_takes_separator(dir, a);
    lemma_child_takes_separator(dir, b);
    lemma_child_is_outside(dir, a, b);
    lemma_child_is_outside(dir, b, a);
    if at_or_below(b, path) && path != a && path != b {
        let n = with_separator(dir).len() as int;
        let la = a.len() as int;
        let lb = b.len() as int;
        assert forall|i: int| 0 <= i <= la implies path[i] == a.push(separator())[i] by {
            assert(path.subrange(0, la + 1)[i] == path[i]);
        }
        assert forall|i: int| 0 <= i <= lb implies path[i] == b.push(separator())[i] by {
            assert(path.subrange(0, lb + 1)[i] == path[i]);
        }
        if la == lb {
            assert(a =~= b) by {
                assert forall|i: int| 0 <= i < la implies a[i] == b[i] by {
                    assert(a.push(separator())[i] == a[i]);
                    assert(b.push(separator())[i] == b[i]);
                }
            }
        } else if la < lb {
            let name = b.subrange(n, lb);
            assert(b.push(separator())[la] == b[la]);
            assert(a.push(separator())[la] == separator());
            assert(name[la - n] == separator());
            assert(name.contains(separator()));
        } else {
            let name = a.subrange(n, la);
            assert(a.push(separator())[lb] == a[lb]);
            assert(b.push(separator())[lb] == separator());
            assert(name[lb - n] == separator());
            assert(name.contains(separator()));
        }
    }
}

/// Taking `root` away does not change what lies where: for a path below
/// `root`, being at or below the child `name` of `root` comes to the same as
/// its relative part being at or below `name`.
pub proof fn lemma_relative_keeps_below(root: Seq<char>, name: Seq<char>, path: Seq<char>)
    requires
        is_below(root, path),
        name.len() > 0,
    ensures
        at_or_below(joined(root, name), path) == at_or_below(
            name,
            relative_part(root, path).unwrap(),
        ),
{
    let base = with_separator(root);
    let n = base.len() as int;
    let rest = path.subrange(n, path.len() as int);
    let child = joined(root, name);
    assert(path =~= base + rest) by {
        assert forall|i: int| 0 <= i < path.len() implies path[i] == (base + rest)[i] by {
            if i < n {
                assert(path.subrange(0, n)[i] == path[i]);
            }
        }
    }
    assert(with_separator(child) =~= base + with_separator(name));
    let ends = with_separator(name);
    if path == child {
        assert(rest =~= name);
    }
    if rest == name {
        assert(path =~= child);
    }
    if is_below(child, path) {
        assert(rest.subrange(0, ends.len() as int) =~= ends) by {
            assert forall|i: int| 0 <= i < ends.len() implies rest[i] == ends[i] by {
                assert(path.subrange(0, n + ends.len())[n + i] == path[n + i]);
                assert((base + ends)[n + i] == ends[i]);
            }
        }
    }
    if is_below(name, rest) {
        assert(path.subrange(0, n + ends.len()) =~= base + ends) by {
            assert forall|i: int| 0 <= i < n + ends.len() implies path[i] == (base + ends)[i] by {
                if i >= n {
                    assert(rest.subrange(0, ends.len() as int)[i - n] == rest[i - n]);
                }
            }
        }
    }
}

/// Two paths below `root` with the same relative part are the same path.
pub proof fn lemma_relative_part_is_injective(root: Seq<char>, a: Seq<char>, b: Seq<char>)
    requires
        is_below(root, a),
        is_below(root, b),
        relative_part(root, a) == relative_part(root, b),
    ensures
        a == b,
{
    let base = with_separator(root);
    let n = base.len() as int;
    let ra = a.subrange(n, a.len() as int);
    let rb = b.subrange(n, b.len() as int);
    assert(ra.len() == rb.len());
    assert forall|i: int| 0 <= i < a.len() implies a[i] == b[i] by {
        if i < n {
            assert(a[i] == a.subrange(0, n)[i]);
            assert(b[i] == b.subrange(0, n)[i]);
        } else {
            assert(a[i] == ra[i - n]);
            assert(b[i] == rb[i - n]);
        }
    }
    assert(a =~= b);
}

/// Whether a name can follow `text` as it stands.
fn takes_name(text: &str) -> (yes: bool)
    ensures
        yes == (text@.len() == 0 || text@.last() == separator()),
{
    let n: usize = text.unicode_len();
    n == 0 || text.get_char(n - 1) == '/'
}

/// Forms the path of the entry `name` inside the directory `dir`, putting a
/// separator between the two unless `dir` is empty or already ends in one.
pub fn join(dir: &str, name: &str) -> (path: String)
    ensures
        path@ == joined(dir@, name@),
{
    let mut path = String::from_str(dir);
    if !takes_name(dir) {
        proof {
            reveal_strlit("/");
        }
        path.append("/");
        assert(path@ =~= dir@.push(separator()));
    }
    path.append(name);
    path
}

/// Gives the part of `path` below `root`, or `None` where `path` does not
/// lie strictly below `root`.
pub fn relative_to(root: &str, path: &str) -> (rest: Option<String>)
    ensures
        rest is Some == is_below(root@, path@),
        rest is Some ==> Some(rest.unwrap()@) == relative_part(root@, path@),
{
    let base = join(root, "");
    proof {
        reveal_strlit("");
        assert(base@ =~= with_separator(root@));
    }
    let n: usize = base.as_str().unicode_len();
    let m: usize = path.unicode_len();
    if n < m {
        let head = String::from_str(path.substring_char(0, n));
        if head == base {
            Some(String::from_str(path.substring_char(n, m)))
        } else {
            None
        }
    } else {
        None
    }
}

/// Gives the directory that contains `path`, or `None` where `path` names
/// the root directory or holds no separator.
pub fn parent_of(path: &str) -> (parent: Option<String>)
    ensures
        parent is Some == parent_part(path@) is Some,
        parent is Some ==> Some(parent.unwrap()@) == parent_part(path@),
{
    let n: usize = path.unicode_len();
    let mut cut: usize = n;
    assert(path@.subrange(0, n as int) =~= path@);
    while cut > 0 && path.get_char(cut - 1) != '/'
        invariant
            cut <= n == path@.len(),
            last_separator(path@) == last_separator(path@.subrange(0, cut as int)),
        decreases cut,
    {
        assert(path@.subrange(0, cut as int).drop_last() =~= path@.subrange(0, cut - 1));
        cut = cut - 1;
    }
    if cut == 0 || n <= 1 {
        None
    } else if cut == 1 {
        Some(String::from_str(path.substring_char(0, 1)))
    } else {
        Some(String::from_str(path.substring_char(0, cut - 1)))
    }
}

} // verus!
