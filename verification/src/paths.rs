//! Paths as texts: absolute, or relative to the working directory, their parts
//! separated by single slashes.
use vstd::prelude::*;

use crate::text::{chars, part, same, text};

verus! {

/// The index of the last `c`; -1 if there is none.
pub open spec fn last_index(s: Seq<char>, c: char) -> int
    decreases s.len(),
{
    if s.len() == 0 {
        -1
    } else if s.last() == c {
        s.len() - 1
    } else {
        last_index(s.drop_last(), c)
    }
}

pub proof fn lemma_last_index(s: Seq<char>, c: char)
    ensures
        -1 <= last_index(s, c) < s.len(),
        last_index(s, c) >= 0 ==> s[last_index(s, c)] == c,
    decreases s.len(),
{
    if s.len() > 0 {
        lemma_last_index(s.drop_last(), c);
    }
}

/// How many characters there are up to the last `c`, that one included.
fn up_to_last(a: &[char], c: char) -> (r: usize)
    ensures
        r == last_index(a@, c) + 1,
        r <= a@.len(),
{
    let mut i: usize = a.len();
    assert(a@.take(i as int) =~= a@);
    while i > 0
        invariant
            i <= a@.len(),
            last_index(a@, c) == last_index(a@.take(i as int), c),
        decreases i,
    {
        assert(a@.take(i as int).drop_last() =~= a@.take(i - 1));
        if a[i - 1] == c {
            return i;
        }
        i -= 1;
    }
    0
}

/// A path below a directory.
pub open spec fn joined(root: Seq<char>, path: Seq<char>) -> Seq<char> {
    if root.len() == 0 || root.last() == '/' {
        root + path
    } else {
        root + "/"@ + path
    }
}

pub fn join_path(root: &str, path: &str) -> (r: String)
    ensures
        r@ == joined(root@, path@),
{
    let all = chars(root);
    let mut r = root.to_owned();
    if all.len() > 0 && all[all.len() - 1] != '/' {
        r.append("/");
    }
    r.append(path);
    r
}

/// The directory of a path: empty for a file of the working directory, nothing
/// for the root.
pub open spec fn parent_of(path: Seq<char>) -> Option<Seq<char>> {
    let i = last_index(path, '/');
    if path.len() == 0 || path == "/"@ {
        None
    } else if i < 0 {
        Some(seq![])
    } else if i == 0 {
        Some("/"@)
    } else {
        Some(path.take(i))
    }
}

pub fn parent(path: &str) -> (r: Option<String>)
    ensures
        match r {
            Some(p) => parent_of(path@) == Some(p@),
            None => parent_of(path@) is None,
        },
{
    let all = chars(path);
    if all.len() == 0 || same(path, "/") {
        return None;
    }
    let n: usize = up_to_last(&all, '/');
    if n == 1 {
        return Some("/".to_owned());
    }
    let directory = part(&all, 0, if n > 0 { n - 1 } else { 0 });
    assert(directory@ =~= path@.take(if n > 0 { n - 1 } else { 0 }));
    assert(n == 0 ==> directory@ =~= seq![]);
    Some(text(directory))
}

/// The last part of a path.
pub open spec fn name_of(path: Seq<char>) -> Seq<char> {
    path.skip(last_index(path, '/') + 1)
}

pub fn file_name(path: &str) -> (r: String)
    ensures
        r@ == name_of(path@),
{
    let all = chars(path);
    let n: usize = up_to_last(&all, '/');
    let name = part(&all, n, all.len());
    assert(name@ =~= path@.skip(n as int));
    text(name)
}

/// What follows the last dot of a file name that has one behind its first
/// character.
pub open spec fn extension_of(path: Seq<char>) -> Option<Seq<char>> {
    let name = name_of(path);
    let i = last_index(name, '.');
    if i <= 0 || name == ".."@ {
        None
    } else {
        Some(name.skip(i + 1))
    }
}

pub fn extension(path: &str) -> (r: Option<String>)
    ensures
        match r {
            Some(e) => extension_of(path@) == Some(e@),
            None => extension_of(path@) is None,
        },
{
    let name = file_name(path);
    let all = chars(&name);
    let n: usize = up_to_last(&all, '.');
    if n <= 1 || same(&name, "..") {
        return None;
    }
    let end = part(&all, n, all.len());
    assert(end@ =~= name@.skip(n as int));
    Some(text(end))
}

proof fn lemma_last_index_is(a: Seq<char>, c: char, b: Seq<char>)
    requires
        forall|i: int| 0 <= i < b.len() ==> #[trigger] b[i] != c,
    ensures
        last_index(a + seq![c] + b, c) == a.len(),
    decreases b.len(),
{
    let s = a + seq![c] + b;
    if b.len() == 0 {
        assert(s.last() == c);
    } else {
        assert(s.last() == b[b.len() - 1]);
        assert(s.drop_last() =~= a + seq![c] + b.drop_last());
        lemma_last_index_is(a, c, b.drop_last());
    }
}

proof fn lemma_no_index(s: Seq<char>, c: char)
    requires
        forall|i: int| 0 <= i < s.len() ==> #[trigger] s[i] != c,
    ensures
        last_index(s, c) == -1,
    decreases s.len(),
{
    if s.len() > 0 {
        assert(s[s.len() - 1] == s.last());
        lemma_no_index(s.drop_last(), c);
    }
}

/// A file's path is its directory, a slash and its name, and is taken apart into these.
pub proof fn paths_are_taken_apart(directory: Seq<char>, name: Seq<char>)
    requires
        directory.len() > 0,
        directory.last() != '/',
        name.len() > 0,
        forall|i: int| 0 <= i < name.len() ==> #[trigger] name[i] != '/',
    ensures
        joined(directory, name) == directory + seq!['/'] + name,
        parent_of(joined(directory, name)) == Some(directory),
        name_of(joined(directory, name)) == name,
        parent_of(name) == Some(Seq::<char>::empty()),
        name_of(name) == name,
{
    reveal_strlit("/");
    assert("/"@ =~= seq!['/']);
    let path = directory + seq!['/'] + name;
    lemma_last_index_is(directory, '/', name);
    assert(path.take(directory.len() as int) =~= directory);
    assert(path.skip(directory.len() as int + 1) =~= name);
    assert(path.len() > 1);
    assert(path != "/"@);
    lemma_no_index(name, '/');
    assert(name[0] != '/');
    assert(name != "/"@);
    assert(name.skip(0) =~= name);
}

/// The extension of a file is what follows the last dot of its name.
pub proof fn extensions_follow_the_last_dot(stem: Seq<char>, extension: Seq<char>)
    requires
        stem.len() > 0,
        extension.len() > 0,
        forall|i: int| 0 <= i < stem.len() ==> #[trigger] stem[i] != '/',
        forall|i: int| 0 <= i < extension.len() ==> #[trigger] extension[i] != '/' && extension[i]
            != '.',
    ensures
        extension_of(stem + seq!['.'] + extension) == Some(extension),
{
    reveal_strlit("..");
    let name = stem + seq!['.'] + extension;
    assert forall|i: int| 0 <= i < name.len() implies #[trigger] name[i] != '/' by {
        if i > stem.len() {
            assert(name[i] == extension[i - stem.len() - 1]);
        }
    }
    lemma_no_index(name, '/');
    assert(name.skip(0) =~= name);
    lemma_last_index_is(stem, '.', extension);
    assert(name.skip(stem.len() as int + 1) =~= extension);
    assert(name.len() > 2);
}

} // verus!
