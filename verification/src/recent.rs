//! The files that were opened last.
use crate::text::{
    chars, chomp, filled, filled_lines, lemma_position_is, lemma_trim, lines, same, trim_start,
    trimmed, views, Pattern,
};
use vstd::prelude::*;

verus! {

pub const MAX_RECENT_FILES: usize = 100;

/// The paths that a list's file names, without a look at whether they exist. A
/// file that cannot be read names none.
pub fn read_lines(contents: Option<&str>) -> (r: Vec<String>)
    ensures
        views(r@) == (match contents {
            Some(s) => filled_lines(lines(s@), MAX_RECENT_FILES as nat),
            None => seq![],
        }),
{
    let all = match contents {
        Some(s) => chars(s),
        None => {
            let r: Vec<String> = Vec::new();
            assert(views(r@) =~= seq![]);
            return r;
        },
    };
    filled(&all, MAX_RECENT_FILES)
}

/// Those of the entries whose flag is set.
pub open spec fn flagged(list: Seq<Seq<char>>, flags: Seq<bool>) -> Seq<Seq<char>>
    decreases list.len(),
{
    if list.len() == 0 || flags.len() < list.len() {
        seq![]
    } else {
        let n = list.len() - 1;
        let before = flagged(list.take(n), flags.take(n));
        if flags[n] {
            before.push(list[n])
        } else {
            before
        }
    }
}

/// The recent files for display. Files that do not exist are left out, but not
/// forgotten: one that is missing for a while keeps its place in the list.
pub fn load(list: &Vec<String>, exists: &Vec<bool>) -> (r: Vec<String>)
    requires
        list@.len() == exists@.len(),
    ensures
        views(r@) == flagged(views(list@), exists@),
{
    let mut r: Vec<String> = Vec::new();
    let ghost all = views(list@);
    let mut i: usize = 0;
    assert(views(r@) =~= seq![]);
    while i < list.len()
        invariant
            i <= list@.len(),
            list@.len() == exists@.len(),
            all == views(list@),
            views(r@) == flagged(all.take(i as int), exists@.take(i as int)),
        decreases list@.len() - i,
    {
        let ghost a = all.take(i as int + 1);
        let ghost f = exists@.take(i as int + 1);
        let ghost before = views(r@);
        proof {
            assert(a.take(i as int) =~= all.take(i as int));
            assert(f.take(i as int) =~= exists@.take(i as int));
            assert(a[i as int] == list@[i as int]@);
        }
        if exists[i] {
            r.push(list[i].clone());
            assert(views(r@) =~= before.push(list@[i as int]@));
        }
        i += 1;
    }
    assert(all.take(i as int) =~= all);
    assert(exists@.take(i as int) =~= exists@);
    r
}

/// The entries but for `path`.
pub open spec fn without(list: Seq<Seq<char>>, path: Seq<char>) -> Seq<Seq<char>>
    decreases list.len(),
{
    if list.len() == 0 {
        seq![]
    } else {
        let before = without(list.drop_last(), path);
        if list.last() == path {
            before
        } else {
            before.push(list.last())
        }
    }
}

/// The list after `path` was opened.
pub open spec fn recorded(list: Seq<Seq<char>>, path: Seq<char>) -> Seq<Seq<char>> {
    let all = seq![path] + without(list, path);
    all.take(if all.len() < MAX_RECENT_FILES {
        all.len() as int
    } else {
        MAX_RECENT_FILES as int
    })
}

/// Records that `path` was opened: it comes first, and only there.
pub fn record_open(list: &Vec<String>, path: &str) -> (r: Vec<String>)
    ensures
        views(r@) == recorded(views(list@), path@),
{
    let mut kept: Vec<String> = Vec::new();
    kept.push(path.to_owned());
    let ghost all = views(list@);
    let mut i: usize = 0;
    assert(views(kept@) =~= seq![path@] + without(all.take(0), path@));
    while i < list.len()
        invariant
            i <= list@.len(),
            all == views(list@),
            kept@.len() > 0,
            views(kept@) == seq![path@] + without(all.take(i as int), path@),
        decreases list@.len() - i,
    {
        let ghost next = all.take(i as int + 1);
        let ghost before = views(kept@);
        proof {
            assert(next.drop_last() =~= all.take(i as int));
            assert(next.last() == list@[i as int]@);
        }
        if !same(&list[i], path) {
            kept.push(list[i].clone());
            assert(views(kept@) =~= before.push(list@[i as int]@));
            assert(before.push(list@[i as int]@) =~= seq![path@] + without(next, path@));
        }
        i += 1;
    }
    assert(all.take(i as int) =~= all);
    let ghost whole = views(kept@);
    kept.truncate(MAX_RECENT_FILES);
    assert(views(kept@) =~= recorded(all, path@));
    kept
}

/// The text of a list's file: one path on each line.
pub open spec fn written(list: Seq<Seq<char>>) -> Seq<char>
    decreases list.len(),
{
    if list.len() == 0 {
        seq![]
    } else {
        written(list.drop_last()) + list.last() + "\n"@
    }
}

pub fn serialize(list: &Vec<String>) -> (r: String)
    ensures
        r@ == written(views(list@)),
{
    let mut r = String::new();
    let ghost all = views(list@);
    let mut i: usize = 0;
    assert(r@ =~= seq![]);
    while i < list.len()
        invariant
            i <= list@.len(),
            all == views(list@),
            r@ == written(all.take(i as int)),
        decreases list@.len() - i,
    {
        let ghost next = all.take(i as int + 1);
        proof {
            assert(next.drop_last() =~= all.take(i as int));
            assert(next.last() == list@[i as int]@);
        }
        r.append(&list[i]);
        r.append("\n");
        i += 1;
    }
    assert(all.take(i as int) =~= all);
    r
}

proof fn lemma_without(list: Seq<Seq<char>>, path: Seq<char>)
    ensures
        !without(list, path).contains(path),
        without(list, path).len() <= list.len(),
        forall|p: Seq<char>| #[trigger]
            without(list, path).contains(p) ==> list.contains(p) && p != path,
        list.no_duplicates() ==> without(list, path).no_duplicates(),
    decreases list.len(),
{
    if list.len() > 0 {
        let t = list.drop_last();
        lemma_without(t, path);
        let r = without(list, path);
        let u = without(t, path);
        assert forall|p: Seq<char>| #[trigger] r.contains(p) implies list.contains(p) && p
            != path by {
            let i = r.index_of(p);
            if i < u.len() {
                assert(u[i] == p);
                assert(u.contains(p));
                let k = t.index_of(p);
                assert(list[k] == p);
            } else {
                assert(list[list.len() - 1] == p);
            }
        }
        if list.no_duplicates() {
            assert(t.no_duplicates());
            assert forall|i: int, j: int| 0 <= i < r.len() && 0 <= j < r.len() && i
                != j implies r[i] != r[j] by {
                if i < u.len() && j < u.len() {
                    assert(u[i] != u[j]);
                } else if i < u.len() {
                    assert(u.contains(u[i]));
                    let k = t.index_of(u[i]);
                    assert(list[k] != list[list.len() - 1]);
                } else if j < u.len() {
                    assert(u.contains(u[j]));
                    let k = t.index_of(u[j]);
                    assert(list[k] != list[list.len() - 1]);
                }
            }
        }
    }
}

/// The list is bounded, starts with the file that was opened, and names no file
/// twice if it did not before.
pub proof fn opened_files_come_first(list: Seq<Seq<char>>, path: Seq<char>)
    requires
        list.no_duplicates(),
    ensures
        recorded(list, path).len() <= MAX_RECENT_FILES,
        recorded(list, path).len() > 0,
        recorded(list, path)[0] == path,
        recorded(list, path).no_duplicates(),
{
    lemma_without(list, path);
    let rest = without(list, path);
    let all = seq![path] + rest;
    let r = recorded(list, path);
    assert forall|i: int, j: int| 0 <= i < r.len() && 0 <= j < r.len() && i != j implies r[i]
        != r[j] by {
        assert(r[i] == all[i] && r[j] == all[j]);
        if i > 0 {
            assert(rest[i - 1] == r[i]);
            assert(rest.contains(r[i]));
        }
        if j > 0 {
            assert(rest[j - 1] == r[j]);
            assert(rest.contains(r[j]));
        }
    }
}

/// A path that a list's file can hold: one line, without white space at its ends.
pub open spec fn storable(path: Seq<char>) -> bool {
    &&& path.len() > 0
    &&& trimmed(path) == path
    &&& forall|i: int| 0 <= i < path.len() ==> #[trigger] path[i] != '\n'
}

proof fn lemma_written_first(list: Seq<Seq<char>>)
    requires
        list.len() > 0,
    ensures
        written(list) == list[0] + "\n"@ + written(list.skip(1)),
    decreases list.len(),
{
    if list.len() == 1 {
        assert(list.drop_last() =~= seq![]);
        assert(list.skip(1) =~= seq![]);
        reveal_with_fuel(written, 2);
        assert(written(list) =~= list[0] + "\n"@ + written(list.skip(1)));
    } else {
        let t = list.drop_last();
        lemma_written_first(t);
        assert(t.skip(1) =~= list.skip(1).drop_last());
        assert(list.skip(1).last() == list.last());
        assert(written(list) =~= list[0] + "\n"@ + written(list.skip(1)));
    }
}

proof fn lemma_entries_written(list: Seq<Seq<char>>, n: nat)
    requires
        list.len() <= n,
        forall|i: int| 0 <= i < list.len() ==> storable(#[trigger] list[i]),
    ensures
        filled_lines(lines(written(list)), n) == list,
    decreases list.len(),
{
    if list.len() == 0 {
        assert(list =~= seq![]);
    } else {
        let path = list[0];
        assert(storable(path));
        let rest = list.skip(1);
        lemma_written_first(list);
        let s = written(list);
        reveal_strlit("\n");
        lemma_position_is(s, Pattern::One('\n'), path.len() as int);
        assert(s.take(path.len() as int) =~= path);
        assert(s.skip(path.len() as int + 1) =~= written(rest));
        lemma_trim(path, Pattern::Space);
        lemma_trim(trim_start(path, Pattern::Space), Pattern::Space);
        assert(!crate::text::is_space(path.last()));
        assert(chomp(path) == path);
        assert(lines(s) =~= seq![path] + lines(written(rest)));
        assert(lines(s).skip(1) =~= lines(written(rest)));
        assert forall|i: int| 0 <= i < rest.len() implies storable(#[trigger] rest[i]) by {
            assert(rest[i] == list[i + 1]);
        }
        lemma_entries_written(rest, (n - 1) as nat);
        assert(seq![path] + rest =~= list);
    }
}

/// A list that was saved is read back as it was.
pub proof fn saved_lists_are_read_back(list: Seq<Seq<char>>)
    requires
        list.len() <= MAX_RECENT_FILES,
        forall|i: int| 0 <= i < list.len() ==> storable(#[trigger] list[i]),
    ensures
        filled_lines(lines(written(list)), MAX_RECENT_FILES as nat) == list,
{
    lemma_entries_written(list, MAX_RECENT_FILES as nat);
}

proof fn lemma_flagged(list: Seq<Seq<char>>, flags: Seq<bool>, p: Seq<char>)
    requires
        list.len() == flags.len(),
    ensures
        flagged(list, flags).contains(p) <==> exists|i: int|
            0 <= i < list.len() && #[trigger] list[i] == p && flags[i],
    decreases list.len(),
{
    if list.len() > 0 {
        let n = list.len() - 1;
        let t = list.take(n);
        let u = flags.take(n);
        let before = flagged(t, u);
        let all = flagged(list, flags);
        lemma_flagged(t, u, p);
        if before.contains(p) {
            let i = choose|i: int| 0 <= i < t.len() && #[trigger] t[i] == p && u[i];
            assert(list[i] == p && flags[i]);
            let k = choose|k: int| 0 <= k < before.len() && before[k] == p;
            assert(all[k] == p);
        }
        if flags[n] && list[n] == p {
            assert(all[before.len() as int] == p);
        }
        if all.contains(p) && !before.contains(p) {
            let k = choose|k: int| 0 <= k < all.len() && all[k] == p;
            if k < before.len() {
                assert(before[k] == p);
            }
            assert(list[n] == p && flags[n]);
        }
        if exists|i: int| 0 <= i < list.len() && #[trigger] list[i] == p && flags[i] {
            let i = choose|i: int| 0 <= i < list.len() && #[trigger] list[i] == p && flags[i];
            if i < n {
                assert(t[i] == p && u[i]);
            }
        }
    }
}

/// Of the recent files those are shown that exist, and only those; if all do, the list
/// is shown as it is.
pub proof fn existing_files_are_shown(list: Seq<Seq<char>>, present: Seq<bool>, p: Seq<char>)
    requires
        list.len() == present.len(),
    ensures
        flagged(list, present).contains(p) <==> exists|i: int|
            0 <= i < list.len() && #[trigger] list[i] == p && present[i],
        (forall|i: int| 0 <= i < list.len() ==> #[trigger] present[i]) ==> flagged(list, present)
            == list,
    decreases list.len(),
{
    lemma_flagged(list, present, p);
    if forall|i: int| 0 <= i < list.len() ==> #[trigger] present[i] {
        if list.len() > 0 {
            let n = list.len() - 1;
            existing_files_are_shown(list.take(n), present.take(n), p);
            assert(flagged(list, present) =~= list);
        } else {
            assert(list =~= seq![]);
        }
    }
}

proof fn lemma_kept(list: Seq<Seq<char>>, path: Seq<char>)
    requires
        !list.contains(path),
    ensures
        without(list, path) == list,
    decreases list.len(),
{
    if list.len() > 0 {
        assert(list[list.len() - 1] == list.last());
        assert forall|i: int| 0 <= i < list.drop_last().len() implies list.drop_last()[i]
            != path by {
            assert(list[i] != path);
        }
        lemma_kept(list.drop_last(), path);
        assert(without(list, path) =~= list);
    } else {
        assert(list =~= seq![]);
    }
}

proof fn lemma_without_one(a: Seq<Seq<char>>, path: Seq<char>, b: Seq<Seq<char>>)
    requires
        !a.contains(path),
        !b.contains(path),
    ensures
        without(a + seq![path] + b, path) == a + b,
    decreases b.len(),
{
    let all = a + seq![path] + b;
    if b.len() == 0 {
        assert(all.drop_last() =~= a);
        lemma_kept(a, path);
        assert(a + b =~= a);
    } else {
        assert(b[b.len() - 1] == b.last());
        assert forall|i: int| 0 <= i < b.drop_last().len() implies b.drop_last()[i] != path by {
            assert(b[i] != path);
        }
        lemma_without_one(a, path, b.drop_last());
        assert(all.drop_last() =~= a + seq![path] + b.drop_last());
        assert(without(all, path) =~= a + b);
    }
}

/// Opening a file moves it to the front and keeps the order of all others; the oldest
/// are forgotten where the list grows too long.
pub proof fn other_files_keep_their_order(
    a: Seq<Seq<char>>,
    path: Seq<char>,
    b: Seq<Seq<char>>,
)
    requires
        !a.contains(path),
        !b.contains(path),
    ensures
        a.len() + b.len() < MAX_RECENT_FILES ==> recorded(a + seq![path] + b, path) == seq![path]
            + a + b,
        a.len() < MAX_RECENT_FILES ==> recorded(a, path) == seq![path] + a,
        a.len() >= MAX_RECENT_FILES ==> recorded(a, path) == seq![path] + a.take(
            MAX_RECENT_FILES - 1,
        ),
{
    lemma_without_one(a, path, b);
    lemma_kept(a, path);
    assert((seq![path] + (a + b)).take((a.len() + b.len() + 1) as int) =~= seq![path] + a + b);
    assert((seq![path] + a).take(a.len() as int + 1) =~= seq![path] + a);
    if a.len() >= MAX_RECENT_FILES {
        assert(recorded(a, path) =~= seq![path] + a.take(MAX_RECENT_FILES - 1));
    }
}

} // verus!
