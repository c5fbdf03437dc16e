//! Changed files, blame and file contents of a repository.
use crate::paths::{join_path, joined};
use crate::text::{chars, decimal, part, push_decimal, same, strip_prefix, text};
use vstd::prelude::*;

verus! {

// ---------------------------------------------------------------------------
// Changed files
// ---------------------------------------------------------------------------

#[derive(Debug)]
pub enum FileChange {
    Untracked { path: String },
    Modified { path: String },
    Conflict { path: String },
    Deleted { path: String },
    Renamed { from_path: String, to_path: String },
}

pub enum ChangeView {
    Untracked(Seq<char>),
    Modified(Seq<char>),
    Conflict(Seq<char>),
    Deleted(Seq<char>),
    Renamed(Seq<char>, Seq<char>),
}

impl View for FileChange {
    type V = ChangeView;

    open spec fn view(&self) -> ChangeView {
        match *self {
            FileChange::Untracked { path } => ChangeView::Untracked(path@),
            FileChange::Modified { path } => ChangeView::Modified(path@),
            FileChange::Conflict { path } => ChangeView::Conflict(path@),
            FileChange::Deleted { path } => ChangeView::Deleted(path@),
            FileChange::Renamed { from_path, to_path } => ChangeView::Renamed(from_path@, to_path@),
        }
    }
}

/// What a comparison of the index with the working tree found; paths are
/// relative to the working tree.
#[derive(Debug)]
pub enum Item {
    Conflict(String),
    Removed(String),
    Modified(String),
    /// Marked with `git add --intent-to-add`: still new for `git status`.
    IntentToAdd(String),
    Untracked(String),
    /// A file that was moved: from and to.
    Rewrite(String, String),
    /// Anything that is not shown.
    Other,
}

pub open spec fn shown(work_dir: Seq<char>, item: Item) -> Option<ChangeView> {
    match item {
        Item::Conflict(p) => Some(ChangeView::Conflict(joined(work_dir, p@))),
        Item::Removed(p) => Some(ChangeView::Deleted(joined(work_dir, p@))),
        Item::Modified(p) => Some(ChangeView::Modified(joined(work_dir, p@))),
        Item::IntentToAdd(p) => Some(ChangeView::Untracked(joined(work_dir, p@))),
        Item::Untracked(p) => Some(ChangeView::Untracked(joined(work_dir, p@))),
        Item::Rewrite(from, to) => Some(
            ChangeView::Renamed(joined(work_dir, from@), joined(work_dir, to@)),
        ),
        Item::Other => None,
    }
}

fn show(work_dir: &str, item: &Item) -> (r: Option<FileChange>)
    ensures
        match r {
            Some(c) => shown(work_dir@, *item) == Some(c@),
            None => shown(work_dir@, *item) is None,
        },
{
    match item {
        Item::Conflict(p) => Some(FileChange::Conflict { path: join_path(work_dir, p) }),
        Item::Removed(p) => Some(FileChange::Deleted { path: join_path(work_dir, p) }),
        Item::Modified(p) => Some(FileChange::Modified { path: join_path(work_dir, p) }),
        Item::IntentToAdd(p) => Some(FileChange::Untracked { path: join_path(work_dir, p) }),
        Item::Untracked(p) => Some(FileChange::Untracked { path: join_path(work_dir, p) }),
        Item::Rewrite(from, to) => Some(
            FileChange::Renamed {
                from_path: join_path(work_dir, from),
                to_path: join_path(work_dir, to),
            },
        ),
        Item::Other => None,
    }
}

/// What a listener is told: a change, or why one cannot be said.
pub open spec fn said(x: Result<FileChange, String>) -> Result<ChangeView, Seq<char>> {
    match x {
        Ok(c) => Ok(c@),
        Err(e) => Err(e@),
    }
}

/// What there is to say of the items, in order.
pub open spec fn sayings(work_dir: Seq<char>, items: Seq<Result<Item, String>>) -> Seq<
    Result<ChangeView, Seq<char>>,
>
    decreases items.len(),
{
    if items.len() == 0 {
        seq![]
    } else {
        let before = sayings(work_dir, items.drop_last());
        match items.last() {
            Ok(item) => match shown(work_dir, item) {
                Some(c) => before.push(Ok(c)),
                None => before,
            },
            Err(e) => before.push(Err(e@)),
        }
    }
}

/// The listener `f` was told `given` and answered `answers`: the start of `all`, up
/// to the first change after which it wants no more. What it answers to an error
/// does not matter.
pub open spec fn told<F: Fn(Result<FileChange, String>) -> bool>(
    f: F,
    all: Seq<Result<ChangeView, Seq<char>>>,
    given: Seq<Result<FileChange, String>>,
    answers: Seq<bool>,
) -> bool {
    &&& heard(f, all, given, answers)
    &&& given.len() == all.len() || stopped(given, answers)
}

/// The listener was told the start of `all`, and wanted more each time before.
pub open spec fn heard<F: Fn(Result<FileChange, String>) -> bool>(
    f: F,
    all: Seq<Result<ChangeView, Seq<char>>>,
    given: Seq<Result<FileChange, String>>,
    answers: Seq<bool>,
) -> bool {
    &&& given.len() == answers.len()
    &&& given.len() <= all.len()
    &&& forall|k: int|
        #![trigger given[k]]
        0 <= k < given.len() ==> said(given[k]) == all[k] && call_ensures(
            f,
            (given[k],),
            answers[k],
        )
    &&& forall|k: int|
        #![trigger given[k]]
        0 <= k < given.len() - 1 ==> given[k] is Err || answers[k]
}

/// The last thing said was a change, after which no more is wanted.
pub open spec fn stopped(given: Seq<Result<FileChange, String>>, answers: Seq<bool>) -> bool {
    given.len() > 0 && given.len() == answers.len() && given.last() is Ok && !answers.last()
}

/// Tells the listener one more thing; answers whether it wants more.
fn tell<F: Fn(Result<FileChange, String>) -> bool>(
    f: &F,
    saying: Result<FileChange, String>,
    Ghost(all): Ghost<Seq<Result<ChangeView, Seq<char>>>>,
    Ghost(given): Ghost<Seq<Result<FileChange, String>>>,
    Ghost(answers): Ghost<Seq<bool>>,
) -> (r: (bool, Ghost<Seq<Result<FileChange, String>>>, Ghost<Seq<bool>>))
    requires
        call_requires(*f, (saying,)),
        heard(*f, all, given, answers),
        !stopped(given, answers),
        given.len() < all.len(),
        said(saying) == all[given.len() as int],
    ensures
        heard(*f, all, r.1@, r.2@),
        r.1@.len() == given.len() + 1,
        r.0 == !stopped(r.1@, r.2@),
{
    let error = saying.is_err();
    let ghost told_now = given.push(saying);
    let more = f(saying);
    let ghost answered = answers.push(more);
    proof {
        assert(heard(*f, all, told_now, answered)) by {
            assert forall|k: int| #![trigger told_now[k]] 0 <= k < told_now.len() implies said(
                told_now[k],
            ) == all[k] && call_ensures(*f, (told_now[k],), answered[k]) by {
                if k < given.len() {
                    assert(told_now[k] == given[k]);
                }
            }
            assert forall|k: int| #![trigger told_now[k]] 0 <= k < told_now.len() - 1 implies
                told_now[k] is Err || answered[k] by {
                assert(told_now[k] == given[k]);
                if k == given.len() - 1 {
                    assert(given.last() == given[k]);
                }
            }
        }
    }
    (error || more, Ghost(told_now), Ghost(answered))
}

pub open spec fn all_sayings(list: Seq<Result<FileChange, String>>) -> Seq<
    Result<ChangeView, Seq<char>>,
> {
    list.map_values(|x: Result<FileChange, String>| said(x))
}

fn copy_saying(x: &Result<FileChange, String>) -> (r: Result<FileChange, String>)
    ensures
        said(r) == said(*x),
{
    match x {
        Ok(c) => Ok(c.copy()),
        Err(e) => Err(e.clone()),
    }
}

/// Tells the listener what is listed, one after another, until it wants no more.
fn tell_all<F: Fn(Result<FileChange, String>) -> bool>(
    list: &Vec<Result<FileChange, String>>,
    f: &F,
)
    requires
        forall|x: Result<FileChange, String>|
            all_sayings(list@).contains(said(x)) ==> #[trigger] call_requires(*f, (x,)),
    ensures
        exists|given: Seq<Result<FileChange, String>>, answers: Seq<bool>| #[trigger]
            told(*f, all_sayings(list@), given, answers),
{
    let ghost all = all_sayings(list@);
    let ghost mut given: Seq<Result<FileChange, String>> = seq![];
    let ghost mut answers: Seq<bool> = seq![];
    let mut i: usize = 0;
    assert(heard(*f, all, given, answers));
    while i < list.len()
        invariant
            i <= list@.len(),
            all == all_sayings(list@),
            forall|x: Result<FileChange, String>|
                all.contains(said(x)) ==> #[trigger] call_requires(*f, (x,)),
            heard(*f, all, given, answers),
            !stopped(given, answers),
            given.len() == i,
        decreases list@.len() - i,
    {
        let saying = copy_saying(&list[i]);
        assert(all[i as int] == said(saying));
        let (more, Ghost(g), Ghost(a)) = tell(f, saying, Ghost(all), Ghost(given), Ghost(answers));
        proof {
            given = g;
            answers = a;
        }
        if !more {
            assert(told(*f, all, given, answers));
            return;
        }
        i += 1;
    }
    assert(told(*f, all, given, answers));
}

/// The changes of the working tree, as `git status` would list them, and what went
/// wrong in between.
pub fn working_changes(work_dir: &str, items: &Vec<Result<Item, String>>) -> (r: Vec<
    Result<FileChange, String>,
>)
    ensures
        all_sayings(r@) == sayings(work_dir@, items@),
{
    let mut r: Vec<Result<FileChange, String>> = Vec::new();
    let mut i: usize = 0;
    assert(all_sayings(r@) =~= seq![]);
    while i < items.len()
        invariant
            i <= items@.len(),
            all_sayings(r@) == sayings(work_dir@, items@.take(i as int)),
        decreases items@.len() - i,
    {
        let ghost before = all_sayings(r@);
        assert(items@.take(i as int + 1).drop_last() =~= items@.take(i as int));
        match &items[i] {
            Ok(item) => match show(work_dir, item) {
                Some(c) => {
                    r.push(Ok(c));
                    assert(all_sayings(r@) =~= before.push(Ok(c@)));
                },
                None => {},
            },
            Err(e) => {
                r.push(Err(e.clone()));
                assert(all_sayings(r@) =~= before.push(Err(e@)));
            },
        }
        i += 1;
    }
    assert(items@.take(i as int) =~= items@);
    r
}

/// The changes of the working tree, as `git status` would list them, one after
/// another to `f`, until it answers that it wants no more. `f` is told nothing else.
pub fn for_each_changed_file<F: Fn(Result<FileChange, String>) -> bool>(
    work_dir: &str,
    items: Vec<Result<Item, String>>,
    f: F,
)
    requires
        forall|x: Result<FileChange, String>|
            sayings(work_dir@, items@).contains(said(x)) ==> #[trigger] call_requires(f, (x,)),
    ensures
        exists|given: Seq<Result<FileChange, String>>, answers: Seq<bool>| #[trigger]
            told(f, sayings(work_dir@, items@), given, answers),
{
    let list = working_changes(work_dir, &items);
    tell_all(&list, &f);
}

/// The changes among what there is to say.
pub open spec fn changes_in(work_dir: Seq<char>, items: Seq<Result<Item, String>>) -> Seq<
    ChangeView,
>
    decreases items.len(),
{
    if items.len() == 0 {
        seq![]
    } else {
        let before = changes_in(work_dir, items.drop_last());
        match items.last() {
            Ok(item) => match shown(work_dir, item) {
                Some(c) => before.push(c),
                None => before,
            },
            Err(_) => before,
        }
    }
}

pub open spec fn change_views(c: Seq<FileChange>) -> Seq<ChangeView> {
    c.map_values(|x: FileChange| x@)
}

/// All changes of the working tree; errors are left out.
pub fn collect_status(work_dir: &str, items: &Vec<Result<Item, String>>) -> (r: Vec<FileChange>)
    ensures
        change_views(r@) == changes_in(work_dir@, items@),
{
    let mut r: Vec<FileChange> = Vec::new();
    let mut i: usize = 0;
    assert(change_views(r@) =~= seq![]);
    while i < items.len()
        invariant
            i <= items@.len(),
            change_views(r@) == changes_in(work_dir@, items@.take(i as int)),
        decreases items@.len() - i,
    {
        let ghost before = change_views(r@);
        assert(items@.take(i as int + 1).drop_last() =~= items@.take(i as int));
        match &items[i] {
            Ok(item) => match show(work_dir, item) {
                Some(c) => {
                    r.push(c);
                    assert(change_views(r@) =~= before.push(c@));
                },
                None => {},
            },
            Err(_e) => {},
        }
        i += 1;
    }
    assert(items@.take(i as int) =~= items@);
    r
}

// ---------------------------------------------------------------------------
// Files changed in a branch
// ---------------------------------------------------------------------------

/// What a tree entry is.
#[derive(Clone, Copy, Debug, PartialEq, Eq, Structural)]
pub enum EntryKind {
    Blob,
    BlobExecutable,
    Tree,
    Commit,
    Link,
}

pub open spec fn is_file(kind: EntryKind) -> bool {
    kind == EntryKind::Blob || kind == EntryKind::BlobExecutable
}

fn file(kind: EntryKind) -> (r: bool)
    ensures
        r == is_file(kind),
{
    match kind {
        EntryKind::Blob | EntryKind::BlobExecutable => true,
        _ => false,
    }
}

/// A difference between two trees; paths are relative to the working tree.
#[derive(Debug)]
pub enum TreeChange {
    Addition(EntryKind, String),
    Deletion(EntryKind, String),
    Modification(EntryKind, String),
    /// From and to.
    Rewrite(String, String),
}

/// Only files are shown.
pub open spec fn tree_shown(work_dir: Seq<char>, change: TreeChange) -> Option<ChangeView> {
    match change {
        TreeChange::Addition(kind, p) => if is_file(kind) {
            Some(ChangeView::Untracked(joined(work_dir, p@)))
        } else {
            None
        },
        TreeChange::Deletion(kind, p) => if is_file(kind) {
            Some(ChangeView::Deleted(joined(work_dir, p@)))
        } else {
            None
        },
        TreeChange::Modification(kind, p) => if is_file(kind) {
            Some(ChangeView::Modified(joined(work_dir, p@)))
        } else {
            None
        },
        TreeChange::Rewrite(from, to) => Some(
            ChangeView::Renamed(joined(work_dir, from@), joined(work_dir, to@)),
        ),
    }
}

fn show_tree(work_dir: &str, change: &TreeChange) -> (r: Option<FileChange>)
    ensures
        match r {
            Some(c) => tree_shown(work_dir@, *change) == Some(c@),
            None => tree_shown(work_dir@, *change) is None,
        },
{
    match change {
        TreeChange::Addition(kind, p) => if file(*kind) {
            Some(FileChange::Untracked { path: join_path(work_dir, p) })
        } else {
            None
        },
        TreeChange::Deletion(kind, p) => if file(*kind) {
            Some(FileChange::Deleted { path: join_path(work_dir, p) })
        } else {
            None
        },
        TreeChange::Modification(kind, p) => if file(*kind) {
            Some(FileChange::Modified { path: join_path(work_dir, p) })
        } else {
            None
        },
        TreeChange::Rewrite(from, to) => Some(
            FileChange::Renamed {
                from_path: join_path(work_dir, from),
                to_path: join_path(work_dir, to),
            },
        ),
    }
}

/// The paths that a change is about.
pub open spec fn paths_of(c: ChangeView) -> Seq<Seq<char>> {
    match c {
        ChangeView::Untracked(p) => seq![p],
        ChangeView::Modified(p) => seq![p],
        ChangeView::Conflict(p) => seq![p],
        ChangeView::Deleted(p) => seq![p],
        ChangeView::Renamed(a, b) => seq![a, b],
    }
}

/// One of the changes is about `path`.
pub open spec fn covered(changes: Seq<ChangeView>, path: Seq<char>) -> bool
    decreases changes.len(),
{
    changes.len() > 0 && (covered(changes.drop_last(), path) || paths_of(changes.last()).contains(
        path,
    ))
}

/// The changes say something of a path of `c` already.
pub open spec fn overlaps(changes: Seq<ChangeView>, c: ChangeView) -> bool {
    match c {
        ChangeView::Untracked(p) => covered(changes, p),
        ChangeView::Modified(p) => covered(changes, p),
        ChangeView::Conflict(p) => covered(changes, p),
        ChangeView::Deleted(p) => covered(changes, p),
        ChangeView::Renamed(a, b) => covered(changes, a) || covered(changes, b),
    }
}

/// What was committed in the branch and has no change in the working tree.
pub open spec fn committed(
    work_dir: Seq<char>,
    working: Seq<ChangeView>,
    tree: Seq<TreeChange>,
) -> Seq<ChangeView>
    decreases tree.len(),
{
    if tree.len() == 0 {
        seq![]
    } else {
        let before = committed(work_dir, working, tree.drop_last());
        match tree_shown(work_dir, tree.last()) {
            Some(c) => if overlaps(working, c) {
                before
            } else {
                before.push(c)
            },
            None => before,
        }
    }
}

/// How the branch relates to its base.
#[derive(Debug)]
pub enum MergeBase {
    /// There is no common ancestor, and why.
    Failed(String),
    /// HEAD itself: nothing was committed in the branch.
    Head,
    /// What was committed since.
    Changes(Vec<TreeChange>),
}

pub open spec fn all_said(changes: Seq<ChangeView>) -> Seq<Result<ChangeView, Seq<char>>> {
    changes.map_values(|c: ChangeView| Ok::<ChangeView, Seq<char>>(c))
}

/// What there is to say of a branch: the changes of the working tree, then what
/// was committed.
pub open spec fn branch_sayings(
    work_dir: Seq<char>,
    items: Seq<Result<Item, String>>,
    base: MergeBase,
) -> Seq<Result<ChangeView, Seq<char>>> {
    let working = changes_in(work_dir, items);
    all_said(working) + (match base {
        MergeBase::Failed(e) => seq![Err::<ChangeView, Seq<char>>(e@)],
        MergeBase::Head => seq![],
        MergeBase::Changes(tree) => all_said(committed(work_dir, working, tree@)),
    })
}

/// The base of a branch: `main`, else `master`.
pub fn base_branch(main: bool, master: bool) -> (r: Result<&'static str, &'static str>)
    ensures
        match r {
            Ok(name) => name@ == if main {
                "refs/heads/main"@
            } else {
                "refs/heads/master"@
            } && (main || master),
            Err(e) => !main && !master && e@
                == "neither refs/heads/main nor refs/heads/master found"@,
        },
{
    if main {
        Ok("refs/heads/main")
    } else if master {
        Ok("refs/heads/master")
    } else {
        Err("neither refs/heads/main nor refs/heads/master found")
    }
}

fn is_covered(changes: &Vec<FileChange>, path: &str) -> (r: bool)
    ensures
        r == covered(change_views(changes@), path@),
{
    let ghost all = change_views(changes@);
    let mut i: usize = 0;
    while i < changes.len()
        invariant
            i <= changes@.len(),
            all == change_views(changes@),
            !covered(all.take(i as int), path@),
        decreases changes@.len() - i,
    {
        proof {
            assert(all.take(i as int + 1).drop_last() =~= all.take(i as int));
            assert(all[i as int] == changes@[i as int]@);
        }
        let hit = match &changes[i] {
            FileChange::Untracked { path: p } => {
                assert(paths_of(all[i as int])[0] == p@);
                same(p, path)
            },
            FileChange::Modified { path: p } => {
                assert(paths_of(all[i as int])[0] == p@);
                same(p, path)
            },
            FileChange::Conflict { path: p } => {
                assert(paths_of(all[i as int])[0] == p@);
                same(p, path)
            },
            FileChange::Deleted { path: p } => {
                assert(paths_of(all[i as int])[0] == p@);
                same(p, path)
            },
            FileChange::Renamed { from_path: a, to_path: b } => {
                assert(paths_of(all[i as int])[0] == a@);
                assert(paths_of(all[i as int])[1] == b@);
                same(a, path) || same(b, path)
            },
        };
        if hit {
            proof {
                lemma_covered(all, path@, i as int + 1);
            }
            return true;
        }
        i += 1;
    }
    assert(all.take(i as int) =~= all);
    false
}

proof fn lemma_covered(changes: Seq<ChangeView>, path: Seq<char>, n: int)
    requires
        0 <= n <= changes.len(),
        covered(changes.take(n), path),
    ensures
        covered(changes, path),
    decreases changes.len() - n,
{
    if n < changes.len() {
        assert(changes.take(n + 1).drop_last() =~= changes.take(n));
        lemma_covered(changes, path, n + 1);
    } else {
        assert(changes.take(n) =~= changes);
    }
}

fn has_overlap(changes: &Vec<FileChange>, c: &FileChange) -> (r: bool)
    ensures
        r == overlaps(change_views(changes@), c@),
{
    match c {
        FileChange::Untracked { path } => is_covered(changes, path),
        FileChange::Modified { path } => is_covered(changes, path),
        FileChange::Conflict { path } => is_covered(changes, path),
        FileChange::Deleted { path } => is_covered(changes, path),
        FileChange::Renamed { from_path, to_path } => is_covered(changes, from_path) || is_covered(
            changes,
            to_path,
        ),
    }
}

impl FileChange {
    /// The same change once more.
    pub fn copy(&self) -> (r: FileChange)
        ensures
            r@ == self@,
    {
        match self {
            FileChange::Untracked { path } => FileChange::Untracked { path: path.clone() },
            FileChange::Modified { path } => FileChange::Modified { path: path.clone() },
            FileChange::Conflict { path } => FileChange::Conflict { path: path.clone() },
            FileChange::Deleted { path } => FileChange::Deleted { path: path.clone() },
            FileChange::Renamed { from_path, to_path } => FileChange::Renamed {
                from_path: from_path.clone(),
                to_path: to_path.clone(),
            },
        }
    }
}

proof fn lemma_one_more(changes: Seq<ChangeView>, c: ChangeView)
    ensures
        all_said(changes.push(c)) == all_said(changes).push(Ok(c)),
{
    assert(all_said(changes.push(c)) =~= all_said(changes).push(Ok(c)));
}

/// The files that differ between the branch and its base, united with the changes
/// of the working tree. A path that changed in the working tree is listed only once,
/// as it is there.
pub fn branch_changes(work_dir: &str, items: &Vec<Result<Item, String>>, base: MergeBase) -> (r:
    Vec<Result<FileChange, String>>)
    ensures
        all_sayings(r@) == branch_sayings(work_dir@, items@, base),
{
    let working = collect_status(work_dir, items);
    let ghost first = change_views(working@);
    let mut r: Vec<Result<FileChange, String>> = Vec::new();
    let mut i: usize = 0;
    assert(all_sayings(r@) =~= all_said(first.take(0)));
    while i < working.len()
        invariant
            i <= working@.len(),
            first == change_views(working@),
            all_sayings(r@) == all_said(first.take(i as int)),
        decreases working@.len() - i,
    {
        let ghost before = all_sayings(r@);
        let c = working[i].copy();
        r.push(Ok(c));
        proof {
            assert(first[i as int] == working@[i as int]@);
            assert(first.take(i as int + 1) =~= first.take(i as int).push(c@));
            lemma_one_more(first.take(i as int), c@);
            assert(all_sayings(r@) =~= before.push(Ok(c@)));
        }
        i += 1;
    }
    assert(first.take(i as int) =~= first);
    match base {
        MergeBase::Failed(e) => {
            r.push(Err(e));
            assert(all_sayings(r@) =~= all_said(first) + seq![Err::<ChangeView, Seq<char>>(e@)]);
        },
        MergeBase::Head => {
            assert(all_sayings(r@) =~= all_said(first) + seq![]);
        },
        MergeBase::Changes(tree) => {
            let mut k: usize = 0;
            assert(all_sayings(r@) =~= all_said(first) + all_said(
                committed(work_dir@, first, tree@.take(0)),
            ));
            while k < tree.len()
                invariant
                    k <= tree@.len(),
                    first == change_views(working@),
                    all_sayings(r@) == all_said(first) + all_said(
                        committed(work_dir@, first, tree@.take(k as int)),
                    ),
                decreases tree@.len() - k,
            {
                let ghost done = committed(work_dir@, first, tree@.take(k as int));
                assert(tree@.take(k as int + 1).drop_last() =~= tree@.take(k as int));
                match show_tree(work_dir, &tree[k]) {
                    Some(c) => {
                        if !has_overlap(&working, &c) {
                            let ghost before = all_sayings(r@);
                            r.push(Ok(c));
                            proof {
                                lemma_one_more(done, c@);
                                assert(all_sayings(r@) =~= before.push(Ok(c@)));
                                assert(before.push(Ok(c@)) =~= all_said(first) + all_said(
                                    done,
                                ).push(Ok(c@)));
                            }
                        }
                    },
                    None => {},
                }
                k += 1;
            }
            assert(tree@.take(k as int) =~= tree@);
        },
    }
    r
}

/// The files that differ between the branch and its base, united with the changes
/// of the working tree, one after another to `f`, until it wants no more. A path
/// that changed in the working tree is told of only once, as it is there, and `f` is
/// told nothing else.
pub fn for_each_branch_changed_file<F: Fn(Result<FileChange, String>) -> bool>(
    work_dir: &str,
    items: &Vec<Result<Item, String>>,
    base: MergeBase,
    f: F,
)
    requires
        forall|x: Result<FileChange, String>|
            branch_sayings(work_dir@, items@, base).contains(said(x)) ==> #[trigger] call_requires(
                f,
                (x,),
            ),
    ensures
        exists|given: Seq<Result<FileChange, String>>, answers: Seq<bool>| #[trigger]
            told(f, branch_sayings(work_dir@, items@, base), given, answers),
{
    let list = branch_changes(work_dir, items, base);
    tell_all(&list, &f);
}

/// Changes of the working tree win: nothing is told of a path from its commits if
/// it changed since.
pub proof fn working_tree_changes_win(
    work_dir: Seq<char>,
    working: Seq<ChangeView>,
    tree: Seq<TreeChange>,
)
    ensures
        forall|i: int, path: Seq<char>|
            #![trigger paths_of(committed(work_dir, working, tree)[i]).contains(path)]
            0 <= i < committed(work_dir, working, tree).len() && paths_of(
                committed(work_dir, working, tree)[i],
            ).contains(path) ==> !covered(working, path),
    decreases tree.len(),
{
    if tree.len() > 0 {
        let t = tree.drop_last();
        working_tree_changes_win(work_dir, working, t);
        let r = committed(work_dir, working, tree);
        let u = committed(work_dir, working, t);
        assert forall|i: int, path: Seq<char>|
            #![trigger paths_of(r[i]).contains(path)]
            0 <= i < r.len() && paths_of(r[i]).contains(path) implies !covered(working, path) by {
            if i < u.len() {
                assert(r[i] == u[i]);
                assert(paths_of(u[i]).contains(path));
            } else {
                assert(!overlaps(working, r[i]));
            }
        }
    }
}

// ---------------------------------------------------------------------------
// Files of a commit
// ---------------------------------------------------------------------------

pub open spec fn kind_name(kind: EntryKind) -> Seq<char> {
    match kind {
        EntryKind::Blob => "Blob"@,
        EntryKind::BlobExecutable => "BlobExecutable"@,
        EntryKind::Tree => "Tree"@,
        EntryKind::Commit => "Commit"@,
        EntryKind::Link => "Link"@,
    }
}

/// Whether the entry of a path in a commit holds the contents of a file: one that
/// is not a file is all new, and has nothing to be compared with.
pub fn file_entry(entry: Option<EntryKind>, path: &str) -> (r: Result<(), String>)
    ensures
        match (entry, r) {
            (None, Err(e)) => e@ == "file is untracked"@,
            (Some(kind), Ok(_)) => is_file(kind),
            (Some(kind), Err(e)) => !is_file(kind) && e@ == "entry at "@ + path@
                + " is not a file but a "@ + kind_name(kind),
            _ => false,
        },
{
    match entry {
        None => Err("file is untracked".to_owned()),
        Some(kind) => {
            if file(kind) {
                return Ok(());
            }
            let mut e = "entry at ".to_owned();
            e.append(path);
            e.append(" is not a file but a ");
            e.append(
                match kind {
                    EntryKind::Tree => "Tree",
                    EntryKind::Commit => "Commit",
                    EntryKind::Link => "Link",
                    EntryKind::Blob => "Blob",
                    EntryKind::BlobExecutable => "BlobExecutable",
                },
            );
            Err(e)
        },
    }
}

/// What `gix::refs::FullName` makes of a reference's name when it is shortened;
/// `None` for a text that is no reference's name.
pub uninterp spec fn short_reference(name: Seq<char>) -> Option<Seq<char>>;

/// `gix::refs::FullName::shorten`, of a name that `FullName::try_from` accepts: a
/// local branch is shortened to what follows `refs/heads/`. What becomes of other
/// names, and which texts are names, depends on the text alone and is not stated
/// further.
#[verifier::external_body]
pub(crate) fn shorten(name: &str) -> (r: Option<String>)
    ensures
        match r {
            Some(s) => short_reference(name@) == Some(s@) && (strip_prefix(
                name@,
                "refs/heads/"@,
            ) matches Some(branch) ==> s@ == branch),
            None => short_reference(name@) is None,
        },
{
    match gix::refs::FullName::try_from(name) {
        Ok(full) => Some(full.shorten().to_string()),
        Err(_) => None,
    }
}

/// The name that is shown for HEAD: the short name of its branch, or the start of
/// its commit's id if it is detached.
pub fn head_label(branch: Option<String>, commit: &str) -> (r: String)
    ensures
        r@ == (match branch {
            Some(b) => b@,
            None => commit@.take(if commit@.len() < 8 {
                commit@.len() as int
            } else {
                8
            }),
        }),
{
    match branch {
        Some(b) => b,
        None => {
            let all = chars(commit);
            let n: usize = if all.len() < 8 { all.len() } else { 8 };
            let start = part(&all, 0, n);
            assert(start@ =~= commit@.take(n as int));
            text(start)
        },
    }
}

/// The name that is shown for HEAD, which points at `reference` or directly at
/// `commit`. `None` if `reference` is no reference's name.
pub fn get_current_head_name(reference: Option<&str>, commit: &str) -> (r: Option<String>)
    ensures
        match reference {
            Some(name) => crate::status::text_view(r) == short_reference(name@),
            None => r matches Some(s) && s@ == commit@.take(if commit@.len() < 8 {
                commit@.len() as int
            } else {
                8
            }),
        },
{
    match reference {
        Some(name) => match shorten(name) {
            Some(short) => Some(head_label(Some(short), commit)),
            None => None,
        },
        None => Some(head_label(None, commit)),
    }
}

// ---------------------------------------------------------------------------
// Blame
// ---------------------------------------------------------------------------

/// A single-line `git blame` result: who last touched the line and in which
/// commit.
#[derive(Clone, Debug)]
pub struct BlameLine {
    /// Short hex commit id (e.g. `abc1234`).
    pub commit_id: String,
    pub author: String,
    pub author_email: String,
    /// Author time as unix seconds, UTC.
    pub time_seconds: i64,
    /// First line of the commit message.
    pub summary: String,
}

/// Lines that were last changed in one commit.
#[derive(Debug)]
pub struct BlameEntry {
    pub start: u32,
    pub len: u32,
    pub commit: String,
}

pub open spec fn blames(e: BlameEntry, line: u32) -> bool {
    e.start <= line < e.start + e.len
}

/// The first entry for `line` from index `i` on.
pub open spec fn entry_at(entries: Seq<BlameEntry>, line: u32, i: int) -> Option<int>
    decreases entries.len() - i,
{
    if i < 0 || i >= entries.len() {
        None
    } else if blames(entries[i], line) {
        Some(i)
    } else {
        entry_at(entries, line, i + 1)
    }
}

/// The entry of one line (counted from 0) of a blamed file.
pub fn blame_line(entries: &Vec<BlameEntry>, line: u32) -> (r: Result<usize, String>)
    ensures
        match r {
            Ok(i) => i < entries@.len() && entry_at(entries@, line, 0) == Some(i as int),
            Err(e) => entry_at(entries@, line, 0) is None && e@ == "line "@ + decimal(line as nat)
                + " has no blame entry"@,
        },
{
    let mut i: usize = 0;
    while i < entries.len()
        invariant
            i <= entries@.len(),
            entry_at(entries@, line, 0) == entry_at(entries@, line, i as int),
        decreases entries@.len() - i,
    {
        let e = &entries[i];
        if e.start <= line && line - e.start < e.len {
            return Ok(i);
        }
        i += 1;
    }
    let mut e = "line ".to_owned();
    push_decimal(&mut e, line as u64);
    e.append(" has no blame entry");
    Err(e)
}

proof fn lemma_pushed<T>(s: Seq<T>, x: T, y: T)
    ensures
        s.push(x).contains(y) == (s.contains(y) || x == y),
{
    let all = s.push(x);
    if s.contains(y) {
        let i = choose|i: int| 0 <= i < s.len() && s[i] == y;
        assert(all[i] == y);
    }
    if x == y {
        assert(all[s.len() as int] == y);
    }
    if all.contains(y) {
        let i = choose|i: int| 0 <= i < all.len() && all[i] == y;
        if i < s.len() {
            assert(s[i] == y);
        }
    }
}

proof fn lemma_listed(work_dir: Seq<char>, items: Seq<Result<Item, String>>, i: int)
    requires
        0 <= i < items.len(),
    ensures
        items[i] matches Ok(item) ==> (shown(work_dir, item) matches Some(c) ==> changes_in(
            work_dir,
            items,
        ).contains(c) && sayings(work_dir, items).contains(Ok(c))),
        items[i] matches Err(e) ==> sayings(work_dir, items).contains(
            Err::<ChangeView, Seq<char>>(e@),
        ),
    decreases items.len(),
{
    let changes = changes_in(work_dir, items.drop_last());
    let said = sayings(work_dir, items.drop_last());
    if i < items.len() - 1 {
        lemma_listed(work_dir, items.drop_last(), i);
        assert(items.drop_last()[i] == items[i]);
    }
    assert forall|x: ChangeView, y: ChangeView|
        #![trigger changes.push(x).contains(y)]
        changes.push(x).contains(y) == (changes.contains(y) || x == y) by {
        lemma_pushed(changes, x, y);
    }
    assert forall|x: Result<ChangeView, Seq<char>>, y: Result<ChangeView, Seq<char>>|
        #![trigger said.push(x).contains(y)]
        said.push(x).contains(y) == (said.contains(y) || x == y) by {
        lemma_pushed(said, x, y);
    }
}

/// Every change of the working tree is listed as what it is, below the working
/// directory.
pub proof fn working_tree_changes_are_listed(
    work_dir: Seq<char>,
    items: Seq<Result<Item, String>>,
    i: int,
)
    requires
        0 <= i < items.len(),
    ensures
        ({
            let changes = changes_in(work_dir, items);
            let said = sayings(work_dir, items);
            &&& items[i] matches Ok(Item::Conflict(p)) ==> changes.contains(
                ChangeView::Conflict(joined(work_dir, p@)),
            ) && said.contains(Ok(ChangeView::Conflict(joined(work_dir, p@))))
            &&& items[i] matches Ok(Item::Removed(p)) ==> changes.contains(
                ChangeView::Deleted(joined(work_dir, p@)),
            ) && said.contains(Ok(ChangeView::Deleted(joined(work_dir, p@))))
            &&& items[i] matches Ok(Item::Modified(p)) ==> changes.contains(
                ChangeView::Modified(joined(work_dir, p@)),
            ) && said.contains(Ok(ChangeView::Modified(joined(work_dir, p@))))
            &&& items[i] matches Ok(Item::IntentToAdd(p)) ==> changes.contains(
                ChangeView::Untracked(joined(work_dir, p@)),
            ) && said.contains(Ok(ChangeView::Untracked(joined(work_dir, p@))))
            &&& items[i] matches Ok(Item::Untracked(p)) ==> changes.contains(
                ChangeView::Untracked(joined(work_dir, p@)),
            ) && said.contains(Ok(ChangeView::Untracked(joined(work_dir, p@))))
            &&& items[i] matches Ok(Item::Rewrite(a, b)) ==> changes.contains(
                ChangeView::Renamed(joined(work_dir, a@), joined(work_dir, b@)),
            ) && said.contains(
                Ok(ChangeView::Renamed(joined(work_dir, a@), joined(work_dir, b@))),
            )
            &&& items[i] matches Err(e) ==> said.contains(Err::<ChangeView, Seq<char>>(e@))
        }),
{
    lemma_listed(work_dir, items, i);
}

/// Nothing is told but of the items, in their order: each adds one thing to tell, or
/// nothing.
pub proof fn nothing_else_is_told(
    work_dir: Seq<char>,
    items: Seq<Result<Item, String>>,
    item: Result<Item, String>,
)
    ensures
        sayings(work_dir, seq![]).len() == 0,
        sayings(work_dir, items.push(item)).len() <= sayings(work_dir, items).len() + 1,
        sayings(work_dir, items.push(item)).take(sayings(work_dir, items).len() as int)
            == sayings(work_dir, items),
        item matches Ok(Item::Other) ==> sayings(work_dir, items.push(item)) == sayings(
            work_dir,
            items,
        ),
{
    assert(items.push(item).drop_last() =~= items);
    let s = sayings(work_dir, items);
    let t = sayings(work_dir, items.push(item));
    assert(t.take(s.len() as int) =~= s);
}

proof fn lemma_covering(changes: Seq<ChangeView>, path: Seq<char>)
    requires
        covered(changes, path),
    ensures
        exists|i: int|
            0 <= i < changes.len() && paths_of(#[trigger] changes[i]).contains(path),
    decreases changes.len(),
{
    if covered(changes.drop_last(), path) {
        lemma_covering(changes.drop_last(), path);
        let i = choose|i: int|
            0 <= i < changes.drop_last().len() && paths_of(
                #[trigger] changes.drop_last()[i],
            ).contains(path);
        assert(changes[i] == changes.drop_last()[i]);
    } else {
        assert(changes[changes.len() - 1] == changes.last());
    }
}

/// A change is about the path, or moves a file from or to it.
pub open spec fn concerns(c: ChangeView, path: Seq<char>) -> bool {
    match c {
        ChangeView::Untracked(p) => p == path,
        ChangeView::Modified(p) => p == path,
        ChangeView::Conflict(p) => p == path,
        ChangeView::Deleted(p) => p == path,
        ChangeView::Renamed(a, b) => a == path || b == path,
    }
}

proof fn lemma_concerns(c: ChangeView, path: Seq<char>)
    ensures
        paths_of(c).contains(path) == concerns(c, path),
{
    let all = paths_of(c);
    if concerns(c, path) {
        match c {
            ChangeView::Renamed(a, b) => {
                if a == path {
                    assert(all[0] == path);
                } else {
                    assert(all[1] == path);
                }
            },
            _ => {
                assert(all[0] == path);
            },
        }
    }
}

proof fn lemma_uncovered(changes: Seq<ChangeView>, path: Seq<char>)
    requires
        forall|i: int| 0 <= i < changes.len() ==> !concerns(#[trigger] changes[i], path),
    ensures
        !covered(changes, path),
{
    if covered(changes, path) {
        lemma_covering(changes, path);
        let i = choose|i: int|
            0 <= i < changes.len() && paths_of(#[trigger] changes[i]).contains(path);
        lemma_concerns(changes[i], path);
    }
}

proof fn lemma_committed(
    work_dir: Seq<char>,
    working: Seq<ChangeView>,
    tree: Seq<TreeChange>,
    i: int,
)
    requires
        0 <= i < tree.len(),
        tree_shown(work_dir, tree[i]) matches Some(c) && !overlaps(working, c),
    ensures
        committed(work_dir, working, tree).contains(tree_shown(work_dir, tree[i])->0),
    decreases tree.len(),
{
    let before = committed(work_dir, working, tree.drop_last());
    let wanted = tree_shown(work_dir, tree[i])->0;
    if i < tree.len() - 1 {
        assert(tree.drop_last()[i] == tree[i]);
        lemma_committed(work_dir, working, tree.drop_last(), i);
    }
    if let Some(c) = tree_shown(work_dir, tree.last()) {
        lemma_pushed(before, c, wanted);
    }
}

/// A file that was committed in the branch, and that no change of the working tree is
/// about, is listed as what was done to it.
pub proof fn committed_files_are_listed(
    work_dir: Seq<char>,
    working: Seq<ChangeView>,
    tree: Seq<TreeChange>,
    i: int,
    p: Seq<char>,
)
    requires
        0 <= i < tree.len(),
        forall|k: int|
            0 <= k < working.len() ==> !concerns(#[trigger] working[k], joined(work_dir, p)),
    ensures
        ({
            let listed = committed(work_dir, working, tree);
            let path = joined(work_dir, p);
            &&& (tree[i] matches TreeChange::Addition(kind, q) && q@ == p && (kind == EntryKind::Blob || kind
                == EntryKind::BlobExecutable)) ==> listed.contains(
                ChangeView::Untracked(path),
            )
            &&& (tree[i] matches TreeChange::Deletion(kind, q) && q@ == p && (kind == EntryKind::Blob || kind
                == EntryKind::BlobExecutable)) ==> listed.contains(
                ChangeView::Deleted(path),
            )
            &&& (tree[i] matches TreeChange::Modification(kind, q) && q@ == p && (kind == EntryKind::Blob || kind
                == EntryKind::BlobExecutable)) ==> listed.contains(
                ChangeView::Modified(path),
            )
        }),
{
    lemma_uncovered(working, joined(work_dir, p));
    match tree[i] {
        TreeChange::Rewrite(_, _) => {},
        TreeChange::Addition(kind, q) => {
            if is_file(kind) && q@ == p {
                lemma_committed(work_dir, working, tree, i);
            }
        },
        TreeChange::Deletion(kind, q) => {
            if is_file(kind) && q@ == p {
                lemma_committed(work_dir, working, tree, i);
            }
        },
        TreeChange::Modification(kind, q) => {
            if is_file(kind) && q@ == p {
                lemma_committed(work_dir, working, tree, i);
            }
        },
    }
}

/// A file that was moved in the branch is listed with both of its paths, unless the
/// working tree has a change of one of them.
pub proof fn committed_moves_are_listed(
    work_dir: Seq<char>,
    working: Seq<ChangeView>,
    tree: Seq<TreeChange>,
    i: int,
    a: Seq<char>,
    b: Seq<char>,
)
    requires
        0 <= i < tree.len(),
        tree[i] matches TreeChange::Rewrite(from, to) && from@ == a && to@ == b,
        forall|k: int|
            0 <= k < working.len() ==> !concerns(#[trigger] working[k], joined(work_dir, a))
                && !concerns(working[k], joined(work_dir, b)),
    ensures
        committed(work_dir, working, tree).contains(
            ChangeView::Renamed(joined(work_dir, a), joined(work_dir, b)),
        ),
{
    lemma_uncovered(working, joined(work_dir, a));
    lemma_uncovered(working, joined(work_dir, b));
    lemma_committed(work_dir, working, tree, i);
}

/// Of a branch the changes of the working tree are told first, then what was committed,
/// or why that is not known.
pub proof fn branches_tell_the_working_tree_first(
    work_dir: Seq<char>,
    items: Seq<Result<Item, String>>,
    base: MergeBase,
)
    ensures
        ({
            let told = branch_sayings(work_dir, items, base);
            let working = changes_in(work_dir, items);
            let n = working.len() as int;
            &&& told.len() >= n
            &&& forall|i: int|
                0 <= i < n ==> #[trigger] told[i] == Ok::<ChangeView, Seq<char>>(working[i])
            &&& base matches MergeBase::Failed(e) ==> told.len() == n + 1 && told[n] == Err::<
                ChangeView,
                Seq<char>,
            >(e@)
            &&& base is Head ==> told.len() == n
            &&& base matches MergeBase::Changes(tree) ==> told.len() == n + committed(
                work_dir,
                working,
                tree@,
            ).len() && forall|i: int|
                n <= i < told.len() ==> #[trigger] told[i] == Ok::<ChangeView, Seq<char>>(
                    committed(work_dir, working, tree@)[i - n],
                )
        }),
{
}

proof fn lemma_entry_at(entries: Seq<BlameEntry>, line: u32, i: int)
    requires
        0 <= i,
    ensures
        match entry_at(entries, line, i) {
            Some(k) => i <= k < entries.len() && blames(entries[k], line) && forall|j: int|
                i <= j < k ==> !blames(#[trigger] entries[j], line),
            None => forall|j: int| i <= j < entries.len() ==> !blames(#[trigger] entries[j], line),
        },
    decreases entries.len() - i,
{
    if i < entries.len() && !blames(entries[i], line) {
        lemma_entry_at(entries, line, i + 1);
    }
}

/// The commit of a line is that of an entry whose lines hold it; there is none only
/// where no entry does.
pub proof fn lines_are_blamed_on_their_entry(entries: Seq<BlameEntry>, line: u32)
    ensures
        entry_at(entries, line, 0) matches Some(k) ==> 0 <= k < entries.len() && entries[k].start
            <= line < entries[k].start + entries[k].len,
        entry_at(entries, line, 0) is None ==> forall|j: int|
            0 <= j < entries.len() ==> !((#[trigger] entries[j]).start <= line < entries[j].start
                + entries[j].len),
{
    lemma_entry_at(entries, line, 0);
    if entry_at(entries, line, 0) is None {
        assert forall|j: int| 0 <= j < entries.len() implies !((#[trigger] entries[j]).start
            <= line < entries[j].start + entries[j].len) by {
            assert(!blames(entries[j], line));
        }
    }
}

} // verus!
