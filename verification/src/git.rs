//! Running Git in a repository: its arguments and answers, and the write
//! operations and commit drafts that are open.
use crate::bytes::{lossy, lossy_text, utf8, utf8_text};
use crate::process::{message_of, Output};
use crate::text::{
    after_prefix, chars, cut, filled, filled_lines, join, join_texts, lines, same, split_once,
    strip, strip_prefix, text, trimmed, views,
};
use vstd::prelude::*;

verus! {

// ---------------------------------------------------------------------------
// Repositories
// ---------------------------------------------------------------------------

/// A repository found from a path without running Git.
#[derive(Debug)]
pub struct Repo {
    pub root: String,
    /// Checked-out branch; `None` for a detached HEAD.
    pub branch: Option<String>,
}

pub open spec fn branch_in(head: Seq<char>) -> Option<Seq<char>> {
    strip_prefix(trimmed(head), "ref: refs/heads/"@)
}

/// The checked-out branch that a `HEAD` file names.
pub fn checked_out(head: &str) -> (r: Option<String>)
    ensures
        match r {
            Some(b) => branch_in(head@) == Some(b@),
            None => branch_in(head@) is None,
        },
{
    let all = chars(head);
    match after_prefix(strip(&all), "ref: refs/heads/") {
        Some(branch) => Some(text(branch)),
        None => None,
    }
}

/// Why there is no repository, said of Git.
pub open spec fn git_reason(missing: Seq<char>) -> Seq<char> {
    match split_once(missing, "Reviews: "@) {
        Some((a, b)) => a + "Git: "@ + b,
        None => missing,
    }
}

/// The repository of the focused commit draft, else that of the focused path;
/// `missing` is why a review has none there.
pub fn current_repo(of_draft: Option<Repo>, at_path: Option<Repo>, missing: &str) -> (r: Result<
    Repo,
    String,
>)
    ensures
        match r {
            Ok(repo) => if of_draft is Some {
                of_draft == Some(repo)
            } else {
                at_path == Some(repo)
            },
            Err(e) => of_draft is None && at_path is None && e@ == git_reason(missing@),
        },
{
    match of_draft {
        Some(repo) => return Ok(repo),
        None => {},
    }
    match at_path {
        Some(repo) => Ok(repo),
        None => {
            let all = chars(missing);
            match cut(&all, "Reviews: ") {
                Some((a, b)) => {
                    let mut e = text(a);
                    e.append("Git: ");
                    e.append(&text(b));
                    Err(e)
                },
                None => Err(missing.to_owned()),
            }
        },
    }
}

// ---------------------------------------------------------------------------
// Commands
// ---------------------------------------------------------------------------

/// All arguments of a Git command: paths are literal and never quoted.
pub fn arguments(args: &Vec<String>) -> (r: Vec<String>)
    ensures
        views(r@) == seq!["-c"@, "core.quotePath=false"@, "--literal-pathspecs"@] + views(args@),
{
    let mut r: Vec<String> = Vec::new();
    r.push("-c".to_owned());
    r.push("core.quotePath=false".to_owned());
    r.push("--literal-pathspecs".to_owned());
    let ghost fixed = seq!["-c"@, "core.quotePath=false"@, "--literal-pathspecs"@];
    assert(views(r@) =~= fixed + views(args@).take(0));
    let mut i: usize = 0;
    while i < args.len()
        invariant
            i <= args@.len(),
            views(r@) == fixed + views(args@).take(i as int),
        decreases args@.len() - i,
    {
        let ghost before = views(r@);
        r.push(args[i].clone());
        assert(views(r@) =~= before.push(args@[i as int]@));
        assert(views(args@).take(i as int + 1) =~= views(args@).take(i as int).push(
            args@[i as int]@,
        ));
        assert(views(r@) =~= fixed + views(args@).take(i as int + 1));
        i += 1;
    }
    assert(views(args@).take(i as int) =~= views(args@));
    r
}

/// First lines of a failure report, for the status line.
pub open spec fn summarized(report: Seq<char>, n: nat) -> Seq<char> {
    join(filled_lines(lines(report), n), " · "@)
}

pub fn summary(report: &str, n: usize) -> (r: String)
    ensures
        r@ == summarized(report@, n as nat),
{
    let all = chars(report);
    join_texts(&filled(&all, n), " · ")
}

/// Standard output of a successful Git command; failures carry Git's message.
pub fn git_output(command: &str, out: Output) -> (r: Result<Vec<u8>, String>)
    ensures
        match r {
            Ok(bytes) => out.success && bytes == out.stdout,
            Err(e) => !out.success && e@ == "git "@ + command@ + " failed: "@ + summarized(
                message_of(out),
                3,
            ),
        },
{
    if out.success {
        return Ok(out.stdout);
    }
    let mut e = "git ".to_owned();
    e.append(command);
    e.append(" failed: ");
    e.append(&summary(&out.message(), 3));
    Err(e)
}

/// The text that a Git command printed, without white space around it; `None`
/// if it is not UTF-8.
pub fn git_text(stdout: &[u8]) -> (r: Option<String>)
    ensures
        match (r, utf8_text(stdout@)) {
            (Some(s), Some(printed)) => s@ == trimmed(printed),
            (None, None) => true,
            _ => false,
        },
{
    match utf8(stdout) {
        Some(s) => {
            let all = chars(s);
            Some(text(strip(&all)))
        },
        None => None,
    }
}

/// The HEAD commit that `git rev-parse` printed; `None` before the first commit.
pub fn head_id(out: &Output) -> (r: Option<String>)
    ensures
        match r {
            Some(id) => out.success && id@ == trimmed(lossy_text(out.stdout@)),
            None => !out.success,
        },
{
    if out.success {
        let all = chars(&lossy(&out.stdout));
        Some(text(strip(&all)))
    } else {
        None
    }
}

// ---------------------------------------------------------------------------
// Drafts and running operations
// ---------------------------------------------------------------------------

/// What a commit draft shows. A commit is only created while HEAD and the
/// index still match it, so Git records exactly what was reviewed.
#[derive(Debug)]
pub struct Snapshot {
    /// HEAD commit; `None` before the first commit.
    pub head: Option<String>,
    /// Tree of the index (`git write-tree`).
    pub tree: String,
    /// Repository-relative paths the commit changes.
    pub staged: Vec<String>,
}

/// A commit message being written in a scratch buffer, bound to one repository
/// and branch when opened.
#[derive(Debug)]
pub struct Draft {
    /// The scratch document.
    pub document: u64,
    pub root: String,
    pub branch: String,
    pub snapshot: Snapshot,
    /// A commit is running; another `:w` must not start a second one.
    pub committing: bool,
    /// Changes on every commit attempt and update, so that a slower
    /// background update cannot replace newer content.
    pub revision: u64,
    /// The review discussion selected when the draft opened, as
    /// `@author on path:line`.
    pub discussion: Option<String>,
}

/// A running write operation (staging, commit or push) in one repository.
#[derive(Debug)]
pub struct Running {
    pub root: String,
    pub what: &'static str,
    pub task: u64,
}

#[derive(Debug)]
pub struct State {
    /// At most one commit draft per scratch document.
    pub drafts: Vec<Draft>,
    /// At most one write operation per repository root.
    pub running: Vec<Running>,
}

/// The operation in `root` from index `i` on.
pub open spec fn running_at(running: Seq<Running>, root: Seq<char>, i: int) -> Option<int>
    decreases running.len() - i,
{
    if i < 0 || i >= running.len() {
        None
    } else if running[i].root@ == root {
        Some(i)
    } else {
        running_at(running, root, i + 1)
    }
}

/// The draft in `document` from index `i` on.
pub open spec fn draft_at(drafts: Seq<Draft>, document: u64, i: int) -> Option<int>
    decreases drafts.len() - i,
{
    if i < 0 || i >= drafts.len() {
        None
    } else if drafts[i].document == document {
        Some(i)
    } else {
        draft_at(drafts, document, i + 1)
    }
}

/// The draft of the repository at `root` from index `i` on.
pub open spec fn draft_of(drafts: Seq<Draft>, root: Seq<char>, i: int) -> Option<int>
    decreases drafts.len() - i,
{
    if i < 0 || i >= drafts.len() {
        None
    } else if drafts[i].root@ == root {
        Some(i)
    } else {
        draft_of(drafts, root, i + 1)
    }
}

/// What runs in `root`.
pub open spec fn what_runs(running: Seq<Running>, root: Seq<char>) -> Option<Seq<char>> {
    match running_at(running, root, 0) {
        Some(i) => Some(running[i].what@),
        None => None,
    }
}

/// The operations without a finished one in `root`.
pub open spec fn cleared(running: Seq<Running>, root: Seq<char>, finished: Seq<u64>) -> Seq<Running> {
    match running_at(running, root, 0) {
        Some(i) => if finished.contains(running[i].task) {
            running.remove(i)
        } else {
            running
        },
        None => running,
    }
}

/// The operations without `what` in `root`.
pub open spec fn stopped(running: Seq<Running>, root: Seq<char>, what: Seq<char>) -> Seq<Running> {
    match running_at(running, root, 0) {
        Some(i) => if running[i].what@ == what {
            running.remove(i)
        } else {
            running
        },
        None => running,
    }
}

/// No two drafts share a document or a repository.
pub open spec fn apart(drafts: Seq<Draft>) -> bool {
    forall|i: int, j: int|
        #![trigger drafts[i], drafts[j]]
        0 <= i < j < drafts.len() ==> drafts[i].document != drafts[j].document && drafts[i].root@
            != drafts[j].root@
}

impl State {
    /// No two operations run in one repository, and no two drafts are written in
    /// one document or for one repository.
    pub open spec fn well_formed(&self) -> bool {
        &&& forall|i: int, j: int|
            #![trigger self.running@[i], self.running@[j]]
            0 <= i < j < self.running@.len() ==> self.running@[i].root@ != self.running@[j].root@
        &&& apart(self.drafts@)
    }

    pub fn new() -> (r: State)
        ensures
            r.drafts@.len() == 0,
            r.running@.len() == 0,
            r.well_formed(),
    {
        State { drafts: Vec::new(), running: Vec::new() }
    }

    pub(crate) fn find_running(&self, root: &str) -> (r: Option<usize>)
        ensures
            match r {
                Some(i) => i < self.running@.len() && running_at(self.running@, root@, 0) == Some(
                    i as int,
                ),
                None => running_at(self.running@, root@, 0) is None,
            },
    {
        let mut i: usize = 0;
        while i < self.running.len()
            invariant
                i <= self.running@.len(),
                running_at(self.running@, root@, 0) == running_at(self.running@, root@, i as int),
            decreases self.running@.len() - i,
        {
            if same(&self.running[i].root, root) {
                return Some(i);
            }
            i += 1;
        }
        None
    }

    pub(crate) fn find_draft(&self, document: u64) -> (r: Option<usize>)
        ensures
            match r {
                Some(i) => i < self.drafts@.len() && draft_at(self.drafts@, document, 0) == Some(
                    i as int,
                ),
                None => draft_at(self.drafts@, document, 0) is None,
            },
    {
        let mut i: usize = 0;
        while i < self.drafts.len()
            invariant
                i <= self.drafts@.len(),
                draft_at(self.drafts@, document, 0) == draft_at(
                    self.drafts@,
                    document,
                    i as int,
                ),
            decreases self.drafts@.len() - i,
        {
            if self.drafts[i].document == document {
                return Some(i);
            }
            i += 1;
        }
        None
    }

    /// The draft of the repository at `root`.
    pub fn draft_in(&self, root: &str) -> (r: Option<usize>)
        ensures
            match r {
                Some(i) => i < self.drafts@.len() && draft_of(self.drafts@, root@, 0) == Some(
                    i as int,
                ),
                None => draft_of(self.drafts@, root@, 0) is None,
            },
    {
        let mut i: usize = 0;
        while i < self.drafts.len()
            invariant
                i <= self.drafts@.len(),
                draft_of(self.drafts@, root@, 0) == draft_of(self.drafts@, root@, i as int),
            decreases self.drafts@.len() - i,
        {
            if same(&self.drafts[i].root, root) {
                return Some(i);
            }
            i += 1;
        }
        None
    }

    /// Whether `document` holds a commit draft.
    pub fn is_draft(&self, document: u64) -> (r: bool)
        ensures
            r == (draft_at(self.drafts@, document, 0) is Some),
    {
        self.find_draft(document).is_some()
    }

    /// The running operation in `root`, ignoring finished tasks.
    pub fn running(&mut self, root: &str, finished: &Vec<u64>) -> (r: Option<&'static str>)
        requires
            old(self).well_formed(),
        ensures
            final(self).well_formed(),
            final(self).drafts == old(self).drafts,
            final(self).running@ == cleared(old(self).running@, root@, finished@),
            match r {
                Some(what) => what_runs(final(self).running@, root@) == Some(what@),
                None => what_runs(final(self).running@, root@) is None,
            },
    {
        match self.find_running(root) {
            None => None,
            Some(i) => {
                if contains(finished, self.running[i].task) {
                    proof {
                        lemma_running(self.running@, root@, 0);
                    }
                    self.clear(i);
                    proof {
                        let left = self.running@;
                        assert forall|j: int| 0 <= j < left.len() implies (#[trigger]
                        left[j]).root@ != root@ by {
                            if j < i {
                                assert(left[j] == old(self).running@[j]);
                                assert(old(self).running@[j].root@ != old(
                                    self,
                                ).running@[i as int].root@);
                            } else {
                                assert(left[j] == old(self).running@[j + 1]);
                                assert(old(self).running@[i as int].root@ != old(
                                    self,
                                ).running@[j + 1].root@);
                            }
                        }
                        lemma_not_running(left, root@, 0);
                    }
                    None
                } else {
                    Some(self.running[i].what)
                }
            },
        }
    }

    fn clear(&mut self, i: usize)
        requires
            old(self).well_formed(),
            i < old(self).running@.len(),
        ensures
            final(self).well_formed(),
            final(self).drafts == old(self).drafts,
            final(self).running@ == old(self).running@.remove(i as int),
    {
        self.running.remove(i);
        proof {
            let was = old(self).running@;
            let now = self.running@;
            assert forall|a: int, b: int| #![trigger now[a], now[b]] 0 <= a < b
                < now.len() implies now[a].root@ != now[b].root@ by {
                let x = if a < i {
                    a
                } else {
                    a + 1
                };
                let y = if b < i {
                    b
                } else {
                    b + 1
                };
                assert(now[a] == was[x] && now[b] == was[y]);
                assert(was[x].root@ != was[y].root@);
            }
        }
    }

    /// Notes that an operation was started in `root`.
    pub fn start(&mut self, root: &str, what: &'static str, task: u64)
        requires
            old(self).well_formed(),
        ensures
            final(self).well_formed(),
            final(self).drafts == old(self).drafts,
            what_runs(final(self).running@, root@) == Some(what@),
            final(self).running@.len() > 0,
            ({
                let last = final(self).running@.last();
                last.root@ == root@ && last.what == what && last.task == task
            }),
            final(self).running@.drop_last() == (match running_at(old(self).running@, root@, 0) {
                Some(i) => old(self).running@.remove(i),
                None => old(self).running@,
            }),
    {
        proof {
            lemma_running(self.running@, root@, 0);
        }
        match self.find_running(root) {
            Some(i) => {
                self.clear(i);
            },
            None => {},
        }
        let ghost left = self.running@;
        proof {
            assert forall|j: int| 0 <= j < left.len() implies (#[trigger] left[j]).root@
                != root@ by {
                match running_at(old(self).running@, root@, 0) {
                    Some(i) => {
                        if j < i {
                            assert(left[j] == old(self).running@[j]);
                            assert(old(self).running@[j].root@ != old(self).running@[i].root@);
                        } else {
                            assert(left[j] == old(self).running@[j + 1]);
                            assert(old(self).running@[i].root@ != old(self).running@[j + 1].root@);
                        }
                    },
                    None => {
                        assert(left[j] == old(self).running@[j]);
                    },
                }
            }
        }
        self.running.push(Running { root: root.to_owned(), what, task });
        proof {
            let now = self.running@;
            assert(now.drop_last() =~= left);
            assert forall|a: int, b: int| #![trigger now[a], now[b]] 0 <= a < b
                < now.len() implies now[a].root@ != now[b].root@ by {
                assert(now[a] == left[a]);
                if b < left.len() {
                    assert(now[b] == left[b]);
                }
            }
            lemma_last_running(now, root@, 0);
        }
    }

    /// Forgets the operation in `root` if it is `what`; answers its task.
    pub fn stop(&mut self, root: &str, what: &str) -> (r: Option<u64>)
        requires
            old(self).well_formed(),
        ensures
            final(self).well_formed(),
            final(self).drafts == old(self).drafts,
            final(self).running@ == stopped(old(self).running@, root@, what@),
            match r {
                Some(task) => running_at(old(self).running@, root@, 0) matches Some(i)
                    && old(self).running@[i].task == task && old(self).running@[i].what@ == what@,
                None => final(self).running == old(self).running && what_runs(
                    old(self).running@,
                    root@,
                ) != Some(what@),
            },
    {
        match self.find_running(root) {
            Some(i) => {
                if same(self.running[i].what, what) {
                    let task: u64 = self.running[i].task;
                    self.clear(i);
                    Some(task)
                } else {
                    None
                }
            },
            None => None,
        }
    }

    /// Changes what is known of the draft at index `i`.
    pub(crate) fn change_draft(
        &mut self,
        i: usize,
        committing: bool,
        revision: u64,
        snapshot: Option<Snapshot>,
    )
        requires
            old(self).well_formed(),
            i < old(self).drafts@.len(),
        ensures
            final(self).well_formed(),
            final(self).running == old(self).running,
            final(self).drafts@ == old(self).drafts@.update(
                i as int,
                Draft {
                    committing,
                    revision,
                    snapshot: match snapshot {
                        Some(s) => s,
                        None => old(self).drafts@[i as int].snapshot,
                    },
                    ..old(self).drafts@[i as int]
                },
            ),
    {
        let mut draft = self.drafts.remove(i);
        draft.committing = committing;
        draft.revision = revision;
        match snapshot {
            Some(s) => {
                draft.snapshot = s;
            },
            None => {},
        }
        self.drafts.insert(i, draft);
        let ghost now = self.drafts@;
        let ghost was = old(self).drafts@;
        assert(now =~= was.update(i as int, draft));
        assert forall|a: int, b: int| #![trigger now[a], now[b]] 0 <= a < b
            < now.len() implies now[a].document != now[b].document && now[a].root@
            != now[b].root@ by {
            assert(now[a].document == was[a].document && now[b].document == was[b].document);
            assert(now[a].root == was[a].root && now[b].root == was[b].root);
        }
    }

    /// Forgets the draft at index `i`.
    pub(crate) fn drop_draft(&mut self, i: usize)
        requires
            old(self).well_formed(),
            i < old(self).drafts@.len(),
        ensures
            final(self).well_formed(),
            final(self).running == old(self).running,
            final(self).drafts@ == old(self).drafts@.remove(i as int),
    {
        self.drafts.remove(i);
        proof {
            let was = old(self).drafts@;
            let now = self.drafts@;
            assert forall|a: int, b: int| #![trigger now[a], now[b]] 0 <= a < b
                < now.len() implies now[a].document != now[b].document && now[a].root@
                != now[b].root@ by {
                let x = if a < i {
                    a
                } else {
                    a + 1
                };
                let y = if b < i {
                    b
                } else {
                    b + 1
                };
                assert(now[a] == was[x] && now[b] == was[y]);
                assert(was[x].document != was[y].document);
            }
        }
    }

    /// Drafts whose documents were closed are forgotten.
    pub fn prune(&mut self, documents: &Vec<u64>)
        requires
            old(self).well_formed(),
        ensures
            final(self).well_formed(),
            final(self).running == old(self).running,
            final(self).drafts@ == live(old(self).drafts@, documents@),
    {
        let ghost all = self.drafts@;
        let mut kept: Vec<Draft> = Vec::new();
        let ghost start = *old(self);
        assert(all.take(all.len() as int) =~= all);
        assert(all.skip(all.len() as int) =~= seq![]);
        loop
            invariant
                self.running == start.running,
                self.drafts@.len() <= all.len(),
                self.drafts@ == all.take(self.drafts@.len() as int),
                kept@ == live(all.skip(self.drafts@.len() as int), documents@),
                all == start.drafts@,
            ensures
                self.running == start.running,
                kept@ == live(all, documents@),
            decreases self.drafts@.len(),
        {
            let ghost n = self.drafts@.len() as int;
            match self.drafts.pop() {
                None => {
                    assert(all.skip(0) =~= all);
                    break;
                },
                Some(draft) => {
                    proof {
                        assert(draft == all[n - 1]);
                        assert(self.drafts@ =~= all.take(n - 1));
                        assert(all.skip(n - 1).skip(1) =~= all.skip(n));
                        assert(all.skip(n - 1)[0] == draft);
                    }
                    if contains(documents, draft.document) {
                        let ghost before = kept@;
                        kept.insert(0, draft);
                        assert(kept@ =~= seq![draft] + before);
                    }
                },
            }
        }
        self.drafts = kept;
        proof {
            lemma_live(all, documents@);
        }
    }
}

/// The drafts whose documents are among `documents`.
pub open spec fn live(drafts: Seq<Draft>, documents: Seq<u64>) -> Seq<Draft>
    decreases drafts.len(),
{
    if drafts.len() == 0 {
        seq![]
    } else if documents.contains(drafts[0].document) {
        seq![drafts[0]] + live(drafts.skip(1), documents)
    } else {
        live(drafts.skip(1), documents)
    }
}

proof fn lemma_live(drafts: Seq<Draft>, documents: Seq<u64>)
    requires
        apart(drafts),
    ensures
        apart(live(drafts, documents)),
        forall|i: int|
            0 <= i < live(drafts, documents).len() ==> drafts.contains(
                #[trigger] live(drafts, documents)[i],
            ),
    decreases drafts.len(),
{
    if drafts.len() > 0 {
        let t = drafts.skip(1);
        assert forall|i: int, j: int| #![trigger t[i], t[j]] 0 <= i < j < t.len() implies t[i].document
            != t[j].document && t[i].root@ != t[j].root@ by {
            assert(t[i] == drafts[i + 1] && t[j] == drafts[j + 1]);
        }
        lemma_live(t, documents);
        let r = live(drafts, documents);
        let u = live(t, documents);
        assert forall|i: int| 0 <= i < r.len() implies drafts.contains(#[trigger] r[i]) by {
            if r.len() > u.len() && i == 0 {
                assert(r[0] == drafts[0]);
            } else {
                let k = if r.len() > u.len() {
                    i - 1
                } else {
                    i
                };
                assert(r[i] == u[k]);
                let m = t.index_of(u[k]);
                assert(drafts[m + 1] == u[k]);
            }
        }
        assert forall|i: int, j: int| #![trigger r[i], r[j]] 0 <= i < j < r.len() implies r[i].document
            != r[j].document by {
            if r.len() > u.len() {
                assert(r[j] == u[j - 1]);
                if i == 0 {
                    let m = t.index_of(u[j - 1]);
                    assert(drafts[m + 1] == u[j - 1]);
                    assert(drafts[0].document != drafts[m + 1].document);
                } else {
                    assert(r[i] == u[i - 1]);
                    assert(u[i - 1].document != u[j - 1].document);
                }
            } else {
                assert(r[i] == u[i] && r[j] == u[j]);
            }
        }
    }
}

pub(crate) fn contains(list: &Vec<u64>, x: u64) -> (r: bool)
    ensures
        r == list@.contains(x),
{
    let mut i: usize = 0;
    while i < list.len()
        invariant
            i <= list@.len(),
            forall|j: int| 0 <= j < i ==> #[trigger] list@[j] != x,
        decreases list@.len() - i,
    {
        if list[i] == x {
            return true;
        }
        i += 1;
    }
    false
}

proof fn lemma_running(running: Seq<Running>, root: Seq<char>, i: int)
    requires
        0 <= i <= running.len(),
    ensures
        match running_at(running, root, i) {
            Some(k) => i <= k < running.len() && running[k].root@ == root,
            None => forall|j: int| i <= j < running.len() ==> (#[trigger] running[j]).root@ != root,
        },
    decreases running.len() - i,
{
    if i < running.len() && running[i].root@ != root {
        lemma_running(running, root, i + 1);
    }
}

proof fn lemma_not_running(running: Seq<Running>, root: Seq<char>, i: int)
    requires
        0 <= i <= running.len(),
        forall|j: int| i <= j < running.len() ==> (#[trigger] running[j]).root@ != root,
    ensures
        running_at(running, root, i) is None,
    decreases running.len() - i,
{
    if i < running.len() {
        lemma_not_running(running, root, i + 1);
    }
}

proof fn lemma_last_running(running: Seq<Running>, root: Seq<char>, i: int)
    requires
        0 <= i < running.len(),
        running.last().root@ == root,
        forall|j: int| i <= j < running.len() - 1 ==> (#[trigger] running[j]).root@ != root,
    ensures
        running_at(running, root, i) == Some(running.len() - 1),
    decreases running.len() - i,
{
    if i < running.len() - 1 {
        assert(running[i].root@ != root);
        lemma_last_running(running, root, i + 1);
    }
}

proof fn lemma_running_at(running: Seq<Running>, root: Seq<char>, from: int)
    requires
        0 <= from,
    ensures
        match running_at(running, root, from) {
            Some(i) => from <= i < running.len() && running[i].root@ == root,
            None => forall|k: int|
                from <= k < running.len() ==> (#[trigger] running[k]).root@ != root,
        },
    decreases running.len() - from,
{
    if from < running.len() {
        lemma_running_at(running, root, from + 1);
    }
}

/// What runs in a repository is the operation that was started there; operations
/// elsewhere do not count.
pub proof fn operations_run_in_their_repository(running: Seq<Running>, root: Seq<char>, k: int)
    requires
        forall|i: int, j: int|
            #![trigger running[i], running[j]]
            0 <= i < j < running.len() ==> running[i].root@ != running[j].root@,
    ensures
        0 <= k < running.len() && running[k].root@ == root ==> what_runs(running, root) == Some(
            running[k].what@,
        ),
        (forall|i: int| 0 <= i < running.len() ==> (#[trigger] running[i]).root@ != root)
            ==> what_runs(running, root) is None,
{
    lemma_running_at(running, root, 0);
    if let Some(i) = running_at(running, root, 0) {
        if 0 <= k < running.len() && running[k].root@ == root {
            if i < k {
                assert(running[i].root@ != running[k].root@);
            } else if k < i {
                assert(running[k].root@ != running[i].root@);
            }
        }
    }
}

/// An operation that ended is forgotten, and no other: neither another operation there
/// nor one in another repository.
pub proof fn ended_operations_are_forgotten(
    running: Seq<Running>,
    root: Seq<char>,
    what: Seq<char>,
    k: int,
)
    requires
        forall|i: int, j: int|
            #![trigger running[i], running[j]]
            0 <= i < j < running.len() ==> running[i].root@ != running[j].root@,
        0 <= k < running.len(),
        running[k].root@ == root,
    ensures
        running[k].what@ == what ==> stopped(running, root, what) == running.remove(k),
        running[k].what@ != what ==> stopped(running, root, what) == running,
{
    lemma_running_at(running, root, 0);
    let i = running_at(running, root, 0)->0;
    if i < k {
        assert(running[i].root@ != running[k].root@);
    } else if k < i {
        assert(running[k].root@ != running[i].root@);
    }
}

/// A draft is kept exactly as long as its document is open.
pub proof fn drafts_live_as_long_as_their_document(
    drafts: Seq<Draft>,
    documents: Seq<u64>,
    draft: Draft,
)
    ensures
        live(drafts, documents).contains(draft) <==> drafts.contains(draft) && documents.contains(
            draft.document,
        ),
    decreases drafts.len(),
{
    if drafts.len() > 0 {
        let rest = drafts.skip(1);
        let kept = live(rest, documents);
        let all = live(drafts, documents);
        drafts_live_as_long_as_their_document(rest, documents, draft);
        if rest.contains(draft) {
            let k = rest.index_of(draft);
            assert(drafts[k + 1] == draft);
        }
        if drafts.contains(draft) && draft != drafts[0] {
            let k = drafts.index_of(draft);
            assert(rest[k - 1] == draft);
        }
        if documents.contains(drafts[0].document) {
            assert(all[0] == drafts[0]);
            if kept.contains(draft) {
                let k = kept.index_of(draft);
                assert(all[k + 1] == draft);
            }
            if all.contains(draft) && draft != drafts[0] {
                let k = all.index_of(draft);
                assert(kept[k - 1] == draft);
            }
        }
    }
}

/// The draft of a repository is found by its root, and that of a document by its id.
pub proof fn drafts_are_found(drafts: Seq<Draft>, k: int)
    requires
        apart(drafts),
        0 <= k < drafts.len(),
    ensures
        draft_of(drafts, drafts[k].root@, 0) == Some(k),
        draft_at(drafts, drafts[k].document, 0) == Some(k),
{
    lemma_draft_found(drafts, 0, k);
}

proof fn lemma_draft_found(drafts: Seq<Draft>, i: int, k: int)
    requires
        apart(drafts),
        0 <= i <= k < drafts.len(),
    ensures
        draft_of(drafts, drafts[k].root@, i) == Some(k),
        draft_at(drafts, drafts[k].document, i) == Some(k),
    decreases k - i,
{
    if i < k {
        assert(drafts[i].root@ != drafts[k].root@ && drafts[i].document != drafts[k].document);
        lemma_draft_found(drafts, i + 1, k);
    }
}

} // verus!
