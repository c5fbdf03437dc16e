//! Local Git history for replies: which commits addressed a discussion, and
//! whether a referenced commit is already part of the pull request on GitHub.
use std::ops::Range;

use vstd::prelude::*;

use crate::api::PullHead;
use crate::fetch::has_text;
use crate::github::{good_oid, good_path, valid_oid, valid_path};
use crate::placement::{can_track, followed, touched, track, trackable, Hunk};
use crate::review::{safe, safe_text, Thread};
use crate::text::{
    after_prefix, all_hex, chars, clip, clippable, clipped, cut, decimal, is_all_hex, lines, parse_max,
    read_usize, slices, split, split_at, split_lines, split_once, starts_with, strip, strip_prefix, text, texts,
    trim_end, trim_right, trimmed, views, Pattern,
};

verus! {

/// Why a commit was suggested for a discussion.
#[derive(Clone, Copy, Debug, PartialEq, Eq, Structural)]
pub enum Touch {
    /// Changed the discussed lines (followed through later edits) or inserted
    /// code directly next to them.
    Lines,
    /// Changed the discussed file after the discussion was written.
    File,
    /// Neither; listed for completeness.
    Neither,
}

#[derive(Debug)]
pub struct Commit {
    pub sha: String,
    pub subject: String,
    pub date: String,
    pub touch: Touch,
    /// Contained in the pull request's head on GitHub; `None` when unknown.
    pub pushed: Option<bool>,
}

#[verifier::ext_equal]
pub struct CommitView {
    pub sha: Seq<char>,
    pub subject: Seq<char>,
    pub date: Seq<char>,
    pub touch: Touch,
    pub pushed: Option<bool>,
}

impl View for Commit {
    type V = CommitView;

    open spec fn view(&self) -> CommitView {
        CommitView {
            sha: self.sha@,
            subject: self.subject@,
            date: self.date@,
            touch: self.touch,
            pushed: self.pushed,
        }
    }
}

pub open spec fn commits_view(commits: Seq<Commit>) -> Seq<CommitView> {
    commits.map_values(|c: Commit| c@)
}

/// The short id and the subject.
pub open spec fn described(c: CommitView) -> Seq<char> {
    clipped(c.sha, 10) + " "@ + c.subject
}

impl Commit {
    pub fn short(&self) -> (r: String)
        requires
            clippable(self.sha@, 10),
        ensures
            r@ == clipped(self.sha@, 10),
    {
        clip(&self.sha, 10)
    }

    pub fn describe(&self) -> (r: String)
        requires
            clippable(self.sha@, 10),
        ensures
            r@ == described(self@),
    {
        let mut r = self.short();
        r.append(" ");
        r.append(&self.subject);
        r
    }
}

// ---------------------------------------------------------------------------
// Hunks and logs
// ---------------------------------------------------------------------------

/// `start,length`, or a start with length one.
pub open spec fn range_in(s: Seq<char>) -> Option<(nat, nat)> {
    match split_once(s, ","@) {
        Some((start, len)) => match (
            parse_max(start, usize::MAX as nat),
            parse_max(len, usize::MAX as nat),
        ) {
            (Some(a), Some(b)) => Some((a, b)),
            _ => None,
        },
        None => match parse_max(s, usize::MAX as nat) {
            Some(a) => Some((a, 1)),
            None => None,
        },
    }
}

pub fn parse_range(s: &[char]) -> (r: Option<(usize, usize)>)
    ensures
        match r {
            Some(x) => range_in(s@) == Some((x.0 as nat, x.1 as nat)),
            None => range_in(s@) is None,
        },
{
    match cut(s, ",") {
        Some((start, len)) => match (read_usize(start), read_usize(len)) {
            (Some(a), Some(b)) => Some((a, b)),
            _ => None,
        },
        None => match read_usize(s) {
            Some(a) => Some((a, 1)),
            None => None,
        },
    }
}

/// The hunk of a line `@@ -a,b +c,d @@ ...`.
pub open spec fn hunk_in(line: Seq<char>) -> Option<Hunk> {
    match strip_prefix(line, "@@ -"@) {
        None => None,
        Some(rest) => match split_once(rest, " +"@) {
            None => None,
            Some((old, rest)) => match split_once(rest, " @@"@) {
                None => None,
                Some((new, _)) => match (range_in(old), range_in(new)) {
                    (Some(a), Some(b)) => Some(
                        Hunk {
                            old_start: a.0 as usize,
                            old_len: a.1 as usize,
                            new_start: b.0 as usize,
                            new_len: b.1 as usize,
                        },
                    ),
                    _ => None,
                },
            },
        },
    }
}

fn read_hunk(line: &[char]) -> (r: Option<Hunk>)
    ensures
        r == hunk_in(line@),
{
    let rest = match after_prefix(line, "@@ -") {
        Some(rest) => rest,
        None => return None,
    };
    let (old, rest) = match cut(rest, " +") {
        Some(parts) => parts,
        None => return None,
    };
    let (new, _) = match cut(rest, " @@") {
        Some(parts) => parts,
        None => return None,
    };
    match (parse_range(old), parse_range(new)) {
        (Some((old_start, old_len)), Some((new_start, new_len))) => Some(
            Hunk { old_start, old_len, new_start, new_len },
        ),
        _ => None,
    }
}

/// `@@ -a,b +c,d @@ ...`
pub fn parse_hunk(line: &str) -> (r: Option<Hunk>)
    ensures
        r == hunk_in(line@),
{
    read_hunk(&chars(line))
}

/// A commit of a log and its hunks.
#[derive(Debug)]
pub struct Entry {
    pub sha: String,
    pub hunks: Vec<Hunk>,
}

pub open spec fn entries_view(entries: Seq<Entry>) -> Seq<(Seq<char>, Seq<Hunk>)> {
    entries.map_values(|e: Entry| (e.sha@, e.hunks@))
}

/// The commits and hunks of a log with these lines.
pub open spec fn log_of(lines: Seq<Seq<char>>) -> Seq<(Seq<char>, Seq<Hunk>)>
    decreases lines.len(),
{
    if lines.len() == 0 {
        seq![]
    } else {
        let rest = log_of(lines.drop_last());
        let line = lines.last();
        match strip_prefix(line, "\x01"@) {
            Some(sha) => rest.push((trimmed(sha), Seq::<Hunk>::empty())),
            None => match hunk_in(line) {
                Some(h) => if rest.len() > 0 {
                    rest.update(rest.len() - 1, (rest.last().0, rest.last().1.push(h)))
                } else {
                    rest
                },
                None => rest,
            },
        }
    }
}

/// Output of `git log --format=%x01%H -p -U0`, oldest first.
pub fn parse_log(out: &str) -> (r: Vec<Entry>)
    ensures
        entries_view(r@) == log_of(lines(out@)),
{
    let all = chars(out);
    let parts = split_lines(&all);
    let ghost rows = lines(out@);
    let mut r: Vec<Entry> = Vec::new();
    let mut i: usize = 0;
    assert(rows.take(0) =~= seq![]);
    assert(entries_view(r@) =~= seq![]);
    while i < parts.len()
        invariant
            i <= parts@.len(),
            rows == slices(parts@),
            entries_view(r@) == log_of(rows.take(i as int)),
        decreases parts@.len() - i,
    {
        let line = parts[i];
        assert(rows.take(i + 1).drop_last() =~= rows.take(i as int));
        assert(rows.take(i + 1).last() == line@);
        let ghost before = entries_view(r@);
        match after_prefix(line, "\x01") {
            Some(sha) => {
                let entry = Entry { sha: text(strip(sha)), hunks: Vec::new() };
                let ghost this = (entry.sha@, entry.hunks@);
                r.push(entry);
                assert(this.1 =~= Seq::<Hunk>::empty());
                assert(entries_view(r@) =~= before.push(this));
            },
            None => match read_hunk(line) {
                Some(h) => {
                    match r.pop() {
                        Some(entry) => {
                            let mut entry = entry;
                            entry.hunks.push(h);
                            let ghost this = (entry.sha@, entry.hunks@);
                            r.push(entry);
                            assert(entries_view(r@) =~= before.update(before.len() - 1, this));
                        },
                        None => {},
                    }
                },
                None => {},
            },
        }
        i += 1;
    }
    assert(rows.take(i as int) =~= rows);
    r
}

// ---------------------------------------------------------------------------
// Commits that touched a discussion
// ---------------------------------------------------------------------------

/// The state while a log is followed: the lines (if known) after the commits so
/// far, and the commits that touched them and the file, newest first.
#[verifier::ext_equal]
pub struct Followed {
    pub range: Option<(int, int)>,
    pub lines: Seq<Seq<char>>,
    pub file: Seq<Seq<char>>,
}

/// One more commit of the log.
pub open spec fn step(f: Followed, entry: (Seq<char>, Seq<Hunk>)) -> Followed {
    if !good_oid(entry.0) {
        f
    } else {
        match f.range {
            Some((from, to)) => Followed {
                range: Some(followed(from, to, entry.1)),
                lines: if touched(entry.1, from, to - 1) {
                    seq![entry.0] + f.lines
                } else {
                    f.lines
                },
                file: seq![entry.0] + f.file,
            },
            None => Followed { range: None, lines: f.lines, file: seq![entry.0] + f.file },
        }
    }
}

/// The state after the log.
pub open spec fn follow(range: Option<(int, int)>, log: Seq<(Seq<char>, Seq<Hunk>)>) -> Followed
    decreases log.len(),
{
    if log.len() == 0 {
        Followed { range, lines: seq![], file: seq![] }
    } else {
        step(follow(range, log.drop_last()), log.last())
    }
}

/// The lines can be followed through the first `n` commits without leaving the
/// machine integers.
pub open spec fn followable(
    range: Option<(int, int)>,
    log: Seq<(Seq<char>, Seq<Hunk>)>,
    n: int,
) -> bool {
    forall|i: int|
        0 <= i < n ==> (good_oid((#[trigger] log[i]).0) ==> match follow(range, log.take(i)).range {
            Some((from, to)) => trackable(from, to, log[i].1),
            None => true,
        })
}

pub open spec fn lines_of(t: Option<Range<usize>>) -> Option<(int, int)> {
    match t {
        Some(r) => Some((r.start as int, r.end as int)),
        None => None,
    }
}

fn reverse(list: Vec<String>) -> (r: Vec<String>)
    ensures
        views(r@) == views(list@).reverse(),
{
    let ghost all = views(list@);
    let mut rest = list;
    let mut r: Vec<String> = Vec::new();
    assert(views(rest@) =~= all.take(all.len() as int));
    loop
        invariant
            rest@.len() + r@.len() == all.len(),
            views(rest@) =~= all.take(rest@.len() as int),
            views(r@) =~= all.reverse().take(r@.len() as int),
        ensures
            views(r@) == all.reverse(),
        decreases rest@.len(),
    {
        let ghost n = rest@.len() as int;
        let ghost left = views(rest@);
        match rest.pop() {
            None => {
                assert(all.reverse().take(r@.len() as int) =~= all.reverse());
                break;
            },
            Some(x) => {
                let ghost before = views(r@);
                assert(left[n - 1] == x@);
                assert(x@ == all[n - 1]);
                r.push(x);
                assert(views(r@) =~= before.push(x@));
                assert(views(rest@) =~= left.drop_last());
            },
        }
    }
    r
}

/// The commits that touched a discussion's lines, and its file.
#[derive(Debug)]
pub struct Touching {
    pub lines: Vec<String>,
    pub file: Vec<String>,
}

/// Whether the lines of a discussion can be followed through a log.
pub fn can_follow(range: &Option<Range<usize>>, log: &Vec<Entry>) -> (r: bool)
    ensures
        r == followable(lines_of(*range), entries_view(log@), log@.len() as int),
{
    let ghost all = entries_view(log@);
    let ghost start = lines_of(*range);
    let mut current: Option<Range<usize>> = match range {
        Some(r) => Some(r.start..r.end),
        None => None,
    };
    let mut i: usize = 0;
    assert(all.take(0) =~= seq![]);
    while i < log.len()
        invariant
            i <= log@.len(),
            all == entries_view(log@),
            start == lines_of(*range),
            lines_of(current) == follow(start, all.take(i as int)).range,
            followable(start, all, i as int),
        decreases log@.len() - i,
    {
        assert(all[i as int] == (log@[i as int].sha@, log@[i as int].hunks@));
        assert(all.take(i + 1).drop_last() =~= all.take(i as int));
        assert(all.take(i + 1).last() == all[i as int]);
        if valid_oid(&log[i].sha) {
            current = match current {
                Some(lines) => {
                    if !can_track(&lines, &log[i].hunks) {
                        return false;
                    }
                    let (_, next) = track(lines, &log[i].hunks);
                    Some(next)
                },
                None => None,
            };
        }
        i += 1;
    }
    true
}

/// Commits after the discussion's commit that touched its lines and its file,
/// each newest first. `log` holds the commits since, oldest first.
pub fn touching(range: &Option<Range<usize>>, log: &Vec<Entry>) -> (r: Touching)
    requires
        followable(lines_of(*range), entries_view(log@), log@.len() as int),
    ensures
        views(r.lines@) == follow(lines_of(*range), entries_view(log@)).lines,
        views(r.file@) == follow(lines_of(*range), entries_view(log@)).file,
{
    let ghost all = entries_view(log@);
    let ghost start = lines_of(*range);
    let mut current: Option<Range<usize>> = match range {
        Some(r) => Some(r.start..r.end),
        None => None,
    };
    let mut lines: Vec<String> = Vec::new();
    let mut file: Vec<String> = Vec::new();
    let mut i: usize = 0;
    assert(all.take(0) =~= seq![]);
    assert(views(lines@).reverse() =~= seq![]);
    assert(views(file@).reverse() =~= seq![]);
    while i < log.len()
        invariant
            i <= log@.len(),
            all == entries_view(log@),
            start == lines_of(*range),
            followable(start, all, log@.len() as int),
            lines_of(current) == follow(start, all.take(i as int)).range,
            views(lines@).reverse() == follow(start, all.take(i as int)).lines,
            views(file@).reverse() == follow(start, all.take(i as int)).file,
        decreases log@.len() - i,
    {
        assert(all[i as int] == (log@[i as int].sha@, log@[i as int].hunks@));
        assert(all.take(i + 1).drop_last() =~= all.take(i as int));
        assert(all.take(i + 1).last() == all[i as int]);
        if valid_oid(&log[i].sha) {
            let sha = log[i].sha.clone();
            let ghost before_lines = views(lines@);
            let ghost before_file = views(file@);
            current = match current {
                Some(range) => {
                    let (hit, next) = track(range, &log[i].hunks);
                    if hit {
                        lines.push(sha.clone());
                        assert(views(lines@) =~= before_lines.push(sha@));
                        assert(views(lines@).reverse() =~= seq![sha@] + before_lines.reverse());
                    }
                    Some(next)
                },
                None => None,
            };
            file.push(sha);
            assert(views(file@) =~= before_file.push(sha@));
            assert(views(file@).reverse() =~= seq![sha@] + before_file.reverse());
        }
        i += 1;
    }
    assert(all.take(i as int) =~= all);
    Touching { lines: reverse(lines), file: reverse(file) }
}

/// The commit whose later history is searched for a discussion, if it names
/// one and its path is usable.
pub fn discussed_commit(thread: &Thread) -> (r: Option<&String>)
    ensures
        match (r, thread.commit) {
            (Some(x), Some(commit)) => *x == commit && good_path(thread.path@) && good_oid(
                commit@,
            ),
            (Some(_), None) => false,
            (None, Some(commit)) => !(good_path(thread.path@) && good_oid(commit@)),
            (None, None) => true,
        },
{
    match &thread.commit {
        Some(commit) => if valid_path(&thread.path) && valid_oid(commit) {
            Some(commit)
        } else {
            None
        },
        None => None,
    }
}

/// A commit that touched the lines also touched the file.
pub proof fn line_commits_are_file_commits(
    range: Option<(int, int)>,
    log: Seq<(Seq<char>, Seq<Hunk>)>,
)
    ensures
        forall|i: int|
            0 <= i < follow(range, log).lines.len() ==> follow(range, log).file.contains(
                #[trigger] follow(range, log).lines[i],
            ),
    decreases log.len(),
{
    if log.len() > 0 {
        let before = follow(range, log.drop_last());
        let after = follow(range, log);
        line_commits_are_file_commits(range, log.drop_last());
        assert forall|i: int| 0 <= i < after.lines.len() implies after.file.contains(
            #[trigger] after.lines[i],
        ) by {
            let entry = log.last();
            if good_oid(entry.0) {
                assert(after.file[0] == entry.0);
                let x = after.lines[i];
                if x != entry.0 {
                    let k = if after.lines.len() > before.lines.len() {
                        i - 1
                    } else {
                        i
                    };
                    assert(before.lines[k] == x);
                    let j = before.file.index_of(x);
                    assert(after.file[j + 1] == before.file[j]);
                }
            }
        }
    }
}

/// The commit most likely to address a discussion: the newest commit touching
/// its lines, else the newest touching its file since it was written, else HEAD.
pub open spec fn suggested(lines: Seq<Seq<char>>, file: Seq<Seq<char>>) -> (Seq<char>, Touch) {
    if lines.len() > 0 {
        (lines[0], Touch::Lines)
    } else if file.len() > 0 {
        (file[0], Touch::File)
    } else {
        ("HEAD"@, Touch::Neither)
    }
}

pub fn suggest(touching: &Touching) -> (r: (String, Touch))
    ensures
        (r.0@, r.1) == suggested(views(touching.lines@), views(touching.file@)),
        touching.lines@.len() > 0 ==> r.0@ == touching.lines@[0]@,
        touching.lines@.len() == 0 && touching.file@.len() > 0 ==> r.0@ == touching.file@[0]@,
{
    if touching.lines.len() > 0 {
        assert(views(touching.lines@)[0] == touching.lines@[0]@);
        (touching.lines[0].clone(), Touch::Lines)
    } else if touching.file.len() > 0 {
        assert(views(touching.file@)[0] == touching.file@[0]@);
        (touching.file[0].clone(), Touch::File)
    } else {
        ("HEAD".to_owned(), Touch::Neither)
    }
}

/// A hunk changes one of the lines `from` to `to` (one-based, half-open), or inserts
/// code directly above, between or below them.
pub open spec fn edits(h: Hunk, from: int, to: int) -> bool {
    ||| exists|l: int| #![trigger edited(h, l)] from <= l < to && edited(h, l)
    ||| h.old_len == 0 && from - 1 <= h.old_start < to
}

/// A hunk replaces or deletes the line.
pub open spec fn edited(h: Hunk, l: int) -> bool {
    h.old_start <= l < h.old_start + h.old_len
}

/// Commit `i` of the log edits the lines as they are followed up to it.
pub open spec fn edits_the_lines(
    range: Option<(int, int)>,
    log: Seq<(Seq<char>, Seq<Hunk>)>,
    i: int,
) -> bool {
    &&& good_oid(log[i].0)
    &&& exists|k: int|
        0 <= k < log[i].1.len() && edits(
            #[trigger] log[i].1[k],
            (follow(range, log.take(i)).range->0).0,
            (follow(range, log.take(i)).range->0).1,
        )
}

proof fn lemma_touched(hunks: Seq<Hunk>, from: int, to: int)
    requires
        from < to,
    ensures
        touched(hunks, from, to - 1) <==> exists|k: int|
            0 <= k < hunks.len() && edits(#[trigger] hunks[k], from, to),
{
    assert forall|k: int| 0 <= k < hunks.len() implies edits(#[trigger] hunks[k], from, to)
        == crate::placement::touches(hunks[k], from, to - 1) by {
        let h = hunks[k];
        let l = if from <= h.old_start {
            h.old_start as int
        } else {
            from
        };
        assert(edited(h, l) == (h.old_start <= l < h.old_start + h.old_len));
    }
    if touched(hunks, from, to - 1) {
        let k = choose|k: int|
            0 <= k < hunks.len() && crate::placement::touches(#[trigger] hunks[k], from, to - 1);
        assert(edits(hunks[k], from, to));
    }
}

proof fn lemma_follow(range: Option<(int, int)>, log: Seq<(Seq<char>, Seq<Hunk>)>)
    requires
        range matches Some(r) ==> r.0 < r.1,
    ensures
        follow(range, log).range is Some == range is Some,
        follow(range, log).range matches Some(r) ==> r.0 < r.1,
    decreases log.len(),
{
    if log.len() > 0 {
        lemma_follow(range, log.drop_last());
    }
}

proof fn lemma_edits_before(
    range: Option<(int, int)>,
    log: Seq<(Seq<char>, Seq<Hunk>)>,
    j: int,
)
    requires
        0 <= j < log.len() - 1,
    ensures
        edits_the_lines(range, log.drop_last(), j) == edits_the_lines(range, log, j),
{
    let rest = log.drop_last();
    assert(rest.take(j) =~= log.take(j));
    assert(rest[j] == log[j]);
    let at = follow(range, log.take(j)).range->0;
    if edits_the_lines(range, log, j) {
        let k = choose|k: int|
            0 <= k < log[j].1.len() && edits(#[trigger] log[j].1[k], at.0, at.1);
        assert(edits(rest[j].1[k], at.0, at.1));
    }
    if edits_the_lines(range, rest, j) {
        let k = choose|k: int|
            0 <= k < rest[j].1.len() && edits(#[trigger] rest[j].1[k], at.0, at.1);
        assert(edits(log[j].1[k], at.0, at.1));
    }
}

/// The newest commit that edits the lines of a discussion, as they are followed up to
/// it, is suggested: no later one edits them.
pub proof fn the_newest_edit_of_the_lines_is_suggested(
    range: Option<(int, int)>,
    log: Seq<(Seq<char>, Seq<Hunk>)>,
    i: int,
)
    requires
        range matches Some(r) && r.0 < r.1,
        0 <= i < log.len(),
        edits_the_lines(range, log, i),
        forall|j: int| i < j < log.len() ==> !edits_the_lines(range, log, j),
    ensures
        suggested(follow(range, log).lines, follow(range, log).file) == (log[i].0, Touch::Lines),
    decreases log.len(),
{
    let rest = log.drop_last();
    let n = log.len() - 1;
    lemma_follow(range, rest);
    assert(log.take(n) =~= rest);
    let now = follow(range, rest).range->0;
    lemma_touched(log[n].1, now.0, now.1);
    if i == n {
        assert(touched(log[n].1, now.0, now.1 - 1));
    } else {
        assert(!edits_the_lines(range, log, n));
        lemma_edits_before(range, log, i);
        assert forall|j: int| i < j < rest.len() implies !edits_the_lines(range, rest, j) by {
            lemma_edits_before(range, log, j);
            assert(!edits_the_lines(range, log, j));
        }
        the_newest_edit_of_the_lines_is_suggested(range, rest, i);
        assert(follow(range, log).lines == follow(range, rest).lines);
    }
}

/// Where no commit edits the lines, or they are not known, the newest commit of the
/// file is suggested; where there is none, HEAD.
pub proof fn else_the_newest_commit_of_the_file_is_suggested(
    range: Option<(int, int)>,
    log: Seq<(Seq<char>, Seq<Hunk>)>,
)
    requires
        range matches Some(r) ==> r.0 < r.1,
        range is Some ==> forall|j: int| 0 <= j < log.len() ==> !edits_the_lines(range, log, j),
    ensures
        ({
            let chosen = suggested(follow(range, log).lines, follow(range, log).file);
            &&& forall|i: int|
                #![trigger log[i]]
                0 <= i < log.len() && good_oid(log[i].0) && (forall|j: int|
                    i < j < log.len() ==> !good_oid((#[trigger] log[j]).0)) ==> chosen == (
                    log[i].0,
                    Touch::File,
                )
            &&& (forall|i: int| 0 <= i < log.len() ==> !good_oid((#[trigger] log[i]).0)) ==> chosen
                == ("HEAD"@, Touch::Neither)
        }),
    decreases log.len(),
{
    if log.len() > 0 {
        let rest = log.drop_last();
        let n = log.len() - 1;
        lemma_follow(range, rest);
        assert(log.take(n) =~= rest);
        let now = follow(range, rest).range->0;
        if range is Some {
            lemma_touched(log[n].1, now.0, now.1);
            assert(!edits_the_lines(range, log, n));
            assert forall|j: int| 0 <= j < rest.len() implies !edits_the_lines(range, rest, j) by {
                lemma_edits_before(range, log, j);
                assert(!edits_the_lines(range, log, j));
            }
        }
        else_the_newest_commit_of_the_file_is_suggested(range, rest);
        assert(follow(range, log).lines == follow(range, rest).lines);
        lemma_no_lines(range, log);
        assert forall|i: int|
            #![trigger log[i]]
            0 <= i < log.len() && good_oid(log[i].0) && (forall|j: int|
                i < j < log.len() ==> !good_oid((#[trigger] log[j]).0)) implies suggested(
            follow(range, log).lines,
            follow(range, log).file,
        ) == (log[i].0, Touch::File) by {
            if i < n {
                assert(!good_oid(log[n].0));
                assert(rest[i] == log[i]);
                assert forall|j: int| i < j < rest.len() implies !good_oid(
                    (#[trigger] rest[j]).0,
                ) by {
                    assert(rest[j] == log[j]);
                }
            }
        }
        if forall|i: int| 0 <= i < log.len() ==> !good_oid((#[trigger] log[i]).0) {
            assert forall|i: int| 0 <= i < rest.len() implies !good_oid((#[trigger] rest[i]).0) by {
                assert(rest[i] == log[i]);
            }
            assert(!good_oid(log[n].0));
        }
    }
}

proof fn lemma_no_lines(range: Option<(int, int)>, log: Seq<(Seq<char>, Seq<Hunk>)>)
    requires
        range matches Some(r) ==> r.0 < r.1,
        range is Some ==> forall|j: int| 0 <= j < log.len() ==> !edits_the_lines(range, log, j),
    ensures
        follow(range, log).lines.len() == 0,
    decreases log.len(),
{
    if log.len() > 0 {
        let rest = log.drop_last();
        let n = log.len() - 1;
        lemma_follow(range, rest);
        assert(log.take(n) =~= rest);
        if range is Some {
            let now = follow(range, rest).range->0;
            lemma_touched(log[n].1, now.0, now.1);
            assert(!edits_the_lines(range, log, n));
            assert forall|j: int| 0 <= j < rest.len() implies !edits_the_lines(range, rest, j) by {
                lemma_edits_before(range, log, j);
                assert(!edits_the_lines(range, log, j));
            }
        }
        lemma_no_lines(range, rest);
    }
}

/// Commits are listed newest first: a later commit comes before all earlier ones, and
/// changes nothing about them. Entries without a commit id count for nothing.
pub proof fn newest_commits_come_first(
    range: Option<(int, int)>,
    log: Seq<(Seq<char>, Seq<Hunk>)>,
    later: (Seq<char>, Seq<Hunk>),
)
    requires
        range matches Some(r) ==> r.0 < r.1,
    ensures
        ({
            let before = follow(range, log);
            let after = follow(range, log.push(later));
            &&& good_oid(later.0) ==> after.file == seq![later.0] + before.file
            &&& !good_oid(later.0) ==> after == before
            &&& range is Some && edits_the_lines(range, log.push(later), log.len() as int)
                ==> after.lines == seq![later.0] + before.lines
            &&& range is None || !edits_the_lines(range, log.push(later), log.len() as int)
                ==> after.lines == before.lines
        }),
{
    let all = log.push(later);
    assert(all.drop_last() =~= log);
    assert(all.take(log.len() as int) =~= log);
    lemma_follow(range, log);
    if range is Some {
        let now = follow(range, log).range->0;
        lemma_touched(later.1, now.0, now.1);
        assert(all[log.len() as int].1 == later.1);
    }
}

/// A commit that does not edit the lines moves them by what it inserts and deletes
/// above them, and by nothing else.
pub proof fn lines_move_with_the_code_above(
    range: Option<(int, int)>,
    log: Seq<(Seq<char>, Seq<Hunk>)>,
    later: (Seq<char>, Seq<Hunk>),
    n: int,
)
    requires
        range matches Some(r) && r.0 < r.1,
        good_oid(later.0),
        0 <= n <= later.1.len(),
        ({
            let (from, to) = follow(range, log).range->0;
            &&& forall|k: int|
                0 <= k < n ==> {
                    let h = #[trigger] later.1[k];
                    if h.old_len == 0 {
                        h.old_start + 1 < from
                    } else {
                        h.old_start + h.old_len <= from
                    }
                }
            &&& forall|k: int|
                n <= k < later.1.len() ==> (#[trigger] later.1[k]).old_start >= to
            &&& from + crate::placement::grown(later.1.take(n)) >= 1
        }),
    ensures
        ({
            let (from, to) = follow(range, log).range->0;
            let by = crate::placement::grown(later.1.take(n));
            follow(range, log.push(later)).range == Some((from + by, to + by))
        }),
{
    let all = log.push(later);
    assert(all.drop_last() =~= log);
    lemma_follow(range, log);
    let (from, to) = follow(range, log).range->0;
    crate::placement::lines_between_changes_move_with_those_above(from, to, later.1, n);
}

/// The code that a commit writes in place of the lines, or directly next to them,
/// belongs to them from then on: later commits are held against it.
pub proof fn replacing_code_is_followed(
    range: Option<(int, int)>,
    log: Seq<(Seq<char>, Seq<Hunk>)>,
    later: (Seq<char>, Seq<Hunk>),
    k: int,
)
    requires
        range matches Some(r) && r.0 < r.1,
        good_oid(later.0),
        0 <= k < later.1.len(),
        later.1[k].new_len > 0,
        edits(later.1[k], (follow(range, log).range->0).0, (follow(range, log).range->0).1),
    ensures
        follow(range, log.push(later)).range matches Some(r) && r.0 <= later.1[k].new_start
            && later.1[k].new_start + later.1[k].new_len <= r.1,
{
    let all = log.push(later);
    assert(all.drop_last() =~= log);
    lemma_follow(range, log);
    let (from, to) = follow(range, log).range->0;
    let h = later.1[k];
    if h.old_len > 0 {
        let l = choose|l: int| #![trigger edited(h, l)] from <= l < to && edited(h, l);
        assert(edited(h, l));
    }
    crate::placement::new_code_of_touching_changes_is_covered(from, to, later.1, k);
}

// ---------------------------------------------------------------------------
// Listed commits
// ---------------------------------------------------------------------------

/// `s` with spaces for line feeds.
pub open spec fn one_line(s: Seq<char>) -> Seq<char> {
    s.map_values(|c: char| if c == '\n' { ' ' } else { c })
}

fn flatten(s: &str) -> (r: String)
    ensures
        r@ == one_line(s@),
{
    let all = chars(s);
    let mut r = String::new();
    let mut i: usize = 0;
    while i < all.len()
        invariant
            i <= all@.len(),
            all@ == s@,
            r@ =~= one_line(s@).take(i as int),
        decreases all@.len() - i,
    {
        if all[i] == '\n' {
            r.push(' ');
        } else {
            r.push(all[i]);
        }
        i += 1;
    }
    assert(one_line(s@).take(i as int) =~= one_line(s@));
    r
}

/// The `n`th field, or nothing.
pub open spec fn field(fields: Seq<Seq<char>>, n: int) -> Seq<char> {
    if n < fields.len() {
        fields[n]
    } else {
        seq![]
    }
}

/// The commit of a line with its id, subject and date, separated by units.
pub open spec fn commit_in(line: Seq<char>) -> Option<CommitView> {
    let fields = split(trim_end(line, Pattern::Space), Pattern::One('\x1f'));
    let sha = trimmed(fields[0]);
    if good_oid(sha) {
        Some(
            CommitView {
                sha,
                subject: one_line(safe(field(fields, 1))),
                date: safe(field(fields, 2)),
                touch: Touch::Neither,
                pushed: None,
            },
        )
    } else {
        None
    }
}

fn field_text(fields: &Vec<&[char]>, n: usize) -> (r: String)
    ensures
        r@ == field(slices(fields@), n as int),
{
    if n < fields.len() {
        assert(slices(fields@)[n as int] == fields@[n as int]@);
        text(fields[n])
    } else {
        let r = String::new();
        assert(r@ =~= seq![]);
        r
    }
}

pub fn parse_commit(line: &str) -> (r: Option<Commit>)
    ensures
        match r {
            Some(c) => commit_in(line@) == Some(c@),
            None => commit_in(line@) is None,
        },
{
    let all = chars(line);
    let fields = split_at(trim_right(&all, Pattern::Space), Pattern::One('\x1f'));
    assert(slices(fields@)[0] == fields@[0]@);
    let sha = text(strip(fields[0]));
    if !valid_oid(&sha) {
        return None;
    }
    Some(
        Commit {
            sha,
            subject: flatten(&safe_text(&field_text(&fields, 1))),
            date: safe_text(&field_text(&fields, 2)),
            touch: Touch::Neither,
            pushed: None,
        },
    )
}

/// The commit with what is known about it.
pub open spec fn marked(
    c: CommitView,
    lines: Seq<Seq<char>>,
    file: Seq<Seq<char>>,
    unpushed: Option<Seq<Seq<char>>>,
) -> CommitView {
    CommitView {
        touch: if lines.contains(c.sha) {
            Touch::Lines
        } else if file.contains(c.sha) {
            Touch::File
        } else {
            Touch::Neither
        },
        pushed: match unpushed {
            Some(set) => Some(!set.contains(c.sha)),
            None => None,
        },
        ..c
    }
}

/// The commits in these lines that touch a discussion in the given way.
pub open spec fn listed(
    rows: Seq<Seq<char>>,
    lines: Seq<Seq<char>>,
    file: Seq<Seq<char>>,
    unpushed: Option<Seq<Seq<char>>>,
    touch: Touch,
) -> Seq<CommitView>
    decreases rows.len(),
{
    if rows.len() == 0 {
        seq![]
    } else {
        let rest = listed(rows.drop_last(), lines, file, unpushed, touch);
        match commit_in(rows.last()) {
            Some(c) => {
                let this = marked(c, lines, file, unpushed);
                if this.touch == touch {
                    rest.push(this)
                } else {
                    rest
                }
            },
            None => rest,
        }
    }
}

pub open spec fn views_of(list: Option<Vec<String>>) -> Option<Seq<Seq<char>>> {
    match list {
        Some(v) => Some(views(v@)),
        None => None,
    }
}

/// Recent branch commits for the insert picker: commits touching the
/// discussion first, then the rest, newest first within each group.
/// `out` lists them newest first; `unpushed` are those that the pull request's
/// head does not contain, if that is known.
pub fn list(out: &str, touching: &Touching, unpushed: &Option<Vec<String>>) -> (r: Vec<Commit>)
    ensures
        ({
            let rows = lines(out@);
            let on_lines = views(touching.lines@);
            let on_file = views(touching.file@);
            let local = views_of(*unpushed);
            commits_view(r@) == listed(rows, on_lines, on_file, local, Touch::Lines) + listed(
                rows,
                on_lines,
                on_file,
                local,
                Touch::File,
            ) + listed(rows, on_lines, on_file, local, Touch::Neither)
        }),
{
    let all = chars(out);
    let parts = split_lines(&all);
    let ghost rows = lines(out@);
    let ghost on_lines = views(touching.lines@);
    let ghost on_file = views(touching.file@);
    let ghost local = views_of(*unpushed);
    let mut first: Vec<Commit> = Vec::new();
    let mut second: Vec<Commit> = Vec::new();
    let mut third: Vec<Commit> = Vec::new();
    let mut i: usize = 0;
    assert(rows.take(0) =~= seq![]);
    while i < parts.len()
        invariant
            i <= parts@.len(),
            rows == slices(parts@),
            on_lines == views(touching.lines@),
            on_file == views(touching.file@),
            local == views_of(*unpushed),
            commits_view(first@) =~= listed(
                rows.take(i as int),
                on_lines,
                on_file,
                local,
                Touch::Lines,
            ),
            commits_view(second@) =~= listed(
                rows.take(i as int),
                on_lines,
                on_file,
                local,
                Touch::File,
            ),
            commits_view(third@) =~= listed(
                rows.take(i as int),
                on_lines,
                on_file,
                local,
                Touch::Neither,
            ),
        decreases parts@.len() - i,
    {
        assert(rows.take(i + 1).drop_last() =~= rows.take(i as int));
        assert(rows.take(i + 1).last() == parts@[i as int]@);
        match parse_commit(&text(parts[i])) {
            Some(commit) => {
                let mut commit = commit;
                let ghost plain = commit@;
                if has_text(&touching.lines, &commit.sha) {
                    commit.touch = Touch::Lines;
                } else if has_text(&touching.file, &commit.sha) {
                    commit.touch = Touch::File;
                }
                match unpushed {
                    Some(set) => {
                        let pushed = !has_text(set, &commit.sha);
                        commit.pushed = Some(pushed);
                    },
                    None => {},
                }
                let ghost this = commit@;
                assert(this == marked(plain, on_lines, on_file, local));
                let ghost a = commits_view(first@);
                let ghost b = commits_view(second@);
                let ghost c = commits_view(third@);
                match commit.touch {
                    Touch::Lines => {
                        first.push(commit);
                        assert(commits_view(first@) =~= a.push(this));
                    },
                    Touch::File => {
                        second.push(commit);
                        assert(commits_view(second@) =~= b.push(this));
                    },
                    Touch::Neither => {
                        third.push(commit);
                        assert(commits_view(third@) =~= c.push(this));
                    },
                }
            },
            None => {},
        }
        i += 1;
    }
    assert(rows.take(i as int) =~= rows);
    let ghost a = first@;
    let ghost b = second@;
    let ghost c = third@;
    first.append(&mut second);
    first.append(&mut third);
    assert(commits_view(first@) =~= commits_view(a) + commits_view(b) + commits_view(c));
    first
}

/// The log of the changes to a file since a commit, the oldest first: of merges, what
/// they bring to the branch. The path is never taken for an option.
pub open spec fn changes_log(base: Seq<char>, path: Seq<char>) -> Seq<Seq<char>> {
    seq![
        "-c"@,
        "core.quotePath=false"@,
        "log"@,
        "--reverse"@,
        "--first-parent"@,
        "--diff-merges=first-parent"@,
        "--no-renames"@,
        "--no-ext-diff"@,
        "--no-textconv"@,
        "--no-color"@,
        "-p"@,
        "-U0"@,
        "--format=%x01%H"@,
        base + "..HEAD"@,
        "--"@,
        path,
    ]
}

pub fn changes_arguments(base: &str, path: &str) -> (r: Vec<String>)
    ensures
        views(r@) == changes_log(base@, path@),
{
    let mut range = base.to_owned();
    range.append("..HEAD");
    let r = texts(
        &[
            "-c",
            "core.quotePath=false",
            "log",
            "--reverse",
            "--first-parent",
            "--diff-merges=first-parent",
            "--no-renames",
            "--no-ext-diff",
            "--no-textconv",
            "--no-color",
            "-p",
            "-U0",
            "--format=%x01%H",
            &range,
            "--",
            path,
        ],
    );
    assert(views(r@) =~= changes_log(base@, path@));
    r
}

/// The log of the branch's recent commits: at most fifty, without those of the base of
/// the pull request, where it is known.
pub open spec fn recent_log(base: Option<Seq<char>>) -> Seq<Seq<char>> {
    seq!["log"@, "--no-color"@, "--max-count=50"@, "--format=%H%x1f%s%x1f%as"@, "HEAD"@] + (
    match base {
        Some(base) => seq!["^"@ + base],
        None => seq![],
    }) + seq!["--"@]
}

pub fn recent_arguments(base: Option<&str>) -> (r: Vec<String>)
    ensures
        views(r@) == recent_log(crate::github::opt(base)),
{
    let format = "--format=%H%x1f%s%x1f%as";
    let r = match base {
        Some(base) => {
            let mut without = "^".to_owned();
            without.append(base);
            texts(&["log", "--no-color", "--max-count=50", format, "HEAD", &without, "--"])
        },
        None => texts(&["log", "--no-color", "--max-count=50", format, "HEAD", "--"]),
    };
    assert(views(r@) =~= recent_log(crate::github::opt(base)));
    r
}

// ---------------------------------------------------------------------------
// Commits that a reply mentions
// ---------------------------------------------------------------------------

/// A word that may be a commit id.
pub open spec fn id_like(word: Seq<char>) -> bool {
    7 <= word.len() <= 40 && all_hex(word)
}

/// The words that may be commit ids, in order of first appearance, each once.
pub open spec fn ids_among(words: Seq<Seq<char>>) -> Seq<Seq<char>>
    decreases words.len(),
{
    if words.len() == 0 {
        seq![]
    } else {
        let rest = ids_among(words.drop_last());
        let word = words.last();
        if id_like(word) && !rest.contains(word) {
            rest.push(word)
        } else {
            rest
        }
    }
}

/// Hexadecimal words that may be commit ids (7 to 40 digits), in order, unique.
pub fn hash_candidates(body: &str) -> (r: Vec<String>)
    ensures
        views(r@) == ids_among(split(body@, Pattern::NotWord)),
{
    let all = chars(body);
    let words = split_at(&all, Pattern::NotWord);
    let ghost every = split(body@, Pattern::NotWord);
    let mut r: Vec<String> = Vec::new();
    let mut i: usize = 0;
    assert(every.take(0) =~= seq![]);
    assert(views(r@) =~= seq![]);
    while i < words.len()
        invariant
            i <= words@.len(),
            every == slices(words@),
            views(r@) == ids_among(every.take(i as int)),
        decreases words@.len() - i,
    {
        let word = words[i];
        assert(every.take(i + 1).drop_last() =~= every.take(i as int));
        assert(every.take(i + 1).last() == word@);
        if 7 <= word.len() && word.len() <= 40 && is_all_hex(word) {
            let word = text(word);
            if !has_text(&r, &word) {
                let ghost before = views(r@);
                r.push(word);
                assert(views(r@) =~= before.push(word@));
            }
        }
        i += 1;
    }
    assert(every.take(i as int) =~= every);
    r
}

/// Whether `body` contains a word that may be a commit id.
pub fn mentions_commit(body: &str) -> (r: bool)
    ensures
        r == (ids_among(split(body@, Pattern::NotWord)).len() > 0),
{
    let found = hash_candidates(body);
    assert(views(found@).len() == found@.len());
    found.len() > 0
}

/// Every word that may be a commit id is found, once, and no other word is.
pub proof fn candidates_are_complete_and_unique(words: Seq<Seq<char>>)
    ensures
        forall|word: Seq<char>| #[trigger]
            ids_among(words).contains(word) <==> words.contains(word) && id_like(word),
        ids_among(words).no_duplicates(),
    decreases words.len(),
{
    if words.len() > 0 {
        let rest = ids_among(words.drop_last());
        let all = ids_among(words);
        let last = words.last();
        candidates_are_complete_and_unique(words.drop_last());
        assert(words =~= words.drop_last().push(last));
        assert forall|word: Seq<char>| #[trigger]
            all.contains(word) <==> words.contains(word) && id_like(word) by {
            assert(words.contains(word) <==> words.drop_last().contains(word) || word == last) by {
                if words.contains(word) {
                    let i = words.index_of(word);
                    if i < words.len() - 1 {
                        assert(words.drop_last()[i] == word);
                    }
                }
                if words.drop_last().contains(word) {
                    let i = words.drop_last().index_of(word);
                    assert(words[i] == word);
                }
                assert(words[words.len() - 1] == last);
            }
            if all != rest {
                if all.contains(word) {
                    let i = all.index_of(word);
                    if i < rest.len() {
                        assert(rest[i] == word);
                    }
                }
                if rest.contains(word) {
                    let i = rest.index_of(word);
                    assert(all[i] == word);
                }
                assert(all[rest.len() as int] == last);
            }
        }
        if all != rest {
            assert forall|i: int, j: int| 0 <= i < j < all.len() implies all[i] != all[j] by {
                if j == rest.len() {
                    assert(rest[i] == all[i]);
                }
            }
        }
    }
}

/// A word of a reply and the local commit it names.
#[derive(Debug)]
pub struct Reference {
    pub word: String,
    pub sha: String,
    /// The commit is contained in the pull request's head.
    pub pushed: bool,
}

/// The shortened words of the references that are not pushed.
pub open spec fn missing_words(references: Seq<Reference>) -> Seq<Seq<char>>
    decreases references.len(),
{
    if references.len() == 0 {
        seq![]
    } else {
        let rest = missing_words(references.drop_last());
        let last = references.last();
        if good_oid(last.sha@) && !last.pushed {
            rest.push(clipped(last.word@, 10))
        } else {
            rest
        }
    }
}

/// Some reference names a local commit.
pub open spec fn refers(references: Seq<Reference>) -> bool {
    exists|i: int| 0 <= i < references.len() && good_oid((#[trigger] references[i]).sha@)
}

/// Commits referenced in a reply that exist locally but are not contained in the
/// pull request's head on GitHub; GitHub cannot link those. `Err` when the head
/// is not available locally for checking.
pub fn unpushed_references(references: &Vec<Reference>, head_known: bool, pull: &PullHead) -> (r:
    Result<Vec<String>, String>)
    requires
        clippable(pull.oid@, 10),
        forall|i: int|
            0 <= i < references@.len() ==> clippable((#[trigger] references@[i]).word@, 10),
    ensures
        match r {
            Ok(missing) => if refers(references@) {
                head_known && views(missing@) == missing_words(references@)
            } else {
                missing@.len() == 0
            },
            Err(e) => refers(references@) && !head_known && e@ == "PR head "@ + clipped(
                pull.oid@,
                10,
            ) + " ("@ + pull.name@
                + ") is not in the local repository, so referenced commits cannot be verified; run git fetch"@,
        },
{
    let mut missing: Vec<String> = Vec::new();
    let mut some = false;
    let mut i: usize = 0;
    assert(references@.take(0) =~= seq![]);
    assert(views(missing@) =~= seq![]);
    while i < references.len()
        invariant
            i <= references@.len(),
            forall|k: int|
                0 <= k < references@.len() ==> clippable((#[trigger] references@[k]).word@, 10),
            some ==> refers(references@),
            !some ==> forall|k: int|
                0 <= k < i ==> !good_oid((#[trigger] references@[k]).sha@),
            !some ==> missing@.len() == 0,
            views(missing@) == missing_words(references@.take(i as int)),
        decreases references@.len() - i,
    {
        let reference = &references[i];
        assert(references@.take(i + 1).drop_last() =~= references@.take(i as int));
        assert(clippable(references@[i as int].word@, 10));
        if valid_oid(&reference.sha) {
            assert(good_oid(references@[i as int].sha@));
            some = true;
            if !reference.pushed {
                let ghost before = views(missing@);
                missing.push(clip(&reference.word, 10));
                assert(views(missing@) =~= before.push(clipped(reference.word@, 10)));
            }
        }
        i += 1;
    }
    assert(references@.take(i as int) =~= references@);
    if some && !head_known {
        let mut e = "PR head ".to_owned();
        e.append(&clip(&pull.oid, 10));
        e.append(" (");
        e.append(&pull.name);
        e.append(
            ") is not in the local repository, so referenced commits cannot be verified; run git fetch",
        );
        return Err(e);
    }
    Ok(missing)
}

proof fn lemma_cut(x: Seq<char>, sep: Seq<char>, y: Seq<char>)
    requires
        sep.len() > 0,
        forall|i: int| 0 <= i < x.len() ==> #[trigger] x[i] != sep[0],
    ensures
        split_once(x + sep + y, sep) == Some((x, y)),
{
    let s = x + sep + y;
    let n = x.len() as int;
    crate::text::lemma_find(s, sep);
    assert(s.subrange(n, n + sep.len()) =~= sep);
    assert(crate::text::occurs(s, sep, n));
    let k = crate::text::find(s, sep)->0;
    if k < n {
        assert(s.subrange(k, k + sep.len())[0] == x[k]);
    }
    assert(s.take(n) =~= x);
    assert(s.skip(n + sep.len()) =~= y);
}

proof fn lemma_range_read(a: nat, b: nat)
    requires
        a <= usize::MAX,
        b <= usize::MAX,
    ensures
        range_in(decimal(a) + ","@ + decimal(b)) == Some((a, b)),
        range_in(decimal(a)) == Some((a, 1nat)),
        forall|i: int|
            0 <= i < (decimal(a) + ","@ + decimal(b)).len() ==> #[trigger] (decimal(a) + ","@
                + decimal(b))[i] != ' ',
        forall|i: int| 0 <= i < decimal(a).len() ==> #[trigger] decimal(a)[i] != ' ',
{
    reveal_strlit(",");
    crate::text::lemma_decimal(a);
    crate::text::lemma_decimal(b);
    crate::text::numbers_are_read_back(a, usize::MAX as nat);
    crate::text::numbers_are_read_back(b, usize::MAX as nat);
    assert(","@ =~= seq![',']);
    assert forall|i: int| 0 <= i < decimal(a).len() implies #[trigger] decimal(a)[i] != ','
        && decimal(a)[i] != ' ' by {
        assert(crate::text::is_digit(decimal(a)[i]));
    }
    lemma_cut(decimal(a), ","@, decimal(b));
    crate::text::texts_without_a_separator_stay_whole(decimal(a), ',');
    let both = decimal(a) + ","@ + decimal(b);
    assert forall|i: int| 0 <= i < both.len() implies #[trigger] both[i] != ' ' by {
        if i > decimal(a).len() {
            assert(crate::text::is_digit(decimal(b)[i - decimal(a).len() - 1]));
        }
    }
}

/// The head of a hunk is read as it is written: where the old and the new lines start,
/// and how many there are; a number that is left out is one.
pub proof fn hunks_are_read_back(h: Hunk, rest: Seq<char>)
    ensures
        hunk_in(
            "@@ -"@ + (decimal(h.old_start as nat) + ","@ + decimal(h.old_len as nat)) + " +"@ + (
            decimal(h.new_start as nat) + ","@ + decimal(h.new_len as nat)) + " @@"@ + rest,
        ) == Some(h),
        hunk_in(
            "@@ -"@ + decimal(h.old_start as nat) + " +"@ + decimal(h.new_start as nat) + " @@"@
                + rest,
        ) == Some(Hunk { old_len: 1, new_len: 1, ..h }),
{
    reveal_strlit("@@ -");
    reveal_strlit(" +");
    reveal_strlit(" @@");
    lemma_range_read(h.old_start as nat, h.old_len as nat);
    lemma_range_read(h.new_start as nat, h.new_len as nat);
    let a = decimal(h.old_start as nat) + ","@ + decimal(h.old_len as nat);
    let b = decimal(h.new_start as nat) + ","@ + decimal(h.new_len as nat);
    lemma_head_read(a, b, rest);
    lemma_head_read(decimal(h.old_start as nat), decimal(h.new_start as nat), rest);
}

proof fn lemma_head_read(a: Seq<char>, b: Seq<char>, rest: Seq<char>)
    requires
        forall|i: int| 0 <= i < a.len() ==> #[trigger] a[i] != ' ',
        forall|i: int| 0 <= i < b.len() ==> #[trigger] b[i] != ' ',
    ensures
        ({
            let line = "@@ -"@ + a + " +"@ + b + " @@"@ + rest;
            let tail = a + " +"@ + (b + " @@"@ + rest);
            &&& strip_prefix(line, "@@ -"@) == Some(tail)
            &&& split_once(tail, " +"@) == Some((a, b + " @@"@ + rest))
            &&& split_once(b + " @@"@ + rest, " @@"@) == Some((b, rest))
        }),
{
    reveal_strlit("@@ -");
    reveal_strlit(" +");
    reveal_strlit(" @@");
    let line = "@@ -"@ + a + " +"@ + b + " @@"@ + rest;
    let tail = a + " +"@ + (b + " @@"@ + rest);
    assert(line.take(4) =~= "@@ -"@);
    assert(line.skip(4) =~= tail);
    lemma_cut(a, " +"@, b + " @@"@ + rest);
    lemma_cut(b, " @@"@, rest);
}

/// The log is read line by line: a marked line starts a commit, a hunk belongs to the
/// commit above it, and all other lines say nothing.
pub proof fn logs_are_read_line_by_line(
    rows: Seq<Seq<char>>,
    sha: Seq<char>,
    line: Seq<char>,
)
    ensures
        log_of(rows.push("\x01"@ + sha)) == log_of(rows).push((trimmed(sha), Seq::<Hunk>::empty())),
        hunk_in(line) matches Some(h) ==> (log_of(rows).len() > 0 ==> {
            let was = log_of(rows);
            let now = log_of(rows.push(line));
            &&& now.len() == was.len()
            &&& now.drop_last() == was.drop_last()
            &&& now.last().0 == was.last().0
            &&& now.last().1 == was.last().1.push(h)
        }),
        hunk_in(line) is None && !starts_with(line, "\x01"@) ==> log_of(rows.push(line)) == log_of(
            rows,
        ),
{
    reveal_strlit("\x01");
    reveal_strlit("@@ -");
    let marked = "\x01"@ + sha;
    assert(rows.push(marked).drop_last() =~= rows);
    assert(rows.push(line).drop_last() =~= rows);
    assert(marked.take(1) =~= "\x01"@);
    assert(marked.skip(1) =~= sha);
    if hunk_in(line) is Some {
        assert(line.take(4)[0] == '@');
        if starts_with(line, "\x01"@) {
            assert(line.take(1)[0] == '\x01');
        }
        if log_of(rows).len() > 0 {
            assert(log_of(rows.push(line)).drop_last() =~= log_of(rows).drop_last());
        }
    }
}

proof fn lemma_listed(
    rows: Seq<Seq<char>>,
    lines: Seq<Seq<char>>,
    file: Seq<Seq<char>>,
    unpushed: Option<Seq<Seq<char>>>,
    i: int,
)
    requires
        0 <= i < rows.len(),
        commit_in(rows[i]) is Some,
    ensures
        ({
            let c = marked(commit_in(rows[i])->0, lines, file, unpushed);
            listed(rows, lines, file, unpushed, c.touch).contains(c)
        }),
    decreases rows.len(),
{
    let c = marked(commit_in(rows[i])->0, lines, file, unpushed);
    let rest = listed(rows.drop_last(), lines, file, unpushed, c.touch);
    let all = listed(rows, lines, file, unpushed, c.touch);
    if i < rows.len() - 1 {
        assert(rows.drop_last()[i] == rows[i]);
        lemma_listed(rows.drop_last(), lines, file, unpushed, i);
        let k = choose|k: int| 0 <= k < rest.len() && rest[k] == c;
        assert(all[k] == c);
    } else {
        assert(all[rest.len() as int] == c);
    }
}

/// Every commit of the branch is listed: among those that touch the lines, those that
/// touch the file, or the others, and with whether it is on GitHub.
pub proof fn commits_are_listed_by_what_they_touch(
    rows: Seq<Seq<char>>,
    lines: Seq<Seq<char>>,
    file: Seq<Seq<char>>,
    unpushed: Option<Seq<Seq<char>>>,
    i: int,
)
    requires
        0 <= i < rows.len(),
        commit_in(rows[i]) is Some,
    ensures
        ({
            let c = commit_in(rows[i])->0;
            let touch = if lines.contains(c.sha) {
                Touch::Lines
            } else if file.contains(c.sha) {
                Touch::File
            } else {
                Touch::Neither
            };
            let pushed = match unpushed {
                Some(local) => Some(!local.contains(c.sha)),
                None => None,
            };
            listed(rows, lines, file, unpushed, touch).contains(
                CommitView { sha: c.sha, subject: c.subject, date: c.date, touch, pushed },
            )
        }),
{
    lemma_listed(rows, lines, file, unpushed, i);
}

proof fn lemma_split_first(a: Seq<char>, sep: char, b: Seq<char>)
    requires
        forall|i: int| 0 <= i < a.len() ==> #[trigger] a[i] != sep,
    ensures
        split(a + seq![sep] + b, Pattern::One(sep)) == seq![a] + split(b, Pattern::One(sep)),
{
    let s = a + seq![sep] + b;
    crate::text::texts_are_cut_at_the_first(a, sep, b);
    assert(s.take(a.len() as int) =~= a);
    assert(s.skip(a.len() as int + 1) =~= b);
}

/// A commit is read as git writes it: its id, its subject and its date.
pub proof fn commits_are_read_back(sha: Seq<char>, subject: Seq<char>, date: Seq<char>)
    requires
        good_oid(sha),
        trimmed(sha) == sha,
        forall|i: int| 0 <= i < sha.len() ==> #[trigger] sha[i] != '\x1f',
        forall|i: int| 0 <= i < subject.len() ==> #[trigger] subject[i] != '\x1f',
        forall|i: int| 0 <= i < date.len() ==> #[trigger] date[i] != '\x1f',
        date.len() > 0,
        !Pattern::Space.hits(date.last()),
    ensures
        commit_in(sha + seq!['\x1f'] + (subject + seq!['\x1f'] + date)) == Some(
            CommitView {
                sha,
                subject: one_line(safe(subject)),
                date: safe(date),
                touch: Touch::Neither,
                pushed: None,
            },
        ),
{
    let tail = subject + seq!['\x1f'] + date;
    let line = sha + seq!['\x1f'] + tail;
    assert(line.last() == date.last());
    assert(trim_end(line, Pattern::Space) == line);
    lemma_split_first(sha, '\x1f', tail);
    lemma_split_first(subject, '\x1f', date);
    crate::text::texts_without_a_separator_stay_whole(date, '\x1f');
    assert(split(date, Pattern::One('\x1f')) == seq![date]);
    let fields = split(line, Pattern::One('\x1f'));
    assert(fields =~= seq![sha, subject, date]);
}

/// A comment that names a local commit is held back for it exactly where the commit is
/// not on GitHub.
pub proof fn unpushed_references_are_missing(references: Seq<Reference>, i: int)
    requires
        0 <= i < references.len(),
        good_oid(references[i].sha@),
    ensures
        !references[i].pushed ==> missing_words(references).contains(
            clipped(references[i].word@, 10),
        ),
        (forall|k: int|
            0 <= k < references.len() ==> (#[trigger] references[k]).pushed || !good_oid(
                references[k].sha@,
            )) ==> missing_words(references).len() == 0,
    decreases references.len(),
{
    let t = references.drop_last();
    let rest = missing_words(t);
    let all = missing_words(references);
    let word = clipped(references[i].word@, 10);
    if i < references.len() - 1 {
        assert(t[i] == references[i]);
        unpushed_references_are_missing(t, i);
        if !references[i].pushed {
            let k = choose|k: int| 0 <= k < rest.len() && rest[k] == word;
            assert(all[k] == word);
        }
    } else if !references[i].pushed {
        assert(all[rest.len() as int] == word);
    }
    if forall|k: int|
        0 <= k < references.len() ==> (#[trigger] references[k]).pushed || !good_oid(
            references[k].sha@,
        ) {
        lemma_nothing_missing(references);
    }
}

proof fn lemma_nothing_missing(references: Seq<Reference>)
    requires
        forall|k: int|
            0 <= k < references.len() ==> (#[trigger] references[k]).pushed || !good_oid(
                references[k].sha@,
            ),
    ensures
        missing_words(references).len() == 0,
    decreases references.len(),
{
    if references.len() > 0 {
        let t = references.drop_last();
        assert forall|k: int| 0 <= k < t.len() implies (#[trigger] t[k]).pushed || !good_oid(
            t[k].sha@,
        ) by {
            assert(t[k] == references[k]);
        }
        assert(references[references.len() - 1] == references.last());
        lemma_nothing_missing(t);
    }
}

/// A discussion without lines can always be followed: there is nothing to count.
pub proof fn files_can_always_be_followed(log: Seq<(Seq<char>, Seq<Hunk>)>)
    ensures
        followable(None, log, log.len() as int),
{
    assert forall|i: int| 0 <= i < log.len() implies (good_oid((#[trigger] log[i]).0) ==> match follow(
        None,
        log.take(i),
    ).range {
        Some((from, to)) => trackable(from, to, log[i].1),
        None => true,
    }) by {
        lemma_no_range(log.take(i));
    }
}

proof fn lemma_no_range(log: Seq<(Seq<char>, Seq<Hunk>)>)
    ensures
        follow(None, log).range is None,
    decreases log.len(),
{
    if log.len() > 0 {
        lemma_no_range(log.drop_last());
    }
}

} // verus!
