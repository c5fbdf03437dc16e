//! Commit drafts. A commit is created only while the branch, HEAD and the index
//! still match the draft that shows them.
use crate::bytes::{lossy, lossy_text};
use crate::drafts::{
    above, closes, commit_message, content, separates, written, COMMIT_SEPARATOR,
};
use crate::git::{
    cleared, draft_at, draft_of, stopped, summarized, summary, what_runs, Draft, Repo, Running,
    Snapshot, State,
};
use crate::process::{message_of, Output};
use crate::review::{safe, safe_text};
use crate::session::Message;
use crate::status::{change_views, text_view, Branch, BranchView, Change, ChangeView, Part};
use crate::text::{
    chars, chomp, clip, clippable, clipped, decimal, fit, fitting, full_lines, join, join_texts,
    lines, listed, number, pad, padded, part, same, size, slices, spells, split, split_at,
    split_full_lines, split_lines, split_words, strip, text, texts, trim_end, trim_right, trimmed,
    views, whitespace, words, Pattern,
};
use crate::worktree::{branch_line, branch_text};
use vstd::prelude::*;

verus! {

/// Largest diff shown in a commit draft, in bytes.
pub const DRAFT_DIFF: usize = 524288;

/// What a draft shows, and the state that it shows.
#[derive(Debug)]
pub struct Prepared {
    pub snapshot: Snapshot,
    pub context: String,
}

// ---------------------------------------------------------------------------
// What a draft shows
// ---------------------------------------------------------------------------

/// The tree that the index is compared with: that of HEAD, or the empty one, whose
/// id Git printed.
pub fn base_tree(head: Option<&str>, empty: &str) -> (r: String)
    ensures
        r@ == (match head {
            Some(head) => head@ + "^{tree}"@,
            None => trimmed(empty@),
        }),
{
    match head {
        Some(head) => {
            let mut r = head.to_owned();
            r.append("^{tree}");
            r
        },
        None => text(strip(&chars(empty))),
    }
}

/// The comparison of two trees: the names of the files that differ, or how.
pub open spec fn comparison(names: bool, base: Seq<char>, tree: Seq<char>) -> Seq<Seq<char>> {
    if names {
        seq!["diff-tree"@, "-r"@, "-z"@, "--no-renames"@, "--name-status"@, base, tree]
    } else {
        seq![
            "diff-tree"@,
            "-r"@,
            "-p"@,
            "--no-renames"@,
            "--no-color"@,
            "--src-prefix=a/"@,
            "--dst-prefix=b/"@,
            base,
            tree,
        ]
    }
}

/// The arguments that compare the base with the tree that the commit will record, so
/// that a draft shows exactly what will be committed.
pub fn compare_arguments(names: bool, base: &str, tree: &str) -> (r: Vec<String>)
    ensures
        views(r@) == comparison(names, base@, tree@),
{
    let r = if names {
        texts(&["diff-tree", "-r", "-z", "--no-renames", "--name-status", base, tree])
    } else {
        texts(
            &[
                "diff-tree",
                "-r",
                "-p",
                "--no-renames",
                "--no-color",
                "--src-prefix=a/",
                "--dst-prefix=b/",
                base,
                tree,
            ],
        )
    };
    assert(views(r@) =~= comparison(names, base@, tree@));
    r
}

pub open spec fn label_of(code: char) -> Seq<char> {
    match code {
        'A' => "new file:"@,
        'D' => "deleted:"@,
        'T' => "typechange:"@,
        _ => "modified:"@,
    }
}

pub fn staged_label(code: char) -> (r: &'static str)
    ensures
        r@ == label_of(code),
{
    match code {
        'A' => "new file:",
        'D' => "deleted:",
        'T' => "typechange:",
        _ => "modified:",
    }
}

pub open spec fn staged_rows(staged: Seq<(char, String)>) -> Seq<char>
    decreases staged.len(),
{
    if staged.len() == 0 {
        seq![]
    } else {
        staged_rows(staged.drop_last()) + "#\t"@ + padded(label_of(staged.last().0), 12)
            + staged.last().1@ + "\n"@
    }
}

pub open spec fn staged_part(staged: Seq<(char, String)>) -> Seq<char> {
    if staged.len() == 0 {
        "# Nothing is staged yet: stage changes with :git-status (Alt-s), then :w.\n"@
    } else {
        "# Changes to be committed:\n"@ + staged_rows(staged)
    }
}

/// The paths of the changes on one side.
pub open spec fn part_rows(changes: Seq<ChangeView>, part: Part) -> Seq<char>
    decreases changes.len(),
{
    if changes.len() == 0 {
        seq![]
    } else if changes.last().part == part {
        part_rows(changes.drop_last(), part) + "#\t"@ + changes.last().path + "\n"@
    } else {
        part_rows(changes.drop_last(), part)
    }
}

pub open spec fn section(title: Seq<char>, changes: Seq<ChangeView>, part: Part) -> Seq<char> {
    let rows = part_rows(changes, part);
    if rows.len() == 0 {
        seq![]
    } else {
        "#\n# "@ + title + "\n"@ + rows
    }
}

pub open spec fn paths(staged: Seq<(char, String)>) -> Seq<Seq<char>> {
    staged.map_values(|e: (char, String)| e.1@)
}

pub open spec fn unsaved_rows(unsaved: Seq<Seq<char>>, staged: Seq<Seq<char>>) -> Seq<char>
    decreases unsaved.len(),
{
    if unsaved.len() == 0 {
        seq![]
    } else {
        unsaved_rows(unsaved.drop_last(), staged) + "#\t"@ + unsaved.last() + (if staged.contains(
            unsaved.last(),
        ) {
            "  (staged)"@
        } else {
            ""@
        }) + "\n"@
    }
}

pub open spec fn unsaved_part(unsaved: Seq<Seq<char>>, staged: Seq<Seq<char>>) -> Seq<char> {
    if unsaved.len() == 0 {
        seq![]
    } else {
        "#\n# Unsaved buffers (Git sees only their saved version):\n"@ + unsaved_rows(
            unsaved,
            staged,
        )
    }
}

pub open spec fn failure_rows(rows: Seq<Seq<char>>) -> Seq<char>
    decreases rows.len(),
{
    if rows.len() == 0 {
        seq![]
    } else {
        failure_rows(rows.drop_last()) + "#   "@ + rows.last() + "\n"@
    }
}

pub open spec fn failure_part(failure: Option<&str>) -> Seq<char> {
    match failure {
        Some(failure) => {
            let rows = lines(failure@);
            "#\n# The last commit attempt failed:\n"@ + failure_rows(
                rows.take(if rows.len() < 60 {
                    rows.len() as int
                } else {
                    60
                }),
            )
        },
        None => seq![],
    }
}

pub open spec fn diff_part(diff: Seq<char>) -> Seq<char> {
    if size(diff) > DRAFT_DIFF {
        diff.take(fitting(diff, DRAFT_DIFF as nat) as int) + "\n# … diff truncated\n"@
    } else {
        diff
    }
}

pub open spec fn heading(branch: BranchView) -> Seq<char> {
    COMMIT_SEPARATOR@
        + "\n# Do not modify or remove the line above; everything below it is ignored.\n# :w commits the message above it · :w! also commits when staged files have\n# unsaved edits · :bc! discards this draft.\n#\n# On branch "@
        + safe(branch_text(branch)) + "\n"@
}

pub open spec fn subject_part(subject: Option<&str>) -> Seq<char> {
    match subject {
        Some(subject) => "# HEAD "@ + safe(subject@) + "\n"@,
        None => "# No commits yet\n"@,
    }
}

pub open spec fn discussion_part(discussion: Option<&str>) -> Seq<char> {
    match discussion {
        Some(d) => "# Review discussion "@ + safe(d@)
            + ": after :git-push, :review-fixed replies with this commit\n"@,
        None => seq![],
    }
}

/// Everything a draft shows below its message.
pub open spec fn context_text(
    branch: BranchView,
    subject: Option<&str>,
    discussion: Option<&str>,
    staged: Seq<(char, String)>,
    changes: Seq<ChangeView>,
    unsaved: Seq<Seq<char>>,
    failure: Option<&str>,
    diff: Seq<char>,
) -> Seq<char> {
    heading(branch) + subject_part(subject) + discussion_part(discussion) + "#\n"@ + staged_part(
        staged,
    ) + section("Changes not staged for commit:"@, changes, Part::Unstaged) + section(
        "Unmerged paths:"@,
        changes,
        Part::Conflict,
    ) + section("Untracked files:"@, changes, Part::Untracked) + unsaved_part(
        unsaved,
        paths(staged),
    ) + failure_part(failure) + "#\n"@ + diff_part(diff)
}

fn push_staged(out: &mut String, staged: &Vec<(char, String)>)
    ensures
        final(out)@ == old(out)@ + staged_part(staged@),
{
    if staged.len() == 0 {
        out.append("# Nothing is staged yet: stage changes with :git-status (Alt-s), then :w.\n");
        return;
    }
    let mut rows = String::new();
    let mut i: usize = 0;
    assert(rows@ =~= seq![]);
    while i < staged.len()
        invariant
            i <= staged@.len(),
            rows@ == staged_rows(staged@.take(i as int)),
        decreases staged@.len() - i,
    {
        assert(staged@.take(i as int + 1).drop_last() =~= staged@.take(i as int));
        rows.append("#\t");
        rows.append(&pad(staged_label(staged[i].0), 12));
        rows.append(&staged[i].1);
        rows.append("\n");
        i += 1;
    }
    assert(staged@.take(i as int) =~= staged@);
    let ghost before = out@;
    out.append("# Changes to be committed:\n");
    out.append(&rows);
    assert(out@ =~= before + ("# Changes to be committed:\n"@ + rows@));
}

fn push_section(out: &mut String, title: &str, changes: &Vec<Change>, part: Part)
    ensures
        final(out)@ == old(out)@ + section(title@, change_views(changes@), part),
{
    let ghost all = change_views(changes@);
    let mut rows = String::new();
    let mut any = false;
    let mut i: usize = 0;
    assert(rows@ =~= seq![]);
    while i < changes.len()
        invariant
            i <= changes@.len(),
            all == change_views(changes@),
            rows@ == part_rows(all.take(i as int), part),
            any == (rows@.len() > 0),
        decreases changes@.len() - i,
    {
        proof {
            assert(all.take(i as int + 1).drop_last() =~= all.take(i as int));
            assert(all[i as int] == changes@[i as int]@);
            reveal_strlit("\n");
        }
        if changes[i].part == part {
            rows.append("#\t");
            rows.append(&changes[i].path);
            rows.append("\n");
            any = true;
        }
        i += 1;
    }
    assert(all.take(i as int) =~= all);
    let ghost before = out@;
    if any {
        out.append("#\n# ");
        out.append(title);
        out.append("\n");
        out.append(&rows);
    }
    assert(out@ =~= before + section(title@, all, part));
}

fn push_unsaved(out: &mut String, unsaved: &Vec<String>, staged: &Vec<(char, String)>)
    ensures
        final(out)@ == old(out)@ + unsaved_part(views(unsaved@), paths(staged@)),
{
    let ghost all = views(unsaved@);
    let ghost known = paths(staged@);
    let ghost before = out@;
    if unsaved.len() == 0 {
        assert(out@ =~= before + unsaved_part(all, known));
        return;
    }
    let mut rows = String::new();
    let mut i: usize = 0;
    assert(rows@ =~= seq![]);
    while i < unsaved.len()
        invariant
            i <= unsaved@.len(),
            all == views(unsaved@),
            known == paths(staged@),
            rows@ == unsaved_rows(all.take(i as int), known),
        decreases unsaved@.len() - i,
    {
        proof {
            assert(all.take(i as int + 1).drop_last() =~= all.take(i as int));
            assert(all[i as int] == unsaved@[i as int]@);
        }
        rows.append("#\t");
        rows.append(&unsaved[i]);
        rows.append(if is_staged(staged, &unsaved[i]) { "  (staged)" } else { "" });
        rows.append("\n");
        i += 1;
    }
    assert(all.take(i as int) =~= all);
    out.append("#\n# Unsaved buffers (Git sees only their saved version):\n");
    out.append(&rows);
    assert(out@ =~= before + unsaved_part(all, known));
}

fn is_staged(staged: &Vec<(char, String)>, path: &str) -> (r: bool)
    ensures
        r == paths(staged@).contains(path@),
{
    let ghost known = paths(staged@);
    let mut i: usize = 0;
    while i < staged.len()
        invariant
            i <= staged@.len(),
            known == paths(staged@),
            forall|j: int| 0 <= j < i ==> #[trigger] known[j] != path@,
        decreases staged@.len() - i,
    {
        assert(known[i as int] == staged@[i as int].1@);
        if same(&staged[i].1, path) {
            return true;
        }
        i += 1;
    }
    false
}

fn push_failure(out: &mut String, failure: Option<&str>)
    ensures
        final(out)@ == old(out)@ + failure_part(failure),
{
    let ghost before = out@;
    let failure = match failure {
        Some(failure) => failure,
        None => {
            assert(out@ =~= before + failure_part(None));
            return;
        },
    };
    let all = chars(failure);
    let rows = split_lines(&all);
    let ghost given = slices(rows@);
    let n: usize = if rows.len() < 60 { rows.len() } else { 60 };
    let mut shown = String::new();
    let mut i: usize = 0;
    assert(shown@ =~= seq![]);
    while i < n
        invariant
            i <= n <= rows@.len(),
            given == slices(rows@),
            shown@ == failure_rows(given.take(i as int)),
        decreases n - i,
    {
        proof {
            assert(given.take(i as int + 1).drop_last() =~= given.take(i as int));
            assert(given[i as int] == rows@[i as int]@);
        }
        shown.append("#   ");
        shown.append(&text(rows[i]));
        shown.append("\n");
        i += 1;
    }
    out.append("#\n# The last commit attempt failed:\n");
    out.append(&shown);
    assert(out@ =~= before + ("#\n# The last commit attempt failed:\n"@ + shown@));
}

/// Everything a draft shows below its message, derived from the index tree the
/// commit will record.
pub fn draft_context(
    branch: &Branch,
    subject: Option<&str>,
    discussion: Option<&str>,
    staged: &Vec<(char, String)>,
    changes: &Vec<Change>,
    unsaved: &Vec<String>,
    failure: Option<&str>,
    diff: &[u8],
) -> (r: String)
    ensures
        r@ == context_text(
            branch@,
            subject,
            discussion,
            staged@,
            change_views(changes@),
            views(unsaved@),
            failure,
            lossy_text(diff@),
        ),
{
    let mut out = COMMIT_SEPARATOR.to_owned();
    out.append(
        "\n# Do not modify or remove the line above; everything below it is ignored.\n# :w commits the message above it · :w! also commits when staged files have\n# unsaved edits · :bc! discards this draft.\n#\n# On branch ",
    );
    out.append(&branch_line(branch));
    out.append("\n");
    let ghost g0 = heading(branch@);
    match subject {
        Some(subject) => {
            out.append("# HEAD ");
            out.append(&safe_text(subject));
            out.append("\n");
        },
        None => {
            out.append("# No commits yet\n");
        },
    }
    assert(out@ =~= g0 + subject_part(subject));
    let ghost g1 = out@;
    match discussion {
        Some(d) => {
            out.append("# Review discussion ");
            out.append(&safe_text(d));
            out.append(": after :git-push, :review-fixed replies with this commit\n");
        },
        None => {},
    }
    assert(out@ =~= g1 + discussion_part(discussion));
    out.append("#\n");
    push_staged(&mut out, staged);
    push_section(&mut out, "Changes not staged for commit:", changes, Part::Unstaged);
    push_section(&mut out, "Unmerged paths:", changes, Part::Conflict);
    push_section(&mut out, "Untracked files:", changes, Part::Untracked);
    push_unsaved(&mut out, unsaved, staged);
    push_failure(&mut out, failure);
    out.append("#\n");
    let ghost g2 = out@;
    let shown = chars(&lossy(diff));
    let n: usize = fit(&shown, DRAFT_DIFF);
    proof {
        crate::text::fitting_starts_are_longest(shown@, DRAFT_DIFF as nat);
        assert(shown@.take(shown@.len() as int) =~= shown@);
    }
    if n < shown.len() {
        proof {
            assert(shown@.take(n as int + 1) + shown@.skip(n as int + 1) =~= shown@);
            crate::text::lemma_size_sum(shown@.take(n as int + 1), shown@.skip(n as int + 1));
        }
        let start = part(&shown, 0, n);
        assert(start@ =~= shown@.take(n as int));
        out.append(&text(start));
        out.append("\n# … diff truncated\n");
        assert(out@ =~= g2 + diff_part(shown@));
    } else {
        out.append(&text(&shown));
    }
    out
}

/// The state that a draft shows.
pub fn snapshot(head: Option<String>, tree: String, staged: &Vec<(char, String)>) -> (r: Snapshot)
    ensures
        r.head == head,
        r.tree == tree,
        views(r.staged@) == paths(staged@),
{
    let mut names: Vec<String> = Vec::new();
    let ghost all = paths(staged@);
    let mut i: usize = 0;
    assert(views(names@) =~= all.take(0));
    while i < staged.len()
        invariant
            i <= staged@.len(),
            all == paths(staged@),
            views(names@) == all.take(i as int),
        decreases staged@.len() - i,
    {
        let ghost before = views(names@);
        names.push(staged[i].1.clone());
        assert(views(names@) =~= before.push(staged@[i as int].1@));
        assert(all.take(i as int + 1) =~= all.take(i as int).push(all[i as int]));
        i += 1;
    }
    assert(all.take(i as int) =~= all);
    Snapshot { head, tree, staged: names }
}

// ---------------------------------------------------------------------------
// Updating a draft
// ---------------------------------------------------------------------------

/// Where the separator line starts, counted in characters.
pub open spec fn separator_start(rows: Seq<Seq<char>>) -> Option<int>
    decreases rows.len(),
{
    if rows.len() == 0 {
        None
    } else if trim_end(rows[0], Pattern::Space) == COMMIT_SEPARATOR@ {
        Some(0)
    } else {
        match separator_start(rows.skip(1)) {
            Some(k) => Some(rows[0].len() + k),
            None => None,
        }
    }
}

/// Where the context of a draft starts: at its separator, or at its end.
pub open spec fn context_start(draft: Seq<char>) -> int {
    match separator_start(full_lines(draft)) {
        Some(k) => k,
        None => draft.len() as int,
    }
}

/// The draft with its text below the message replaced.
pub open spec fn replaced(draft: Seq<char>, context: Seq<char>) -> Seq<char> {
    match separator_start(full_lines(draft)) {
        Some(k) => draft.take(k) + context,
        None => draft + (if draft.len() > 0 && draft.last() == '\n' {
            ""@
        } else {
            "\n"@
        }) + context,
    }
}

pub open spec fn blank(s: Seq<char>) -> bool {
    forall|i: int| 0 <= i < s.len() ==> crate::text::is_space(#[trigger] s[i])
}

proof fn lemma_separator_start(s: Seq<char>)
    ensures
        separator_start(full_lines(s)) matches Some(k) ==> 0 <= k <= s.len(),
    decreases s.len(),
{
    let feed = Pattern::One('\n');
    crate::text::lemma_position(s, feed);
    let i = crate::text::position(s, feed);
    let rows = full_lines(s);
    if s.len() > 0 {
        if i < s.len() {
            let rest = s.skip(i + 1);
            assert(rows.skip(1) =~= full_lines(rest));
            lemma_separator_start(rest);
        } else {
            assert(rows.skip(1) =~= seq![]);
            assert(separator_start(rows.skip(1)) is None);
        }
    }
}

/// An update of a draft's text.
#[derive(Debug)]
pub struct Update {
    /// Where the replaced text starts, and what stands there from now on.
    pub start: usize,
    pub text: String,
    /// The draft was and remains a template without a message.
    pub unmodified: bool,
}

/// Replace the draft's text below the scissors line, keeping the message.
pub fn replace_context(draft: &str, context: &str, modified: bool) -> (r: Update)
    ensures
        r.start == context_start(draft@),
        r.start <= draft@.len(),
        draft@.take(r.start as int) + r.text@ == replaced(draft@, context@),
        r.unmodified == (!modified && blank(draft@.take(context_start(draft@)))),
{
    let all = chars(draft);
    let rows = split_full_lines(&all);
    let ghost given = slices(rows@);
    proof {
        lemma_separator_start(draft@);
    }
    let length: usize = all.len();
    let mut start: usize = 0;
    let mut found = false;
    let mut i: usize = 0;
    assert(given.skip(0) =~= given);
    while i < rows.len() && !found
        invariant
            i <= rows@.len(),
            given == slices(rows@),
            given == full_lines(draft@),
            all@ == draft@,
            length == all@.len(),
            start <= length,
            separator_start(given) matches Some(k) ==> 0 <= k <= all@.len(),
            found ==> separator_start(given) == Some(start as int),
            !found ==> start == total(given.take(i as int)) && match separator_start(
                given.skip(i as int),
            ) {
                Some(k) => separator_start(given) == Some(start + k),
                None => separator_start(given) is None,
            },
        decreases rows@.len() - i, if found { 0int } else { 1 },
    {
        let ghost left = given.skip(i as int);
        proof {
            assert(left[0] == given[i as int]);
            assert(given[i as int] == rows@[i as int]@);
            assert(left.skip(1) =~= given.skip(i as int + 1));
            assert(given.take(i as int + 1).drop_last() =~= given.take(i as int));
            lemma_total(draft@);
            lemma_total_take(given, i as int + 1);
            assert(given.take(i as int + 1).last() == given[i as int]);
            assert(start + rows@[i as int]@.len() <= length);
        }
        if spells(trim_right(rows[i], Pattern::Space), COMMIT_SEPARATOR) {
            found = true;
        } else {
            start += rows[i].len();
            i += 1;
        }
    }
    let mut body = String::new();
    assert(body@ =~= seq![]);
    if !found {
        assert(given.skip(i as int) =~= seq![]);
        start = length;
        if !(length > 0 && all[length - 1] == '\n') {
            body.append("\n");
        }
    }
    let ghost prefix = body@;
    body.append(context);
    proof {
        reveal_strlit("");
        if !found {
            assert(all@.take(start as int) =~= all@);
            assert(all@ + (prefix + context@) =~= replaced(draft@, context@));
            assert(body@ =~= prefix + context@);
        } else {
            assert(body@ =~= context@);
        }
    }
    let kept = part(&all, 0, start);
    assert(kept@ =~= draft@.take(start as int));
    let empty = is_blank(kept);
    Update { start, text: body, unmodified: empty && !modified }
}

fn is_blank(a: &[char]) -> (r: bool)
    ensures
        r == blank(a@),
{
    let mut i: usize = 0;
    while i < a.len()
        invariant
            i <= a@.len(),
            forall|j: int| 0 <= j < i ==> crate::text::is_space(#[trigger] a@[j]),
        decreases a@.len() - i,
    {
        if !whitespace(a[i]) {
            return false;
        }
        i += 1;
    }
    true
}

/// The length of all rows together.
pub open spec fn total(rows: Seq<Seq<char>>) -> int
    decreases rows.len(),
{
    if rows.len() == 0 {
        0
    } else {
        total(rows.drop_last()) + rows.last().len()
    }
}

proof fn lemma_total_first(rows: Seq<Seq<char>>)
    requires
        rows.len() > 0,
    ensures
        total(rows) == rows[0].len() + total(rows.skip(1)),
    decreases rows.len(),
{
    if rows.len() == 1 {
        assert(rows.drop_last() =~= seq![]);
        assert(rows.skip(1) =~= seq![]);
        reveal_with_fuel(total, 2);
    } else {
        lemma_total_first(rows.drop_last());
        assert(rows.drop_last().skip(1) =~= rows.skip(1).drop_last());
    }
}

proof fn lemma_total(s: Seq<char>)
    ensures
        total(full_lines(s)) == s.len(),
    decreases s.len(),
{
    let feed = Pattern::One('\n');
    crate::text::lemma_position(s, feed);
    let i = crate::text::position(s, feed);
    let rows = full_lines(s);
    if s.len() > 0 {
        lemma_total_first(rows);
        if i < s.len() {
            assert(rows.skip(1) =~= full_lines(s.skip(i + 1)));
            lemma_total(s.skip(i + 1));
        } else {
            assert(rows.skip(1) =~= seq![]);
        }
    }
}

proof fn lemma_total_take(rows: Seq<Seq<char>>, n: int)
    requires
        0 <= n <= rows.len(),
    ensures
        total(rows.take(n)) <= total(rows),
    decreases rows.len() - n,
{
    if n < rows.len() {
        assert(rows.take(n + 1).drop_last() =~= rows.take(n));
        lemma_total_take(rows, n + 1);
    } else {
        assert(rows.take(n) =~= rows);
    }
}

proof fn lemma_trim_chomp(s: Seq<char>)
    ensures
        trim_end(chomp(s), Pattern::Space) == trim_end(s, Pattern::Space),
        trim_end(s.push('\n'), Pattern::Space) == trim_end(s, Pattern::Space),
{
    assert(s.push('\n').drop_last() =~= s);
}

proof fn lemma_kept(draft: Seq<char>, context: Seq<char>)
    requires
        separator_start(full_lines(draft)) is Some,
        lines(context).len() > 0,
        separates(lines(context)[0], COMMIT_SEPARATOR@, false),
    ensures
        above(lines(replaced(draft, context)), COMMIT_SEPARATOR@, false) == above(
            lines(draft),
            COMMIT_SEPARATOR@,
            false,
        ),
    decreases draft.len(),
{
    let feed = Pattern::One('\n');
    let sep = COMMIT_SEPARATOR@;
    crate::text::lemma_position(draft, feed);
    let i = crate::text::position(draft, feed);
    let rows = full_lines(draft);
    let first = rows[0];
    if i < draft.len() {
        assert(draft.take(i + 1) =~= draft.take(i).push('\n'));
        lemma_trim_chomp(draft.take(i));
        assert(lines(draft)[0] == chomp(draft.take(i)));
    } else {
        assert(lines(draft)[0] == draft);
    }
    if trim_end(first, Pattern::Space) == sep {
        assert(draft.take(0) + context =~= context);
        assert(separates(lines(draft)[0], sep, false));
    } else {
        assert(i < draft.len()) by {
            if i >= draft.len() {
                assert(rows.skip(1) =~= seq![]);
                assert(separator_start(rows.skip(1)) is None);
            }
        }
        let rest = draft.skip(i + 1);
        assert(rows.skip(1) =~= full_lines(rest));
        lemma_separator_start(rest);
        lemma_kept(rest, context);
        let k = separator_start(full_lines(rest))->0;
        let whole = replaced(draft, context);
        let below = replaced(rest, context);
        assert(draft.take(i + 1 + k) =~= draft.take(i + 1) + rest.take(k));
        assert(whole =~= draft.take(i + 1) + below);
        assert forall|j: int| 0 <= j < i implies !feed.hits(#[trigger] whole[j]) by {
            assert(whole[j] == draft[j]);
        }
        assert(whole[i] == draft[i]);
        crate::text::lemma_position_is(whole, feed, i);
        assert(whole.take(i) =~= draft.take(i));
        assert(whole.skip(i + 1) =~= below);
        let a = lines(whole);
        let b = lines(draft);
        assert(a[0] == b[0]);
        assert(a.skip(1) =~= lines(below));
        assert(b.skip(1) =~= lines(rest));
        assert(!separates(b[0], sep, false));
    }
}

/// Updating what a draft shows keeps its message.
pub proof fn updates_keep_the_message(
    draft: Seq<char>,
    branch: BranchView,
    subject: Option<&str>,
    discussion: Option<&str>,
    staged: Seq<(char, String)>,
    changes: Seq<ChangeView>,
    unsaved: Seq<Seq<char>>,
    failure: Option<&str>,
    diff: Seq<char>,
)
    requires
        separator_start(full_lines(draft)) is Some,
    ensures
        ({
            let context = context_text(
                branch,
                subject,
                discussion,
                staged,
                changes,
                unsaved,
                failure,
                diff,
            );
            written(lines(replaced(draft, context)), COMMIT_SEPARATOR@, false) == written(
                lines(draft),
                COMMIT_SEPARATOR@,
                false,
            )
        }),
{
    let context = context_text(
        branch,
        subject,
        discussion,
        staged,
        changes,
        unsaved,
        failure,
        diff,
    );
    lemma_context_starts(branch, subject, discussion, staged, changes, unsaved, failure, diff);
    lemma_kept(draft, context);
}

proof fn lemma_context_starts(
    branch: BranchView,
    subject: Option<&str>,
    discussion: Option<&str>,
    staged: Seq<(char, String)>,
    changes: Seq<ChangeView>,
    unsaved: Seq<Seq<char>>,
    failure: Option<&str>,
    diff: Seq<char>,
)
    ensures
        ({
            let context = context_text(
                branch,
                subject,
                discussion,
                staged,
                changes,
                unsaved,
                failure,
                diff,
            );
            &&& lines(context).len() > 0
            &&& lines(context)[0] == COMMIT_SEPARATOR@
            &&& separates(COMMIT_SEPARATOR@, COMMIT_SEPARATOR@, false)
        }),
{
    let context = context_text(
        branch,
        subject,
        discussion,
        staged,
        changes,
        unsaved,
        failure,
        diff,
    );
    let sep = COMMIT_SEPARATOR@;
    crate::drafts::separators_are_lines();
    reveal_strlit(
        "\n# Do not modify or remove the line above; everything below it is ignored.\n# :w commits the message above it · :w! also commits when staged files have\n# unsaved edits · :bc! discards this draft.\n#\n# On branch ",
    );
    let n = sep.len() as int;
    assert forall|j: int| 0 <= j < n implies #[trigger] context[j] == sep[j] by {}
    assert(context[n] == '\n');
    let feed = Pattern::One('\n');
    assert forall|j: int| 0 <= j < n implies !feed.hits(#[trigger] context[j]) by {}
    crate::text::lemma_position_is(context, feed, n);
    assert(context.take(n) =~= sep);
    assert(trim_end(sep, Pattern::Space) == sep);
}

/// The text of a new draft.
pub open spec fn template(context: Seq<char>) -> Seq<char> {
    "\n\n"@ + context
}

/// A new draft holds no message: nothing is committed before one was written.
pub proof fn new_drafts_have_no_message(
    branch: BranchView,
    subject: Option<&str>,
    discussion: Option<&str>,
    staged: Seq<(char, String)>,
    changes: Seq<ChangeView>,
    unsaved: Seq<Seq<char>>,
    failure: Option<&str>,
    diff: Seq<char>,
)
    ensures
        ({
            let context = context_text(
                branch,
                subject,
                discussion,
                staged,
                changes,
                unsaved,
                failure,
                diff,
            );
            written(lines(template(context)), COMMIT_SEPARATOR@, false) == Err::<Seq<char>, bool>(
                true,
            )
        }),
{
    let context = context_text(
        branch,
        subject,
        discussion,
        staged,
        changes,
        unsaved,
        failure,
        diff,
    );
    let sep = COMMIT_SEPARATOR@;
    let empty = Seq::<char>::empty();
    lemma_context_starts(branch, subject, discussion, staged, changes, unsaved, failure, diff);
    crate::drafts::separators_are_lines();
    reveal_strlit("\n\n");
    reveal_strlit("\n");
    let feed = Pattern::One('\n');
    let whole = template(context);
    let second = whole.skip(1);
    crate::text::lemma_position_is(whole, feed, 0);
    crate::text::lemma_position_is(second, feed, 0);
    assert(second.skip(1) =~= context);
    assert(whole.take(0) =~= empty);
    assert(second.take(0) =~= empty);
    assert(lines(second) =~= seq![empty] + lines(context));
    assert(lines(whole) =~= seq![empty] + lines(second));
    assert(lines(whole).skip(1) =~= lines(second));
    assert(lines(second).skip(1) =~= lines(context));
    assert(trim_end(empty, Pattern::Space) =~= empty);
    assert(empty.len() != sep.len());
    assert(above(lines(context), sep, false) == Some(Seq::<Seq<char>>::empty()));
    assert(above(lines(second), sep, false)->0 =~= seq![empty]);
    assert(above(lines(whole), sep, false)->0 =~= seq![empty, empty]);
    let kept = seq![empty, empty];
    assert(kept.drop_last() =~= seq![empty]);
    reveal_with_fuel(join, 2);
    assert(join(kept, "\n"@) =~= "\n"@);
    let one = "\n"@;
    assert(one.skip(1) =~= empty);
    reveal_with_fuel(crate::text::trim_start, 2);
    assert(crate::text::trim_start(one, feed) =~= empty);
    assert(content(kept) =~= empty);
    assert(trimmed(empty) =~= empty);
}

// ---------------------------------------------------------------------------
// Opening a draft
// ---------------------------------------------------------------------------

/// What the commit command does.
#[derive(Debug)]
pub enum Committing {
    Refuse(&'static str),
    /// Go to the draft that is open.
    Switch(u64, &'static str),
    /// Prepare a draft for this branch, saying this meanwhile.
    Prepare(String, &'static str),
}

/// Open the repository's commit draft. At most one is open for a repository.
pub fn commit(state: &State, repo: &Repo) -> (r: Committing)
    ensures
        match (repo.branch, draft_of(state.drafts@, repo.root@, 0)) {
            (None, _) => r matches Committing::Refuse(e) && e@
                == "Detached HEAD; check out a branch to commit"@,
            (Some(_), Some(i)) => r matches Committing::Switch(document, m) && document
                == state.drafts@[i].document && m@
                == "The commit draft for this repository is open; :w commits"@,
            (Some(branch), None) => r matches Committing::Prepare(b, m) && b@ == branch@ && m@
                == "Preparing commit draft…"@,
        },
{
    match &repo.branch {
        None => Committing::Refuse("Detached HEAD; check out a branch to commit"),
        Some(branch) => match state.draft_in(&repo.root) {
            Some(i) => Committing::Switch(
                state.drafts[i].document,
                "The commit draft for this repository is open; :w commits",
            ),
            None => Committing::Prepare(branch.clone(), "Preparing commit draft…"),
        },
    }
}

/// A draft to be shown in a scratch buffer.
#[derive(Debug)]
pub struct Opened {
    pub name: String,
    pub text: String,
    pub status: String,
}

/// What follows the preparation of a draft.
#[derive(Debug)]
pub enum Ready {
    /// Another draft of the repository was opened meanwhile: go there.
    Switch(u64),
    New(Opened),
}

/// A draft was prepared for a repository: it opens in the new `document`, unless one
/// is open by now. The template alone is not an unsent message; typing makes it one.
pub fn open_draft(
    state: &mut State,
    document: u64,
    root: &str,
    branch: &str,
    discussion: Option<String>,
    prepared: Prepared,
) -> (r: Ready)
    requires
        old(state).well_formed(),
        draft_at(old(state).drafts@, document, 0) is None,
    ensures
        final(state).well_formed(),
        match draft_of(old(state).drafts@, root@, 0) {
            Some(i) => *final(state) == *old(state) && r == Ready::Switch(
                old(state).drafts@[i].document,
            ),
            None => {
                let draft = final(state).drafts@.last();
                &&& final(state).running == old(state).running
                &&& final(state).drafts@.drop_last() == old(state).drafts@
                &&& final(state).drafts@.len() == old(state).drafts@.len() + 1
                &&& draft.document == document
                &&& draft.root@ == root@
                &&& draft.branch@ == branch@
                &&& draft.snapshot == prepared.snapshot
                &&& !draft.committing
                &&& draft.revision == 0
                &&& draft.discussion == discussion
                &&& r matches Ready::New(opened) && opened.name@ == "[git-commit] "@ + branch@
                    && opened.text@ == template(prepared.context@) && opened.status@
                    == "Commit draft for "@ + branch@ + ": "@ + decimal(
                    prepared.snapshot.staged@.len(),
                ) + " staged file(s) · write the message, :w commits, :bc! discards"@
            },
        },
{
    match state.draft_in(root) {
        Some(i) => return Ready::Switch(state.drafts[i].document),
        None => {},
    }
    let mut name = "[git-commit] ".to_owned();
    name.append(branch);
    let mut whole = "\n\n".to_owned();
    whole.append(&prepared.context);
    let mut status = "Commit draft for ".to_owned();
    status.append(branch);
    status.append(": ");
    status.append(&number(prepared.snapshot.staged.len()));
    status.append(" staged file(s) · write the message, :w commits, :bc! discards");
    let ghost was = state.drafts@;
    proof {
        lemma_no_draft(was, document, 0);
        lemma_no_draft_of(was, root@, 0);
    }
    state.drafts.push(
        Draft {
            document,
            root: root.to_owned(),
            branch: branch.to_owned(),
            snapshot: prepared.snapshot,
            committing: false,
            revision: 0,
            discussion,
        },
    );
    let ghost now = state.drafts@;
    proof {
        assert(now.drop_last() =~= was);
        assert forall|a: int, b: int| #![trigger now[a], now[b]] 0 <= a < b
            < now.len() implies now[a].document != now[b].document && now[a].root@
            != now[b].root@ by {
            assert(now[a] == was[a]);
            if b < was.len() {
                assert(now[b] == was[b]);
            }
        }
    }
    Ready::New(Opened { name, text: whole, status })
}

proof fn lemma_no_draft_of(drafts: Seq<Draft>, root: Seq<char>, i: int)
    requires
        0 <= i <= drafts.len(),
        draft_of(drafts, root, i) is None,
    ensures
        forall|j: int| i <= j < drafts.len() ==> (#[trigger] drafts[j]).root@ != root,
    decreases drafts.len() - i,
{
    if i < drafts.len() {
        lemma_no_draft_of(drafts, root, i + 1);
    }
}

proof fn lemma_no_draft(drafts: Seq<Draft>, document: u64, i: int)
    requires
        0 <= i <= drafts.len(),
        draft_at(drafts, document, i) is None,
    ensures
        forall|j: int| i <= j < drafts.len() ==> (#[trigger] drafts[j]).document != document,
    decreases drafts.len() - i,
{
    if i < drafts.len() {
        lemma_no_draft(drafts, document, i + 1);
    }
}

/// A draft to be prepared again: its document, its revision, its discussion.
#[derive(Debug)]
pub struct Refresh {
    pub document: u64,
    pub revision: u64,
    pub discussion: Option<String>,
}

pub open spec fn refreshes(r: Refresh, d: Draft) -> bool {
    r.document == d.document && r.revision == d.revision && text_view(r.discussion) == text_view(
        d.discussion,
    )
}

/// The drafts of `root` that no commit runs for.
pub open spec fn idle(drafts: Seq<Draft>, root: Seq<char>) -> Seq<Draft>
    decreases drafts.len(),
{
    if drafts.len() == 0 {
        seq![]
    } else if drafts.last().root@ == root && !drafts.last().committing {
        idle(drafts.drop_last(), root).push(drafts.last())
    } else {
        idle(drafts.drop_last(), root)
    }
}

/// The open drafts that show the staged state after it changed.
pub fn refresh_drafts(state: &State, root: &str) -> (r: Vec<Refresh>)
    ensures
        r@.len() == idle(state.drafts@, root@).len(),
        forall|i: int|
            0 <= i < r@.len() ==> refreshes(#[trigger] r@[i], idle(state.drafts@, root@)[i]),
{
    let mut r: Vec<Refresh> = Vec::new();
    let mut i: usize = 0;
    while i < state.drafts.len()
        invariant
            i <= state.drafts@.len(),
            r@.len() == idle(state.drafts@.take(i as int), root@).len(),
            forall|k: int|
                0 <= k < r@.len() ==> refreshes(
                    #[trigger] r@[k],
                    idle(state.drafts@.take(i as int), root@)[k],
                ),
        decreases state.drafts@.len() - i,
    {
        proof {
            assert(state.drafts@.take(i as int + 1).drop_last() =~= state.drafts@.take(i as int));
        }
        let draft = &state.drafts[i];
        if same(&draft.root, root) && !draft.committing {
            r.push(
                Refresh {
                    document: draft.document,
                    revision: draft.revision,
                    discussion: match &draft.discussion {
                        Some(d) => Some(d.clone()),
                        None => None,
                    },
                },
            );
        }
        i += 1;
    }
    assert(state.drafts@.take(i as int) =~= state.drafts@);
    r
}

/// Whether a background update of a draft is still wanted: no commit attempt and
/// no other update came first. The draft then shows the new state.
pub fn accept_update(state: &mut State, document: u64, revision: u64, now: Snapshot) -> (r: bool)
    requires
        old(state).well_formed(),
        revision < u64::MAX,
    ensures
        final(state).well_formed(),
        final(state).running == old(state).running,
        match draft_at(old(state).drafts@, document, 0) {
            Some(i) => {
                let draft = old(state).drafts@[i];
                if draft.committing || draft.revision != revision {
                    !r && final(state).drafts == old(state).drafts
                } else {
                    r && final(state).drafts@ == old(state).drafts@.update(
                        i,
                        Draft { revision: (revision + 1) as u64, snapshot: now, ..draft },
                    )
                }
            },
            None => !r && final(state).drafts == old(state).drafts,
        },
{
    match state.find_draft(document) {
        Some(i) => {
            if state.drafts[i].committing || state.drafts[i].revision != revision {
                return false;
            }
            state.change_draft(i, false, revision + 1, Some(now));
            true
        },
        None => false,
    }
}

// ---------------------------------------------------------------------------
// Committing
// ---------------------------------------------------------------------------

/// What saving a draft does.
#[derive(Debug)]
pub enum Sending {
    Refuse(String),
    /// Nothing is to be done, and this is said.
    Already(&'static str),
    /// Create a commit with this message, saying this meanwhile.
    Commit(String, String),
}

/// The paths of `unsaved` that the commit changes.
pub open spec fn blocking(unsaved: Seq<Seq<char>>, staged: Seq<Seq<char>>) -> Seq<Seq<char>>
    decreases unsaved.len(),
{
    if unsaved.len() == 0 {
        seq![]
    } else if staged.contains(unsaved.last()) {
        blocking(unsaved.drop_last(), staged).push(unsaved.last())
    } else {
        blocking(unsaved.drop_last(), staged)
    }
}

fn find_blocking(unsaved: &Vec<String>, staged: &Vec<String>) -> (r: Vec<String>)
    ensures
        views(r@) == blocking(views(unsaved@), views(staged@)),
{
    let ghost all = views(unsaved@);
    let ghost known = views(staged@);
    let mut r: Vec<String> = Vec::new();
    let mut i: usize = 0;
    assert(views(r@) =~= seq![]);
    while i < unsaved.len()
        invariant
            i <= unsaved@.len(),
            all == views(unsaved@),
            known == views(staged@),
            views(r@) == blocking(all.take(i as int), known),
        decreases unsaved@.len() - i,
    {
        let ghost before = views(r@);
        proof {
            assert(all.take(i as int + 1).drop_last() =~= all.take(i as int));
            assert(all[i as int] == unsaved@[i as int]@);
        }
        if listed(staged, &unsaved[i]) {
            r.push(unsaved[i].clone());
            assert(views(r@) =~= before.push(unsaved@[i as int]@));
        }
        i += 1;
    }
    assert(all.take(i as int) =~= all);
    r
}

/// An operation is in the way.
pub open spec fn busy_text(what: Seq<char>) -> Seq<char> {
    "A "@ + what + " is running in this repository; wait for it or :git-cancel"@
}

pub fn busy(what: &str) -> (r: String)
    ensures
        r@ == busy_text(what@),
{
    let mut r = "A ".to_owned();
    r.append(what);
    r.append(" is running in this repository; wait for it or :git-cancel");
    r
}

/// Save the draft in `document`: commit what is staged, with the message above
/// the separator. `finished` are the tasks that ended, `unsaved` the paths of
/// buffers with unsaved edits.
pub fn send(
    state: &mut State,
    document: u64,
    draft_text: &str,
    unsaved: &Vec<String>,
    force: bool,
    finished: &Vec<u64>,
) -> (r: Sending)
    requires
        old(state).well_formed(),
        forall|i: int|
            0 <= i < old(state).drafts@.len() ==> (#[trigger] old(state).drafts@[i]).revision
                < u64::MAX,
    ensures
        final(state).well_formed(),
        match draft_at(old(state).drafts@, document, 0) {
            None => *final(state) == *old(state) && (r matches Sending::Refuse(e) && e@
                == "Not a commit draft; open one with :git-commit"@),
            Some(i) => {
                let draft = old(state).drafts@[i];
                let running = cleared(old(state).running@, draft.root@, finished@);
                let message = written(lines(draft_text@), COMMIT_SEPARATOR@, false);
                let unseen = blocking(views(unsaved@), views(draft.snapshot.staged@));
                if draft.committing {
                    *final(state) == *old(state) && (r matches Sending::Already(m) && m@
                        == "The commit is already running"@)
                } else {
                    &&& final(state).running@ == running
                    &&& match (what_runs(running, draft.root@), message) {
                        (Some(what), _) => final(state).drafts == old(state).drafts && (r matches
                            Sending::Refuse(e) && e@ == busy_text(what)),
                        (None, Err(separated)) => final(state).drafts == old(state).drafts && (
                        r matches Sending::Refuse(e) && e@ == if separated {
                            "Commit message is empty; write it above the scissors line"@
                        } else {
                            "The scissors line was removed; restore it so the context is not committed"@
                        }),
                        (None, Ok(body)) => if !force && unseen.len() > 0 {
                            final(state).drafts == old(state).drafts && (r matches
                                Sending::Refuse(e) && e@ == "Unsaved edits in "@ + join(
                                unseen,
                                ", "@,
                            )
                                + ": the commit would contain only the staged version. Save and stage them, or :w! to commit anyway"@)
                        } else {
                            &&& final(state).drafts@ == old(state).drafts@.update(
                                i,
                                Draft {
                                    committing: true,
                                    revision: (draft.revision + 1) as u64,
                                    ..draft
                                },
                            )
                            &&& r matches Sending::Commit(m, status) && m@ == body && status@
                                == "Committing on "@ + draft.branch@ + "…"@
                        },
                    }
                }
            },
        },
{
    let message = commit_message(draft_text);
    let i: usize = match state.find_draft(document) {
        Some(i) => i,
        None => {
            return Sending::Refuse("Not a commit draft; open one with :git-commit".to_owned());
        },
    };
    if state.drafts[i].committing {
        return Sending::Already("The commit is already running");
    }
    let root = state.drafts[i].root.clone();
    match state.running(&root, finished) {
        Some(what) => {
            return Sending::Refuse(busy(what));
        },
        None => {},
    }
    let body = match message {
        Ok(body) => body,
        Err(e) => return Sending::Refuse(e.to_owned()),
    };
    let unseen = find_blocking(unsaved, &state.drafts[i].snapshot.staged);
    if !force && unseen.len() > 0 {
        let mut e = "Unsaved edits in ".to_owned();
        e.append(&join_texts(&unseen, ", "));
        e.append(
            ": the commit would contain only the staged version. Save and stage them, or :w! to commit anyway",
        );
        return Sending::Refuse(e);
    }
    let mut status = "Committing on ".to_owned();
    status.append(&state.drafts[i].branch);
    status.append("…");
    let revision: u64 = state.drafts[i].revision;
    state.change_draft(i, true, revision + 1, None);
    Sending::Commit(body, status)
}

/// The branch of the draft must be checked out.
pub fn check_branch(draft: &Draft, current: &str) -> (r: Result<(), String>)
    ensures
        match r {
            Ok(_) => current@ == "refs/heads/"@ + draft.branch@,
            Err(e) => current@ != "refs/heads/"@ + draft.branch@ && e@ == "HEAD is no longer on "@
                + draft.branch@
                + "; open a new draft with :git-commit on the branch to commit to"@,
        },
{
    let mut reference = "refs/heads/".to_owned();
    reference.append(&draft.branch);
    if same(current, &reference) {
        return Ok(());
    }
    let mut e = "HEAD is no longer on ".to_owned();
    e.append(&draft.branch);
    e.append("; open a new draft with :git-commit on the branch to commit to");
    Err(e)
}

/// Why nothing is committed now.
#[derive(Debug)]
pub enum Outdated {
    /// HEAD or the index changed: the draft shows the new state.
    Changed,
    Nothing(&'static str),
}

/// HEAD and the index are those that the draft shows.
pub open spec fn matches_draft(draft: Snapshot, now: Snapshot) -> bool {
    text_view(now.head) == text_view(draft.head) && now.tree@ == draft.tree@
}

/// A commit is created only while HEAD and the index match what the draft shows,
/// and only of something.
pub fn check_snapshot(draft: &Draft, now: &Snapshot) -> (r: Result<(), Outdated>)
    ensures
        match r {
            Ok(_) => matches_draft(draft.snapshot, *now) && now.staged@.len() > 0,
            Err(Outdated::Changed) => !matches_draft(draft.snapshot, *now),
            Err(Outdated::Nothing(e)) => matches_draft(draft.snapshot, *now) && now.staged@.len()
                == 0 && e@ == "Nothing is staged; stage changes with :git-status (Alt-s), then :w"@,
        },
{
    let same_head = match (&now.head, &draft.snapshot.head) {
        (Some(a), Some(b)) => same(a, b),
        (None, None) => true,
        _ => false,
    };
    if !same_head || !same(&now.tree, &draft.snapshot.tree) {
        return Err(Outdated::Changed);
    }
    if now.staged.len() == 0 {
        return Err(
            Outdated::Nothing("Nothing is staged; stage changes with :git-status (Alt-s), then :w"),
        );
    }
    Ok(())
}

#[derive(Debug)]
pub struct Committed {
    pub oid: String,
    pub subject: String,
    pub warnings: Vec<&'static str>,
}

pub const MOVED_WARNING: &'static str = "its parent is not the reviewed HEAD";

pub const HOOK_WARNING: &'static str =
    "a hook changed the committed content; check it with git show";

/// What is odd about a commit with these parents and this tree.
pub open spec fn warnings_of(
    snapshot: Snapshot,
    parents: Seq<char>,
    tree: Seq<char>,
) -> Seq<Seq<char>> {
    let expected = match snapshot.head {
        Some(head) => seq![head@],
        None => seq![],
    };
    (if words(parents) != expected {
        seq![MOVED_WARNING@]
    } else {
        seq![]
    }) + (if tree != snapshot.tree@ {
        seq![HOOK_WARNING@]
    } else {
        seq![]
    })
}

pub open spec fn literals(v: Seq<&'static str>) -> Seq<Seq<char>> {
    v.map_values(|s: &'static str| s@)
}

/// Read `git log -1 --format=%H%x1f%T%x1f%P%x1f%s` of the new commit, and compare
/// it with what the draft showed.
pub fn read_commit(info: &str, reviewed: &Snapshot) -> (r: Result<Committed, &'static str>)
    ensures
        ({
            let fields = split(info@, Pattern::One('\u{1f}'));
            match r {
                Ok(c) => {
                    &&& fields.len() == 4
                    &&& c.oid@ == fields[0]
                    &&& c.subject@ == safe(fields[3])
                    &&& literals(c.warnings@) == warnings_of(*reviewed, fields[2], fields[1])
                },
                Err(e) => fields.len() != 4 && e@ == "Cannot read the new commit"@,
            }
        }),
{
    let all = chars(info);
    let fields = split_at(&all, Pattern::One('\u{1f}'));
    let ghost f = slices(fields@);
    assert(f.len() == fields@.len());
    if fields.len() != 4 {
        return Err("Cannot read the new commit");
    }
    assert(f[0] == fields@[0]@ && f[1] == fields@[1]@ && f[2] == fields@[2]@ && f[3]
        == fields@[3]@);
    let mut warnings: Vec<&'static str> = Vec::new();
    let parents = split_words(fields[2]);
    let ghost p = slices(parents@);
    assert(p.len() == parents@.len());
    let expected = match &reviewed.head {
        Some(head) => {
            proof {
                if p.len() == 1 {
                    assert(p[0] == parents@[0]@);
                    assert(p[0] == head@ ==> p =~= seq![head@]);
                }
            }
            parents.len() == 1 && spells(parents[0], head)
        },
        None => {
            assert(p.len() == 0 ==> p =~= seq![]);
            parents.len() == 0
        },
    };
    if !expected {
        warnings.push(MOVED_WARNING);
    }
    if !spells(fields[1], &reviewed.tree) {
        warnings.push(HOOK_WARNING);
    }
    assert(literals(warnings@) =~= warnings_of(*reviewed, f[2], f[1]));
    Ok(Committed { oid: text(fields[0]), subject: safe_text(&text(fields[3])), warnings })
}

/// How a commit ended.
#[derive(Debug)]
pub enum Outcome {
    Committed(Committed),
    /// HEAD or the index changed: the draft shows the new state.
    Changed(Prepared),
    /// Git refused the commit, e.g. a hook or signing failed.
    Refused(String, Option<Prepared>),
    Other(String),
}

// ---------------------------------------------------------------------------
// The steps of a commit
// ---------------------------------------------------------------------------

/// What a commit waits for.
#[derive(Debug)]
pub enum Stage {
    /// The checked-out branch.
    Branch,
    /// The state that would be committed now.
    Snapshot,
    /// Git to commit.
    Commit,
    /// The state after Git refused with this report.
    Report(String),
    /// What Git says of the new commit.
    Read,
    Done,
}

/// What became of the last step.
#[derive(Debug)]
pub enum Event {
    /// The reference that HEAD stands for; empty where there is none.
    Branch(String),
    Prepared(Result<Prepared, String>),
    Ran(Result<Output, String>),
    Info(Result<String, String>),
}

/// What is done next.
#[derive(Debug)]
pub enum Action {
    /// Prepare the draft again, telling of a failure.
    Prepare(Option<String>),
    /// Run Git with these arguments, giving it the message.
    Commit(Vec<String>),
    /// Run Git with these arguments, and read what it prints.
    Read(Vec<String>),
    End(Outcome),
}

pub enum StageView {
    Branch,
    Snapshot,
    Commit,
    Report(Seq<char>),
    Read,
    Done,
}

impl View for Stage {
    type V = StageView;

    open spec fn view(&self) -> StageView {
        match *self {
            Stage::Branch => StageView::Branch,
            Stage::Snapshot => StageView::Snapshot,
            Stage::Commit => StageView::Commit,
            Stage::Report(report) => StageView::Report(report@),
            Stage::Read => StageView::Read,
            Stage::Done => StageView::Done,
        }
    }
}

pub enum OutcomeView {
    /// The id, the subject and the warnings.
    Committed(Seq<char>, Seq<char>, Seq<Seq<char>>),
    Changed(Prepared),
    Refused(Seq<char>, Option<Prepared>),
    Other(Seq<char>),
}

impl View for Outcome {
    type V = OutcomeView;

    open spec fn view(&self) -> OutcomeView {
        match *self {
            Outcome::Committed(c) => OutcomeView::Committed(
                c.oid@,
                c.subject@,
                literals(c.warnings@),
            ),
            Outcome::Changed(p) => OutcomeView::Changed(p),
            Outcome::Refused(report, p) => OutcomeView::Refused(report@, p),
            Outcome::Other(e) => OutcomeView::Other(e@),
        }
    }
}

pub enum ActionView {
    Prepare(Option<Seq<char>>),
    Commit(Seq<Seq<char>>),
    Read(Seq<Seq<char>>),
    End(OutcomeView),
}

impl View for Action {
    type V = ActionView;

    open spec fn view(&self) -> ActionView {
        match *self {
            Action::Prepare(failure) => ActionView::Prepare(text_view(failure)),
            Action::Commit(args) => ActionView::Commit(views(args@)),
            Action::Read(args) => ActionView::Read(views(args@)),
            Action::End(outcome) => ActionView::End(outcome@),
        }
    }
}

/// The event is one that the commit waits for.
pub open spec fn awaited(stage: StageView, event: Event) -> bool {
    match stage {
        StageView::Branch => event is Branch,
        StageView::Snapshot => event is Prepared,
        StageView::Commit => event is Ran,
        StageView::Report(_) => event is Prepared,
        StageView::Read => event is Info,
        StageView::Done => false,
    }
}

/// Hooks and signing apply, and the message is used as written.
pub open spec fn commit_args() -> Seq<Seq<char>> {
    seq!["commit"@, "--quiet"@, "--cleanup=whitespace"@, "-F"@, "-"@]
}

pub open spec fn read_args(branch: Seq<char>) -> Seq<Seq<char>> {
    seq![
        "log"@,
        "-1"@,
        "--no-color"@,
        "--format=%H%x1f%T%x1f%P%x1f%s"@,
        "refs/heads/"@ + branch,
    ]
}

/// The branch of the draft is checked out.
pub open spec fn on_branch(draft: Draft, current: Seq<char>) -> bool {
    current == "refs/heads/"@ + draft.branch@
}

/// The draft shows what would be committed now, and that is something.
pub open spec fn up_to_date(draft: Draft, now: Snapshot) -> bool {
    matches_draft(draft.snapshot, now) && now.staged@.len() > 0
}

pub open spec fn failed(e: Seq<char>) -> (StageView, ActionView) {
    (StageView::Done, ActionView::End(OutcomeView::Other(e)))
}

/// What follows an event.
pub open spec fn step(draft: Draft, stage: StageView, event: Event) -> (StageView, ActionView) {
    match (stage, event) {
        (StageView::Branch, Event::Branch(current)) => if on_branch(draft, current@) {
            (StageView::Snapshot, ActionView::Prepare(None))
        } else {
            failed(
                "HEAD is no longer on "@ + draft.branch@
                    + "; open a new draft with :git-commit on the branch to commit to"@,
            )
        },
        (StageView::Snapshot, Event::Prepared(Ok(p))) => if up_to_date(draft, p.snapshot) {
            (StageView::Commit, ActionView::Commit(commit_args()))
        } else if matches_draft(draft.snapshot, p.snapshot) {
            failed("Nothing is staged; stage changes with :git-status (Alt-s), then :w"@)
        } else {
            (StageView::Done, ActionView::End(OutcomeView::Changed(p)))
        },
        (StageView::Snapshot, Event::Prepared(Err(e))) => failed(e@),
        (StageView::Commit, Event::Ran(Ok(out))) => if out.success {
            (StageView::Read, ActionView::Read(read_args(draft.branch@)))
        } else {
            let report = message_of(out);
            (StageView::Report(report), ActionView::Prepare(Some(report)))
        },
        (StageView::Commit, Event::Ran(Err(e))) => failed(e@),
        (StageView::Report(report), Event::Prepared(p)) => (
            StageView::Done,
            ActionView::End(
                OutcomeView::Refused(
                    report,
                    match p {
                        Ok(p) => Some(p),
                        Err(_) => None,
                    },
                ),
            ),
        ),
        (StageView::Read, Event::Info(Ok(info))) => {
            let fields = split(info@, Pattern::One('\u{1f}'));
            if fields.len() == 4 {
                (
                    StageView::Done,
                    ActionView::End(
                        OutcomeView::Committed(
                            fields[0],
                            safe(fields[3]),
                            warnings_of(draft.snapshot, fields[2], fields[1]),
                        ),
                    ),
                )
            } else {
                failed("Cannot read the new commit"@)
            }
        },
        (StageView::Read, Event::Info(Err(e))) => failed(e@),
        _ => failed(seq![]),
    }
}

fn fail(e: String) -> (r: (Stage, Action))
    ensures
        (r.0@, r.1@) == failed(e@),
{
    (Stage::Done, Action::End(Outcome::Other(e)))
}

/// Commit the index that the draft shows, one step after the other. It starts at
/// `Stage::Branch`, with a look at the checked-out branch.
pub fn next_step(draft: &Draft, stage: Stage, event: Event) -> (r: (Stage, Action))
    requires
        awaited(stage@, event),
    ensures
        (r.0@, r.1@) == step(*draft, stage@, event),
{
    match (stage, event) {
        (Stage::Branch, Event::Branch(current)) => match check_branch(draft, &current) {
            Ok(_) => (Stage::Snapshot, Action::Prepare(None)),
            Err(e) => fail(e),
        },
        (Stage::Snapshot, Event::Prepared(Ok(p))) => match check_snapshot(draft, &p.snapshot) {
            Ok(_) => {
                let args = texts(&["commit", "--quiet", "--cleanup=whitespace", "-F", "-"]);
                assert(views(args@) =~= commit_args());
                (Stage::Commit, Action::Commit(args))
            },
            Err(Outdated::Changed) => (Stage::Done, Action::End(Outcome::Changed(p))),
            Err(Outdated::Nothing(e)) => fail(e.to_owned()),
        },
        (Stage::Snapshot, Event::Prepared(Err(e))) => fail(e),
        (Stage::Commit, Event::Ran(Ok(out))) => {
            if out.success {
                let mut reference = "refs/heads/".to_owned();
                reference.append(&draft.branch);
                let args = texts(
                    &["log", "-1", "--no-color", "--format=%H%x1f%T%x1f%P%x1f%s", &reference],
                );
                assert(views(args@) =~= read_args(draft.branch@));
                (Stage::Read, Action::Read(args))
            } else {
                let report = out.message();
                (Stage::Report(report.clone()), Action::Prepare(Some(report)))
            }
        },
        (Stage::Commit, Event::Ran(Err(e))) => fail(e),
        (Stage::Report(report), Event::Prepared(p)) => {
            let shown = match p {
                Ok(p) => Some(p),
                Err(_e) => None,
            };
            (Stage::Done, Action::End(Outcome::Refused(report, shown)))
        },
        (Stage::Read, Event::Info(Ok(info))) => match read_commit(&info, &draft.snapshot) {
            Ok(c) => (Stage::Done, Action::End(Outcome::Committed(c))),
            Err(e) => fail(e.to_owned()),
        },
        (Stage::Read, Event::Info(Err(e))) => fail(e),
        _ => fail(String::new()),
    }
}

/// Where a commit is after some events, and what was to be done last.
pub open spec fn course(draft: Draft, events: Seq<Event>) -> Option<(StageView, ActionView)>
    decreases events.len(),
{
    if events.len() == 1 {
        Some(step(draft, StageView::Branch, events[0]))
    } else if events.len() > 1 {
        Some(step(draft, (course(draft, events.drop_last())->0).0, events.last()))
    } else {
        None
    }
}

/// Git is asked for a commit only after two accepted checks: the branch of the draft
/// was checked out, and HEAD and the index were those that the draft shows, with
/// something staged.
pub proof fn commits_follow_both_checks(draft: Draft, events: Seq<Event>)
    requires
        course(draft, events) matches Some((_, action)) && action is Commit,
    ensures
        events.len() == 2,
        events[0] matches Event::Branch(current) && on_branch(draft, current@),
        events[1] matches Event::Prepared(Ok(p)) && up_to_date(draft, p.snapshot),
{
    lemma_course(draft, events);
    if events.len() > 1 {
        let before = events.drop_last();
        lemma_course(draft, before);
        assert(before[0] == events[0]);
    }
}

proof fn lemma_course(draft: Draft, events: Seq<Event>)
    requires
        events.len() > 0,
    ensures
        (course(draft, events)->0).0 is Snapshot ==> events.len() == 1 && (events[0] matches
            Event::Branch(current) && on_branch(draft, current@)),
        !((course(draft, events)->0).0 is Branch),
        (course(draft, events)->0).1 is Commit ==> events.len() == 2,
    decreases events.len(),
{
    if events.len() > 1 {
        let before = events.drop_last();
        lemma_course(draft, before);
        assert(before[0] == events[0]);
    }
}

// ---------------------------------------------------------------------------
// The end of a commit
// ---------------------------------------------------------------------------

/// What follows the end of a commit.
#[derive(Debug)]
pub struct Finished {
    pub message: Message,
    /// The draft shows this from now on.
    pub context: Option<String>,
    /// The commit was made, and the draft is done.
    pub done: bool,
    /// The buffer of the draft is closed: nothing was written since it was sent.
    pub close: bool,
}

/// What is said of a new commit.
pub open spec fn committed_text(c: Committed, branch: Seq<char>) -> Seq<char> {
    "Committed "@ + clipped(c.oid@, 10) + " "@ + c.subject@ + " on "@ + branch
        + " · local only, not pushed: :git-push"@ + (if c.warnings@.len() == 0 {
        seq![]
    } else {
        " · note: "@ + join(literals(c.warnings@), "; "@)
    })
}

fn join_literals(parts: &Vec<&'static str>, sep: &str) -> (r: String)
    ensures
        r@ == join(literals(parts@), sep@),
{
    let mut r = String::new();
    let ghost v = literals(parts@);
    let mut i: usize = 0;
    assert(r@ =~= seq![]);
    while i < parts.len()
        invariant
            i <= parts@.len(),
            v == literals(parts@),
            r@ == join(v.take(i as int), sep@),
        decreases parts@.len() - i,
    {
        if i > 0 {
            r.append(sep);
        }
        r.append(parts[i]);
        proof {
            let next = v.take(i as int + 1);
            assert(next.drop_last() =~= v.take(i as int));
            assert(next.last() == v[i as int]);
            assert(v[i as int] == parts@[i as int]@);
            if i == 0 {
                assert(r@ =~= next[0]);
            }
        }
        i += 1;
    }
    assert(v.take(i as int) =~= v);
    r
}

fn committed_status(c: &Committed, branch: &str) -> (r: String)
    requires
        clippable(c.oid@, 10),
    ensures
        r@ == committed_text(*c, branch@),
{
    let mut r = "Committed ".to_owned();
    r.append(&clip(&c.oid, 10));
    r.append(" ");
    r.append(&c.subject);
    r.append(" on ");
    r.append(branch);
    r.append(" · local only, not pushed: :git-push");
    let ghost start = r@;
    if c.warnings.len() > 0 {
        r.append(" · note: ");
        r.append(&join_literals(&c.warnings, "; "));
        assert(r@ =~= start + (" · note: "@ + join(literals(c.warnings@), "; "@)));
    } else {
        assert(r@ =~= start + seq![]);
    }
    r
}

/// The drafts after the commit of `document` ended, showing `now` if there is
/// something new to show.
pub open spec fn ended(drafts: Seq<Draft>, document: u64, now: Option<Snapshot>) -> Seq<Draft> {
    match draft_at(drafts, document, 0) {
        Some(i) => match now {
            Some(snapshot) => drafts.update(
                i,
                Draft {
                    committing: false,
                    revision: (drafts[i].revision + 1) as u64,
                    snapshot,
                    ..drafts[i]
                },
            ),
            None => drafts.update(i, Draft { committing: false, ..drafts[i] }),
        },
        None => drafts,
    }
}

fn end_draft(state: &mut State, document: u64, now: Option<Snapshot>) -> (r: bool)
    requires
        old(state).well_formed(),
        forall|i: int|
            0 <= i < old(state).drafts@.len() ==> (#[trigger] old(state).drafts@[i]).revision
                < u64::MAX,
    ensures
        final(state).well_formed(),
        final(state).running == old(state).running,
        final(state).drafts@ == ended(old(state).drafts@, document, now),
        r == (draft_at(old(state).drafts@, document, 0) is Some),
{
    match state.find_draft(document) {
        Some(i) => {
            let revision: u64 = state.drafts[i].revision;
            match now {
                Some(snapshot) => {
                    state.change_draft(i, false, revision + 1, Some(snapshot));
                },
                None => {
                    state.change_draft(i, false, revision, None);
                },
            }
            true
        },
        None => false,
    }
}

/// A commit in `root` for the draft in `document` ended. `sent` is the version of
/// the draft when it was sent, `now` its version now, if its buffer is still open.
pub fn finish_commit(
    state: &mut State,
    document: u64,
    sent: i32,
    now: Option<i32>,
    root: &str,
    branch: &str,
    outcome: Outcome,
) -> (r: Finished)
    requires
        old(state).well_formed(),
        forall|i: int|
            0 <= i < old(state).drafts@.len() ==> (#[trigger] old(state).drafts@[i]).revision
                < u64::MAX,
        outcome matches Outcome::Committed(c) ==> clippable(c.oid@, 10),
    ensures
        final(state).well_formed(),
        final(state).running@ == stopped(old(state).running@, root@, "commit"@),
        ({
            let drafts = old(state).drafts@;
            let open = draft_at(drafts, document, 0);
            match outcome {
                Outcome::Committed(c) => {
                    &&& final(state).drafts@ == (match open {
                        Some(i) => drafts.remove(i),
                        None => drafts,
                    })
                    &&& r.done
                    &&& r.close == (now == Some(sent))
                    &&& r.context is None
                    &&& match r.message {
                        Message::Status(m) => c.warnings@.len() == 0 && m@ == committed_text(
                            c,
                            branch@,
                        ),
                        Message::Error(m) => c.warnings@.len() > 0 && m@ == committed_text(
                            c,
                            branch@,
                        ),
                    }
                },
                Outcome::Changed(p) => {
                    &&& final(state).drafts@ == ended(drafts, document, Some(p.snapshot))
                    &&& !r.done
                    &&& !r.close
                    &&& r.context == (if open is Some {
                        Some(p.context)
                    } else {
                        None
                    })
                    &&& r.message matches Message::Error(m) && m@
                        == "HEAD or the staged changes changed since this draft was prepared; it now shows the current state. Review it and :w again"@
                },
                Outcome::Refused(report, p) => {
                    &&& final(state).drafts@ == ended(
                        drafts,
                        document,
                        match p {
                            Some(p) => Some(p.snapshot),
                            None => None,
                        },
                    )
                    &&& !r.done
                    &&& !r.close
                    &&& r.context == (match p {
                        Some(p) => if open is Some {
                            Some(p.context)
                        } else {
                            None
                        },
                        None => None,
                    })
                    &&& r.message matches Message::Error(m) && m@ == "Commit failed: "@
                        + summarized(report@, 2)
                        + " · the message is kept; details are in the draft"@
                },
                Outcome::Other(e) => {
                    &&& final(state).drafts@ == ended(drafts, document, None)
                    &&& !r.done
                    &&& !r.close
                    &&& r.context is None
                    &&& r.message matches Message::Error(m) && m@ == safe(e@)
                },
            }
        }),
{
    let _task = state.stop(root, "commit");
    match outcome {
        Outcome::Committed(c) => {
            match state.find_draft(document) {
                Some(i) => {
                    state.drop_draft(i);
                },
                None => {},
            }
            let m = committed_status(&c, branch);
            Finished {
                message: if c.warnings.len() == 0 {
                    Message::Status(m)
                } else {
                    Message::Error(m)
                },
                context: None,
                done: true,
                close: closes(sent, now),
            }
        },
        Outcome::Changed(p) => {
            let shown = end_draft(state, document, Some(p.snapshot));
            Finished {
                message: Message::Error(
                    "HEAD or the staged changes changed since this draft was prepared; it now shows the current state. Review it and :w again".to_owned(),
                ),
                context: if shown {
                    Some(p.context)
                } else {
                    None
                },
                done: false,
                close: false,
            }
        },
        Outcome::Refused(report, p) => {
            let mut m = "Commit failed: ".to_owned();
            m.append(&summary(&report, 2));
            m.append(" · the message is kept; details are in the draft");
            let context = match p {
                Some(p) => {
                    if end_draft(state, document, Some(p.snapshot)) {
                        Some(p.context)
                    } else {
                        None
                    }
                },
                None => {
                    let _shown = end_draft(state, document, None);
                    None
                },
            };
            Finished { message: Message::Error(m), context, done: false, close: false }
        },
        Outcome::Other(e) => {
            let _shown = end_draft(state, document, None);
            Finished {
                message: Message::Error(safe_text(&e)),
                context: None,
                done: false,
                close: false,
            }
        },
    }
}

/// The documents whose files are among `paths`.
pub open spec fn documents_of(
    documents: Seq<(u64, Option<String>)>,
    paths: Seq<Seq<char>>,
) -> Seq<u64>
    decreases documents.len(),
{
    if documents.len() == 0 {
        seq![]
    } else {
        let before = documents_of(documents.drop_last(), paths);
        match documents.last().1 {
            Some(path) => if paths.contains(path@) {
                before.push(documents.last().0)
            } else {
                before
            },
            None => before,
        }
    }
}

/// The documents whose change markers are to be compared with the new HEAD: those of
/// committed files. Each document comes with the path of its file in the repository.
pub fn refresh_diff_bases(documents: &Vec<(u64, Option<String>)>, committed: &Vec<String>) -> (r:
    Vec<u64>)
    ensures
        r@ == documents_of(documents@, views(committed@)),
{
    let mut r: Vec<u64> = Vec::new();
    let mut i: usize = 0;
    assert(r@ =~= seq![]);
    while i < documents.len()
        invariant
            i <= documents@.len(),
            r@ == documents_of(documents@.take(i as int), views(committed@)),
        decreases documents@.len() - i,
    {
        assert(documents@.take(i as int + 1).drop_last() =~= documents@.take(i as int));
        match &documents[i].1 {
            Some(path) => {
                if listed(committed, path) {
                    r.push(documents[i].0);
                }
            },
            None => {},
        }
        i += 1;
    }
    assert(documents@.take(i as int) =~= documents@);
    r
}

/// The drafts of `root` are open for another attempt.
pub open spec fn released(drafts: Seq<Draft>, root: Seq<char>) -> Seq<Draft> {
    drafts.map_values(
        |d: Draft|
            if d.root@ == root {
                Draft { committing: false, ..d }
            } else {
                d
            },
    )
}

/// Stop what runs in `root`. Answers the task to be stopped, and what is said.
pub fn cancel(state: &mut State, root: &str, finished: &Vec<u64>) -> (r: (Option<u64>, String))
    requires
        old(state).well_formed(),
    ensures
        final(state).well_formed(),
        ({
            let running = cleared(old(state).running@, root@, finished@);
            match crate::git::running_at(running, root@, 0) {
                Some(i) => {
                    &&& r.0 == Some(running[i].task)
                    &&& r.1@ == "Cancelled the "@ + running[i].what@
                    &&& final(state).running@ == running.remove(i)
                    &&& final(state).drafts@ == released(old(state).drafts@, root@)
                },
                None => {
                    &&& r.0 is None
                    &&& r.1@ == "Nothing to cancel in this repository"@
                    &&& final(state).running@ == running
                    &&& final(state).drafts == old(state).drafts
                },
            }
        }),
{
    match state.running(root, finished) {
        Some(what) => {
            let mut m = "Cancelled the ".to_owned();
            m.append(what);
            let ghost running = state.running@;
            let task = state.stop(root, what);
            let ghost left = state.running@;
            let ghost was = state.drafts@;
            let ghost wanted = released(was, root@);
            let mut i: usize = 0;
            while i < state.drafts.len()
                invariant
                    i <= state.drafts@.len(),
                    state.well_formed(),
                    state.running@ == left,
                    state.drafts@.len() == was.len(),
                    wanted == released(was, root@),
                    forall|j: int| 0 <= j < i ==> #[trigger] state.drafts@[j] == wanted[j],
                    forall|j: int| i <= j < was.len() ==> #[trigger] state.drafts@[j] == was[j],
                decreases state.drafts@.len() - i,
            {
                if same(&state.drafts[i].root, root) {
                    let revision: u64 = state.drafts[i].revision;
                    state.change_draft(i, false, revision, None);
                }
                i += 1;
            }
            assert(state.drafts@ =~= wanted);
            (task, m)
        },
        None => (None, "Nothing to cancel in this repository".to_owned()),
    }
}

/// Committing starts nothing while another operation runs in the repository.
pub proof fn one_write_at_a_time(state: State, root: Seq<char>, what: Running, finished: Seq<u64>)
    requires
        state.well_formed(),
        crate::git::running_at(state.running@, root, 0) matches Some(i) && state.running@[i]
            == what,
        !finished.contains(what.task),
    ensures
        what_runs(cleared(state.running@, root, finished), root) == Some(what.what@),
{
}

/// A commit that meets no problem is made as it was shown: Git commits the index with the
/// message as it is written, and what came of it is read back.
pub proof fn commits_without_problems_are_made(
    draft: Draft,
    current: String,
    now: Prepared,
    out: Output,
    info: String,
    oid: Seq<char>,
    tree: Seq<char>,
    parents: Seq<char>,
    subject: Seq<char>,
)
    requires
        current@ == "refs/heads/"@ + draft.branch@,
        text_view(now.snapshot.head) == text_view(draft.snapshot.head),
        now.snapshot.tree@ == draft.snapshot.tree@,
        now.snapshot.staged@.len() > 0,
        out.success,
        split(info@, Pattern::One('\u{1f}')) == seq![oid, tree, parents, subject],
    ensures
        ({
            let branch = Event::Branch(current);
            let prepared = Event::Prepared(Ok(now));
            let ran = Event::Ran(Ok(out));
            let read = Event::Info(Ok(info));
            &&& course(draft, seq![branch]) matches Some((_, action)) && action
                == ActionView::Prepare(None)
            &&& course(draft, seq![branch, prepared]) matches Some((_, action)) && action
                == ActionView::Commit(
                seq!["commit"@, "--quiet"@, "--cleanup=whitespace"@, "-F"@, "-"@],
            )
            &&& course(draft, seq![branch, prepared, ran]) matches Some((_, action))
                && action is Read
            &&& course(draft, seq![branch, prepared, ran, read]) matches Some((_, action))
                && (action matches ActionView::End(OutcomeView::Committed(id, said, warnings)) && id
                == oid && said == safe(subject) && (warnings.len() == 0 <==> tree
                == draft.snapshot.tree@ && words(parents) == (match draft.snapshot.head {
                Some(head) => seq![head@],
                None => seq![],
            })))
        }),
{
    let branch = Event::Branch(current);
    let prepared = Event::Prepared(Ok(now));
    let ran = Event::Ran(Ok(out));
    let read = Event::Info(Ok(info));
    let a = seq![branch];
    let b = seq![branch, prepared];
    let c = seq![branch, prepared, ran];
    let d = seq![branch, prepared, ran, read];
    assert(b.drop_last() =~= a);
    assert(c.drop_last() =~= b);
    assert(d.drop_last() =~= c);
    assert(course(draft, a) == Some(step(draft, StageView::Branch, branch)));
    assert(course(draft, b) == Some(step(draft, StageView::Snapshot, prepared)));
    assert(course(draft, c) == Some(step(draft, StageView::Commit, ran)));
    assert(course(draft, d) == Some(step(draft, StageView::Read, read)));
}

/// Nothing is committed that the draft did not show: on another branch, with another HEAD
/// or index, or with nothing staged, the attempt ends and says so.
pub proof fn drafts_that_are_out_of_date_are_not_committed(
    draft: Draft,
    current: String,
    now: Prepared,
)
    ensures
        current@ != "refs/heads/"@ + draft.branch@ ==> (course(
            draft,
            seq![Event::Branch(current)],
        ) matches Some((_, action)) && (action matches ActionView::End(OutcomeView::Other(_)))),
        current@ == "refs/heads/"@ + draft.branch@ && (text_view(now.snapshot.head) != text_view(
            draft.snapshot.head,
        ) || now.snapshot.tree@ != draft.snapshot.tree@) ==> (course(
            draft,
            seq![Event::Branch(current), Event::Prepared(Ok(now))],
        ) matches Some((_, action)) && action == ActionView::End(OutcomeView::Changed(now))),
        current@ == "refs/heads/"@ + draft.branch@ && text_view(now.snapshot.head) == text_view(
            draft.snapshot.head,
        ) && now.snapshot.tree@ == draft.snapshot.tree@ && now.snapshot.staged@.len() == 0 ==> (
        course(draft, seq![Event::Branch(current), Event::Prepared(Ok(now))]) matches Some(
            (_, action),
        ) && action == ActionView::End(
            OutcomeView::Other(
                "Nothing is staged; stage changes with :git-status (Alt-s), then :w"@,
            ),
        )),
{
    let a = seq![Event::Branch(current)];
    let b = seq![Event::Branch(current), Event::Prepared(Ok(now))];
    assert(b.drop_last() =~= a);
    assert(course(draft, a) == Some(step(draft, StageView::Branch, Event::Branch(current))));
}

/// A commit that Git refuses is told with Git's report, and the draft shows the state as
/// it is then.
pub proof fn refused_commits_are_told(draft: Draft, out: Output, now: Prepared)
    requires
        !out.success,
    ensures
        step(draft, StageView::Commit, Event::Ran(Ok(out))).1 == ActionView::Prepare(
            Some(message_of(out)),
        ),
        step(
            draft,
            step(draft, StageView::Commit, Event::Ran(Ok(out))).0,
            Event::Prepared(Ok(now)),
        ).1 == ActionView::End(OutcomeView::Refused(message_of(out), Some(now))),
{
}

/// A commit is odd exactly if its parent is not the HEAD that the draft showed, or its
/// tree not the index that it showed.
pub proof fn odd_commits_are_noticed(snapshot: Snapshot, parents: Seq<char>, tree: Seq<char>)
    ensures
        warnings_of(snapshot, parents, tree).contains(MOVED_WARNING@) <==> words(parents) != (
        match snapshot.head {
            Some(head) => seq![head@],
            None => seq![],
        }),
        warnings_of(snapshot, parents, tree).contains(HOOK_WARNING@) <==> tree != snapshot.tree@,
{
    reveal_strlit("its parent is not the reviewed HEAD");
    reveal_strlit("a hook changed the committed content; check it with git show");
    assert(MOVED_WARNING@.len() != HOOK_WARNING@.len());
    let all = warnings_of(snapshot, parents, tree);
    let expected = match snapshot.head {
        Some(head) => seq![head@],
        None => seq![],
    };
    if words(parents) != expected {
        assert(all[0] == MOVED_WARNING@);
    }
    if tree != snapshot.tree@ {
        assert(all[all.len() - 1] == HOOK_WARNING@);
    }
}

/// Unsaved files hold a commit back exactly if it changes them.
pub proof fn only_staged_files_hold_back(
    unsaved: Seq<Seq<char>>,
    staged: Seq<Seq<char>>,
    path: Seq<char>,
)
    ensures
        blocking(unsaved, staged).contains(path) <==> unsaved.contains(path) && staged.contains(
            path,
        ),
    decreases unsaved.len(),
{
    if unsaved.len() > 0 {
        let rest = unsaved.drop_last();
        let before = blocking(rest, staged);
        let all = blocking(unsaved, staged);
        only_staged_files_hold_back(rest, staged, path);
        assert(unsaved[unsaved.len() - 1] == unsaved.last());
        if rest.contains(path) {
            let k = rest.index_of(path);
            assert(unsaved[k] == path);
        }
        if unsaved.contains(path) && path != unsaved.last() {
            let k = unsaved.index_of(path);
            assert(rest[k] == path);
        }
        if before.contains(path) {
            let k = before.index_of(path);
            assert(all[k] == path);
        }
        if all.len() > before.len() {
            assert(all[before.len() as int] == unsaved.last());
            if all.contains(path) && !before.contains(path) {
                let k = all.index_of(path);
                if k < before.len() {
                    assert(before[k] == path);
                }
            }
        }
    }
}

/// After the index changed, the drafts of the repository are prepared again, but for
/// those that a commit runs for.
pub proof fn idle_drafts_are_prepared_again(drafts: Seq<Draft>, root: Seq<char>, draft: Draft)
    ensures
        idle(drafts, root).contains(draft) <==> drafts.contains(draft) && draft.root@ == root
            && !draft.committing,
    decreases drafts.len(),
{
    if drafts.len() > 0 {
        let rest = drafts.drop_last();
        let before = idle(rest, root);
        let all = idle(drafts, root);
        idle_drafts_are_prepared_again(rest, root, draft);
        assert(drafts[drafts.len() - 1] == drafts.last());
        if rest.contains(draft) {
            let k = rest.index_of(draft);
            assert(drafts[k] == draft);
        }
        if drafts.contains(draft) && draft != drafts.last() {
            let k = drafts.index_of(draft);
            assert(rest[k] == draft);
        }
        if before.contains(draft) {
            let k = before.index_of(draft);
            assert(all[k] == draft);
        }
        if all.len() > before.len() {
            assert(all[before.len() as int] == drafts.last());
            if all.contains(draft) && !before.contains(draft) {
                let k = all.index_of(draft);
                if k < before.len() {
                    assert(before[k] == draft);
                }
            }
        }
    }
}

/// The documents of committed files, and no others, are compared with the new HEAD.
pub proof fn documents_of_committed_files_are_compared_anew(
    documents: Seq<(u64, Option<String>)>,
    paths: Seq<Seq<char>>,
    id: u64,
)
    ensures
        documents_of(documents, paths).contains(id) <==> exists|i: int|
            0 <= i < documents.len() && (#[trigger] documents[i]).0 == id && (
            documents[i].1 matches Some(path) && paths.contains(path@)),
    decreases documents.len(),
{
    if documents.len() > 0 {
        let rest = documents.drop_last();
        let before = documents_of(rest, paths);
        let all = documents_of(documents, paths);
        documents_of_committed_files_are_compared_anew(rest, paths, id);
        assert(documents[documents.len() - 1] == documents.last());
        if before.contains(id) {
            let k = before.index_of(id);
            assert(all[k] == id);
            let i = choose|i: int|
                0 <= i < rest.len() && (#[trigger] rest[i]).0 == id && (rest[i].1 matches Some(path)
                    && paths.contains(path@));
            assert(documents[i] == rest[i]);
        }
        if all.len() > before.len() {
            assert(all[before.len() as int] == documents.last().0);
            if all.contains(id) && !before.contains(id) {
                let k = all.index_of(id);
                if k < before.len() {
                    assert(before[k] == id);
                }
            }
        }
        assert forall|i: int| 0 <= i < documents.len() - 1 implies (#[trigger] documents[i])
            == rest[i] by {}
    }
}

/// `part` stands in `whole`.
pub open spec fn shown_in(whole: Seq<char>, part: Seq<char>) -> bool {
    exists|i: int| crate::text::occurs(whole, part, i)
}

proof fn lemma_shown(a: Seq<char>, part: Seq<char>, b: Seq<char>)
    ensures
        shown_in(a + part + b, part),
{
    let whole = a + part + b;
    assert(whole.subrange(a.len() as int, (a.len() + part.len()) as int) =~= part);
    assert(crate::text::occurs(whole, part, a.len() as int));
}

proof fn lemma_still_shown(a: Seq<char>, part: Seq<char>, b: Seq<char>, row: Seq<char>)
    requires
        shown_in(part, row),
    ensures
        shown_in(a + part + b, row),
{
    let i = choose|i: int| crate::text::occurs(part, row, i);
    let whole = a + part + b;
    assert(whole.subrange(a.len() + i, a.len() + i + row.len()) =~= part.subrange(
        i,
        i + row.len(),
    ));
    assert(crate::text::occurs(whole, row, a.len() + i));
}

proof fn lemma_staged_row(staged: Seq<(char, String)>, k: int)
    requires
        0 <= k < staged.len(),
    ensures
        shown_in(
            staged_rows(staged),
            "#\t"@ + padded(label_of(staged[k].0), 12) + staged[k].1@ + "\n"@,
        ),
    decreases staged.len(),
{
    let rest = staged.drop_last();
    let row = "#\t"@ + padded(label_of(staged.last().0), 12) + staged.last().1@ + "\n"@;
    assert(staged_rows(staged) =~= staged_rows(rest) + row);
    if k < rest.len() {
        lemma_staged_row(rest, k);
        assert(rest[k] == staged[k]);
        lemma_still_shown(
            seq![],
            staged_rows(rest),
            row,
            "#\t"@ + padded(label_of(staged[k].0), 12) + staged[k].1@ + "\n"@,
        );
        assert(seq![] + staged_rows(rest) + row =~= staged_rows(staged));
    } else {
        lemma_shown(staged_rows(rest), row, seq![]);
        assert(staged_rows(rest) + row + seq![] =~= staged_rows(staged));
    }
}

proof fn lemma_part_row(changes: Seq<ChangeView>, part: Part, k: int)
    requires
        0 <= k < changes.len(),
        changes[k].part == part,
    ensures
        shown_in(part_rows(changes, part), "#\t"@ + changes[k].path + "\n"@),
    decreases changes.len(),
{
    let rest = changes.drop_last();
    let row = "#\t"@ + changes.last().path + "\n"@;
    if changes.last().part == part {
        assert(part_rows(changes, part) =~= part_rows(rest, part) + row);
    }
    if k < rest.len() {
        lemma_part_row(rest, part, k);
        assert(rest[k] == changes[k]);
        if changes.last().part == part {
            lemma_still_shown(
                seq![],
                part_rows(rest, part),
                row,
                "#\t"@ + changes[k].path + "\n"@,
            );
            assert(seq![] + part_rows(rest, part) + row =~= part_rows(changes, part));
        }
    } else {
        lemma_shown(part_rows(rest, part), row, seq![]);
        assert(part_rows(rest, part) + row + seq![] =~= part_rows(changes, part));
    }
}

/// A draft shows all that will be committed: a row for every staged file, with what
/// happened to it.
#[verifier::spinoff_prover]
pub proof fn drafts_show_what_will_be_committed(
    branch: BranchView,
    subject: Option<&str>,
    discussion: Option<&str>,
    staged: Seq<(char, String)>,
    changes: Seq<ChangeView>,
    unsaved: Seq<Seq<char>>,
    failure: Option<&str>,
    diff: Seq<char>,
    k: int,
)
    requires
        0 <= k < staged.len(),
    ensures
        shown_in(
            context_text(branch, subject, discussion, staged, changes, unsaved, failure, diff),
            "#\t"@ + padded(label_of(staged[k].0), 12) + staged[k].1@ + "\n"@,
        ),
{
    let row = "#\t"@ + padded(label_of(staged[k].0), 12) + staged[k].1@ + "\n"@;
    let s = staged_part(staged);
    lemma_staged_row(staged, k);
    lemma_still_shown("# Changes to be committed:\n"@, staged_rows(staged), seq![], row);
    assert("# Changes to be committed:\n"@ + staged_rows(staged) + seq![] =~= s);
    let a = heading(branch) + subject_part(subject) + discussion_part(discussion) + "#\n"@;
    lemma_shown_on(
        a,
        s,
        section("Changes not staged for commit:"@, changes, Part::Unstaged),
        section("Unmerged paths:"@, changes, Part::Conflict),
        section("Untracked files:"@, changes, Part::Untracked),
        unsaved_part(unsaved, paths(staged)),
        failure_part(failure),
        "#\n"@,
        diff_part(diff),
        row,
    );
}

/// A row that is shown early on is still shown when more follows.
proof fn lemma_shown_on(
    a: Seq<char>,
    s: Seq<char>,
    b: Seq<char>,
    c: Seq<char>,
    d: Seq<char>,
    e: Seq<char>,
    f: Seq<char>,
    g: Seq<char>,
    h: Seq<char>,
    row: Seq<char>,
)
    requires
        shown_in(s, row) || shown_in(b, row) || shown_in(c, row) || shown_in(d, row),
    ensures
        shown_in(a + s + b + c + d + e + f + g + h, row),
{
    let none = Seq::<char>::empty();
    if shown_in(s, row) {
        lemma_still_shown(a, s, b, row);
    } else if shown_in(b, row) {
        lemma_still_shown(a + s, b, none, row);
        assert((a + s) + b + none =~= a + s + b);
    }
    if shown_in(a + s + b, row) {
        lemma_followed(a + s + b, c, row);
    } else if shown_in(c, row) {
        lemma_still_shown(a + s + b, c, none, row);
        assert((a + s + b) + c + none =~= a + s + b + c);
    }
    if shown_in(a + s + b + c, row) {
        lemma_followed(a + s + b + c, d, row);
    } else {
        lemma_still_shown(a + s + b + c, d, none, row);
        assert((a + s + b + c) + d + none =~= a + s + b + c + d);
    }
    lemma_followed(a + s + b + c + d, e, row);
    lemma_followed(a + s + b + c + d + e, f, row);
    lemma_followed(a + s + b + c + d + e + f, g, row);
    lemma_followed(a + s + b + c + d + e + f + g, h, row);
}

proof fn lemma_followed(a: Seq<char>, b: Seq<char>, row: Seq<char>)
    requires
        shown_in(a, row),
    ensures
        shown_in(a + b, row),
{
    lemma_still_shown(seq![], a, b, row);
    assert(seq![] + a + b =~= a + b);
}

proof fn lemma_section(title: Seq<char>, changes: Seq<ChangeView>, part: Part, k: int)
    requires
        0 <= k < changes.len(),
        changes[k].part == part,
    ensures
        shown_in(section(title, changes, part), "#\t"@ + changes[k].path + "\n"@),
{
    reveal_strlit("\n");
    let row = "#\t"@ + changes[k].path + "\n"@;
    let rows = part_rows(changes, part);
    lemma_part_row(changes, part, k);
    let i = choose|i: int| crate::text::occurs(rows, row, i);
    assert(rows.len() > 0);
    let head = "#\n# "@ + title + "\n"@;
    lemma_still_shown(head, rows, seq![], row);
    assert(head + rows + seq![] =~= section(title, changes, part));
}

/// A draft shows all that will stay behind: a row for every file with changes that are
/// not staged, with conflicts, or that Git does not know.
#[verifier::spinoff_prover]
pub proof fn drafts_show_what_stays_behind(
    branch: BranchView,
    subject: Option<&str>,
    discussion: Option<&str>,
    staged: Seq<(char, String)>,
    changes: Seq<ChangeView>,
    unsaved: Seq<Seq<char>>,
    failure: Option<&str>,
    diff: Seq<char>,
    k: int,
)
    requires
        0 <= k < changes.len(),
        changes[k].part == Part::Unstaged || changes[k].part == Part::Conflict || changes[k].part
            == Part::Untracked,
    ensures
        shown_in(
            context_text(branch, subject, discussion, staged, changes, unsaved, failure, diff),
            "#\t"@ + changes[k].path + "\n"@,
        ),
{
    let row = "#\t"@ + changes[k].path + "\n"@;
    if changes[k].part == Part::Unstaged {
        lemma_section("Changes not staged for commit:"@, changes, Part::Unstaged, k);
    } else if changes[k].part == Part::Conflict {
        lemma_section("Unmerged paths:"@, changes, Part::Conflict, k);
    } else {
        lemma_section("Untracked files:"@, changes, Part::Untracked, k);
    }
    let a = heading(branch) + subject_part(subject) + discussion_part(discussion) + "#\n"@;
    lemma_shown_on(
        a,
        staged_part(staged),
        section("Changes not staged for commit:"@, changes, Part::Unstaged),
        section("Unmerged paths:"@, changes, Part::Conflict),
        section("Untracked files:"@, changes, Part::Untracked),
        unsaved_part(unsaved, paths(staged)),
        failure_part(failure),
        "#\n"@,
        diff_part(diff),
        row,
    );
}

/// The letter of a staged file tells what happened to it.
pub proof fn labels_tell_what_happened(code: char)
    ensures
        label_of('A') == "new file:"@,
        label_of('D') == "deleted:"@,
        label_of('T') == "typechange:"@,
        code != 'A' && code != 'D' && code != 'T' ==> label_of(code) == "modified:"@,
{
}

/// When an operation on a repository is over, all drafts of it can be committed again;
/// those of other repositories stay as they are, and so does all else.
pub proof fn drafts_of_the_repository_are_released(drafts: Seq<Draft>, root: Seq<char>, i: int)
    requires
        0 <= i < drafts.len(),
    ensures
        released(drafts, root).len() == drafts.len(),
        drafts[i].root@ == root ==> !released(drafts, root)[i].committing,
        drafts[i].root@ != root ==> released(drafts, root)[i] == drafts[i],
        released(drafts, root)[i].document == drafts[i].document,
        released(drafts, root)[i].root == drafts[i].root,
        released(drafts, root)[i].revision == drafts[i].revision,
{
}

/// A commit that did not come about leaves its draft open for another try, with what
/// would be committed now where that is known; all other drafts stay as they are.
pub proof fn failed_commits_leave_their_draft_open(
    drafts: Seq<Draft>,
    document: u64,
    now: Option<Snapshot>,
    j: int,
)
    requires
        0 <= j < drafts.len(),
    ensures
        ended(drafts, document, now).len() == drafts.len(),
        ended(drafts, document, now)[j].document == drafts[j].document,
        drafts[j].document != document ==> ended(drafts, document, now)[j] == drafts[j],
        (drafts[j].document == document && forall|k: int|
            0 <= k < j ==> (#[trigger] drafts[k]).document != document) ==> !ended(
            drafts,
            document,
            now,
        )[j].committing && (now matches Some(s) ==> ended(drafts, document, now)[j].snapshot == s),
{
    lemma_draft_found(drafts, document, 0);
}

proof fn lemma_draft_found(drafts: Seq<Draft>, document: u64, i: int)
    requires
        0 <= i,
    ensures
        match draft_at(drafts, document, i) {
            Some(k) => i <= k < drafts.len() && drafts[k].document == document && forall|j: int|
                i <= j < k ==> (#[trigger] drafts[j]).document != document,
            None => forall|j: int|
                i <= j < drafts.len() ==> (#[trigger] drafts[j]).document != document,
        },
    decreases drafts.len() - i,
{
    if i < drafts.len() && drafts[i].document != document {
        lemma_draft_found(drafts, document, i + 1);
    }
}

/// Whatever goes wrong on the way to a commit ends it, and is told as it is.
pub proof fn problems_end_the_commit(draft: Draft, e: String)
    ensures
        step(draft, StageView::Snapshot, Event::Prepared(Err(e))) == (
            StageView::Done,
            ActionView::End(OutcomeView::Other(e@)),
        ),
        step(draft, StageView::Commit, Event::Ran(Err(e))) == (
            StageView::Done,
            ActionView::End(OutcomeView::Other(e@)),
        ),
        step(draft, StageView::Read, Event::Info(Err(e))) == (
            StageView::Done,
            ActionView::End(OutcomeView::Other(e@)),
        ),
{
}

} // verus!
