use devflow::commit::{
    base_tree, busy, cancel, check_branch, check_snapshot, commit, compare_arguments, draft_context,
    finish_commit,
    next_step, open_draft, read_commit, refresh_diff_bases, refresh_drafts, accept_update, replace_context, send, snapshot,
    staged_label, Action, Committing, Event, Outcome, Outdated, Prepared, Ready, Sending, Stage,
};
use devflow::drafts::{commit_message, COMMIT_SEPARATOR};
use devflow::git::{
    arguments, checked_out, current_repo, git_output, git_text, head_id, summary, Repo, Snapshot,
    State,
};
use devflow::process::{
    cannot_run, check_size, collect, environment, output_text, timed_out, Output, Unusable, LIMIT,
};
use devflow::push::{
    check_focus, check_head, configured_upstream, describe_commits, destinations, finish, follow, followed_text,
    head_remote, incoming, next_push_step, outgoing, plan_head, plan_status, push, push_arguments,
    push_destination, pushed, read_count, read_remotes, rejection, show as show_plan, start, still_focused,
    upstream_arguments, Destination, Following, Plan, PushAction, PushEvent, PushStage, Reply,
};
use devflow::recent::{load, read_lines, record_open, serialize, MAX_RECENT_FILES};
use devflow::session::Message;
use devflow::status::{
    parse, parse_name_status, split_diff, split_patch, Branch, Change, Part, Status,
};
use devflow::vcs::{
    base_branch, blame_line, branch_changes as list_branch, file_entry,
    for_each_branch_changed_file, for_each_changed_file, get_current_head_name, head_label,
    working_changes, BlameEntry, EntryKind, FileChange, Item, MergeBase, TreeChange,
};
use devflow::worktree::{
    branch_line, cannot_open, index_action, initial_row, load as load_rows, open_row,
    show as show_rows, status_line, unsaved_buffers, IndexAction, IndexStep, Opening, Preview,
    Unsaved,
};
use std::cell::RefCell;

// Status

#[test]
fn porcelain_v2_records() {
    let out = [
        "# branch.oid 0123456789abcdef0123456789abcdef01234567",
        "# branch.head topic",
        "# branch.upstream origin/topic",
        "# branch.ab +2 -1",
        "1 MM N... 100644 100644 100644 aaa bbb src/partly staged.rs",
        "1 .D N... 100644 100644 000000 aaa aaa gone.rs",
        "1 A. N... 000000 100644 100644 000 ccc new.rs",
        "2 R. N... 100644 100644 100644 aaa aaa R100 moved.rs",
        "old name.rs",
        "u UU N... 100644 100644 100644 100644 a b c conflict.rs",
        "? untracked dir/",
        "! ignored.rs",
    ]
    .join("\0");
    let status = parse(out.as_bytes()).unwrap();
    let b = &status.branch;
    assert_eq!(
        (
            b.name.as_deref(),
            b.oid.as_deref(),
            b.upstream.as_deref(),
            b.ahead,
            b.behind
        ),
        (
            Some("topic"),
            Some("0123456789abcdef0123456789abcdef01234567"),
            Some("origin/topic"),
            2,
            1
        )
    );
    let rows: Vec<_> = status
        .changes
        .iter()
        .map(|c| format!("{} | {}", c.describe(), c.display_path()))
        .collect();
    assert_eq!(
        rows,
        [
            "conflict | conflict.rs",
            "staged renamed | old name.rs -> moved.rs",
            "staged new file | new.rs",
            "staged modified (partly staged) | src/partly staged.rs",
            "unstaged deleted | gone.rs",
            "unstaged modified (partly staged) | src/partly staged.rs",
            "untracked | untracked dir/",
        ]
    );
    let staged = status.changes.iter().filter(|c| c.part == Part::Staged);
    assert_eq!(staged.count(), 3);

    let initial = parse(b"# branch.oid (initial)\0# branch.head (detached)\0").unwrap();
    let b = initial.branch;
    assert!(b.name.is_none() && b.oid.is_none() && b.upstream.is_none());
    assert_eq!((b.ahead, b.behind), (0, 0));
    assert!(parse(b"1 M\0").is_err());
    assert!(parse(b"? \xff\0").is_err());
}

#[test]
fn diff_sections_by_path() {
    let patch = "diff --git a/a b/a\nindex 1..2\n--- a/a\n+++ b/a\n@@ -1 +1 @@\n-x\n+y\n\
diff --git a/with space b/with space\nnew file mode 100644\n\
diff --git a/t b/t\ndeleted file mode 100644\ndiff --git a/t b/t\nnew file mode 120000\n\
diff --git \"a/q\\tx\" \"b/q\\tx\"\n+quoted\n";
    let sections = split_diff(patch);
    assert_eq!(split_patch(patch.as_bytes()).len(), sections.len());
    let of = |path: &str| {
        let found: Vec<_> = sections.iter().filter(|s| s.path == path).collect();
        assert_eq!(found.len(), 1);
        found[0].text.clone()
    };
    assert_eq!(
        of("a"),
        "diff --git a/a b/a\nindex 1..2\n--- a/a\n+++ b/a\n@@ -1 +1 @@\n-x\n+y\n"
    );
    assert_eq!(
        of("with space"),
        "diff --git a/with space b/with space\nnew file mode 100644\n"
    );
    // A type change is two sections for one path.
    assert_eq!(of("t").matches("diff --git").count(), 2);
    assert_eq!(sections.len(), 3);
    assert_eq!(
        parse_name_status(b"M\0a.rs\0A\0dir/b c.rs\0").unwrap(),
        vec![('M', "a.rs".into()), ('A', "dir/b c.rs".into())]
    );
    assert!(parse_name_status(b"M\0").is_err());
}

fn change(path: &str, part: Part, code: char, partial: bool) -> Change {
    Change {
        path: path.into(),
        orig: None,
        part,
        code,
        partial,
    }
}

fn on(branch: Option<&str>, upstream: Option<&str>) -> Branch {
    Branch {
        name: branch.map(str::to_owned),
        oid: None,
        upstream: upstream.map(str::to_owned),
        ahead: 1,
        behind: 2,
    }
}

#[test]
fn rows_put_unsaved_buffers_first() {
    let status = Status {
        branch: on(Some("topic"), Some("origin/topic")),
        changes: vec![
            change("a", Part::Staged, 'M', true),
            change("a", Part::Unstaged, 'M', true),
            change("new", Part::Untracked, '?', false),
        ],
    };
    let unsaved = unsaved_buffers(vec![
        Unsaved {
            path: "z".into(),
            document: 2,
        },
        Unsaved {
            path: "a".into(),
            document: 9,
        },
    ]);
    let staged = split_diff("diff --git a/a b/a\n+staged\n");
    let unstaged = split_diff("diff --git a/a b/a\n+unstaged\n");
    let rows = load_rows(&status, &unsaved, &staged, &unstaged);
    let shown: Vec<_> = rows
        .iter()
        .map(|r| {
            let preview = match &r.preview {
                Preview::Diff(d) => format!("diff {}", d.lines().last().unwrap()),
                Preview::File => "file".into(),
                Preview::Document(d) => format!("document {d}"),
                Preview::Nothing => "nothing".into(),
            };
            format!("{} {} {:?}", r.change.path, preview, r.document)
        })
        .collect();
    assert_eq!(
        shown,
        [
            "a document 9 Some(9)",
            "z document 2 Some(2)",
            "a diff +staged None",
            "a diff +unstaged None",
            "new file None",
        ]
    );
    assert_eq!(initial_row(&rows, Some(("a", Part::Unstaged))), 3);
    assert_eq!(branch_line(&status.branch), "topic → origin/topic ↑1 ↓2");
    assert_eq!(branch_line(&on(None, None)), "detached HEAD (no upstream)");
    assert!(status_line(&status.branch, &rows)
        .contains(" · 1 staged, 1 unstaged, 1 untracked, 2 unsaved buffer(s) · "));
    assert!(status_line(&status.branch, &vec![]).ends_with("nothing to commit, working tree clean"));
    match open_row("/r", &rows[0], true, false) {
        Opening::Switch(document) => assert_eq!(document, 9),
        other => panic!("{other:?}"),
    }
    assert!(matches!(open_row("/r", &rows[0], false, true), Opening::Nothing));
    match open_row("/r", &rows[2], false, true) {
        Opening::File(path) => assert_eq!(path, "/r/a"),
        other => panic!("{other:?}"),
    }
    match open_row("/r", &rows[4], false, false) {
        Opening::Refuse(e) => assert_eq!(e, "new is not a file in the working tree"),
        other => panic!("{other:?}"),
    }
    assert_eq!(cannot_open(&rows[4], "denied"), "Cannot open new: denied");
    let here = repo(Some("topic"));
    let shown = show_rows(
        Some(&here),
        "/r",
        Ok((&status.branch, &rows)),
        Some(("a", Part::Unstaged)),
    );
    assert_eq!(shown, Ok((status_line(&status.branch, &rows), Some(3))));
    let none = vec![];
    let clean = show_rows(Some(&here), "/r", Ok((&status.branch, &none)), None).unwrap();
    assert_eq!(clean, (status_line(&status.branch, &none), None));
    assert_eq!(
        show_rows(Some(&here), "/other", Ok((&status.branch, &rows)), None).unwrap_err(),
        "The focused repository changed; run :git-status again"
    );
    assert_eq!(
        show_rows(None, "/r", Err("no\u{7}"), None).unwrap_err(),
        "Git status: no"
    );
}

#[test]
fn staging_is_careful() {
    let told = |change: &Change, action: IndexAction, initial: bool, running: Option<&str>| {
        match index_action(change, action, initial, running) {
            IndexStep::Refuse(e) => format!("refuse {e}"),
            IndexStep::Already(e) => format!("already {e}"),
            IndexStep::Run(args, done) => format!("{} | {done}", args.join(" ")),
        }
    };
    let modified = change("-x", Part::Unstaged, 'M', false);
    assert_eq!(
        told(&modified, IndexAction::Stage, false, None),
        "add -- -x | Staged -x"
    );
    assert_eq!(
        told(&modified, IndexAction::Unstage, false, None),
        "refuse -x has no staged changes"
    );
    assert_eq!(
        told(&modified, IndexAction::Stage, false, Some("commit")),
        "refuse A commit is running in this repository; stage after it finishes"
    );
    assert_eq!(
        told(&modified, IndexAction::Stage, false, Some("push")),
        "add -- -x | Staged -x"
    );
    let partly = change("p", Part::Staged, 'M', true);
    assert!(told(&partly, IndexAction::Stage, false, None).starts_with("refuse p is partly staged"));
    assert_eq!(
        told(&partly, IndexAction::StageWhole, false, None),
        "add -- p | Staged all of p"
    );
    let mut renamed = change("new", Part::Staged, 'R', false);
    renamed.orig = Some("old".into());
    assert_eq!(
        told(&renamed, IndexAction::Unstage, false, None),
        "restore --staged -- old new | Unstaged new; its changes remain in the working tree"
    );
    assert_eq!(
        told(&renamed, IndexAction::Unstage, true, None),
        "rm --cached --quiet -- old new | Unstaged new; its changes remain in the working tree"
    );
    assert_eq!(
        told(&renamed, IndexAction::Stage, false, None),
        "already new is already staged"
    );
    let conflict = change("c", Part::Conflict, 'U', false);
    assert!(told(&conflict, IndexAction::Stage, false, None).contains("merge conflicts"));
    let unsaved = change("u", Part::Unsaved, 'M', false);
    assert!(told(&unsaved, IndexAction::Stage, false, None).contains("unsaved edits"));
    let untracked = change("n", Part::Untracked, '?', false);
    assert_eq!(
        told(&untracked, IndexAction::Unstage, false, None),
        "refuse n is untracked, not staged"
    );
}

// Commit drafts

#[test]
fn message_is_the_text_above_the_scissors_line() {
    let context = format!("{COMMIT_SEPARATOR}\n# context\ndiff --git a/x b/x\n");
    assert_eq!(
        commit_message(&format!("\nfix: x  \n\nbody #1\n\n{context}")).unwrap(),
        "fix: x\n\nbody #1"
    );
    assert_eq!(
        commit_message(&format!("  \n\n{context}")).unwrap_err(),
        "Commit message is empty; write it above the scissors line"
    );
    assert!(commit_message("fix: x\n# context\n")
        .unwrap_err()
        .contains("scissors line was removed"));
}

#[test]
fn finished_operations_do_not_block() {
    let mut state = State::new();
    state.start("/r", "commit", 1);
    assert_eq!(state.running("/r", &vec![1]), None);
    state.start("/r", "push", 2);
    assert_eq!(state.running("/r", &vec![1]), Some("push"));
    assert_eq!(state.running("/other", &vec![]), None);
}

fn context() -> String {
    draft_context(
        &on(Some("topic"), None),
        Some("abc123 subject\u{1b}"),
        Some("a.rs:3"),
        &vec![('A', "new.rs".into()), ('M', "a.rs".into())],
        &vec![
            change("b.rs", Part::Unstaged, 'M', false),
            change("c.rs", Part::Untracked, '?', false),
        ],
        &vec!["a.rs".into(), "d.rs".into()],
        Some("hook failed\nline"),
        b"diff --git a/a.rs b/a.rs\n",
    )
}

#[test]
fn drafts_show_what_will_be_committed() {
    let context = context();
    assert!(context.starts_with(COMMIT_SEPARATOR));
    assert!(!context.contains('\u{1b}'));
    let rest = context.split_once("# On branch ").unwrap().1;
    let hidden = devflow::review::safe_text("abc123 subject\u{1b}");
    assert_eq!(
        rest,
        format!(
            "topic (no upstream)\n# HEAD {hidden}\n\
             # Review discussion a.rs:3: after :git-push, :review-fixed replies with this commit\n\
             #\n# Changes to be committed:\n#\tnew file:   new.rs\n#\tmodified:   a.rs\n\
             #\n# Changes not staged for commit:\n#\tb.rs\n#\n# Untracked files:\n#\tc.rs\n\
             #\n# Unsaved buffers (Git sees only their saved version):\n#\ta.rs  (staged)\n#\td.rs\n\
             #\n# The last commit attempt failed:\n#   hook failed\n#   line\n#\n\
             diff --git a/a.rs b/a.rs\n"
        )
    );
    assert!(commit_message(&format!("\n\n{context}")).is_err());
    let big = vec![b'x'; 600_000];
    let cut = draft_context(
        &on(None, None),
        None,
        None,
        &vec![],
        &vec![],
        &vec![],
        None,
        &big,
    );
    assert!(cut.contains("# No commits yet\n#\n# Nothing is staged yet: "));
    assert!(cut.ends_with("x\n# … diff truncated\n"));
    assert_eq!(base_tree(Some("abc"), "e"), "abc^{tree}");
    assert_eq!(
        compare_arguments(true, "b", "t"),
        ["diff-tree", "-r", "-z", "--no-renames", "--name-status", "b", "t"]
    );
    assert_eq!(compare_arguments(false, "b", "t")[7..], ["b", "t"]);
    assert_eq!(base_tree(None, "e\n"), "e");
    assert_eq!(staged_label('T'), "typechange:");
}

#[test]
fn updates_keep_the_message() {
    let old = format!("fix: x\n\n{COMMIT_SEPARATOR}\n# old\n");
    let new = format!("{COMMIT_SEPARATOR}\n# new\n");
    let update = replace_context(&old, &new, true);
    let mut text: String = old.chars().take(update.start).collect();
    text.push_str(&update.text);
    assert_eq!(text, format!("fix: x\n\n{COMMIT_SEPARATOR}\n# new\n"));
    assert_eq!(commit_message(&text).unwrap(), "fix: x");
    assert!(!update.unmodified);
    // A template without a message stays one.
    let template = format!("\n\n{COMMIT_SEPARATOR}\n# old\n");
    assert!(replace_context(&template, &new, false).unmodified);
    // A removed separator is put back below the text.
    let update = replace_context("fix", &new, true);
    assert_eq!((update.start, update.text), (3, format!("\n{new}")));
}

fn prepared(tree: &str, staged: &[&str]) -> Prepared {
    Prepared {
        snapshot: Snapshot {
            head: Some("h1".into()),
            tree: tree.into(),
            staged: staged.iter().map(|s| (*s).to_owned()).collect(),
        },
        context: format!("{COMMIT_SEPARATOR}\n# {tree}\n"),
    }
}

fn repo(branch: Option<&str>) -> Repo {
    Repo {
        root: "/r".into(),
        branch: branch.map(str::to_owned),
    }
}

#[test]
fn commits_go_from_draft_to_end() {
    let mut state = State::new();
    assert!(matches!(
        commit(&state, &repo(None)),
        Committing::Refuse("Detached HEAD; check out a branch to commit")
    ));
    match commit(&state, &repo(Some("main"))) {
        Committing::Prepare(branch, said) => {
            assert_eq!((branch.as_str(), said), ("main", "Preparing commit draft…"))
        }
        other => panic!("{other:?}"),
    }
    let opened = match open_draft(&mut state, 7, "/r", "main", None, prepared("t1", &["a"])) {
        Ready::New(opened) => opened,
        other => panic!("{other:?}"),
    };
    // A second one for the repository is not opened.
    match open_draft(&mut state, 8, "/r", "main", None, prepared("t2", &["a"])) {
        Ready::Switch(document) => assert_eq!(document, 7),
        other => panic!("{other:?}"),
    }
    assert_eq!((state.drafts.len(), state.drafts[0].snapshot.tree.as_str()), (1, "t1"));
    assert!(opened.text.ends_with("# t1\n"));
    assert!(matches!(
        commit(&state, &repo(Some("main"))),
        Committing::Switch(7, _)
    ));
    assert!(state.is_draft(7) && !state.is_draft(8));

    // Another state of the index is shown.
    let asked = refresh_drafts(&state, "/r");
    assert_eq!(asked.len(), 1);
    let now = prepared("t2", &["a"]).snapshot;
    assert!(accept_update(&mut state, 7, asked[0].revision, now));
    let late = prepared("t3", &["a"]).snapshot;
    assert!(!accept_update(&mut state, 7, asked[0].revision, late));

    let text = format!("fix: x\n{COMMIT_SEPARATOR}\n");
    match send(&mut state, 8, &text, &vec![], false, &vec![]) {
        Sending::Refuse(e) => assert_eq!(e, "Not a commit draft; open one with :git-commit"),
        other => panic!("{other:?}"),
    }
    match send(&mut state, 7, &text, &vec!["a".into()], false, &vec![]) {
        Sending::Refuse(e) => assert!(e.starts_with("Unsaved edits in a: ")),
        other => panic!("{other:?}"),
    }
    match send(&mut state, 7, COMMIT_SEPARATOR, &vec![], false, &vec![]) {
        Sending::Refuse(e) => assert!(e.contains("message is empty")),
        other => panic!("{other:?}"),
    }
    state.start("/r", "push", 4);
    match send(&mut state, 7, &text, &vec![], false, &vec![]) {
        Sending::Refuse(e) => assert_eq!(e, busy("push")),
        other => panic!("{other:?}"),
    }
    match send(&mut state, 7, &text, &vec!["a".into()], true, &vec![4]) {
        Sending::Commit(message, status) => {
            assert_eq!(message, "fix: x");
            assert_eq!(status, "Committing on main…");
        }
        other => panic!("{other:?}"),
    }
    state.start("/r", "commit", 5);
    assert!(matches!(
        send(&mut state, 7, &text, &vec![], false, &vec![]),
        Sending::Already("The commit is already running")
    ));

    let draft = &state.drafts[state.draft_in("/r").unwrap()];
    assert!(check_branch(draft, "refs/heads/main").is_ok());
    assert!(check_branch(draft, "refs/heads/x")
        .unwrap_err()
        .starts_with("HEAD is no longer on main;"));
    assert!(check_snapshot(draft, &prepared("t2", &["a"]).snapshot).is_ok());
    assert!(matches!(
        check_snapshot(draft, &prepared("t9", &["a"]).snapshot),
        Err(Outdated::Changed)
    ));
    assert!(matches!(
        check_snapshot(draft, &prepared("t2", &[]).snapshot),
        Err(Outdated::Nothing(_))
    ));
    let reviewed = prepared("t2", &["a"]).snapshot;
    assert!(read_commit("a\u{1f}b", &reviewed).is_err());
    let odd = read_commit("o\u{1f}other\u{1f}p q\u{1f}s", &reviewed).unwrap();
    assert_eq!(odd.warnings.len(), 2);
    let made =
        read_commit("0123456789abcdef\u{1f}t2\u{1f}h1\u{1f}fix: x", &reviewed).unwrap();
    assert!(made.warnings.is_empty());
    let finished = finish_commit(&mut state, 7, 3, Some(3), "/r", "main", Outcome::Committed(made));
    match finished.message {
        Message::Status(m) => assert_eq!(
            m,
            "Committed 0123456789 fix: x on main · local only, not pushed: :git-push"
        ),
        other => panic!("{other:?}"),
    }
    assert!(finished.done && finished.close);
    assert!(state.drafts.is_empty() && state.running("/r", &vec![]).is_none());
}

#[test]
fn commits_run_only_after_both_checks() {
    let mut state = State::new();
    open_draft(&mut state, 7, "/r", "main", None, prepared("t1", &["a"]));
    let draft = &state.drafts[0];
    let on = |branch: &str| Event::Branch(format!("refs/heads/{branch}"));
    let out = |success: bool| Output {
        success,
        stdout: Vec::new(),
        stderr: "hook failed\n".into(),
    };
    match next_step(draft, Stage::Branch, on("other")) {
        (Stage::Done, Action::End(Outcome::Other(e))) => assert_eq!(
            e,
            "HEAD is no longer on main; open a new draft with :git-commit on the branch to commit to"
        ),
        other => panic!("{other:?}"),
    }
    let (stage, action) = next_step(draft, Stage::Branch, on("main"));
    assert!(matches!(stage, Stage::Snapshot) && matches!(action, Action::Prepare(None)));
    for (now, told) in [
        (Ok(prepared("t2", &["a"])), "changed"),
        (Ok(prepared("t1", &[])), "Nothing is staged; stage changes with :git-status (Alt-s), then :w"),
        (Err("boom".to_owned()), "boom"),
    ] {
        match next_step(draft, Stage::Snapshot, Event::Prepared(now)) {
            (Stage::Done, Action::End(Outcome::Changed(p))) => {
                assert_eq!((told, p.snapshot.tree.as_str()), ("changed", "t2"))
            }
            (Stage::Done, Action::End(Outcome::Other(e))) => assert_eq!(e, told),
            other => panic!("{other:?}"),
        }
    }
    let same = Event::Prepared(Ok(prepared("t1", &["a"])));
    let (stage, action) = next_step(draft, Stage::Snapshot, same);
    assert!(matches!(stage, Stage::Commit));
    match action {
        Action::Commit(args) => {
            assert_eq!(args, ["commit", "--quiet", "--cleanup=whitespace", "-F", "-"])
        }
        other => panic!("{other:?}"),
    }
    let (stage, action) = next_step(draft, Stage::Commit, Event::Ran(Ok(out(false))));
    match (&stage, action) {
        (Stage::Report(report), Action::Prepare(Some(failure))) => {
            assert_eq!((report.as_str(), failure.as_str()), ("hook failed", "hook failed"))
        }
        other => panic!("{other:?}"),
    }
    match next_step(draft, stage, Event::Prepared(Err("x".into()))) {
        (Stage::Done, Action::End(Outcome::Refused(report, None))) => {
            assert_eq!(report, "hook failed")
        }
        other => panic!("{other:?}"),
    }
    let (stage, action) = next_step(draft, Stage::Commit, Event::Ran(Ok(out(true))));
    match action {
        Action::Read(args) => assert_eq!(args.last().unwrap(), "refs/heads/main"),
        other => panic!("{other:?}"),
    }
    let info = "0123456789abcdef\u{1f}t1\u{1f}h1\u{1f}fix: x".to_owned();
    match next_step(draft, stage, Event::Info(Ok(info))) {
        (Stage::Done, Action::End(Outcome::Committed(c))) => {
            assert_eq!((c.subject.as_str(), c.warnings.len()), ("fix: x", 0))
        }
        other => panic!("{other:?}"),
    }
    match next_step(draft, Stage::Read, Event::Info(Ok("x".into()))) {
        (Stage::Done, Action::End(Outcome::Other(e))) => {
            assert_eq!(e, "Cannot read the new commit")
        }
        other => panic!("{other:?}"),
    }
    let documents = vec![(1, Some("a".to_owned())), (2, None), (3, Some("b".to_owned()))];
    assert_eq!(refresh_diff_bases(&documents, &vec!["b".into(), "c".into()]), [3]);
}

#[test]
fn pushes_run_only_after_the_check() {
    let plan = Plan {
        root: "/r".into(),
        branch: "topic".into(),
        oid: "0123".into(),
        subject: "x".into(),
    };
    let mut destination = Destination {
        remote: "origin".into(),
        branch: "topic".into(),
        set_upstream: true,
        note: "",
    };
    let at = |reference: &str, head: Option<&str>| {
        PushEvent::Head(reference.into(), Ok(head.map(str::to_owned)))
    };
    let out = |success: bool| {
        PushEvent::Pushed(Ok(Output {
            success,
            stdout: b"=\trefs\t[up to date]\n".to_vec(),
            stderr: String::new(),
        }))
    };
    for event in [
        at("refs/heads/other", Some("0123")),
        at("refs/heads/topic", Some("4567")),
        at("refs/heads/topic", None),
        PushEvent::Head("".into(), Err("broken".into())),
    ] {
        match next_push_step(&plan, &destination, PushStage::Head, event) {
            (PushStage::Done, PushAction::End(Err(e))) => {
                assert_eq!(e, "HEAD moved since the push was prepared; run :git-push again")
            }
            other => panic!("{other:?}"),
        }
    }
    let here = at("refs/heads/topic", Some("0123"));
    match next_push_step(&plan, &destination, PushStage::Head, here) {
        (PushStage::Push, PushAction::Push(args)) => {
            assert_eq!(args, ["push", "--porcelain", "origin", "0123:refs/heads/topic"])
        }
        other => panic!("{other:?}"),
    }
    let (stage, action) = next_push_step(&plan, &destination, PushStage::Push, out(true));
    match (stage, action) {
        (PushStage::Remote(true), PushAction::Configure(args)) => {
            assert_eq!(args, ["config", "branch.topic.remote", "origin"])
        }
        other => panic!("{other:?}"),
    }
    let done = || PushEvent::Configured(Ok(()));
    let (stage, action) = next_push_step(&plan, &destination, stage, done());
    match (stage, action) {
        (PushStage::Merge(true), PushAction::Configure(args)) => {
            assert_eq!(args, ["config", "branch.topic.merge", "refs/heads/topic"])
        }
        other => panic!("{other:?}"),
    }
    let (stage, action) = next_push_step(&plan, &destination, stage, done());
    assert!(stage == PushStage::Done && matches!(action, PushAction::End(Ok(true))));
    destination.set_upstream = false;
    let (stage, action) = next_push_step(&plan, &destination, PushStage::Push, out(true));
    assert!(stage == PushStage::Done && matches!(action, PushAction::End(Ok(true))));
    let (stage, action) = next_push_step(&plan, &destination, PushStage::Push, out(false));
    assert!(stage == PushStage::Done && matches!(action, PushAction::End(Err(_))));
}

#[test]
fn drafts_that_were_edited_meanwhile_stay_open() {
    for (now, closed) in [(Some(3), true), (Some(4), false), (None, false)] {
        let mut state = State::new();
        open_draft(&mut state, 7, "/r", "main", Some("d".into()), prepared("t2", &["a"]));
        let reviewed = prepared("t2", &["a"]).snapshot;
        let made =
            read_commit("0123456789abcdef\u{1f}t2\u{1f}h1\u{1f}fix: x", &reviewed).unwrap();
        let finished =
            finish_commit(&mut state, 7, 3, now, "/r", "main", Outcome::Committed(made));
        assert!(finished.done && state.drafts.is_empty());
        assert_eq!(finished.close, closed);
    }
}

#[test]
fn commits_that_fail_keep_their_draft() {
    let mut state = State::new();
    open_draft(&mut state, 7, "/r", "main", Some("d".into()), prepared("t1", &["a"]));
    let text = format!("fix: x\n{COMMIT_SEPARATOR}\n");
    send(&mut state, 7, &text, &vec![], false, &vec![]);
    state.start("/r", "commit", 5);
    let changed = Outcome::Changed(prepared("t2", &["a"]));
    let finished = finish_commit(&mut state, 7, 3, Some(3), "/r", "main", changed);
    assert!(!finished.done && !finished.close && finished.context.is_some());
    assert_eq!(state.drafts[0].snapshot.tree, "t2");
    assert!(!state.drafts[0].committing);
    let refused = Outcome::Refused("hook\u{7}".into(), None);
    let finished = finish_commit(&mut state, 7, 3, Some(3), "/r", "main", refused);
    assert!(matches!(finished.message, Message::Error(_)));
    send(&mut state, 7, &text, &vec![], false, &vec![]);
    state.start("/r", "commit", 6);
    let (task, told) = cancel(&mut state, "/r", &vec![]);
    assert_eq!((task, told.as_str()), (Some(6), "Cancelled the commit"));
    assert!(!state.drafts[0].committing);
    let (task, told) = cancel(&mut state, "/r", &vec![]);
    assert_eq!(
        (task, told.as_str()),
        (None, "Nothing to cancel in this repository")
    );
    state.prune(&vec![]);
    assert!(state.drafts.is_empty());
    let snap = snapshot(None, "t".into(), &vec![('A', "x".into())]);
    assert_eq!(snap.staged, ["x"]);
}

// Pushing

fn pair(a: &str, b: &str) -> Option<(String, String)> {
    Some((a.into(), b.into()))
}

#[test]
fn destinations_follow_git_configuration() {
    let remotes = vec![
        "origin".to_owned(),
        "upstream".to_owned(),
        "fork".to_owned(),
    ];
    let names = |d: Vec<Destination>| {
        d.into_iter()
            .map(|d| format!("{}/{} {} {}", d.remote, d.branch, d.set_upstream, d.note))
            .collect::<Vec<_>>()
    };
    // Git's push destination is used as configured, also in triangular setups.
    assert_eq!(
        names(destinations(
            "topic",
            &remotes,
            pair("origin", "topic"),
            pair("origin", "topic"),
            None,
            None
        )),
        ["origin/topic false upstream"]
    );
    assert_eq!(
        names(destinations(
            "topic",
            &remotes,
            pair("upstream", "main"),
            pair("fork", "topic"),
            None,
            None
        )),
        ["fork/topic false configured push destination"]
    );
    // Git cannot decide: the upstream and the local branch name.
    assert_eq!(
        names(destinations(
            "local",
            &remotes,
            pair("origin", "topic"),
            None,
            None,
            None
        )),
        [
            "origin/topic false upstream",
            "origin/local false same name as the local branch"
        ]
    );
    // No upstream: every remote, PR head repository and conventions first.
    assert_eq!(
        names(destinations(
            "topic",
            &remotes,
            None,
            None,
            Some("fork"),
            Some("upstream")
        )),
        [
            "fork/topic true PR head repository · new branch, sets upstream",
            "upstream/topic true new branch, sets upstream",
            "origin/topic true new branch, sets upstream"
        ]
    );
    assert_eq!(
        names(destinations("topic", &remotes, None, None, None, None))[0],
        "origin/topic true new branch, sets upstream"
    );
}

#[test]
fn rejections_are_explained_without_forcing() {
    let fetch_first =
        "To ../remote\n!\trefs/heads/x:refs/heads/x\t[rejected] (fetch first)\nDone\n";
    let text = rejection(fetch_first, "error: failed to push some refs", "origin/x");
    assert!(
        text.starts_with("Push rejected: origin/x has commits"),
        "{text}"
    );
    assert!(text.contains("never force-pushes"));
    let protected = "!\tabc:refs/heads/main\t[remote rejected] (protected branch hook declined)\n";
    assert_eq!(
        rejection(protected, "", "origin/main"),
        "Push rejected by the remote: (protected branch hook declined)"
    );
    assert_eq!(
        rejection("", "error: pre-push hook failed\nhint: x", "origin/x"),
        "Push failed: error: pre-push hook failed · hint: x"
    );
}

fn output(success: bool, stdout: &str, stderr: &str) -> Output {
    collect(success, stdout.as_bytes().to_vec(), stderr.as_bytes())
}

#[test]
fn pushes_are_planned_and_run_once() {
    let oid = "0123456789abcdef0123456789abcdef01234567";
    let plan = Plan {
        root: "/r".into(),
        branch: "topic".into(),
        oid: oid.into(),
        subject: "0123456 fix".into(),
    };
    let destination = Destination {
        remote: "origin".into(),
        branch: "topic".into(),
        set_upstream: true,
        note: "",
    };
    let mut state = State::new();
    assert_eq!(
        push(&mut state, &repo(None), &vec![]).unwrap_err(),
        "Detached HEAD; check out a branch to push"
    );
    assert_eq!(
        push(&mut state, &repo(Some("topic")), &vec![]).unwrap(),
        ("topic".into(), "Preparing push…")
    );
    assert_eq!(plan_head("topic", Some("x".into())), Ok("x".into()));
    assert_eq!(
        plan_head("topic", None),
        Err("topic has no commits to push".into())
    );
    assert!(plan_status(&plan).starts_with("Push topic at 0123456 fix · "));
    assert_eq!(show_plan(Some(&repo(None)), &plan), Ok(plan_status(&plan)));
    assert_eq!(
        show_plan(None, &plan).unwrap_err(),
        "The focused repository changed; run :git-push again"
    );
    assert_eq!(
        start(&mut state, &plan, &destination, 3, &vec![]).unwrap(),
        "Pushing 0123456789 to origin/topic…"
    );
    assert_eq!(
        start(&mut state, &plan, &destination, 4, &vec![]).unwrap_err(),
        busy("push")
    );
    assert!(check_head(&plan, "refs/heads/topic", Some(oid)).is_ok());
    assert_eq!(
        check_head(&plan, "refs/heads/topic", None),
        Err("HEAD moved since the push was prepared; run :git-push again")
    );
    assert_eq!(
        push_arguments(&plan, &destination),
        [
            "push".to_string(),
            "--porcelain".into(),
            "origin".into(),
            format!("{oid}:refs/heads/topic")
        ]
    );
    let (remote, merge) = upstream_arguments(&plan, &destination);
    assert_eq!(remote, ["config", "branch.topic.remote", "origin"]);
    assert_eq!(merge, ["config", "branch.topic.merge", "refs/heads/topic"]);
    assert_eq!(
        pushed(&output(true, "=\tx [up to date]\n", ""), &destination),
        Ok(true)
    );
    assert_eq!(pushed(&output(true, "*\tx\n", ""), &destination), Ok(false));
    assert_eq!(
        pushed(&output(false, "", "fatal: no"), &destination),
        Err("Push failed: fatal: no".into())
    );
    match finish(&mut state, &plan, &destination, Ok(false)) {
        Message::Status(m) => assert_eq!(m, "Pushed 0123456789 to origin/topic (upstream set)"),
        other => panic!("{other:?}"),
    }
    assert_eq!(state.running("/r", &vec![]), None);
    match finish(&mut state, &plan, &destination, Err("bad\u{1b}".into())) {
        Message::Error(m) => assert!(!m.contains('\u{1b}')),
        other => panic!("{other:?}"),
    }
    assert_eq!(
        outgoing(&destination, "c", true),
        ["refs/remotes/origin/topic..c"]
    );
    assert_eq!(
        outgoing(&destination, "c", false),
        ["c", "--not", "--remotes=origin"]
    );
    assert_eq!(incoming(&destination, "c"), "c..refs/remotes/origin/topic");
    assert_eq!((read_count("12"), read_count("x")), (Some(12), None));
    assert_eq!(
        describe_commits(Some(2), Some(1)),
        "2 to push, remote has 1 more: will be rejected"
    );
    assert_eq!(describe_commits(Some(0), None), "up to date");
    assert_eq!(describe_commits(None, Some(0)), "?");
}

#[test]
fn remotes_and_upstreams_are_read() {
    assert_eq!(
        read_remotes("origin\n\n--upload-pack=x\nfork\n").unwrap(),
        ["origin", "fork"]
    );
    assert!(read_remotes("-x\n").is_err());
    let remotes = vec!["origin".to_string(), "a/b".to_string()];
    assert_eq!(
        configured_upstream(Some("origin"), Some("refs/heads/x/y"), &remotes),
        pair("origin", "x/y")
    );
    assert_eq!(
        configured_upstream(Some("."), Some("refs/heads/x"), &remotes),
        None
    );
    assert_eq!(
        push_destination(Some(&output(true, "refs/remotes/a/b/topic\n", "")), &remotes),
        pair("a/b", "topic")
    );
    assert_eq!(push_destination(None, &remotes), None);
    let repos = vec![None, Some("o/r".to_string())];
    assert_eq!(
        head_remote(&remotes, &repos, Some("o/r")),
        Some("a/b".into())
    );
    assert_eq!(head_remote(&remotes, &repos, Some("x/r")), None);
}

#[test]
fn pushed_branches_are_followed() {
    assert!(matches!(follow(0, Reply::Older), Following::Ask));
    assert!(matches!(follow(4, Reply::Older), Following::Stop(false)));
    assert!(matches!(follow(0, Reply::Contains), Following::Stop(true)));
    assert!(matches!(follow(0, Reply::Failed), Following::Stop(false)));
    assert_eq!(
        followed_text("Pushed x", "o/r#1", true, Some("a.rs:3")),
        "Pushed x · in o/r#1 · :review-fixed replies to a.rs:3"
    );
    assert_eq!(
        followed_text("Pushed x", "o/r#1", false, None),
        "Pushed x · GitHub does not show it in o/r#1 yet; :review-refresh later"
    );
    assert!(still_focused(Some(&repo(Some("t"))), "/r", "t"));
    assert!(check_focus(Some(&repo(None)), "/r", ":git-status").is_ok());
    assert_eq!(
        check_focus(Some(&repo(None)), "/other", ":git-status").unwrap_err(),
        "The focused repository changed; run :git-status again"
    );
    assert!(!still_focused(Some(&repo(None)), "/r", "t"));
    assert!(!still_focused(None, "/r", "t"));
}

// Commands and processes

#[test]
fn git_commands_are_literal_and_their_failures_explained() {
    assert_eq!(
        arguments(&vec!["status".into()]),
        ["-c", "core.quotePath=false", "--literal-pathspecs", "status"]
    );
    assert_eq!(checked_out("ref: refs/heads/a/b\n"), Some("a/b".into()));
    assert_eq!(checked_out("0123\n"), None);
    assert_eq!(summary("\n a \n\nb\nc\nd", 3), "a · b · c");
    assert_eq!(git_output("log", output(true, "x", "")).unwrap(), b"x");
    assert_eq!(
        git_output("log", output(false, "out", "err")).unwrap_err(),
        "git log failed: err · out"
    );
    assert_eq!(git_text(b" x \n"), Some("x".into()));
    assert_eq!(git_text(b"\xff"), None);
    assert_eq!(head_id(&output(true, "abc\n", "")), Some("abc".into()));
    assert_eq!(head_id(&output(false, "", "")), None);
    let found = current_repo(None, Some(repo(Some("x"))), "");
    assert_eq!(found.unwrap().branch.as_deref(), Some("x"));
    assert_eq!(
        current_repo(None, None, "Reviews: no repository").unwrap_err(),
        "Git: no repository"
    );
}

#[test]
fn what_children_write_is_harmless_and_bounded() {
    let out = output(false, "\u{1b}[31mred\n", "  bad\u{7} \n");
    assert!(out.message().chars().all(|c| c == '\n' || !c.is_control()));
    assert!(check_size("gh", LIMIT, LIMIT).is_ok());
    assert_eq!(
        check_size("gh", LIMIT + 1, 0).unwrap_err(),
        "gh output exceeded the size limit"
    );
    assert_eq!(timed_out("gh", 30), "gh timed out after 30s");
    assert_eq!(cannot_run("gh"), "Cannot run gh");
    assert_eq!(output_text("gh", &output(true, "ok", "")).unwrap(), "ok");
    let bytes = collect(true, vec![0xff], b"");
    assert!(matches!(output_text("gh", &bytes), Err(Unusable::NotText)));
    match output_text("gh", &output(false, "", &"x".repeat(600))) {
        Err(Unusable::Failed(e)) => assert_eq!(e.len(), 4 + 500),
        other => panic!("{other:?}"),
    }
    let variables = environment();
    assert!(variables.contains(&("GIT_TERMINAL_PROMPT", Some("0"))));
    assert!(variables.contains(&("GIT_DIR", None)));
}

// Recent files

#[test]
fn recent_files_are_ordered_bounded_and_kept() {
    let list = read_lines(Some(" /a \n\n/b\n"));
    assert_eq!(list, ["/a", "/b"]);
    assert!(read_lines(None).is_empty());
    let list = record_open(&list, "/b");
    assert_eq!(list, ["/b", "/a"]);
    assert_eq!(load(&list, &vec![false, true]), ["/a"]);
    assert_eq!(read_lines(Some(&serialize(&list))), list);
    let mut many = Vec::new();
    for i in 0..MAX_RECENT_FILES + 5 {
        many = record_open(&many, &format!("/{i}"));
    }
    assert_eq!(many.len(), MAX_RECENT_FILES);
    assert_eq!(many[0], format!("/{}", MAX_RECENT_FILES + 4));
}

// Changed files

fn show(change: &FileChange) -> String {
    match change {
        FileChange::Untracked { path } => format!("untracked {path}"),
        FileChange::Modified { path } => format!("modified {path}"),
        FileChange::Deleted { path } => format!("deleted {path}"),
        FileChange::Conflict { path } => format!("conflict {path}"),
        FileChange::Renamed { from_path, to_path } => format!("renamed {from_path} {to_path}"),
    }
}

fn branch_changes(items: Vec<Result<Item, String>>, base: MergeBase, stop: usize) -> Vec<String> {
    let seen = RefCell::new(Vec::new());
    for_each_branch_changed_file("/r", &items, base, |change| {
        let text = match &change {
            Ok(change) => show(change),
            Err(e) => format!("error {e}"),
        };
        seen.borrow_mut().push(text);
        seen.borrow().len() < stop
    });
    seen.into_inner()
}

/// Committed changes and those of the working tree are both shown, and those of the
/// working tree win.
#[test]
fn branch_changed_files_union() {
    let items = vec![
        Ok(Item::Untracked("untracked_in_worktree.txt".into())),
        Ok(Item::Modified("will_be_modified.txt".into())),
    ];
    let base = MergeBase::Changes(vec![
        TreeChange::Addition(EntryKind::Blob, "added_in_branch.txt".into()),
        TreeChange::Modification(EntryKind::Blob, "will_be_modified.txt".into()),
        TreeChange::Addition(EntryKind::Tree, "dir".into()),
    ]);
    let display = branch_changes(items, base, 100);
    assert!(display.contains(&"untracked /r/untracked_in_worktree.txt".to_string()));
    assert!(display.contains(&"untracked /r/added_in_branch.txt".to_string()));
    let count = display
        .iter()
        .filter(|s| s.ends_with("/will_be_modified.txt"))
        .count();
    assert_eq!(count, 1, "{display:?}");
    assert!(!display.iter().any(|s| s.ends_with("/dir")));
    assert_eq!(display.len(), 3);
}

#[test]
fn changes_of_a_branch_are_listed_once_and_in_order() {
    let items = vec![
        Ok(Item::Modified("a".into())),
        Err("broken".into()),
        Ok(Item::Rewrite("b".into(), "c".into())),
    ];
    let base = MergeBase::Changes(vec![
        TreeChange::Modification(EntryKind::Blob, "a".into()),
        TreeChange::Rewrite("x".into(), "b".into()),
        TreeChange::Deletion(EntryKind::Blob, "d".into()),
        TreeChange::Addition(EntryKind::Link, "l".into()),
    ]);
    let text = |x: &Result<FileChange, String>| match x {
        Ok(change) => show(change),
        Err(e) => format!("error {e}"),
    };
    let working: Vec<String> = working_changes("/r", &items).iter().map(text).collect();
    assert_eq!(working, ["modified /r/a", "error broken", "renamed /r/b /r/c"]);
    let all: Vec<String> = list_branch("/r", &items, base).iter().map(text).collect();
    assert_eq!(all, ["modified /r/a", "renamed /r/b /r/c", "deleted /r/d"]);
}

/// If HEAD is the tip of the base branch, only changes of the working tree are shown.
#[test]
fn branch_changed_files_head_on_base() {
    let items = vec![Ok(Item::Untracked("b.txt".into()))];
    assert_eq!(
        branch_changes(items, MergeBase::Head, 100),
        ["untracked /r/b.txt"]
    );
}

#[test]
fn changed_files_are_told_until_the_caller_has_enough() {
    let items = vec![
        Ok(Item::Conflict("c".into())),
        Ok(Item::Other),
        Err("broken".into()),
        Ok(Item::Removed("d".into())),
        Ok(Item::IntentToAdd("i".into())),
        Ok(Item::Rewrite("a".into(), "b".into())),
    ];
    let seen = RefCell::new(Vec::new());
    for_each_changed_file("/r", items, |change| {
        let text = match &change {
            Ok(change) => show(change),
            Err(e) => format!("error {e}"),
        };
        seen.borrow_mut().push(text);
        seen.borrow().len() < 4
    });
    assert_eq!(
        seen.into_inner(),
        [
            "conflict /r/c",
            "error broken",
            "deleted /r/d",
            "untracked /r/i",
        ]
    );
    let failed = branch_changes(vec![], MergeBase::Failed("no base".into()), 100);
    assert_eq!(failed, ["error no base"]);
    assert_eq!(base_branch(true, true).unwrap(), "refs/heads/main");
    assert_eq!(base_branch(false, true).unwrap(), "refs/heads/master");
    assert!(base_branch(false, false).is_err());
}

#[test]
fn heads_entries_and_blame() {
    assert_eq!(
        get_current_head_name(Some("refs/heads/a/b"), "0123456789").as_deref(),
        Some("a/b")
    );
    assert_eq!(
        get_current_head_name(Some("refs/remotes/origin/x"), "").as_deref(),
        Some("origin/x")
    );
    assert_eq!(get_current_head_name(Some("no name"), ""), None);
    assert_eq!(
        get_current_head_name(None, "0123456789").as_deref(),
        Some("01234567")
    );
    assert_eq!(head_label(Some("x".into()), "0"), "x");
    assert!(file_entry(Some(EntryKind::BlobExecutable), "a").is_ok());
    assert_eq!(file_entry(None, "a").unwrap_err(), "file is untracked");
    assert_eq!(
        file_entry(Some(EntryKind::Tree), "a").unwrap_err(),
        "entry at a is not a file but a Tree"
    );
    let entries = vec![
        BlameEntry {
            start: 0,
            len: 2,
            commit: "a".into(),
        },
        BlameEntry {
            start: 2,
            len: 1,
            commit: "b".into(),
        },
    ];
    assert_eq!(blame_line(&entries, 1), Ok(0));
    assert_eq!(blame_line(&entries, 2), Ok(1));
    assert_eq!(
        blame_line(&entries, 3),
        Err("line 3 has no blame entry".into())
    );
}
