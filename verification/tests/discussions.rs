use devflow::api::PullHead;
use devflow::discussions::{
    discussion_text, files_to_read, find_block, find_thread, list_entries, list_preview,
    map_blocks, navigate, place_entries, placement_note, selecting, selection_status, under_cursor,
    wanted_files, FileText, ListPreview, OpenDocument, Selecting,
};
use devflow::drafts::{reply_body, REPLY_SEPARATOR};
use devflow::history::{Commit, Touch};
use devflow::inline::{append_cells, cells_of, rows, Block};
use devflow::placement::{line_hunks, track, Placement};
use devflow::replies::{
    apply_thread, begin_post, bind_draft, check_pushed, check_scope, commit_marks, commit_scope,
    draft_suggestion, find_draft, finish_post, half_done, insert_at_cursors, next_post_step,
    offer_commits, open_draft, posted, posting, prune, replying, resolved_status, resolving, send,
    target, yanked, Applied, PostAction, PostEvent, PostStage, Replying, Resolving, Sending,
    Target,
};
use devflow::review::{safe_text, Comment, Compose, Context, Place, Review, Source, State, Thread};
use devflow::rope::Rope;
use devflow::selection::{
    announce, arrive, expand_discussion, find_again, finish_selection, follow_push, list_choice,
    next_discussion, open, open_thread, select, selected_label, Finish,
};
use devflow::session::{
    attach, branch_reference, context_of, expand, gitdir, loaded, missing_context, refresh,
    refreshed, relative_key, show_blocks, synchronize, toggle, toggled, DocumentReview, Message, Position,
    Repository, Stamp,
};
use std::sync::Arc;
use unicode_width::UnicodeWidthStr;

const SHA: &str = "0123456789abcdef0123456789abcdef01234567";

fn context(branch: &str) -> Context {
    Context {
        root: "/r".into(),
        git_dir: "/r/.git".into(),
        branch: branch.into(),
        head: SHA.into(),
        config: vec![],
    }
}

fn thread(id: &str, path: &str, line: Option<usize>) -> Thread {
    Thread {
        id: id.into(),
        path: path.into(),
        lines: line.map(|n| n..n + 1),
        comments: vec![Comment {
            author: "alice".into(),
            body: "why?".into(),
        }],
        can_reply: true,
        ..Default::default()
    }
}

const SOURCE: &str = "one\ntwo\nthree\nfour\nfive\nsix\nseven\neight\nnine\n";

fn review() -> Review {
    Review {
        label: "o/r#5 @ 0123456789ab".into(),
        repo: "o/r".into(),
        number: 5,
        head: SHA.into(),
        threads: vec![
            Arc::new(thread("A", "a.rs", Some(7))),
            Arc::new(thread("B", "a.rs", Some(2))),
            Arc::new(thread("C", "b.rs", Some(1))),
            Arc::new(thread("D", "a.rs", None)),
        ],
        sources: vec![Source {
            path: "a.rs".into(),
            text: SOURCE.into(),
        }],
        ..Default::default()
    }
}

fn shown() -> State {
    State {
        enabled: true,
        context: Some(context("main")),
        review: Some(Arc::new(review())),
        status: "loaded".into(),
        ..State::default()
    }
}

fn text(message: &Message) -> &str {
    match message {
        Message::Status(m) => m,
        Message::Error(m) => m,
    }
}

// ---------------------------------------------------------------------------
// Blocks
// ---------------------------------------------------------------------------

#[test]
fn blocks_are_placed_in_order() {
    let review = review();
    let document = Rope::from(SOURCE);
    let blocks = map_blocks(&review, "a.rs", &document, &vec!["B".to_owned()]);
    let ids: Vec<&str> = blocks.iter().map(|b| b.thread.id.as_str()).collect();
    assert_eq!(ids, vec!["B", "A"]);
    assert!(blocks[0].expanded && !blocks[1].expanded);
    assert_eq!(blocks[0].range, 4..8);
    assert_eq!(blocks[0].anchor, 7);
    assert!(blocks.iter().all(|b| b.placement == Placement::Exact));
    // No snapshot of b.rs: its line number is used.
    let other = map_blocks(&review, "b.rs", &document, &vec![]);
    assert_eq!(other.len(), 1);
    assert_eq!(other[0].placement, Placement::Approximate);
    assert!(map_blocks(&review, "../a.rs", &document, &vec![]).is_empty());
    assert_eq!(find_block(&blocks, "A"), Some(1));
    assert_eq!(find_block(&blocks, "C"), None);
    assert_eq!(find_thread(&review.threads, "C"), Some(2));
}

#[test]
fn cursors_mean_a_discussion() {
    let review = review();
    let document = Rope::from(SOURCE);
    let blocks = map_blocks(&review, "a.rs", &document, &vec![]);
    // The cursor is on line two, on line five and at the end.
    assert_eq!(under_cursor(&review, &blocks, &document, 5, None), Some(1));
    assert_eq!(under_cursor(&review, &blocks, &document, 5, Some(0)), Some(1));
    assert_eq!(under_cursor(&review, &blocks, &document, 20, None), None);
    assert_eq!(under_cursor(&review, &blocks, &document, 20, Some(3)), Some(3));
    assert_eq!(under_cursor(&review, &blocks, &document, 45, Some(2)), Some(2));
}

#[test]
fn rows_fit_beside_the_border() {
    let mut wide = thread("A", "a.rs", Some(1));
    wide.comments[0].body = "日本語 wide and narrow\n\nlast".into();
    let block = Block {
        thread: Arc::new(wide),
        range: 0..1,
        anchor: 0,
        expanded: true,
        placement: Placement::Exact,
    };
    for width in [0, 1, 4, 5, 7, 20] {
        let columns = usize::from(width).saturating_sub(2).max(1);
        for row in rows(&block, width) {
            let notice = row == "… :review-open for full discussion";
            assert!(notice || UnicodeWidthStr::width(row.as_str()) <= columns, "{row}");
        }
    }
}

#[test]
fn navigation_wraps_around_and_back() {
    assert_eq!(navigate(None, 3, false), 0);
    assert_eq!(navigate(None, 3, true), 2);
    for i in 0..3 {
        assert_eq!(navigate(Some(navigate(Some(i), 3, false)), 3, true), i);
        assert_eq!(navigate(Some(navigate(Some(i), 3, true)), 3, false), i);
    }
    assert_eq!(navigate(Some(2), 3, false), 0);
}

#[test]
fn listed_discussions_are_placed_like_blocks() {
    let review = review();
    let mut entries = list_entries(&review, Some("/r"), &vec![true, true, false, true]);
    let text = |path: &str, text: &str| FileText {
        path: path.to_owned(),
        text: Rope::from(text),
    };
    let changed = text("a.rs", &SOURCE.replace("seven", "SEVEN"));
    // The file on disk does not matter where a buffer shows it.
    assert_eq!(wanted_files(&entries), vec!["a.rs"]);
    assert_eq!(files_to_read(&entries, &vec![]), vec!["a.rs"]);
    let open = vec![changed];
    assert!(files_to_read(&entries, &open).is_empty());
    place_entries(&review, &mut entries, &open, &vec![text("a.rs", "")]);
    let found = entries[0].placement.unwrap();
    assert_eq!((found.placement, found.first, found.last), (Placement::Changed, 6, 6));
    match list_preview(&vec![], &entries[0]) {
        Some(ListPreview::File(path, lines)) => {
            assert_eq!((path.as_str(), lines), ("/r/a.rs", (6, 6)))
        }
        other => panic!("{other:?}"),
    }
    assert!(entries[2].placement.is_none());
    assert!(entries[3].placement.is_none());
    assert!(list_preview(&vec![], &entries[3]).is_none());
    // On disk.
    let mut again = list_entries(&review, Some("/r"), &vec![true, true, false, true]);
    place_entries(&review, &mut again, &vec![], &vec![text("a.rs", SOURCE)]);
    let found = again[0].placement.unwrap();
    assert_eq!((found.placement, found.first), (Placement::Exact, 6));
    place_entries(&review, &mut again, &vec![], &vec![]);
    assert_eq!(again[0].placement, Some(found));
    // A block in an open document comes first.
    let shown = Rope::from(SOURCE);
    let blocks = map_blocks(&review, "a.rs", &shown, &vec![]);
    let documents = vec![
        OpenDocument {
            id: 3,
            text: Rope::from("other"),
            blocks: vec![],
        },
        OpenDocument {
            id: 4,
            text: shown,
            blocks,
        },
    ];
    match list_preview(&documents, &entries[0]) {
        Some(ListPreview::Document(id, lines)) => assert_eq!((id, lines), (4, (6, 6))),
        other => panic!("{other:?}"),
    }
    assert_eq!(placement_note(Placement::Exact), "");
    assert_eq!(placement_note(Placement::Changed), " · code changed");
}

#[test]
fn texts_of_a_discussion() {
    let review = review();
    let discussion = &review.threads[0];
    assert_eq!(
        selection_status(0, 4, discussion, Placement::Approximate),
        "Review 1/4 · @alice · open · 1 comment(s) · approximate location · :review-expand / :review-open"
    );
    let view = discussion_text(&review, discussion, None);
    assert!(view.starts_with("o/r#5 @ 0123456789ab\n"));
    assert!(view.contains("Location unavailable in current document; original context only\n"));
    assert!(view.contains("\n\n@alice\nwhy?\n\nOriginal diff context:\n"));
    assert_eq!(selecting(discussion, true), Selecting::File);
    assert_eq!(selecting(discussion, false), Selecting::Discussion);
    assert_eq!(selecting(&review.threads[3], true), Selecting::Discussion);
}

// ---------------------------------------------------------------------------
// Rows
// ---------------------------------------------------------------------------

#[test]
fn rows_hold_whole_characters() {
    // A flag and an accented letter are one piece each; a wide character takes
    // two columns.
    let cells = cells_of("e\u{301}界🇩🇪x");
    let texts: Vec<&str> = cells.iter().map(|c| c.text.as_str()).collect();
    assert_eq!(texts, vec!["e\u{301}", "界", "🇩🇪", "x"]);
    assert_eq!(cells[1].width, 2);
    let mut out = Vec::new();
    assert!(append_cells(&mut out, &cells_of("a界b界c"), 3, 10));
    assert_eq!(out, vec!["a界", "b界", "c"]);
    assert_eq!(out.concat(), "a界b界c");
    // Full rows stop; pieces wider than a row are left out.
    let mut short = Vec::new();
    assert!(!append_cells(&mut short, &cells_of("abcdef"), 2, 2));
    assert_eq!(short, vec!["ab", "cd"]);
    let mut narrow = Vec::new();
    assert!(append_cells(&mut narrow, &cells_of("a界b"), 1, 10));
    assert_eq!(narrow, vec!["a", "b"]);
}

#[test]
fn blocks_take_a_bounded_number_of_rows() {
    let mut long = thread("L", "a.rs", Some(1));
    long.comments[0].body = "line\n".repeat(100);
    let mut block = Block {
        thread: Arc::new(long),
        range: 0..0,
        anchor: 0,
        expanded: true,
        placement: Placement::Exact,
    };
    let all = rows(&block, 80);
    assert_eq!(all.len(), 41);
    assert_eq!(all[40], "… :review-open for full discussion");
    block.expanded = false;
    assert_eq!(rows(&block, 80), vec!["[+] @alice · open · 1 comment(s)", "line"]);
    assert!(rows(&block, 0).len() <= 4);
}

// ---------------------------------------------------------------------------
// Lines
// ---------------------------------------------------------------------------

#[test]
fn unchanged_ranges_stay_where_they_are() {
    assert_eq!(track(4..6, &[]), (false, 4..6));
    let hunks = line_hunks("a\nb\nc\nd\n", "x\na\nb\nC\nd\n");
    assert_eq!(track(4..5, &hunks), (false, 5..6));
    assert_eq!(track(3..4, &hunks), (true, 4..5));
}

#[test]
fn shown_text_is_harmless() {
    let text = safe_text("a\u{0}\u{7}\u{9b}b\u{2066}\u{200f}c\td\r\n");
    assert!(text.chars().all(|c| c == '\n' || !c.is_control()), "{text:?}");
    assert_eq!(text, "abc d\n");
}

// ---------------------------------------------------------------------------
// Replies
// ---------------------------------------------------------------------------

fn compose(document: u64, id: &str) -> Compose {
    Compose {
        document,
        context: context("topic"),
        repo: "o/r".into(),
        number: 9,
        thread: Arc::new(thread(id, "a.rs", Some(3))),
        sending: false,
    }
}

fn a_target() -> Target {
    Target {
        context: context("main"),
        repo: "o/r".into(),
        number: 5,
        thread: Arc::new(thread("A", "a.rs", Some(7))),
    }
}

fn a_commit() -> Commit {
    Commit {
        sha: SHA.into(),
        subject: "fix: x".into(),
        date: "2026-01-01".into(),
        touch: Touch::File,
        pushed: Some(false),
    }
}

#[test]
fn drafts_keep_their_discussion() {
    let mut state = shown();
    state.compose = vec![compose(1, "X"), compose(2, "Y")];
    // In a draft its own discussion is meant, whatever is selected.
    let found = target(&state, 2, Some(0)).unwrap();
    assert_eq!((found.thread.id.as_str(), found.number), ("Y", 9));
    assert_eq!(target(&state, 8, Some(0)).unwrap().thread.id, "A");
    assert_eq!(
        target(&state, 8, None).unwrap_err(),
        "No review discussion selected; use :review-next or :review-list"
    );
    state.review = None;
    assert_eq!(target(&state, 8, Some(0)).unwrap_err(), "loaded");
    state.status = String::new();
    assert_eq!(
        target(&state, 8, Some(0)).unwrap_err(),
        "Reviews are not loaded; run :review-refresh first"
    );
    state.enabled = false;
    assert!(target(&state, 8, Some(0)).is_err());
    assert!(target(&state, 1, None).is_ok());
    assert_eq!(find_draft(&state.compose, 2), Some(1));
    let kept = prune(state.compose, &vec![2]);
    assert_eq!(kept.len(), 1);
    assert_eq!(kept[0].document, 2);
}

#[test]
fn replies_open_one_draft() {
    let mut state = shown();
    let to = a_target();
    match replying(&state, &to, Some("now".to_owned())) {
        Replying::Post(t) => assert_eq!(t, "now"),
        other => panic!("{other:?}"),
    }
    assert!(matches!(replying(&state, &to, Some("  ".to_owned())), Replying::Draft));
    state.compose = vec![compose(4, "A")];
    match replying(&state, &to, None) {
        Replying::Switch(4, m) => {
            assert_eq!(m, "Reply draft to @alice on a.rs:7 is already open; :w sends it")
        }
        other => panic!("{other:?}"),
    }
    let locked = Target {
        thread: Arc::new(Thread {
            can_reply: false,
            ..thread("Z", "a.rs", None)
        }),
        ..a_target()
    };
    match replying(&state, &locked, None) {
        Replying::Refuse(m) => assert!(m.ends_with("(locked, or no access)")),
        other => panic!("{other:?}"),
    }
    assert!(matches!(posting(&locked), Message::Error(_)));
    assert_eq!(text(&posting(&to)), "Sending reply to @alice on a.rs:7…");
    let draft = open_draft(&to, Some(&a_commit()), true);
    assert_eq!(reply_body(&draft.text).unwrap(), format!("Fixed in {SHA}."));
    assert_eq!(draft.cursor, 50);
    assert!(draft.modified);
    assert_eq!(draft.register, Some(SHA.to_owned()));
    let empty = open_draft(&to, None, true);
    assert!(!empty.modified && empty.cursor == 0 && empty.register.is_none());
    assert!(reply_body(&empty.text).is_err());
}

#[test]
fn replies_are_posted_after_their_commits() {
    let pull = || PullHead {
        oid: SHA.to_owned(),
        name: "me/fork:topic".to_owned(),
        base: None,
    };
    // Nothing to check.
    for (body, force) in [("Done.", false), ("Fixed in 0123abc.", true)] {
        let (stage, action) = begin_post(body, force);
        assert!(matches!(stage, PostStage::Reply) && matches!(action, PostAction::Reply));
    }
    let (stage, action) = begin_post("Fixed in 0123abc.", false);
    assert!(matches!(action, PostAction::ReadHead));
    let (stage, action) = next_post_step(stage, PostEvent::Head(Ok(pull())), true);
    assert!(matches!(action, PostAction::FindMissing));
    let missing = PostEvent::Missing(Ok(vec!["0123abc".to_owned()]));
    match next_post_step(PostStage::Missing(pull()), missing, true) {
        (PostStage::Done, PostAction::End(Err(e))) => assert_eq!(
            e,
            "0123abc not on me/fork:topic (PR head 0123456789) yet; push first, or send anyway with :w! / --force"
        ),
        other => panic!("{other:?}"),
    }
    let (stage, action) = next_post_step(stage, PostEvent::Missing(Ok(vec![])), true);
    assert!(matches!(action, PostAction::Reply));
    let (stage, action) = next_post_step(stage, PostEvent::Replied(Ok("url".into())), true);
    assert!(matches!(action, PostAction::Resolve));
    match next_post_step(
        PostStage::Resolve("url".into()),
        PostEvent::Resolved(Err("no access".into())),
        true,
    ) {
        (PostStage::Done, PostAction::End(Err(e))) => {
            assert_eq!(e, "Reply posted (url), but: no access")
        }
        other => panic!("{other:?}"),
    }
    let (stage, action) = next_post_step(stage, PostEvent::Resolved(Ok(true)), true);
    assert!(matches!(action, PostAction::Fetch));
    match next_post_step(stage, PostEvent::Fetched(None), true) {
        (PostStage::Done, PostAction::End(Ok(posted))) => {
            assert_eq!((posted.url.as_str(), posted.resolved), ("url", Some(true)));
            assert!(posted.refreshed.is_none());
        }
        other => panic!("{other:?}"),
    }
    // Without a wish to resolve, the discussion is only loaded again.
    let (_, action) =
        next_post_step(PostStage::Reply, PostEvent::Replied(Ok("url".into())), false);
    assert!(matches!(action, PostAction::Fetch));
    let (_, action) =
        next_post_step(PostStage::Reply, PostEvent::Replied(Err("down".into())), false);
    assert!(matches!(action, PostAction::End(Err(_))));
}

#[test]
fn replies_are_sent_once() {
    let mut drafts = vec![compose(1, "X")];
    let written = format!("Done.\n{REPLY_SEPARATOR}\ncontext\n");
    assert!(matches!(send(&mut drafts, 2, &written), Sending::Refuse(_)));
    match send(&mut drafts, 1, "Done.") {
        Sending::Refuse(e) => assert_eq!(
            e,
            "Reply separator line was removed; restore it so quoted context is not sent"
        ),
        other => panic!("{other:?}"),
    }
    match send(&mut drafts, 1, &written) {
        Sending::Post(to, body) => {
            assert_eq!(to.thread.id, "X");
            assert_eq!(body, "Done.");
        }
        other => panic!("{other:?}"),
    }
    assert!(matches!(
        send(&mut drafts, 1, &written),
        Sending::Already("Reply is already being sent")
    ));
    // A failed post can be repeated; after a successful one the draft is done.
    assert!(!finish_post(&mut drafts, None, None, true));
    assert!(!finish_post(&mut drafts, Some((1, 3)), Some(3), false));
    assert!(!drafts[0].sending);
    assert!(matches!(send(&mut drafts, 1, &written), Sending::Post(_, _)));
    assert!(finish_post(&mut drafts, Some((1, 3)), Some(3), true));
    assert!(drafts.is_empty());
    // What was written since is not lost.
    assert!(!finish_post(&mut drafts, Some((1, 3)), Some(4), true));
    assert!(!finish_post(&mut drafts, Some((1, 3)), None, true));
    bind_draft(&mut drafts, 6, &a_target());
    assert_eq!((drafts[0].document, drafts[0].thread.id.as_str()), (6, "A"));
}

#[test]
fn commit_ids_are_put_in_at_every_cursor() {
    assert_eq!(
        insert_at_cursors("aé\nb", &vec![0, 2, 4], "X", true).unwrap(),
        "XaéX\nbX"
    );
    assert_eq!(insert_at_cursors("ab", &vec![], "X", true).unwrap(), "ab");
    assert_eq!(
        insert_at_cursors("ab", &vec![1], "X", false).unwrap_err(),
        "The buffer changed; commit not inserted"
    );
    assert!(draft_suggestion(false, Err("none".to_owned())).unwrap().is_none());
    assert_eq!(
        draft_suggestion(true, Err("none\u{1b}".to_owned())).unwrap_err(),
        "none"
    );
    assert_eq!(draft_suggestion(true, Ok(a_commit())).unwrap().unwrap().sha, SHA);
    let mut state = shown();
    let (here, to) =
        commit_scope(&state, 1, Ok(a_target()), Some(context("topic"))).unwrap();
    assert_eq!((here.branch.as_str(), to.unwrap().number), ("main", 5));
    state.enabled = false;
    let (here, to) =
        commit_scope(&state, 1, Ok(a_target()), Some(context("topic"))).unwrap();
    assert!(here.branch == "topic" && to.is_none());
    assert_eq!(
        check_scope(commit_scope(&state, 1, Err("x".to_owned()), None)).unwrap_err(),
        "Not inside a Git branch checkout"
    );
    assert_eq!(offer_commits(vec![]).unwrap_err(), "No commits to insert");
    assert_eq!(offer_commits(vec![a_commit()]).unwrap().len(), 1);
    assert_eq!(open(Some(2)), Ok(2));
    assert_eq!(
        open(None),
        Err("No discussion selected; use :review-next or :review-list")
    );
}

#[test]
fn posted_replies_are_reported() {
    let to = a_target();
    let pull = PullHead {
        oid: SHA.to_owned(),
        name: "me/r:topic".to_owned(),
        base: None,
    };
    assert!(check_pushed(&vec![], &pull).is_ok());
    assert_eq!(
        check_pushed(&vec!["1b5bbb8d77".to_owned()], &pull).unwrap_err(),
        "1b5bbb8d77 not on me/r:topic (PR head 0123456789) yet; push first, or send anyway with :w! / --force"
    );
    assert_eq!(half_done("u", "no"), "Reply posted (u), but: no");
    assert_eq!(
        posted(&to, Some(true), "u"),
        "Replied to @alice on a.rs:7 and resolved it · u"
    );
    assert_eq!(
        posted(&to, Some(false), "u"),
        "Replied to @alice on a.rs:7 (still unresolved) · u"
    );
    assert_eq!(resolved_status(&to, false), "@alice on a.rs:7 is now open");
    match resolving(&to, false) {
        Resolving::Already(m) => assert_eq!(m, "@alice on a.rs:7 is already open"),
        other => panic!("{other:?}"),
    }
    match resolving(&to, true) {
        Resolving::Refuse(m) => assert!(m.contains("needs write access")),
        other => panic!("{other:?}"),
    }
    let allowed = Target {
        thread: Arc::new(Thread {
            can_resolve: true,
            ..thread("A", "a.rs", Some(7))
        }),
        ..a_target()
    };
    match resolving(&allowed, true) {
        Resolving::Ask(m) => assert_eq!(m, "Resolving @alice on a.rs:7…"),
        other => panic!("{other:?}"),
    }
    assert_eq!(commit_marks(&a_commit()), ("local", "file"));
    assert!(yanked(&a_commit(), true).ends_with(") to register h and the clipboard"));
}

#[test]
fn reloaded_discussions_replace_their_old_state() {
    let mut state = shown();
    let to = a_target();
    let mut fresh = thread("A", "a.rs", Some(7));
    fresh.resolved = true;
    assert_eq!(apply_thread(&mut state, &to, fresh.clone(), SHA), Applied::Replaced);
    let now = state.review.as_ref().unwrap();
    assert!(now.threads[0].resolved && !now.threads[1].resolved);
    assert_eq!(
        apply_thread(&mut state, &to, fresh.clone(), "other"),
        Applied::Reload
    );
    let elsewhere = Target {
        number: 6,
        ..a_target()
    };
    assert_eq!(
        apply_thread(&mut state, &elsewhere, fresh, SHA),
        Applied::Ignored
    );
}

// ---------------------------------------------------------------------------
// Selections
// ---------------------------------------------------------------------------

#[test]
fn selections_survive_a_reload() {
    let mut state = shown();
    assert_eq!(select(&mut state, 9, true), None);
    assert_eq!(select(&mut state, 1, true), Some(Selecting::File));
    assert_eq!(state.selected, Some(1));
    // The reload after a push lists another discussion first.
    state.invalidate(Some(context("main")));
    assert_eq!(state.selected, None);
    state.enabled = true;
    let mut next = review();
    next.threads.insert(0, Arc::new(thread("N", "a.rs", Some(1))));
    assert_eq!(find_again(&state, &context("main"), &next), Some(2));
    assert_eq!(find_again(&state, &context("other"), &next), None);
    let generation = state.generation;
    let said = loaded(
        &mut state,
        generation,
        &context("main"),
        &Some(context("main")),
        Ok(Some(next)),
    )
    .unwrap();
    assert_eq!(state.selected, Some(2));
    assert_eq!(text(&said), state.status);
}

#[test]
fn commands_choose_a_discussion() {
    let mut state = shown();
    assert_eq!(next_discussion(&state, None, false), Ok(0));
    assert_eq!(next_discussion(&state, Some(0), true), Ok(3));
    assert_eq!(expand_discussion(&mut state, Some(1)), Ok(()));
    assert_eq!(state.expanded, vec!["B"]);
    assert_eq!(
        expand_discussion(&mut state, None),
        Err("No review discussion selected; use :review-next or :review-list")
    );
    let made = state.generation;
    let here = Some(context("main"));
    assert_eq!(
        list_choice(&mut state, 0, true, made, &here, &here),
        Ok(Some(Selecting::File))
    );
    assert_eq!(
        list_choice(&mut state, 1, true, made, &here, &Some(context("other"))),
        Err("Review context changed; reopen :review-list")
    );
    assert_eq!(state.selected, Some(0));
    assert_eq!(
        selected_label(&state, "/r", "main"),
        Some("@alice on a.rs:7".to_owned())
    );
    assert_eq!(selected_label(&state, "/r", "topic"), None);
    state.review = None;
    assert_eq!(next_discussion(&state, None, false), Err("loaded".to_owned()));
    assert!(matches!(refreshed(&state), Message::Status(m) if m == "loaded"));
    state.context = None;
    assert!(matches!(refreshed(&state), Message::Error(m) if m == "loaded"));
}

#[test]
fn git_actions_keep_their_message() {
    let mut state = shown();
    announce(&mut state, "/r", "main", "Committed x");
    state.invalidate(Some(context("main")));
    let generation = state.generation;
    let said = loaded(
        &mut state,
        generation,
        &context("main"),
        &Some(context("main")),
        Ok(Some(review())),
    )
    .unwrap();
    assert_eq!(text(&said), "Committed x");
    assert!(state.status.starts_with("o/r#5: 4 discussion(s)"));
    assert!(state.after_load.is_none());
    // Another branch's message waits.
    announce(&mut state, "/r", "other", "Committed y");
    let said = loaded(
        &mut state,
        generation,
        &context("main"),
        &Some(context("main")),
        Ok(None),
    )
    .unwrap();
    assert_eq!(
        text(&said),
        "Reviews: no open pull request for branch main; use :review-select owner/repo#number"
    );
    assert!(matches!(&state.after_load, Some(Place { text, .. }) if text == "Committed y"));
    state.pull = Some("o/r#5".into());
    assert_eq!(
        follow_push(&mut state, &context("main"), "Pushed"),
        Some(Some("o/r#5".to_owned()))
    );
    assert_eq!(follow_push(&mut state, &context("other"), "Pushed"), None);
    let mut hidden = State::default();
    announce(&mut hidden, "/r", "main", "x");
    assert!(hidden.after_load.is_none());
}

#[test]
fn selections_end_at_the_code_or_in_the_discussion() {
    let mut state = shown();
    let document = Rope::from(SOURCE);
    let blocks = map_blocks(&review(), "a.rs", &document, &vec![]);
    match finish_selection(&state, 1, &blocks, document.len_chars()) {
        Finish::Go(at, m) => {
            assert_eq!(at, 7);
            assert!(m.starts_with("Review 2/4 · "));
        }
        other => panic!("{other:?}"),
    }
    assert!(matches!(finish_selection(&state, 1, &blocks, 3), Finish::Go(3, _)));
    assert!(matches!(finish_selection(&state, 2, &blocks, 3), Finish::Discussion));
    assert!(matches!(finish_selection(&state, 7, &blocks, 3), Finish::Nothing));
    let at = Position {
        document: 3,
        view: 4,
        cursor: 5,
        version: 6,
    };
    assert_eq!(arrive(&mut state, 1, false, at), None);
    assert_eq!(arrive(&mut state, 1, true, at), Some("Mapping review location…"));
    assert_eq!(state.pending_selection.unwrap().cursor, 5);
    state.document = Some(11);
    let view = open_thread(&mut state, 3, true, Some(Placement::Exact)).unwrap();
    assert_eq!(view.document, Some(11));
    assert!(view.text.contains("Location mapped to current document\n"));
    assert_eq!(state.selected, Some(3));
    assert!(state.pending_selection.is_none());
    assert_eq!(open_thread(&mut state, 3, false, None).unwrap().document, None);
    assert!(open_thread(&mut state, 30, false, None).is_none());
}

// ---------------------------------------------------------------------------
// The session
// ---------------------------------------------------------------------------

#[test]
fn repositories_are_read() {
    assert_eq!(gitdir("gitdir: /x/y\n"), Some("/x/y".to_owned()));
    assert_eq!(gitdir("nothing"), None);
    assert_eq!(
        branch_reference("ref: refs/heads/a/b\n"),
        Some("refs/heads/a/b".to_owned())
    );
    assert_eq!(branch_reference("ref: refs/heads/../x\n"), None);
    assert_eq!(branch_reference("ref: refs/tags/x\n"), None);
    assert_eq!(relative_key("src//./a.rs"), Some("src/a.rs".to_owned()));
    assert_eq!(relative_key("/a.rs"), None);
    assert_eq!(relative_key("a/../b"), None);
    let packed = Repository {
        root: "/r".into(),
        git_dir: "/r/.git".into(),
        head: "ref: refs/heads/topic\n".into(),
        loose: None,
        packed: Some("# pack-refs\nabc refs/heads/other\ndef refs/heads/topic\n".into()),
        config: Some(vec![1]),
        worktree: Some(vec![2]),
    };
    let found = context_of(&packed).unwrap();
    assert_eq!((found.branch.as_str(), found.head.as_str()), ("topic", "def"));
    assert!(missing_context("/x", Some("/x/.git"), None).contains("no readable Git HEAD in /x/.git"));
}

#[test]
fn contexts_start_and_stop_loading() {
    let mut state = State {
        enabled: true,
        task: Some(3),
        ..State::default()
    };
    let sync = synchronize(&mut state, Some(context("main")), false, String::new());
    assert!(sync.changed && sync.attach);
    assert_eq!(sync.abort, Some(3));
    let load = sync.load.unwrap();
    assert_eq!(load.generation, state.generation);
    assert!(state.loading);
    assert_eq!(state.status, "Loading GitHub reviews…");
    // Nothing changes until something is loaded.
    let again = synchronize(&mut state, Some(context("main")), false, String::new());
    assert!(!again.changed && again.load.is_none());
    // A delayed result of another branch is rejected.
    assert!(loaded(
        &mut state,
        load.generation,
        &context("main"),
        &Some(context("other")),
        Ok(Some(review()))
    )
    .is_none());
    assert!(state.review.is_none());
    let failed = loaded(
        &mut state,
        load.generation,
        &context("main"),
        &Some(context("main")),
        Err("timeout\u{1b}".to_owned()),
    )
    .unwrap();
    assert!(matches!(&failed, Message::Error(m) if m == "Reviews: timeout"));
    assert_eq!(state.indicator().unwrap(), "reviews: error");
    let none = synchronize(&mut state, None, false, "no repository".to_owned());
    assert!(none.changed && none.load.is_none() && !none.attach);
    assert!(matches!(toggled(&state), Message::Error(m) if m == "no repository"));
    let before = state.generation;
    assert!(!synchronize(&mut state, Some(context("main")), true, String::new()).changed);
    assert_eq!(state.generation, before);
    toggle(&mut state);
    assert!(!state.enabled);
    assert_eq!(text(&toggled(&state)), "GitHub review comments hidden");
}

#[test]
fn refreshes_keep_the_selected_pull_request() {
    let mut state = shown();
    state.pull = Some("o/r#5".into());
    refresh(&mut state, Some(context("main")), None);
    assert_eq!(state.pull, Some("o/r#5".to_owned()));
    refresh(&mut state, Some(context("other")), None);
    assert_eq!(state.pull, None);
    refresh(&mut state, Some(context("other")), Some("o/r#6".to_owned()));
    assert_eq!(state.pull, Some("o/r#6".to_owned()));
}

#[test]
fn blocks_of_an_older_text_are_rejected() {
    let mut state = shown();
    let stamp = |version| Stamp {
        generation: 0,
        version,
        path: "/r/a.rs".into(),
    };
    let mut document = DocumentReview::default();
    let first = attach(&mut document, stamp(1), &review(), true, Some("a.rs".to_owned()));
    assert_eq!(first.place, Some("a.rs".to_owned()));
    document.task = Some(8);
    assert!(attach(&mut document, stamp(1), &review(), true, Some("a.rs".to_owned()))
        .place
        .is_none());
    // The text changes while discussions are being placed.
    let second = attach(&mut document, stamp(2), &review(), true, Some("a.rs".to_owned()));
    assert_eq!(second.abort, Some(8));
    let at = Position {
        document: 1,
        view: 1,
        cursor: 0,
        version: 2,
    };
    let placed = map_blocks(&review(), "a.rs", &Rope::from(SOURCE), &vec![]);
    assert_eq!(
        show_blocks(&mut state, &mut document, &stamp(1), &context("main"), true, 1, placed.clone(), at),
        None
    );
    assert!(document.blocks.is_empty());
    arrive(&mut state, 1, true, at);
    assert_eq!(
        show_blocks(&mut state, &mut document, &stamp(2), &context("main"), true, 1, placed, at),
        Some(1)
    );
    assert_eq!(document.blocks.len(), 2);
    assert!(state.pending_selection.is_none());
    // A file outside the repository, or without discussions, shows none.
    let mut outside = DocumentReview::default();
    assert!(attach(&mut outside, stamp(1), &review(), false, Some("a.rs".to_owned()))
        .place
        .is_none());
    assert!(attach(&mut outside, stamp(2), &review(), true, Some("z.rs".to_owned()))
        .place
        .is_none());
    expand(&mut state, "A");
    assert_eq!(state.expanded, vec!["A"]);
    assert_eq!(state.generation, 1);
    expand(&mut state, "A");
    assert!(state.expanded.is_empty());
}
