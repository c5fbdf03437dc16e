use devflow::api::read_answer;
use devflow::discussions::{
    entry_location, first_line, list_entries, list_location, list_preview, Found,
};
use devflow::drafts::reply_body;
use devflow::fetch::{unique_pull, Pull};
use devflow::github::{head_target, repository, valid_path, Remote};
use devflow::history::{hash_candidates, parse_hunk, parse_log, Commit, Touch};
use devflow::inline::{rows, Block, Layout, Reviews};
use devflow::json::Json;
use devflow::mapping::LineMapper;
use devflow::placement::{anchor, can_track, line_hunks, line_range, track, Hunk, Placement};
use devflow::replies::{draft_text, Target};
use devflow::review::{safe_text, Comment, Context, Review, State, Thread};
use devflow::rope::Rope;
use devflow::session::{context_of, missing_context, Repository};
use devflow::threads::{can_show_commit, parse_thread};
use std::ops::Range;
use std::sync::Arc;

fn hunk(old_start: usize, old_len: usize, new_start: usize, new_len: usize) -> Hunk {
    Hunk {
        old_start,
        old_len,
        new_start,
        new_len,
    }
}

fn json(text: &str) -> Json {
    read_answer(&format!("{{\"data\":{text}}}")).unwrap()
}

fn map_lines(source: &str, local: &Rope, lines: Range<usize>) -> Option<Range<usize>> {
    LineMapper::new(source, local)?.map(lines)
}

// ---------------------------------------------------------------------------
// Commits
// ---------------------------------------------------------------------------

#[test]
fn hunk_headers_and_log_parse() {
    assert_eq!(parse_hunk("@@ -3 +3,2 @@ fn x()"), Some(hunk(3, 1, 3, 2)));
    assert_eq!(parse_hunk("@@ -10,0 +11,4 @@"), Some(hunk(10, 0, 11, 4)));
    assert_eq!(parse_hunk("+@@ -1 +1 @@"), None);
    let log = "\x01aaa\ndiff --git a/x b/x\n@@ -1 +1 @@\n-a\n+b\n+@@ -9 +9 @@\n\x01bbb\n";
    let entries = parse_log(log);
    assert_eq!(entries.len(), 2);
    assert_eq!(entries[0].sha, "aaa");
    assert_eq!(entries[0].hunks, vec![hunk(1, 1, 1, 1)]);
    assert_eq!(entries[1].sha, "bbb");
    assert_eq!(entries[1].hunks, vec![]);
}

#[test]
fn hash_words_are_bounded_and_unique() {
    assert_eq!(
        hash_candidates("Fixed in 0123abcd, see 0123abcd and deadbee! not cafe or g123456x"),
        vec!["0123abcd", "deadbee"]
    );
    assert!(hash_candidates(&"a".repeat(41)).is_empty());
}

// ---------------------------------------------------------------------------
// GitHub
// ---------------------------------------------------------------------------

fn a_pull() -> Pull {
    Pull {
        repo: "o/r".into(),
        number: 1,
        url: "https://github.com/o/r/pull/1".into(),
        head_repo: None,
    }
}

#[test]
fn no_pull_is_graceful_and_multiple_pulls_are_explicit() {
    assert!(unique_pull(vec![]).unwrap().is_none());
    assert_eq!(unique_pull(vec![a_pull()]).unwrap().unwrap().number, 1);
    assert!(unique_pull(vec![a_pull(), a_pull()])
        .unwrap_err()
        .contains("Ambiguous branch association"));
}

fn remotes(list: &[(&str, &str)]) -> Vec<Remote> {
    list.iter()
        .map(|(name, repo)| Remote {
            name: name.to_string(),
            repo: repo.to_string(),
        })
        .collect()
}

fn expect(repo: &str, branches: &[&str]) -> (String, Vec<String>) {
    (
        repo.to_owned(),
        branches.iter().map(|b| b.to_string()).collect(),
    )
}

#[test]
fn triangular_fork_uses_push_identity() {
    let repos = remotes(&[("origin", "me/fork"), ("upstream", "org/repo")]);
    assert_eq!(
        head_target(
            &repos,
            "feature",
            Some("upstream"),
            Some("refs/heads/main"),
            Some("origin"),
            None
        )
        .unwrap(),
        expect("me/fork", &["feature"])
    );
    assert_eq!(
        head_target(
            &repos,
            "feature",
            Some("upstream"),
            Some("refs/heads/main"),
            None,
            None
        )
        .unwrap(),
        expect("me/fork", &["feature"])
    );
    assert_eq!(
        head_target(
            &repos,
            "local-alias",
            Some("origin"),
            Some("refs/heads/topic"),
            None,
            Some("refs/remotes/origin/topic")
        )
        .unwrap(),
        expect("me/fork", &["topic"])
    );
    assert!(head_target(&repos, "feature", None, None, Some("unsupported"), None).is_err());
}

/// push.default=simple cannot resolve @{push} when the local name differs
/// from its upstream. The upstream name is a fallback within the same remote.
#[test]
fn renamed_local_branch_falls_back_to_upstream_name() {
    let repos = remotes(&[("origin", "me/fork"), ("upstream", "org/repo")]);
    assert_eq!(
        head_target(
            &repos,
            "local-alias",
            Some("origin"),
            Some("refs/heads/topic"),
            None,
            None
        )
        .unwrap(),
        expect("me/fork", &["local-alias", "topic"])
    );
    // Tracking another repository's branch never changes the head branch.
    assert_eq!(
        head_target(
            &repos,
            "feature",
            Some("upstream"),
            Some("refs/heads/main"),
            None,
            None
        )
        .unwrap()
        .1,
        vec!["feature".to_owned()]
    );
    let single = remotes(&[("github", "o/r")]);
    assert_eq!(
        head_target(
            &single,
            "mine",
            Some("github"),
            Some("refs/heads/SS-1-topic"),
            None,
            None
        )
        .unwrap(),
        expect("o/r", &["mine", "SS-1-topic"])
    );
}

#[test]
fn paths_and_remotes() {
    for path in [
        "../secret",
        "/etc/passwd",
        "a/../../b",
        "a\\b",
        "C:/x",
        "a/.git/config",
        "a//b",
        "./b",
        "x\x1b[31m",
    ] {
        assert!(!valid_path(path), "{path:?}");
    }
    assert!(valid_path("src/a file.rs"));
    assert_eq!(
        repository("git@github.com:owner/repo.git"),
        Some("owner/repo".into())
    );
    assert!(repository("https://evil.example/owner/repo").is_none());
}

fn raw_thread(path: &str, side: &str, outdated: bool) -> Json {
    json(&format!(
        "{{\"id\":\"thread\",\"path\":\"{path}\",\"line\":3,\"startLine\":2,\"diffSide\":\"{side}\",\"isOutdated\":{outdated},\"isResolved\":true}}"
    ))
}

#[test]
fn only_current_right_side_is_anchorable() {
    let comments = vec![json(
        "{\"author\":{\"login\":\"a\"},\"body\":\"hello\\u001b\",\"diffHunk\":\"@@ old\",\"url\":\"url\"}",
    )];
    assert!(can_show_commit(&comments));
    let thread = parse_thread(&raw_thread("a.rs", "RIGHT", false), &comments).unwrap();
    assert_eq!(thread.lines, Some(2..4));
    assert!(thread.resolved);
    assert_eq!(thread.comments[0].author, "a");
    assert_eq!(thread.comments[0].body, "hello");
    assert!(parse_thread(&raw_thread("a.rs", "LEFT", false), &comments)
        .unwrap()
        .lines
        .is_none());
    assert!(parse_thread(&raw_thread("a.rs", "RIGHT", true), &comments)
        .unwrap()
        .lines
        .is_none());
    assert!(parse_thread(&raw_thread("../x", "RIGHT", false), &comments)
        .unwrap()
        .lines
        .is_none());
}

// ---------------------------------------------------------------------------
// Placement
// ---------------------------------------------------------------------------

#[test]
fn map_revision_and_local_shifts() {
    let source = "one\ntwo\nthree\nfour\nfive\nsix\nseven\neight\n";
    assert_eq!(map_lines(source, &Rope::from(source), 4..6), Some(14..24));
    let local = Rope::from(&format!("unsaved\n{source}"));
    assert_eq!(map_lines(source, &local, 4..6), Some(22..32));
    assert_eq!(
        map_lines(source, &Rope::from(&source.replace("four", "changed")), 4..6),
        None
    );
    assert_eq!(
        map_lines(source, &Rope::from(&source.replace("four\n", "")), 4..6),
        None
    );
}

#[test]
fn rejects_ambiguous_and_invalid_anchors() {
    let block = "a\nb\nc\nd\ne\nf\ng\n";
    let source = format!("{block}{block}");
    assert!(map_lines(&source, &Rope::from(&format!("x\n{source}")), 4..5).is_none());
    assert!(map_lines(block, &Rope::from(block), 0..1).is_none());
    assert!(map_lines(block, &Rope::from(block), 100..101).is_none());
    assert!(map_lines(block, &Rope::from(&format!("prefix{block}")), 4..5).is_none());
    assert!(map_lines(&"a\n".repeat(8), &Rope::from(&"a\n".repeat(7)), 4..5).is_none());
    assert!(map_lines(
        "one\ntwo\nthree\nfour",
        &Rope::from("one\ntwo\nthree\nfourChanged"),
        4..5
    )
    .is_none());
}

#[test]
fn overlapping_repetition_and_unterminated_changed_line_are_unavailable() {
    assert!(map_lines(&"a\n".repeat(8), &Rope::from(&"a\n".repeat(7)), 4..5).is_none());
    assert!(map_lines(
        "one\ntwo\nthree\nfour",
        &Rope::from("one\ntwo\nthree\nfourChanged"),
        4..5
    )
    .is_none());
    assert_eq!(
        map_lines(
            "one\ntwo\nthree\nfour",
            &Rope::from("prefix\none\ntwo\nthree\nfour"),
            4..5
        ),
        Some(21..25)
    );
}

#[test]
fn many_anchors_share_one_large_document_snapshot() {
    let source: String = (0..100_000).map(|i| format!("unique line {i}\n")).collect();
    let local = Rope::from(&format!("unsaved\n{source}"));
    let start = std::time::Instant::now();
    let mapper = LineMapper::new(&source, &local).unwrap();
    for line in (1000..100_000).step_by(1000) {
        let mapped = mapper.map(line..line + 1).unwrap();
        assert_eq!(local.char_to_line(mapped.start), line);
    }
    println!(
        "Mapped 99 discussions in a {}-byte modified document in {:?}",
        source.len(),
        start.elapsed()
    );
}

#[test]
fn tracking_follows_shifts_and_detects_touches() {
    // Lines 10-12. An edit above shifts the range without touching it.
    assert_eq!(track(10..13, &[hunk(2, 1, 2, 3)]), (false, 12..15));
    // Deletion above.
    assert_eq!(track(10..13, &[hunk(2, 2, 1, 0)]), (false, 8..11));
    // An edit below is unrelated.
    assert_eq!(track(10..13, &[hunk(20, 1, 20, 1)]), (false, 10..13));
    // Changing a discussed line.
    assert_eq!(track(10..13, &[hunk(11, 1, 11, 1)]), (true, 10..13));
    // Replacing the whole range with more lines widens it.
    assert_eq!(track(10..13, &[hunk(10, 3, 10, 5)]), (true, 10..15));
    // Inserting directly after the last line (a missing check) counts.
    assert_eq!(track(10..13, &[hunk(12, 0, 13, 2)]), (true, 10..15));
    // Inserting directly before the first line counts too.
    assert_eq!(track(10..13, &[hunk(9, 0, 10, 1)]), (true, 10..14));
    // Inserting further away does not.
    assert_eq!(track(10..13, &[hunk(13, 0, 14, 1)]), (false, 10..13));
    // Deleting the discussed lines keeps a one-line anchor.
    assert!(can_track(&(10..13), &[hunk(10, 3, 9, 0)]));
    let (touched, range) = track(10..13, &[hunk(10, 3, 9, 0)]);
    assert!(touched);
    assert_eq!(range.len(), 1);
}

#[test]
fn line_hunks_use_git_zero_context_coordinates() {
    let base = "a\nb\nc\n";
    assert_eq!(line_hunks(base, base), vec![]);
    assert_eq!(line_hunks(base, "a\nx\nb\nc\n"), vec![hunk(1, 0, 2, 1)]);
    assert_eq!(line_hunks(base, "a\nc\n"), vec![hunk(2, 1, 1, 0)]);
    assert_eq!(line_hunks(base, "a\nB\nc\n"), vec![hunk(2, 1, 2, 1)]);
    assert_eq!(line_hunks(base, "x\na\nb\nc\n"), vec![hunk(0, 0, 1, 1)]);
    assert_eq!(line_hunks(base, ""), vec![hunk(1, 3, 0, 0)]);
}

/// Place line `line` of `source` in `local`: the placement and the
/// one-based local line the block's range starts on.
fn place(source: &str, local: &str, line: usize) -> (Placement, usize) {
    let local = Rope::from(local);
    let (range, placement) = LineMapper::new(source, &local)
        .unwrap()
        .place(line..line + 1);
    assert!(range.end <= local.len_chars());
    (placement, local.char_to_line(range.start) + 1)
}

#[test]
fn placement_follows_changed_code() {
    let source =
        "fn a() {\n    one();\n}\n\nfn b() {\n    two();\n}\n\nfn c() {\n    three();\n}\n";
    // Unchanged, and shifted by an unsaved edit: exact.
    assert_eq!(place(source, source, 6), (Placement::Exact, 6));
    let shifted = format!("// new\n{source}");
    assert_eq!(place(source, &shifted, 6), (Placement::Exact, 7));
    // The discussed line itself changed.
    let changed = source.replace("two();", "two(1);");
    assert_eq!(place(source, &changed, 6), (Placement::Changed, 6));
    // Only the context window changed.
    let context = source.replace("fn b() {", "fn b(x: u8) {");
    assert_eq!(place(source, &context, 6), (Placement::Changed, 6));
    // The discussed line was deleted: shown at the remaining line above it.
    let deleted = source.replace("    two();\n", "");
    assert_eq!(place(source, &deleted, 6), (Placement::Changed, 5));
    // A change combined with a shift.
    let both = format!("x\ny\nz\n{changed}");
    assert_eq!(place(source, &both, 6), (Placement::Changed, 9));
    // Undoing the change restores the exact location.
    assert_eq!(place(source, source, 10), (Placement::Exact, 10));
    // Code the exact mapper rejects as ambiguous follows the diff.
    let repeated = format!("{source}{source}");
    assert_eq!(
        place(&repeated, &format!("x\n{repeated}"), 17),
        (Placement::Changed, 18)
    );
    // Short, empty and unterminated documents stay in bounds.
    assert_eq!(place(source, "short\n", 10), (Placement::Changed, 1));
    assert_eq!(place(source, "", 10), (Placement::Changed, 1));
    assert_eq!(place(source, "fn a() {", 10).1, 1);
    // Lines outside the snapshot keep the original number, clamped.
    assert_eq!(place(source, &changed, 40), (Placement::Approximate, 11));
    assert_eq!(place(source, source, 40), (Placement::Approximate, 11));
}

#[test]
fn lines_behind_the_last_line_feed_are_outside_the_snapshot() {
    let place = |source: &str, local: &str, line: usize| {
        let local = Rope::from(local);
        let mapper = LineMapper::new(source, &local).unwrap();
        let (range, placement) = mapper.place(line..line + 1);
        (range, placement)
    };
    let outside = Placement::Approximate;
    assert_eq!(place("a\nb\n", "x\na\nb\n", 3), (4..6, outside));
    assert_eq!(place("a\nb\n", "a\nb\n", 3), (2..4, outside));
    assert_eq!(place("", "x\n", 1), (0..2, outside));
    assert_eq!(place("a\nb\n", "x\na\nb\n", 2), (4..6, Placement::Exact));
    assert_eq!(place("a\nb", "x\na\nb", 2), (4..5, Placement::Exact));
    assert_eq!(place("a\nb", "x\na\nb", 3), (4..5, outside));
}

#[test]
fn ranges_and_anchors_in_short_and_empty_documents() {
    let empty = Rope::from("");
    assert_eq!(line_range(&empty, 3..4), 0..0);
    assert_eq!(anchor(&empty, &(0..0)), 0);
    let unterminated = Rope::from("a\nb");
    assert_eq!(line_range(&unterminated, 5..6), 2..3);
    assert_eq!(anchor(&unterminated, &(2..3)), 3);
    let terminated = Rope::from("a\nb\n");
    assert_eq!(line_range(&terminated, 9..10), 2..4);
    assert_eq!(line_range(&terminated, 1..3), 0..4);
    assert_eq!(anchor(&terminated, &(2..4)), 3);
    let crlf = Rope::from("a\r\nb\r\n");
    assert_eq!(line_range(&crlf, 1..2), 0..3);
    assert_eq!(anchor(&crlf, &(0..3)), 1);
}

// ---------------------------------------------------------------------------
// Inline blocks
// ---------------------------------------------------------------------------

#[test]
fn block_titles_name_placement_and_github_state() {
    let thread = Arc::new(Thread {
        outdated: true,
        comments: vec![Comment {
            author: "a".into(),
            body: "body".into(),
        }],
        ..Default::default()
    });
    let block = |placement| Block {
        thread: thread.clone(),
        range: 0..0,
        anchor: 0,
        expanded: false,
        placement,
    };
    assert_eq!(
        rows(&block(Placement::Changed), 200)[0],
        "[+] @a · open · outdated · 1 comment(s) · code changed"
    );
    assert_eq!(
        rows(&block(Placement::Exact), 200)[0],
        "[+] @a · open · outdated · 1 comment(s)"
    );
    assert!(rows(&block(Placement::Approximate), 200)[0].ends_with("· approximate location"));
}

/// The screen rows of two lines of code with the blocks under the first one,
/// starting at row `offset`.
fn draw(
    width: u16,
    offset: usize,
    expanded: bool,
    soft_wrap: bool,
    extra_block: bool,
    hint: bool,
) -> Vec<String> {
    let thread = Arc::new(Thread {
        id: "1".into(),
        path: "a.rs".into(),
        lines: Some(1..2),
        location: "a.rs:1".into(),
        comments: vec![
            Comment {
                author: "maintainer".into(),
                body: "review body 界\nsecond paragraph".into(),
            },
            Comment {
                author: "reply".into(),
                body: "reply body".into(),
            },
        ],
        ..Default::default()
    });
    let block = Block {
        thread,
        range: 0..17,
        anchor: 16,
        expanded,
        placement: Placement::Exact,
    };
    let mut blocks = vec![block.clone()];
    if extra_block {
        blocks.push(block);
    }
    let mut code = "abcdefghijklmnop".to_owned();
    if hint {
        code.push_str(" very long inlay hint");
    }
    code.push(' ');
    let cells: Vec<char> = code.chars().collect();
    let mut screen: Vec<String> = if soft_wrap {
        cells
            .chunks(usize::from(width))
            .map(|row| row.iter().collect())
            .collect()
    } else {
        vec![cells.iter().collect()]
    };
    // The rows reserved below the code are the rows drawn there.
    let mut layout = Layout::new(&blocks, width);
    let mut reviews = Reviews::new(&blocks, width);
    assert_eq!(layout.reset(0), 16);
    let mut next = reviews.layout.reset(0);
    while next == 16 {
        next = reviews.layout.anchor();
        assert_eq!(layout.anchor(), next);
    }
    let reserved = layout.take_rows();
    assert_eq!(
        reserved.len(),
        blocks.iter().map(|b| rows(b, width).len()).sum::<usize>()
    );
    let last: u16 = (screen.len() - 1) as u16;
    let drawn = reviews.render(last, 1);
    assert_eq!(drawn.len(), reserved.len());
    for (i, virtual_text) in drawn.into_iter().enumerate() {
        assert_eq!(virtual_text.text, format!("│ {}", reserved[i]));
        assert_eq!(virtual_text.row, screen.len());
        screen.push(virtual_text.text);
    }
    screen.push("next".to_owned());
    screen.split_off(offset)
}

#[test]
fn blocks_reserve_and_draw_below_code_with_scroll_wrap_and_multiple_threads() {
    let rows = draw(60, 0, false, false, false, false);
    assert!(rows[0].starts_with("abcdefghijklmnop"));
    assert!(rows[1].contains("[+] @maintainer"));
    assert!(rows[2].contains("review body"));
    assert!(rows[3].starts_with("next"));
    let scrolled = draw(60, 2, false, false, false, false);
    assert!(scrolled[0].contains("review body"));
    assert!(scrolled[1].starts_with("next"));
    let expanded = draw(60, 0, true, false, true, false);
    assert!(expanded.iter().any(|r| r.contains("reply body")));
    assert_eq!(
        expanded
            .iter()
            .filter(|r| r.contains("[-] @maintainer"))
            .count(),
        2
    );
    let wrapped = draw(8, 0, false, true, false, false);
    assert!(wrapped[0].starts_with("abcdefgh"));
    assert!(wrapped[1].starts_with("ijklmnop"));
    assert!(wrapped[3].starts_with("│ [+]"));
    let hints = draw(8, 0, false, true, false, true);
    let hint_row = hints.iter().position(|row| row.contains("hint")).unwrap();
    let comment_row = hints
        .iter()
        .position(|row| row.starts_with("│ [+]"))
        .unwrap();
    assert!(hint_row < comment_row, "{hints:?}");
    draw(1, 0, true, true, true, false); // tiny split and wide characters must not panic
}

// ---------------------------------------------------------------------------
// State
// ---------------------------------------------------------------------------

#[test]
fn invalidation_cancels_pending_work() {
    let mut state = State {
        task: Some(7),
        ..State::default()
    };
    assert_eq!(state.invalidate(None), Some(7));
    assert_eq!(state.task, None);
    assert_eq!(state.invalidate(None), None);
}

fn a_review() -> Review {
    let thread = |id: &str, lines, resolved| {
        Arc::new(Thread {
            id: id.into(),
            path: "a.rs".into(),
            lines,
            location: String::new(),
            resolved,
            comments: vec![],
            diff: String::new(),
            url: String::new(),
            ..Default::default()
        })
    };
    Review {
        label: "o/repo#12 @ abc".into(),
        threads: vec![
            thread("1", Some(1..2), false),
            thread("2", None, false),
            thread("3", Some(3..4), true),
        ],
        ..Default::default()
    }
}

#[test]
fn summary_and_indicator_explain_counts() {
    let review = a_review();
    assert_eq!(review.pull(), "o/repo#12");
    assert_eq!(review.open_count(), 2);
    let summary = review.summary();
    assert!(summary.contains("3 discussion(s), 2 open"), "{summary}");
    assert!(
        summary.contains("2 inline (0 outdated), 1 old-side/file-level"),
        "{summary}"
    );
    let empty = Review {
        threads: vec![],
        ..a_review()
    };
    assert_eq!(empty.summary(), "o/repo#12: no review discussions");

    let mut state = State::default();
    assert_eq!(state.indicator(), None);
    state.enabled = true;
    assert_eq!(state.indicator().unwrap(), "reviews: no PR");
    state.loading = true;
    assert_eq!(state.indicator().unwrap(), "reviews: loading");
    state.loading = false;
    state.failed = true;
    assert_eq!(state.indicator().unwrap(), "reviews: error");
    state.review = Some(Arc::new(review));
    assert_eq!(state.indicator().unwrap(), "repo#12 2/3 open");
    state.invalidate(None);
    assert!(!state.failed);
}

fn a_context() -> Context {
    Context {
        root: "/r".into(),
        git_dir: "/r/.git".into(),
        branch: "main".into(),
        head: "abc".into(),
        config: Vec::new(),
    }
}

#[test]
fn controls_and_context_generations() {
    assert_eq!(safe_text("a\x1b[31m\r\u{202e}b\t\nc"), "a[31mb \nc");
    let context = a_context();
    let mut state = State {
        enabled: true,
        ..State::default()
    };
    state.invalidate(Some(context.copy()));
    let old = state.generation;
    assert!(state.accepts(old, &context));
    state.invalidate(Some(context.copy()));
    assert!(!state.accepts(old, &context));
    state.enabled = false;
    assert!(!state.accepts(state.generation, &context));
}

// ---------------------------------------------------------------------------
// Replies and lists
// ---------------------------------------------------------------------------

#[test]
fn draft_context_is_never_part_of_the_body() {
    let target = Target {
        context: Context {
            root: "/r".into(),
            git_dir: "/r/.git".into(),
            branch: "topic".into(),
            head: "abc".into(),
            config: vec![],
        },
        repo: "o/r".into(),
        number: 5,
        thread: Arc::new(Thread {
            id: "T".into(),
            path: "a.rs".into(),
            lines: Some(12..13),
            comments: vec![Comment {
                author: "alice".into(),
                body: "Handle empty input?\n\nThanks".into(),
            }],
            ..Thread::default()
        }),
    };
    let commit = Commit {
        sha: "0123456789abcdef0123456789abcdef01234567".into(),
        subject: "fix: empty input".into(),
        date: "2026-09-24".into(),
        touch: Touch::Lines,
        pushed: None,
    };
    let text = draft_text(&target, Some(&commit), "");
    assert!(text.contains("Reply to @alice on a.rs:12 · open · o/r#5"));
    assert!(text.contains("0123456789 fix: empty input"));
    assert!(text.contains("> Handle empty input?\n>\n> Thanks\n"));
    assert_eq!(
        reply_body(&text).unwrap_err(),
        "Reply is empty; write it above the separator line"
    );
    let written = format!("Fixed in {}.\nAlso added a test.\n{text}", commit.sha);
    assert_eq!(
        reply_body(&written).unwrap(),
        format!("Fixed in {}.\nAlso added a test.", commit.sha)
    );
    let prefilled = draft_text(&target, Some(&commit), "Fixed in x.");
    assert_eq!(reply_body(&prefilled).unwrap(), "Fixed in x.");
    assert!(reply_body("text without separator").is_err());
}

#[test]
fn list_rows_and_previews_stay_inside_the_repository() {
    let root = "/work";
    let thread = |path: &str, lines| {
        Arc::new(Thread {
            id: path.into(),
            path: path.into(),
            lines,
            location: String::new(),
            resolved: false,
            comments: vec![Comment {
                author: "a".into(),
                body: "\n  first line\nsecond".into(),
            }],
            diff: String::new(),
            url: String::new(),
            ..Default::default()
        })
    };
    let review = Review {
        label: "o/r#1 @ abc".into(),
        threads: vec![
            thread("a.rs", Some(1..2)),
            thread("../a.rs", Some(1..2)),
            thread("missing.rs", Some(2..5)),
            thread("a.rs", None),
        ],
        ..Default::default()
    };
    // Only a.rs is a file whose real path lies in the repository.
    let own = vec![true, false, false, true];
    let entries = list_entries(&review, Some(root), &own);
    assert_eq!(entries[0].path, Some("/work/a.rs".to_owned()));
    assert!(entries[1].path.is_none());
    assert!(entries[2].path.is_none());
    assert!(list_preview(&vec![], &entries[1]).is_none());
    assert_eq!(list_entries(&review, None, &own)[0].path, None);
    assert_eq!(list_location(&review.threads[0]), "a.rs:1");
    assert_eq!(list_location(&review.threads[2]), "missing.rs:2-4");
    assert_eq!(list_location(&review.threads[3]), "a.rs (no line)");
    let outdated = Thread {
        location: "a.rs:? (outdated, RIGHT, original 3, commit abc)".into(),
        outdated: true,
        ..(*review.threads[3]).clone()
    };
    assert_eq!(list_location(&outdated), "a.rs (outdated)");
    // Listed placements show the local position and how it was derived.
    let mut entry = list_entries(&review, Some(root), &own).remove(0);
    let found = |placement, first, last| {
        Some(Found {
            placement,
            first,
            last,
        })
    };
    entry.placement = found(Placement::Exact, 0, 0);
    assert_eq!(entry_location(&entry), "a.rs:1");
    entry.placement = found(Placement::Changed, 4, 6);
    assert_eq!(entry_location(&entry), "a.rs:5-7 · code changed");
    entry.placement = found(Placement::Approximate, 2, 2);
    assert_eq!(entry_location(&entry), "a.rs:3 · approximate location");
    assert_eq!(first_line(&review.threads[0]), "first line");
    let long = Thread {
        comments: vec![Comment {
            author: "a".into(),
            body: "x".repeat(100),
        }],
        ..(*review.threads[0]).clone()
    };
    assert_eq!(first_line(&long), format!("{}…", "x".repeat(39)));
}

// ---------------------------------------------------------------------------
// Repositories
// ---------------------------------------------------------------------------

fn a_repository(head: &str, loose: Option<&str>) -> Repository {
    Repository {
        root: "/work".into(),
        git_dir: "/git".into(),
        head: head.into(),
        loose: loose.map(|s| s.to_owned()),
        packed: None,
        config: None,
        worktree: None,
    }
}

#[test]
fn tracks_worktree_branch_oid_and_remote_changes() {
    let first = context_of(&a_repository("ref: refs/heads/topic\n", Some("aaa\n"))).unwrap();
    let second = context_of(&a_repository("ref: refs/heads/topic\n", Some("bbb\n"))).unwrap();
    assert!(!first.same(&second));
    let mut changed = a_repository("ref: refs/heads/topic\n", Some("bbb\n"));
    changed.config = Some("remote changed".into());
    assert!(!second.same(&context_of(&changed).unwrap()));
    assert!(second.same(&second.copy()));
    assert!(context_of(&a_repository("detached\n", Some("bbb\n"))).is_none());
}

#[test]
fn missing_context_is_explained() {
    assert!(missing_context("/tmp/x", None, None).contains("not inside a Git repository"));
    assert!(context_of(&a_repository("ref: refs/heads/unborn\n", None)).is_none());
    assert!(missing_context(
        "/tmp/x/repo",
        Some("/tmp/x/repo/.git"),
        Some("ref: refs/heads/unborn\n")
    )
    .contains("cannot read branch unborn"));
    assert!(missing_context(
        "/tmp/x/repo/sub",
        Some("/tmp/x/repo/.git"),
        Some("0123abcd\n")
    )
    .contains("detached HEAD"));
}
