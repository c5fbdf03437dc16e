use devflow::api::{
    blob_request, comments_request, cursor, discover_request, graphql_errors, nodes,
    parent_request, pull_request, read_answer, read_pull_head, read_reply, read_resolved,
    reply_request, resolve_request, shorten, string, thread_request, threads_request, write_error,
    About, PullHead,
};
use devflow::fetch::{
    comment_size, comment_sizes, matching_pulls, next_cursor, select_pull, small_file, Discovery,
    Fetch, FileAt, Pull, Replies, Search, Searching,
};
use devflow::github::{head_target, names, repository, valid_oid, Remote};
use devflow::history::{
    can_follow, changes_arguments, discussed_commit, hash_candidates, list, mentions_commit,
    parse_commit, parse_log, recent_arguments, suggest, touching, unpushed_references, Reference, Touch, Touching,
};
use devflow::json::Json;
use devflow::review::{Comment, Thread};
use devflow::threads::parse_thread;

fn json(text: &str) -> Json {
    read_answer(&format!("{{\"data\":{text}}}")).unwrap()
}

fn text_of(bytes: Option<Vec<u8>>) -> String {
    String::from_utf8(bytes.unwrap()).unwrap()
}

const SHA: &str = "0123456789abcdef0123456789abcdef01234567";
const OTHER: &str = "89abcdef0123456789abcdef0123456789abcdef";

// ---------------------------------------------------------------------------
// Requests
// ---------------------------------------------------------------------------

#[test]
fn replies_are_sent_as_variables() {
    let body = "\"}) { evil } \\ $(x)";
    let request = reply_request("T1", body).unwrap();
    assert!(!request.query.contains("evil"));
    let encoded = text_of(request.encode());
    assert!(encoded.contains("\"body\":\"\\\"}) { evil } \\\\ $(x)\""), "{encoded}");
    assert!(encoded.contains("\"id\":\"T1\""));
    let value: serde_json::Value = serde_json::from_str(&encoded).unwrap();
    assert_eq!(value["query"], serde_json::Value::from(request.query));
    assert_eq!(value["variables"]["body"], serde_json::Value::from(body));
}

#[test]
fn empty_and_oversized_replies_are_refused() {
    assert_eq!(reply_request("T", " \n\t").unwrap_err(), "Reply is empty");
    assert!(reply_request("T", &"x".repeat(65536)).is_ok());
    assert_eq!(
        reply_request("T", &"x".repeat(65537)).unwrap_err(),
        "Reply exceeds GitHub's comment size limit"
    );
    assert_eq!(
        reply_request("T", &"é".repeat(40000)).unwrap_err(),
        "Reply exceeds GitHub's comment size limit"
    );
}

#[test]
fn requests_carry_their_arguments() {
    assert!(resolve_request("T", true).query.contains("resolveReviewThread"));
    assert!(resolve_request("T", false).query.contains("unresolveReviewThread"));
    assert!(text_of(thread_request("T9").encode()).contains("\"id\":\"T9\""));
    let first = text_of(comments_request("T", &None).encode());
    assert!(first.contains("\"after\":null"), "{first}");
    let next = text_of(comments_request("T", &Some("c1".to_owned())).encode());
    assert!(next.contains("\"after\":\"c1\""));
    let found = text_of(discover_request("o", "r", "topic", &None).encode());
    assert!(found.contains("\"branch\":\"topic\""));
    assert!(text_of(parent_request("o", "r").encode()).contains("\"owner\":\"o\""));
    assert!(text_of(blob_request("o", "r", "abc", "src/a b.rs").encode())
        .contains("\"expression\":\"abc:src/a b.rs\""));
    assert!(text_of(pull_request(About::Head, "o", "r", 12).encode()).contains("\"number\":12"));
    assert!(pull_request(About::Stamp, "o", "r", 12).query.contains("updatedAt"));
    assert!(text_of(threads_request("o", "r", 3, &None).encode()).contains("\"number\":3"));
}

// ---------------------------------------------------------------------------
// Answers
// ---------------------------------------------------------------------------

#[test]
fn answers_have_data_or_say_why_not() {
    let data = read_answer("{\"data\":{\"a\":\"b\"}}").unwrap();
    assert_eq!(data.text("a"), Some("b"));
    assert_eq!(
        read_answer("{\"x\":1}").unwrap_err(),
        "GitHub returned no data"
    );
    assert!(read_answer("not json").unwrap_err().contains("line 1"));
    assert_eq!(
        read_answer("{\"data\":null,\"errors\":[{\"message\":\"one\\u001b\"},{\"x\":1},{\"message\":\"two\"}]}")
            .unwrap_err(),
        "GitHub query failed: one; two"
    );
    // Errors without messages are shown as they are.
    assert_eq!(
        read_answer("{\"errors\":{\"code\":1}}").unwrap_err(),
        "GitHub query failed: {\"code\":1}"
    );
}

#[test]
fn shown_errors_are_bounded() {
    let long = json(&format!("[{{\"message\":\"{}\"}}]", "é".repeat(600)));
    assert_eq!(graphql_errors(&long, ""), "é".repeat(500));
    assert_eq!(shorten("abc", 2), "ab");
    assert_eq!(shorten("abc", 3), "abc");
}

#[test]
fn access_problems_say_what_to_check() {
    let hint = "(needs write access to the repository and a gh token with the repo scope; check `gh auth status`)";
    assert_eq!(
        write_error("Reply", "Resource NOT ACCESSIBLE by token"),
        format!("Reply failed: Resource NOT ACCESSIBLE by token {hint}")
    );
    assert_eq!(write_error("Reply", "timeout"), "Reply failed: timeout");
}

#[test]
fn fields_and_connections_have_to_be_there() {
    let value = json("{\"nodes\":[1,2],\"name\":\"n\",\"pageInfo\":{\"hasNextPage\":true,\"endCursor\":\"c\"}}");
    assert_eq!(string(&value, "name").unwrap(), "n");
    assert_eq!(
        string(&value, "nodes").unwrap_err(),
        "Missing GitHub field nodes"
    );
    assert_eq!(nodes(&value).unwrap().len(), 2);
    assert_eq!(
        nodes(&json("{}")).unwrap_err(),
        "Missing GitHub connection"
    );
    assert_eq!(cursor(&value).unwrap(), Some("c".to_owned()));
    assert_eq!(
        cursor(&json("{\"pageInfo\":{\"hasNextPage\":false}}")).unwrap(),
        None
    );
    assert_eq!(
        cursor(&json("{\"pageInfo\":{\"hasNextPage\":true}}")).unwrap_err(),
        "Missing GitHub field endCursor"
    );
    assert_eq!(
        cursor(&json("{}")).unwrap_err(),
        "Missing GitHub pagination state"
    );
    assert_eq!(
        next_cursor(&value, 0, "too many").unwrap(),
        Some("c".to_owned())
    );
    assert_eq!(next_cursor(&value, 1000, "too many").unwrap_err(), "too many");
    assert_eq!(
        next_cursor(&json("{\"pageInfo\":{\"hasNextPage\":false}}"), 1000, "too many").unwrap(),
        None
    );
}

#[test]
fn heads_replies_and_states_are_read() {
    let head = |oid: &str| {
        json(&format!(
            "{{\"repository\":{{\"pullRequest\":{{\"headRefOid\":\"{oid}\",\"headRefName\":\"topic\",\"baseRefOid\":\"nonsense\"}}}}}}"
        ))
    };
    let read = read_pull_head(&head(SHA)).unwrap();
    assert_eq!(read.oid, SHA);
    assert_eq!(read.name, "[deleted]:topic");
    assert_eq!(read.base, None);
    assert_eq!(
        read_pull_head(&head("xyz")).unwrap_err(),
        "Invalid PR revision"
    );
    assert_eq!(
        read_pull_head(&json("{}")).unwrap_err(),
        "Missing GitHub field headRefOid"
    );
    assert_eq!(
        read_reply(&json(
            "{\"addPullRequestReviewThreadReply\":{\"comment\":{\"url\":\"https://x\\u001b\"}}}"
        ))
        .unwrap(),
        "https://x"
    );
    assert_eq!(
        read_reply(&json("{}")).unwrap_err(),
        "Reply failed: GitHub returned no comment"
    );
    assert!(read_resolved(
        &json("{\"resolveReviewThread\":{\"thread\":{\"isResolved\":true}}}"),
        true
    )
    .unwrap());
    assert!(read_resolved(&json("{}"), true).is_err());
    assert!(read_resolved(
        &json("{\"resolveReviewThread\":{\"thread\":{\"isResolved\":true}}}"),
        false
    )
    .is_err());
}

// ---------------------------------------------------------------------------
// Repositories and pull requests
// ---------------------------------------------------------------------------

#[test]
fn remotes_name_repositories() {
    for url in [
        "https://github.com/owner/repo",
        "https://github.com/owner/repo.git",
        "ssh://git@github.com/owner/repo.git",
        "git@github.com:owner/repo",
    ] {
        assert_eq!(repository(url), Some("owner/repo".to_owned()), "{url}");
    }
    for url in [
        "https://github.com/owner",
        "https://github.com/owner/repo/extra",
        "https://example.com/owner/repo",
        "not a url",
        "",
    ] {
        assert_eq!(repository(url), None, "{url}");
    }
    assert_eq!(
        names("owner/repo").unwrap(),
        ("owner".to_owned(), "repo".to_owned())
    );
    assert_eq!(names("owner").unwrap_err(), "Invalid repository identity");
    assert!(valid_oid(SHA));
    assert!(valid_oid("0123"));
    assert!(!valid_oid("012"));
    assert!(!valid_oid(&"a".repeat(65)));
    assert!(!valid_oid(&SHA.replace('0', "g")));
}

#[test]
fn heads_without_a_remote_are_explained() {
    let remote = |name: &str, repo: &str| Remote {
        name: name.to_owned(),
        repo: repo.to_owned(),
    };
    let two = vec![remote("a", "o/a"), remote("b", "o/b")];
    assert_eq!(
        head_target(&two, "topic", None, None, None, None).unwrap_err(),
        "Cannot identify GitHub head repository; use :review-select owner/repo#number"
    );
    assert_eq!(
        head_target(&two, "topic", Some("b"), None, None, None).unwrap().0,
        "o/b"
    );
    assert_eq!(
        head_target(&two, "topic", None, None, Some("c"), None).unwrap_err(),
        "Configured push remote is not a supported GitHub repository"
    );
    // The longest remote name wins where remote names share a start.
    let nested = vec![remote("a", "o/a"), remote("a/b", "o/nested")];
    assert_eq!(
        head_target(&nested, "x", None, None, None, Some("refs/remotes/a/b/topic")).unwrap(),
        ("o/nested".to_owned(), vec!["topic".to_owned()])
    );
}

#[test]
fn selections_name_a_pull_request() {
    let pull = select_pull("owner/repo#12").unwrap();
    assert_eq!((pull.repo.as_str(), pull.number), ("owner/repo", 12));
    assert_eq!(
        select_pull("owner/repo").unwrap_err(),
        "Expected owner/repo#number"
    );
    assert_eq!(select_pull("owner#1").unwrap_err(), "Invalid repository");
    assert_eq!(
        select_pull("owner/repo#x").unwrap_err(),
        "invalid digit found in string"
    );
    assert_eq!(
        select_pull("owner/repo#").unwrap_err(),
        "cannot parse integer from empty string"
    );
    assert_eq!(
        select_pull("owner/repo#99999999999999999999").unwrap_err(),
        "number too large to fit in target type"
    );
}

#[test]
fn pulls_of_the_branch_match() {
    let page = json("[{\"number\":1,\"url\":\"u1\",\"headRefName\":\"topic\",\"headRepository\":{\"nameWithOwner\":\"Me/Fork\"}},{\"number\":2,\"url\":\"u2\",\"headRefName\":\"topic\",\"headRepository\":{\"nameWithOwner\":\"x/y\"}},{\"headRefName\":\"other\"}]");
    let items = match page {
        Json::List(items) => items,
        _ => panic!("no list"),
    };
    let found = matching_pulls(&items, "org/repo", "me/fork", "topic").unwrap();
    assert_eq!(found.len(), 1);
    assert_eq!(found[0].number, 1);
    assert_eq!(found[0].repo, "org/repo");
    assert_eq!(found[0].head_repo, Some("me/fork".to_owned()));
    let broken = match json(
        "[{\"headRefName\":\"t\",\"headRepository\":{\"nameWithOwner\":\"a/b\"}}]",
    ) {
        Json::List(items) => items,
        _ => panic!("no list"),
    };
    assert_eq!(
        matching_pulls(&broken, "a/b", "a/b", "t").unwrap_err(),
        "Missing PR number"
    );
}

#[test]
fn the_search_ends_with_the_first_name_that_is_found() {
    let pull = |number: u64, branch: &str| {
        format!(
            "{{\"number\":{number},\"url\":\"u{number}\",\"headRefName\":\"{branch}\",\"headRepository\":{{\"nameWithOwner\":\"Me/Fork\"}}}}"
        )
    };
    let page = |nodes: &[String], after: Option<&str>| {
        let info = match after {
            Some(after) => format!("{{\"hasNextPage\":true,\"endCursor\":\"{after}\"}}"),
            None => "{\"hasNextPage\":false}".to_owned(),
        };
        json(&format!("{{\"nodes\":[{}],\"pageInfo\":{info}}}", nodes.join(",")))
    };
    let search = || {
        Search::new(
            "me/fork".into(),
            vec!["local".into(), "topic".into()],
            vec!["me/fork".into(), "org/repo".into()],
        )
    };
    let mut found = search();
    match found.take_page(&page(&[pull(1, "other")], Some("p2"))).unwrap() {
        Searching::Page(after) => assert_eq!(after, "p2"),
        other => panic!("{other:?}"),
    }
    assert_eq!((found.branch, found.base, found.page), (0, 0, 1));
    assert!(matches!(found.take_page(&page(&[], None)), Ok(Searching::Base)));
    assert_eq!((found.branch, found.base, found.page), (0, 1, 0));
    // No repository has the first name: the second one is tried in all of them.
    assert!(matches!(found.take_page(&page(&[], None)), Ok(Searching::Branch)));
    assert_eq!((found.branch, found.base, found.page), (1, 0, 0));
    assert!(matches!(
        found.take_page(&page(&[pull(2, "topic")], None)),
        Ok(Searching::Base)
    ));
    match found.take_page(&page(&[], None)).unwrap() {
        Searching::End(Some(pull)) => {
            assert_eq!((pull.number, pull.repo.as_str()), (2, "me/fork"))
        }
        other => panic!("{other:?}"),
    }
    // A name that is found is the last that is asked for.
    let mut found = search();
    found.take_page(&page(&[], None)).unwrap();
    assert!(matches!(
        found.take_page(&page(&[pull(3, "local")], None)),
        Ok(Searching::End(Some(_)))
    ));
    let mut found = search();
    found.take_page(&page(&[pull(4, "local")], None)).unwrap();
    assert_eq!(
        found.take_page(&page(&[pull(5, "local")], None)).unwrap_err(),
        "Ambiguous branch association: u4, u5. Use :review-select owner/repo#number to choose for this context."
    );
    let mut found = Search::new("me/fork".into(), vec!["t".into()], vec!["a/b".into()]);
    assert!(matches!(found.take_page(&page(&[], None)), Ok(Searching::End(None))));
    found.page = 99;
    assert_eq!(
        found.take_page(&page(&[], Some("next"))).unwrap_err(),
        "Too many PR pages; cannot establish unambiguous association"
    );
    assert_eq!(found.take_page(&json("{}")).unwrap_err(), "Missing GitHub connection");
}

#[test]
fn remotes_are_discovered() {
    let mut found = Discovery::new();
    assert_eq!(
        found.ready().unwrap_err(),
        "No github.com remote found; use :review-select owner/repo#number"
    );
    found
        .add_remote("local", "/srv/repo.git\n", "/srv/repo.git\n")
        .unwrap();
    assert!(found.ready().is_err());
    found
        .add_remote(
            "origin",
            "git@github.com:me/fork.git\n",
            "git@github.com:me/fork.git\n",
        )
        .unwrap();
    found
        .add_remote(
            "upstream",
            "https://github.com/org/repo\n",
            "https://github.com/me/fork\n",
        )
        .unwrap();
    assert!(found.ready().is_ok());
    assert_eq!(found.bases, vec!["me/fork", "org/repo"]);
    assert_eq!(found.remotes[1].name, "upstream");
    assert_eq!(found.remotes[1].repo, "me/fork");
    found.add_parent(&json(
        "{\"repository\":{\"parent\":{\"nameWithOwner\":\"root/repo\"}}}",
    ));
    found.add_parent(&json("{\"repository\":{\"parent\":null}}"));
    assert_eq!(found.bases, vec!["me/fork", "org/repo", "root/repo"]);
    assert_eq!(
        found
            .add_remote(
                "both",
                "https://github.com/x/y\n",
                "https://github.com/a/b\nhttps://github.com/c/d\n"
            )
            .unwrap_err(),
        "Remote both has multiple GitHub push destinations; use :review-select owner/repo#number"
    );
    assert_eq!((found.remotes.len(), found.bases.len()), (2, 3));
}

// ---------------------------------------------------------------------------
// The load
// ---------------------------------------------------------------------------

fn page(head: &str, stamp: &str) -> Json {
    json(&format!(
        "{{\"headRefOid\":\"{head}\",\"updatedAt\":\"{stamp}\"}}"
    ))
}

fn thread(id: &str, path: &str, line: Option<usize>) -> Thread {
    Thread {
        id: id.into(),
        path: path.into(),
        lines: line.map(|n| n..n + 1),
        ..Default::default()
    }
}

fn a_pull() -> Pull {
    Pull {
        repo: "o/r".into(),
        number: 7,
        url: String::new(),
        head_repo: Some("me/fork".into()),
    }
}

#[test]
fn loads_are_consistent_and_sorted() {
    let mut load = Fetch::new();
    assert_eq!(
        load.begin_page(&json("{}")).unwrap_err(),
        "Missing GitHub field headRefOid"
    );
    assert_eq!(
        load.begin_page(&page("xyz", "t")).unwrap_err(),
        "Invalid PR revision"
    );
    assert_eq!(
        load.begin_page(&json(&format!("{{\"headRefOid\":\"{SHA}\"}}")))
            .unwrap_err(),
        "Missing GitHub field updatedAt"
    );
    load.begin_page(&page(SHA, "t1")).unwrap();
    load.begin_page(&page(SHA, "t1")).unwrap();
    assert_eq!(
        load.begin_page(&page(SHA, "t2")).unwrap_err(),
        "PR changed during fetch; refresh reviews"
    );
    load.add_thread(thread("3", "b.rs", Some(9))).unwrap();
    load.add_thread(thread("2", "a.rs", Some(10))).unwrap();
    load.add_thread(thread("1", "a.rs", Some(2))).unwrap();
    let mut old = thread("0", "a.rs", None);
    old.original_lines = Some(4..5);
    old.commit = Some(OTHER.to_owned());
    load.add_thread(old).unwrap();
    assert_eq!(load.wanted_sources(), vec!["b.rs", "a.rs"]);
    let wanted = load.wanted_originals();
    assert_eq!(wanted.len(), 1);
    assert_eq!((wanted[0].commit.as_str(), wanted[0].path.as_str()), (OTHER, "a.rs"));
    load.add_source(
        "a.rs",
        &json("{\"isBinary\":false,\"byteSize\":2,\"text\":\"x\\n\"}"),
    )
    .unwrap();
    load.add_source("b.rs", &json("{\"isBinary\":true,\"byteSize\":2,\"text\":\"x\\n\"}"))
        .unwrap();
    load.add_source(
        "b.rs",
        &json("{\"isBinary\":false,\"byteSize\":2097153,\"text\":\"x\\n\"}"),
    )
    .unwrap();
    assert_eq!(load.sources.len(), 1);
    load.add_original(
        FileAt {
            commit: OTHER.to_owned(),
            path: "a.rs".to_owned()
        },
        "y\n".to_owned(),
    )
    .unwrap();
    assert_eq!(load.bytes, 4);
    let review = load.finish(&page(SHA, "t1"), a_pull()).unwrap();
    assert_eq!(review.label, "o/r#7 @ 0123456789ab");
    assert_eq!(review.head_repo, Some("me/fork".to_owned()));
    let order: Vec<&str> = review.threads.iter().map(|t| t.id.as_str()).collect();
    assert_eq!(order, vec!["0", "1", "2", "3"]);
    let mut changed = Fetch::new();
    changed.begin_page(&page(SHA, "t1")).unwrap();
    assert_eq!(
        changed.finish(&page(OTHER, "t1"), a_pull()).unwrap_err(),
        "PR changed during fetch; refresh reviews"
    );
}

#[test]
fn loads_are_bounded() {
    let mut load = Fetch::new();
    for i in 0..2000 {
        load.add_thread(thread(&i.to_string(), "a.rs", None)).unwrap();
    }
    assert_eq!(
        load.add_thread(thread("last", "a.rs", None)).unwrap_err(),
        "Review exceeds display size limit"
    );
    assert_eq!(load.threads.len(), 2000);
    let mut big = thread("big", "a.rs", None);
    big.comments.push(Comment {
        author: "a".into(),
        body: "x".repeat(64 << 20),
    });
    let mut load = Fetch::new();
    assert_eq!(
        load.add_thread(big).unwrap_err(),
        "Review exceeds display size limit"
    );
    let old = || FileAt {
        commit: OTHER.to_owned(),
        path: "a.rs".to_owned(),
    };
    let mut load = Fetch::new();
    load.add_original(old(), "x".repeat(16 << 20)).unwrap();
    assert_eq!(
        load.add_original(old(), "y".to_owned()).unwrap_err(),
        "Review source snapshots exceed size limit"
    );
    assert_eq!((load.originals.len(), load.bytes), (1, 16 << 20));
    assert!(small_file("2097152\n"));
    assert!(!small_file("2097153\n"));
    assert!(!small_file("large"));
    let mut replies = Replies::new(vec![Json::Null], 10);
    replies.add_page(vec![Json::Bool(true)], 20).unwrap();
    assert_eq!((replies.comments.len(), replies.bytes), (2, 30));
    assert_eq!(
        replies.add_page(vec![], usize::MAX).unwrap_err(),
        "Discussion exceeds reply size limit"
    );
}

#[test]
fn comment_sizes_are_bytes_of_json() {
    assert_eq!(
        comment_size("{\"data\":{\"node\":{\"comments\":{\"nodes\": [ {\"a\": \"é\"} ]}}}}"),
        "[{\"a\":\"é\"}]".len()
    );
    assert_eq!(comment_size("{\"data\":{}}"), 0);
    assert_eq!(comment_size("nonsense"), 0);
    assert_eq!(
        comment_sizes("{\"data\":{\"repository\":{\"pullRequest\":{\"reviewThreads\":{\"nodes\":[{\"comments\":{\"nodes\":[1,2]}},{}]}}}}}"),
        vec![5, 0]
    );
    assert!(comment_sizes("[]").is_empty());
}

// ---------------------------------------------------------------------------
// Discussions
// ---------------------------------------------------------------------------

#[test]
fn discussions_are_read_and_harmless() {
    let raw = json(
        "{\"id\":\"T\",\"path\":\"a.rs\",\"line\":null,\"originalLine\":9,\"originalStartLine\":7,\"diffSide\":\"RIGHT\",\"isOutdated\":true,\"isResolved\":false,\"viewerCanReply\":true}",
    );
    let comments = vec![
        json(&format!(
            "{{\"author\":null,\"body\":\"red \\u001b[31m\",\"diffHunk\":\"@@ \\u202e\",\"url\":\"u\",\"originalCommit\":{{\"oid\":\"{SHA}\"}}}}"
        )),
        json("{\"author\":{\"login\":\"bob\"},\"body\":\"ok\"}"),
    ];
    let read = parse_thread(&raw, &comments).unwrap();
    assert_eq!(read.lines, None);
    assert_eq!(read.original_lines, Some(7..10));
    assert!(read.outdated && read.can_reply && !read.can_resolve);
    assert_eq!(read.commit, Some(SHA.to_owned()));
    assert_eq!(read.comments[0].author, "[deleted]");
    assert_eq!(read.comments[0].body, "red [31m");
    assert_eq!(read.comments[1].author, "bob");
    assert_eq!(read.diff, "@@ ");
    assert!(read.location.contains("commit 0123456789ab"), "{}", read.location);
    assert!(parse_thread(&json("{}"), &comments).is_err());
    assert_eq!(discussed_commit(&read), Some(&SHA.to_owned()));
}

// ---------------------------------------------------------------------------
// Commits
// ---------------------------------------------------------------------------

#[test]
fn commits_touching_a_discussion_are_followed() {
    // The first commit shifts lines 5-6 down by two, the second changes line 8.
    let log = format!(
        "\x01{SHA}\n@@ -1,0 +2,2 @@\n+x\n+y\n\x01{OTHER}\n@@ -8 +8 @@\n-a\n+b\n\x01bad\n@@ -8 +8 @@\n"
    );
    let entries = parse_log(&log);
    assert_eq!(entries.len(), 3);
    let range = Some(5..7);
    assert!(can_follow(&range, &entries));
    let found = touching(&range, &entries);
    assert_eq!(found.lines, vec![OTHER]);
    assert_eq!(found.file, vec![OTHER, SHA]);
    assert_eq!(suggest(&found), (OTHER.to_owned(), Touch::Lines));
    let none = touching(&None, &entries);
    assert!(none.lines.is_empty());
    assert_eq!(suggest(&none), (OTHER.to_owned(), Touch::File));
    assert_eq!(
        suggest(&Touching {
            lines: vec![],
            file: vec![]
        }),
        ("HEAD".to_owned(), Touch::Neither)
    );
}

#[test]
fn listed_commits_are_grouped() {
    let third = "1111111111111111111111111111111111111111";
    let out = format!(
        "{third}\x1fthird\x1f2026-01-03\n{SHA}\x1ffirst\u{1b}\x1f2026-01-02\nnonsense\n{OTHER}\x1fsecond\x1f2026-01-01\n"
    );
    let touched = Touching {
        lines: vec![OTHER.to_owned()],
        file: vec![OTHER.to_owned(), SHA.to_owned()],
    };
    let all = list(&out, &touched, &Some(vec![SHA.to_owned()]));
    let shown: Vec<(&str, Touch, Option<bool>)> = all
        .iter()
        .map(|c| (c.subject.as_str(), c.touch, c.pushed))
        .collect();
    assert_eq!(
        shown,
        vec![
            ("second", Touch::Lines, Some(true)),
            ("first", Touch::File, Some(false)),
            ("third", Touch::Neither, Some(true)),
        ]
    );
    assert_eq!(all[0].describe(), "89abcdef01 second");
    assert_eq!(list(&out, &touched, &None)[0].pushed, None);
    assert!(parse_commit("zzz\x1fx\x1fy").is_none());
    let args = changes_arguments("abc", "-p");
    assert_eq!(args[args.len() - 3..], ["abc..HEAD", "--", "-p"]);
    let args = recent_arguments(Some("abc"));
    assert_eq!(args[2..], ["--max-count=50", "--format=%H%x1f%s%x1f%as", "HEAD", "^abc", "--"]);
    assert_eq!(recent_arguments(None).last().unwrap(), "--");
}

#[test]
fn mentioned_commits_have_to_be_pushed() {
    assert!(mentions_commit("Fixed in 0123abc."));
    assert!(!mentions_commit("Fixed in cafe."));
    let many: Vec<String> = (0..30).map(|i| format!("abcdef{i:03}")).collect();
    assert_eq!(hash_candidates(&many.join(" ")), many);
    let pull = PullHead {
        oid: SHA.to_owned(),
        name: "o/r:topic".to_owned(),
        base: None,
    };
    let reference = |sha: &str, pushed| Reference {
        word: "0123456789abcdef".to_owned(),
        sha: sha.to_owned(),
        pushed,
    };
    assert_eq!(
        unpushed_references(&vec![reference(SHA, false), reference(OTHER, true)], true, &pull),
        Ok(vec!["0123456789".to_owned()])
    );
    // Words that name no commit need no check.
    assert_eq!(
        unpushed_references(&vec![reference("none", false)], false, &pull),
        Ok(vec![])
    );
    assert_eq!(
        unpushed_references(&vec![reference(SHA, true)], false, &pull).unwrap_err(),
        "PR head 0123456789 (o/r:topic) is not in the local repository, so referenced commits cannot be verified; run git fetch"
    );
}
