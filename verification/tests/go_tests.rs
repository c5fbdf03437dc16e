use devflow::cursor::{at_cursor, Node, Target};
use devflow::discovery::GoTestEntry;
use devflow::gotest::{
    ancestors, capture, check_language, check_location, check_workspace_saved, failed_start,
    find_location, finished_run, go_test_cancel, go_test_last, go_test_locations, go_test_nearest,
    go_test_picker, go_test_results, offer_tests, output_lines, output_text, parse_output, reported_paths,
    resolve_locations, run_arguments, run_header, selection, test_name, workspace_root, Directory,
    GoTestRun, OpenDocument, OutputRow, RunEnd, RunResult, Runner, TestEvent, OUTPUT_LIMIT,
};
use devflow::paths::{extension, file_name, parent};
use devflow::session::Message;

fn entry(name: &str, subtest: Option<&str>) -> GoTestEntry {
    GoTestEntry {
        name: name.into(),
        subtest: subtest.map(str::to_owned),
        file: "sample_test.go".into(),
    }
}

fn event(line: &str) -> Option<TestEvent> {
    let value: serde_json::Value = serde_json::from_str(line).ok()?;
    let text = |key: &str| {
        value
            .get(key)
            .and_then(|v| v.as_str())
            .unwrap_or("")
            .to_owned()
    };
    Some(TestEvent {
        action: text("Action"),
        test: text("Test"),
        output: text("Output"),
    })
}

/// What a run wrote, with its paths below `dir`.
fn parsed(data: &[u8], target: &str, dir: &str) -> (bool, bool, bool, String) {
    let lines = output_lines(&data.to_vec());
    assert_eq!(output_text(data), lines.concat());
    let events: Vec<_> = lines.iter().map(|line| event(line)).collect();
    let found = parse_output(&lines, &events, target);
    let output: String = found.pieces.iter().map(|p| resolved(p, dir)).collect();
    (found.ran, found.passed, found.skipped, output)
}

fn resolved(output: &str, dir: &str) -> String {
    let paths: Vec<String> = reported_paths(output)
        .into_iter()
        .map(|p| canonical(&p, dir))
        .collect();
    resolve_locations(output, &paths)
}

fn canonical(path: &str, dir: &str) -> String {
    if path.starts_with('/') {
        path.to_owned()
    } else {
        format!("{dir}/{}", path.strip_prefix("./").unwrap_or(path))
    }
}

#[test]
fn json_requires_the_selected_test_and_retains_diagnostics() {
    let dir = "/tmp";
    let data = br#"{"Action":"run","Test":"TestFoo"}
{"Action":"run","Test":"TestFoo/other"}
{"Action":"pass","Test":"TestFoo/other"}
{"Action":"output","Test":"TestFoo/other","Output":"    sample_test.go:12: expected 42, got 0\n"}
{"Action":"pass","Test":"TestFoo"}
"#;
    let (ran, passed, _, _) = parsed(data, "TestFoo/chosen", dir);
    assert!(!ran && !passed);
    let (ran, passed, skipped, output) = parsed(data, "TestFoo/other", dir);
    assert!(ran && passed && !skipped);
    assert!(output.contains("expected 42, got 0"));
    assert!(output.contains("/tmp/sample_test.go"));
    let (_, passed, skipped, _) =
        parsed(br#"{"Action":"skip","Test":"TestFoo"}"#, "TestFoo", dir);
    assert!(skipped && !passed);
}

#[test]
fn lines_that_are_no_events_are_kept() {
    let data = b"# build\n./a.go:3:8: undefined: x\n{\"Action\":\"output\",\"Output\":\"hi\\n\"}\n\xff";
    let (ran, _, _, output) = parsed(data, "TestFoo", "/p");
    assert!(!ran);
    assert_eq!(
        output,
        "# build\n/p/a.go:3:8: undefined: x\nhi\n\u{fffd}"
    );
}

#[test]
fn locations_cover_compiler_assertions_and_stack_traces() {
    let dir = "/tmp/package with spaces";
    for (text, file, line, message) in [
        (
            "    foo_test.go:12: expected value",
            "foo_test.go",
            11,
            "expected value",
        ),
        (
            "./foo.go:3:8: undefined: value",
            "foo.go",
            2,
            "undefined: value",
        ),
        (
            "\tfile with spaces.go:42 +0xff",
            "file with spaces.go",
            41,
            "+0xff",
        ),
    ] {
        let location = find_location(text).unwrap();
        let path: String = text
            .chars()
            .skip(location.start)
            .take(location.end - location.start)
            .collect();
        assert_eq!(canonical(&path, dir), format!("{dir}/{file}"));
        assert_eq!(location.line, line);
        assert_eq!(location.message, message);
    }
    assert!(find_location("--- FAIL: TestFoo (0.1s)").is_none());
    assert!(find_location("foo.go:0: bad").is_none());
    let text = "/tmp/package with spaces/test.go:5:7: message\n";
    assert_eq!(resolved(text, "/different/package"), text);
}

#[test]
fn locations_take_the_longest_path() {
    let message = |line: &str| find_location(line).map(|l| (l.start, l.end, l.line, l.message));
    assert_eq!(
        message(" a.go:1: b.go:2: x"),
        Some((1, 13, 1, "x".to_string()))
    );
    // What looks like a column but is none belongs to the message.
    assert_eq!(message("a.go:7:8x"), Some((0, 4, 6, "8x".to_string())));
    assert_eq!(message("a.go:7:8"), Some((0, 4, 6, String::new())));
    assert_eq!(message("a.go:7"), Some((0, 4, 6, String::new())));
    assert_eq!(message("a.go:7x"), None);
    assert_eq!(message("a.go:"), None);
    assert_eq!(message("a.go:99999999999999999999999: big"), None);
    assert_eq!(message("x.gox:7: y"), None);
}

#[test]
fn given_back_paths_leave_the_output_as_it_is() {
    let output = "x\n  a.go:3: one\n\nb.go:4:5: two";
    assert_eq!(reported_paths(output), ["a.go", "b.go"]);
    assert_eq!(
        resolve_locations(output, &vec!["a.go".into(), "b.go".into()]),
        output
    );
}

#[test]
fn locations_are_listed_once() {
    let row = |text: &str, path: &str| OutputRow {
        text: text.into(),
        path: path.into(),
    };
    let rows = vec![
        row("/p/a.go:3: x", "/p/a.go"),
        row("PASS", ""),
        row("/p/a.go:3: x", "/p/a.go"),
        row("/p/a.go:4: x", "/p/a.go"),
    ];
    let found: Vec<_> = go_test_locations(Some(&rows))
        .unwrap()
        .into_iter()
        .map(|l| (l.path, l.line, l.message))
        .collect();
    assert_eq!(
        found,
        [
            ("/p/a.go".to_string(), 2, "x".to_string()),
            ("/p/a.go".to_string(), 3, "x".to_string()),
        ]
    );
    assert_eq!(
        go_test_locations(None).unwrap_err(),
        "No retained Go test output"
    );
    assert_eq!(
        go_test_locations(Some(&vec![row("ok", "")])).unwrap_err(),
        "No source locations reported; Space t r shows the full output"
    );
    assert!(check_location(true, 2, 3).is_ok());
    assert_eq!(
        check_location(false, 2, 3),
        Err("Reported source file no longer exists")
    );
    assert_eq!(
        check_location(true, 3, 3),
        Err("Reported line no longer exists; save and rerun the test")
    );
}

#[test]
fn capture_drains_but_bounds_output() {
    let data = vec![b'x'; OUTPUT_LIMIT + 123];
    let mut saved = Vec::new();
    let mut truncated = false;
    for chunk in data.chunks(8192) {
        truncated |= capture(&mut saved, chunk);
    }
    assert!(truncated);
    assert_eq!(saved.len(), OUTPUT_LIMIT);
    let mut short = vec![1];
    assert!(!capture(&mut short, &[2, 3]));
    assert_eq!(short, [1, 2, 3]);
}

#[test]
fn startup_failure_is_a_retained_result() {
    let result = failed_start("No such file or directory");
    assert!(!result.success && !result.started);
    assert!(result.status.contains("COULD NOT START"));
    assert_eq!(result.output, "No such file or directory\n");
}

fn ended(end: RunEnd, actions: &[&str]) -> RunResult {
    let lines: Vec<String> = actions.iter().map(|a| (*a).to_owned()).collect();
    let events = actions
        .iter()
        .map(|a| {
            Some(TestEvent {
                action: (*a).into(),
                test: "T".into(),
                output: String::new(),
            })
        })
        .collect();
    let parsed = parse_output(&lines, &events, "T");
    finished_run(end, &parsed, &vec!["out\n".into()], "err\n", 4, 4)
}

#[test]
fn runs_are_told_apart() {
    let exit = |success: bool| RunEnd::Exited {
        success,
        status: "exit status: 1".into(),
    };
    let passed = ended(exit(true), &["run", "pass"]);
    assert!(passed.success && passed.started);
    assert_eq!(passed.status, "PASSED");
    assert_eq!(
        passed.output,
        "out\n\n--- stderr / build diagnostics ---\nerr\n"
    );
    for (end, actions, status) in [
        (exit(false), vec!["run", "pass"], "FAILED (exit status: 1)"),
        (
            exit(true),
            vec!["pass"],
            "NOT RUN: selected test was not observed (check build tags, names, or truncated output)",
        ),
        (
            exit(true),
            vec!["run", "skip"],
            "SKIPPED: selected test did not pass or fail",
        ),
        (
            exit(true),
            vec!["run"],
            "INCOMPLETE: no passing result observed for the selected test",
        ),
        (RunEnd::Cancelled, vec!["run", "pass"], "CANCELLED"),
        (
            RunEnd::TimedOut,
            vec!["run"],
            "TIMED OUT (including build time)",
        ),
        (
            RunEnd::ProcessError("gone".into()),
            vec![],
            "PROCESS ERROR: gone",
        ),
    ] {
        let result = ended(end, &actions);
        assert!(!result.success);
        assert_eq!(result.status, status);
    }
    let full = finished_run(
        RunEnd::Cancelled,
        &parse_output(&vec![], &vec![], "T"),
        &vec![],
        "",
        OUTPUT_LIMIT,
        0,
    );
    assert_eq!(
        full.output,
        "\n[Output limit reached: retained at most 2 MiB per stream.]\n"
    );
}

fn run_of(name: &str) -> GoTestRun {
    selection("/w/pkg", "/w", &entry(name, Some("a b")), Some("why".into()))
}

#[test]
fn selections_name_what_is_run() {
    let target = run_of("TestPick");
    assert_eq!(target.name, "TestPick/a_b");
    assert_eq!(test_name(&entry("TestPick", None)), "TestPick");
    assert_eq!(target.run_pattern, "^TestPick$/^a_b$");
    assert_eq!(
        run_arguments(&target),
        [
            "test",
            "-json",
            "-count=1",
            "-timeout=2m",
            "-run",
            "^TestPick$/^a_b$",
            "."
        ]
    );
    assert_eq!(
        run_header(&target),
        "Go test: TestPick/a_b\nPackage: /w/pkg\n\
         Command: go test -json -count=1 -timeout=2m -run \"^TestPick$/^a_b$\" .\n\
         Tests read saved files from disk. Save and rerun after edits.\n\
         Space t f: source locations | Space t r: results | Space t c: cancel\n\
         Original selection: why\n\n"
    );
    let odd = selection("/p", "/p", &entry("T", Some("a\"b\\c")), None);
    assert!(run_header(&odd).contains(r#"-run "^T$/^a\"b\\\\c$" ."#));
}

fn document(name: &str, path: Option<&str>, modified: bool) -> OpenDocument {
    OpenDocument {
        name: name.into(),
        path: path.map(str::to_owned),
        modified,
    }
}

#[test]
fn runs_wait_for_saved_files_and_for_each_other() {
    let mut runner = Runner::new();
    assert_eq!(
        go_test_last(&runner).unwrap_err(),
        "No Go test has been started in this session"
    );
    assert_eq!(go_test_cancel(&runner), Err("No Go test is running"));
    let dirty = vec![
        document("other", Some("/x/a.go"), true),
        document("scratch", None, true),
        document("clean", Some("/w/c.go"), false),
        document("edited.go", Some("/w/pkg/edited.go"), true),
    ];
    let target = run_of("TestA");
    assert_eq!(
        runner.start_run(&target, &dirty).unwrap_err(),
        "Save modified files before running Go tests: edited.go"
    );
    assert!(!runner.running && runner.last.is_none());
    let clean = vec![document("near", Some("/work/a.go"), true)];
    let starting = runner.start_run(&target, &clean).unwrap();
    assert_eq!(starting.status, "Running TestA/a_b…");
    assert!(starting.output.ends_with("\n\nRUNNING\n"));
    assert_eq!(
        runner.start_run(&run_of("TestB"), &clean).unwrap_err(),
        "A Go test is already running (Space t c to cancel)"
    );
    assert!(go_test_last(&runner).is_err());
    assert_eq!(go_test_cancel(&runner), Ok("Cancelling Go test…"));

    let result = RunResult {
        started: true,
        status: "FAILED (1)".into(),
        output: "out".into(),
        success: false,
    };
    let (output, message) = runner.finish_run(target, "head\n", &result);
    assert_eq!(output, "head\nFAILED (1)\n\nout");
    match message {
        Message::Error(e) => {
            assert_eq!(e, "FAILED (1) (Space t r: output, Space t f: locations)")
        }
        other => panic!("{other:?}"),
    }
    assert_eq!(go_test_last(&runner).unwrap().name, "TestA/a_b");

    // A process that could not be started leaves the last test as it is.
    runner.start_run(&run_of("TestB"), &clean).unwrap();
    runner.finish_run(run_of("TestB"), "", &failed_start("no go"));
    assert_eq!(go_test_last(&runner).unwrap().name, "TestA/a_b");
    let result = RunResult {
        started: true,
        status: "PASSED".into(),
        output: String::new(),
        success: true,
    };
    let (_, message) = runner.finish_run(run_of("TestC"), "", &result);
    match message {
        Message::Status(s) => assert_eq!(s, "PASSED (Space t r for output)"),
        other => panic!("{other:?}"),
    }
    assert!(check_workspace_saved(&dirty, "/elsewhere").is_ok());
    assert!(check_workspace_saved(&dirty, "/").is_err());
    assert_eq!(go_test_results(Some(4), true), Ok(4));
    assert_eq!(go_test_results(Some(4), false), Err("No retained Go test output"));
    assert_eq!(go_test_results(None, true), Err("No retained Go test output"));
}

#[test]
fn packages_and_workspaces_are_found() {
    assert_eq!(go_test_picker(false, Some("/w/p/a.go")), Ok("/w/p".into()));
    assert_eq!(
        go_test_picker(false, Some("/w/p/a.rs")),
        Err("Open a saved Go file to select a test")
    );
    assert_eq!(
        go_test_picker(true, Some("/w/p/a.go")),
        Err("A Go test is already running (Space t c to cancel)")
    );
    assert_eq!(
        go_test_nearest(false, Some("/w/p/a_test.go")),
        Ok(("/w/p".into(), "a_test.go".into()))
    );
    assert_eq!(
        go_test_nearest(false, Some("/w/p/a.go")),
        Err("Open a saved Go test file (*_test.go)")
    );
    assert!(go_test_nearest(true, None).is_err());
    assert_eq!(
        check_language(Some("rust"), true),
        Err("Set the document language to Go first")
    );
    assert_eq!(
        check_language(Some("go"), false),
        Err("Go syntax is unavailable; install the Go grammar or use Space t t")
    );
    assert!(check_language(Some("go"), true).is_ok());
    assert_eq!(
        offer_tests(vec![]).unwrap_err(),
        "No Go tests found in this package"
    );
    assert_eq!(ancestors("/a/b"), ["/a/b", "/a", "/"]);
    assert_eq!(ancestors("a/b"), ["a/b", "a", ""]);
    let dir = |path: &str, has_work: bool, has_mod: bool| Directory {
        path: path.into(),
        has_work,
        has_mod,
    };
    let root = |dirs: Vec<Directory>| workspace_root(&dirs).clone();
    assert_eq!(
        root(vec![dir("/w/p", false, true), dir("/w", true, false)]),
        "/w"
    );
    assert_eq!(
        root(vec![dir("/w/p", false, false), dir("/w", false, true)]),
        "/w"
    );
    assert_eq!(
        root(vec![dir("/w/p", false, false), dir("/w", false, false)]),
        "/w/p"
    );
    assert_eq!(parent("/"), None);
    assert_eq!(parent("x"), Some(String::new()));
    assert_eq!(file_name("/a/b.tar.gz"), "b.tar.gz");
    assert_eq!(extension("/a/b.tar.gz"), Some("gz".into()));
    assert_eq!(extension("/a.b/c"), None);
}

// The test at the cursor

fn node(kind: &str, field: Option<&str>, range: (usize, usize), children: Vec<Node>) -> Node {
    Node {
        kind: kind.into(),
        field: field.map(str::to_owned),
        named: true,
        extra: false,
        missing: false,
        start: range.0,
        end: range.1,
        children,
    }
}

/// The range of the `nth` occurrence of `text` in characters.
fn range(source: &str, text: &str, nth: usize) -> (usize, usize) {
    let (byte, _) = source.match_indices(text).nth(nth).unwrap();
    let start = source[..byte].chars().count();
    (start, start + text.chars().count())
}

/// A call such as `t.Run("a", func)`: the whole call, its receiver and its literal.
fn run_call(source: &str, call: &str, receiver: &str, literal: &str, body: Vec<Node>) -> Node {
    let whole = range(source, call, 0);
    let at = |text: &str| {
        let byte = call.find(text).unwrap();
        let start = whole.0 + call[..byte].chars().count();
        (start, start + text.chars().count())
    };
    let operand = (whole.0, whole.0 + receiver.chars().count());
    let selector = (operand.0, operand.1 + 4);
    let name = at(literal);
    let arguments = (selector.1, whole.1);
    let callback = (name.1 + 2, whole.1 - 1);
    node(
        "call_expression",
        None,
        whole,
        vec![
            node(
                "selector_expression",
                Some("function"),
                selector,
                vec![
                    node("identifier", Some("operand"), operand, vec![]),
                    node(
                        "field_identifier",
                        Some("field"),
                        (operand.1 + 1, selector.1),
                        vec![],
                    ),
                ],
            ),
            node(
                "argument_list",
                Some("arguments"),
                arguments,
                vec![
                    node("interpreted_string_literal", None, name, vec![]),
                    node("func_literal", None, callback, body),
                ],
            ),
        ],
    )
}

/// The tree of a file with one test function `name`, whose parameter is
/// `t *testing.T` and whose body holds `statements`.
fn file(source: &str, name: &str, statements: Vec<Node>) -> Node {
    let end = source.chars().count();
    let function = source.find("func ").unwrap();
    let start = source[..function].chars().count();
    let parameter = range(source, "t *testing.T", 0);
    let body = source[..source.find(") {").unwrap()].chars().count() + 2;
    node(
        "source_file",
        None,
        (0, end),
        vec![
            node(
                "import_declaration",
                None,
                range(source, "import \"testing\"", 0),
                vec![node(
                    "import_spec",
                    None,
                    range(source, "\"testing\"", 0),
                    vec![node(
                        "interpreted_string_literal",
                        Some("path"),
                        range(source, "\"testing\"", 0),
                        vec![],
                    )],
                )],
            ),
            node(
                "function_declaration",
                None,
                (start, end - 1),
                vec![
                    node("identifier", Some("name"), range(source, name, 0), vec![]),
                    node(
                        "parameter_list",
                        Some("parameters"),
                        (parameter.0 - 1, parameter.1 + 1),
                        vec![node(
                            "parameter_declaration",
                            None,
                            parameter,
                            vec![
                                node(
                                    "identifier",
                                    Some("name"),
                                    (parameter.0, parameter.0 + 1),
                                    vec![],
                                ),
                                node(
                                    "pointer_type",
                                    Some("type"),
                                    (parameter.0 + 2, parameter.1),
                                    vec![node(
                                        "qualified_type",
                                        None,
                                        (parameter.0 + 3, parameter.1),
                                        vec![
                                            node(
                                                "package_identifier",
                                                Some("package"),
                                                (parameter.0 + 3, parameter.0 + 10),
                                                vec![],
                                            ),
                                            node(
                                                "type_identifier",
                                                Some("name"),
                                                (parameter.0 + 11, parameter.1),
                                                vec![],
                                            ),
                                        ],
                                    )],
                                ),
                            ],
                        )],
                    ),
                    node("block", Some("body"), (body, end - 1), statements),
                ],
            ),
        ],
    )
}

const SOURCE: &str = "package sample // åäö\nimport \"testing\"\nfunc TestExample(t *testing.T) {\n\tt.Run(\"one case\", func(t *testing.T) { first })\n\tt.Run(\"two\", func(t *testing.T) { second })\n\tother()\n}\n";

const ONE: &str = "t.Run(\"one case\", func(t *testing.T) { first })";
const TWO: &str = "t.Run(\"two\", func(t *testing.T) { second })";

fn select(source: &str, root: &Node, needle: &str) -> Result<Target, String> {
    at_cursor(root, source, range(source, needle, 0).0, "sample_test.go")
}

#[test]
fn the_case_around_the_cursor_is_chosen() {
    let calls = || {
        vec![
            run_call(SOURCE, ONE, "t", "\"one case\"", vec![]),
            run_call(SOURCE, TWO, "t", "\"two\"", vec![]),
        ]
    };
    let root = file(SOURCE, "TestExample", calls());
    let target = select(SOURCE, &root, "first").unwrap();
    assert_eq!(target.entry.name, "TestExample");
    assert_eq!(target.entry.subtest.as_deref(), Some("one case"));
    assert_eq!(target.entry.file, "sample_test.go");
    assert_eq!(target.note, None);
    // Indentation belongs to the call that follows it.
    let target = select(SOURCE, &root, "\tt.Run(\"two\"").unwrap();
    assert_eq!(target.entry.subtest.as_deref(), Some("two"));
    let target = select(SOURCE, &root, "other()").unwrap();
    assert_eq!(target.entry.subtest, None);
    assert_eq!(
        target.note.as_deref(),
        Some("No unique static subtest at the cursor; running all of TestExample (including its subtests).")
    );
    assert_eq!(
        select(SOURCE, &root, "package").unwrap_err(),
        "Cursor is not inside a Go test function"
    );
    let plain = file(SOURCE, "TestExample", vec![]);
    assert_eq!(select(SOURCE, &plain, "first").unwrap().note, None);
}

#[test]
fn ambiguous_and_dynamic_cases_run_the_whole_test() {
    let whole = |statements: Vec<Node>| {
        let root = file(SOURCE, "TestExample", statements);
        let target = select(SOURCE, &root, "first").unwrap();
        assert_eq!(target.entry.subtest, None);
        assert!(target.note.unwrap().starts_with("No unique static subtest"));
    };
    let one = || run_call(SOURCE, ONE, "t", "\"one case\"", vec![]);
    let two = || run_call(SOURCE, TWO, "t", "\"two\"", vec![]);
    // A loop, a closure that is no callback, a jump.
    let around = range(SOURCE, "{\n\tt.Run", 0);
    whole(vec![node(
        "for_statement",
        None,
        (around.0 + 1, range(SOURCE, TWO, 0).1),
        vec![one(), two()],
    )]);
    whole(vec![
        one(),
        node("func_literal", None, range(SOURCE, "other()", 0), vec![]),
    ]);
    whole(vec![
        one(),
        node("goto_statement", None, range(SOURCE, "other()", 0), vec![]),
    ]);
    // A statement that gives the receiver another value.
    whole(vec![
        one(),
        node(
            "short_var_declaration",
            None,
            range(SOURCE, "other()", 0),
            vec![node(
                "expression_list",
                Some("left"),
                range(SOURCE, "t.Run", 0),
                vec![node(
                    "identifier",
                    None,
                    (range(SOURCE, "t.Run", 0).0, range(SOURCE, "t.Run", 0).0 + 1),
                    vec![],
                )],
            )],
        ),
    ]);
    // Another receiver may be the same test.
    let mut alias = two();
    alias.children[0].children[0].end += 2;
    whole(vec![one(), alias]);
    // The runner writes both names alike.
    let source = SOURCE.replace("\"two\"", "\"one_case\"");
    let call = TWO.replace("\"two\"", "\"one_case\"");
    let root = file(
        &source,
        "TestExample",
        vec![
            run_call(&source, ONE, "t", "\"one case\"", vec![]),
            run_call(&source, &call, "t", "\"one_case\"", vec![]),
        ],
    );
    assert_eq!(select(&source, &root, "first").unwrap().entry.subtest, None);
}

#[test]
fn nested_cases_run_their_outer_case() {
    let inner = range(SOURCE, "first", 0);
    let nested = node(
        "call_expression",
        None,
        inner,
        vec![node(
            "selector_expression",
            Some("function"),
            inner,
            vec![
                node("identifier", Some("operand"), (inner.0, inner.0 + 1), vec![]),
                node(
                    "field_identifier",
                    Some("field"),
                    range(SOURCE, "Run", 0),
                    vec![],
                ),
            ],
        )],
    );
    let root = file(
        SOURCE,
        "TestExample",
        vec![run_call(SOURCE, ONE, "t", "\"one case\"", vec![nested])],
    );
    let target = select(SOURCE, &root, "first").unwrap();
    assert_eq!(target.entry.subtest.as_deref(), Some("one case"));
    assert_eq!(
        target.note.as_deref(),
        Some("Nested subtest: running enclosing TestExample/one case with all its subtests.")
    );
}

#[test]
fn functions_that_are_no_tests_are_rejected() {
    let signature = "Cursor is not inside a Go test function (func TestX(*testing.T))";
    for (name, accepted) in [
        ("TestExample", true),
        ("Testexample", false),
        ("Test", true),
        ("Test_x", true),
        ("Testå", false),
        ("TestÅ", true),
        ("helper", false),
    ] {
        let source = SOURCE.replace("TestExample", name);
        let root = file(&source, name, vec![]);
        let result = select(&source, &root, "first");
        if accepted {
            assert_eq!(result.unwrap().entry.name, name);
        } else {
            assert_eq!(result.unwrap_err(), signature);
        }
    }
    let mut root = file(SOURCE, "TestExample", vec![]);
    root.children[1].children[2].missing = true;
    assert_eq!(
        select(SOURCE, &root, "first").unwrap_err(),
        "Fix syntax errors in the test before running it"
    );
    let mut root = file(SOURCE, "TestExample", vec![]);
    root.children[1].children.pop();
    assert_eq!(
        select(SOURCE, &root, "first").unwrap_err(),
        "The test function has no body"
    );
    let mut root = file(SOURCE, "TestExample", vec![]);
    root.children[0].children.clear();
    assert_eq!(select(SOURCE, &root, "first").unwrap_err(), signature);
    let mut root = file(SOURCE, "TestExample", vec![]);
    let result = node("type_identifier", Some("result"), (0, 1), vec![]);
    root.children[1].children.push(result);
    assert_eq!(select(SOURCE, &root, "first").unwrap_err(), signature);
}
