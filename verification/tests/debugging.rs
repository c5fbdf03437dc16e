use devflow::adapter::Variable;
use devflow::dap::{
    breakpoint_info, breakpoint_place, current_stack_frame_id, dap_add_watch,
    dap_breakpoint_picker, dap_continue, dap_edit_condition, dap_edit_log, dap_next,
    dap_remove_watch, dap_run_to_cursor, dap_step_in, dap_step_out, dap_switch_stack_frame,
    dap_terminate, dap_toggle_breakpoint, dap_toggle_breakpoint_impl, dap_variables, eval_error,
    frame_chosen, frame_lines, get_breakpoint_at_current_line, only_thread, thread_state,
    watch_chosen, watch_prefill, breakpoints_sent, open_error, run_to_cursor_sent, Breakpoints,
    Debugger, Request, RunTo, StackFrame, Step, Thread,
    ThreadFrames, ThreadState,
};
use devflow::decode::{DecodedBytes, DecodedBytesKind};
use devflow::discovery::{
    extract_go_subtest_name, find_go_tests, go_test_run_regex, parse_go_test_file, regex_escape,
    GoTestEntry, SourceFile,
};
use devflow::eval::{
    format_eval_children, format_eval_response, format_eval_value, push_variable_lines, Answer,
    EvaluateResponse, Known,
};
use devflow::json::{Json, Member};
use devflow::launch::{
    client_started, dap_launch, dap_rerun_last, dap_restart, dap_start_impl, dap_started, debug_parameter_prompt,
    map_value, offer_tests, parameter_given, redirected_output_paths, resolve_debug_launch,
    start_request, template_chosen, test_chosen, AdvancedCompletion, Asking, Chosen,
    DebugAdapterConfig, DebugConfigCompletion, DebugTemplate, DebuggerQuirks, Field,
    LastDebugLaunch, StartRequest, Started, Tail, STARTING,
};
use devflow::seed::{
    build_go_eval_input_seed, current_eval_input_seed, current_selection_or_buffer,
    dap_eval_prompt, dap_eval_selection, detect_go_package_name, eval_input_path,
    extract_go_eval_expression, extract_go_import_block, is_current_eval_input_buffer,
    should_seed, synthetic_eval_input_path, EvalPrompt,
};
use devflow::session::Message;

// Discovery

/// Collect only (name, subtest) from parse results so assertions don't also have to
/// track the file name.
fn parse(src: &str) -> Vec<(String, Option<String>)> {
    let mut out = Vec::new();
    parse_go_test_file(src, "foo_test.go", &mut out);
    out.into_iter().map(|e| (e.name, e.subtest)).collect()
}

#[test]
fn finds_bare_test_function() {
    let src = "\
package foo

func TestSimple(t *testing.T) {
    t.Fatal(\"nope\")
}
";
    assert_eq!(parse(src), vec![("TestSimple".into(), None)]);
}

#[test]
fn finds_direct_t_run_subtests() {
    let src = "\
package foo

func TestDirect(t *testing.T) {
    t.Run(\"first case\", func(t *testing.T) {})
    t.Run(\"second case\", func(t *testing.T) {})
}
";
    assert_eq!(
        parse(src),
        vec![
            ("TestDirect".into(), None),
            ("TestDirect".into(), Some("first case".into())),
            ("TestDirect".into(), Some("second case".into())),
        ]
    );
}

#[test]
fn finds_table_driven_subtests() {
    let src = "\
package foo

func TestTable(t *testing.T) {
    cases := []struct {
        name string
        in   int
    }{
        {
            name: \"adds zero\",
            in:   0,
        },
        {
            name: \"adds one\",
            in:   1,
        },
    }
    for _, tc := range cases {
        t.Run(tc.name, func(t *testing.T) {})
    }
}
";
    assert_eq!(
        parse(src),
        vec![
            ("TestTable".into(), None),
            ("TestTable".into(), Some("adds zero".into())),
            ("TestTable".into(), Some("adds one".into())),
        ]
    );
}

#[test]
fn dedups_within_function_but_not_across() {
    let src = "\
package foo

func TestOne(t *testing.T) {
    t.Run(\"shared\", func(t *testing.T) {})
    t.Run(\"shared\", func(t *testing.T) {})
}

func TestTwo(t *testing.T) {
    t.Run(\"shared\", func(t *testing.T) {})
}
";
    assert_eq!(
        parse(src),
        vec![
            ("TestOne".into(), None),
            ("TestOne".into(), Some("shared".into())),
            ("TestTwo".into(), None),
            ("TestTwo".into(), Some("shared".into())),
        ]
    );
}

#[test]
fn rejects_escape_sequences_and_slashes() {
    let src = "\
package foo

func TestTricky(t *testing.T) {
    t.Run(\"has\\\"quote\", func(t *testing.T) {})
    t.Run(\"has/slash\", func(t *testing.T) {})
    t.Run(\"ok\", func(t *testing.T) {})
}
";
    // The backslash and slash cases are rejected; only `ok` survives.
    assert_eq!(
        parse(src),
        vec![
            ("TestTricky".into(), None),
            ("TestTricky".into(), Some("ok".into())),
        ]
    );
}

#[test]
fn skips_non_test_funcs() {
    let src = "\
package foo

func helper() {}
func BenchmarkFoo(b *testing.B) {}
func FuzzFoo(f *testing.F) {}
func Test() {}

func TestReal(t *testing.T) {}
";
    assert_eq!(parse(src), vec![("TestReal".into(), None)]);
}

#[test]
fn run_regex_for_parent_is_anchored() {
    let entry = GoTestEntry {
        name: "TestFoo".into(),
        subtest: None,
        file: "x.go".into(),
    };
    assert_eq!(go_test_run_regex(&entry), "^TestFoo$");
}

#[test]
fn run_regex_for_subtest_uses_space_to_underscore_and_escapes() {
    let entry = GoTestEntry {
        name: "TestFoo".into(),
        subtest: Some("simple add (a.b)".into()),
        file: "x.go".into(),
    };
    // Space → underscore; `.` and parens escaped.
    assert_eq!(
        go_test_run_regex(&entry),
        r"^TestFoo$/^simple_add_\(a\.b\)$"
    );
}

#[test]
fn escaped_names_are_read_literally() {
    let name = r"a.b*c+d?e(f)g[h]i{j}k|l^m$n\o/p q";
    let escaped = regex_escape(name);
    assert_eq!(
        escaped,
        r"a\.b\*c\+d\?e\(f\)g\[h\]i\{j\}k\|l\^m\$n\\o\/p q"
    );
    let mut undone = String::new();
    let mut rest = escaped.chars();
    while let Some(c) = rest.next() {
        undone.push(if c == '\\' { rest.next().unwrap() } else { c });
    }
    assert_eq!(undone, name);
}

#[test]
fn different_names_have_different_patterns() {
    assert_ne!(regex_escape("a.b"), regex_escape("a\\.b"));
    assert_ne!(regex_escape("a/b"), regex_escape("ab"));
}

#[test]
fn test_entries_are_sorted_by_test_then_case() {
    let files = vec![
        SourceFile {
            name: "b_test.go".into(),
            content: "func TestB(t *testing.T) {\n    t.Run(\"z\", nil)\n    t.Run(\"a\", nil)\n}\n"
                .into(),
        },
        SourceFile {
            name: "a.go".into(),
            content: "func TestHidden(t *testing.T) {\n}\n".into(),
        },
        SourceFile {
            name: "a_test.go".into(),
            content: "func TestA(t *testing.T) {\n}\n".into(),
        },
    ];
    let found: Vec<_> = find_go_tests(&files)
        .into_iter()
        .map(|e| (e.name, e.subtest, e.file))
        .collect();
    assert_eq!(
        found,
        vec![
            ("TestA".into(), None, "a_test.go".into()),
            ("TestB".into(), None, "b_test.go".into()),
            ("TestB".into(), Some("a".into()), "b_test.go".into()),
            ("TestB".into(), Some("z".into()), "b_test.go".into()),
        ]
    );
}

#[test]
fn case_names_are_read_from_fields_of_either_case() {
    let named = |line: &str| extract_go_subtest_name(&line.chars().collect::<Vec<_>>());
    assert_eq!(named("\tName: \"upper\","), Some("upper".into()));
    assert_eq!(named("  name:\"tight\""), Some("tight".into()));
    assert_eq!(named("  name: other,"), None);
    assert_eq!(named("  t.Run(\"open"), None);
}

// Launching

fn text(s: &str) -> Json {
    Json::Text(s.into())
}

fn member(key: &str, value: Json) -> Member {
    Member {
        key: key.into(),
        value,
    }
}

fn show(value: &Json) -> String {
    match value {
        Json::Null => "null".into(),
        Json::Bool(b) => format!("{b}"),
        Json::Number(digits, n) => format!("{digits}={n:?}"),
        Json::Text(s) => format!("{s:?}"),
        Json::List(items) => format!("{:?}", items.iter().map(show).collect::<Vec<_>>()),
        Json::Object(members) => {
            let mut all: Vec<_> = members
                .iter()
                .map(|m| format!("{}:{}", m.key, show(&m.value)))
                .collect();
            all.sort();
            format!("{{{}}}", all.join(","))
        }
    }
}

#[test]
fn finds_redirected_debuggee_output_paths() {
    let args = Json::Object(vec![
        member("stdoutTo", text("/tmp/debuggee-stdout.log")),
        member("stderrTo", text("/tmp/debuggee-stderr.log")),
    ]);
    let found: Vec<_> = redirected_output_paths(&args)
        .into_iter()
        .map(|r| (r.path, r.prefix, r.is_stderr))
        .collect();
    assert_eq!(
        found,
        vec![
            (
                "/tmp/debuggee-stdout.log".to_string(),
                "[stdout] [debuggee]",
                false,
            ),
            (
                "/tmp/debuggee-stderr.log".to_string(),
                "[stderr] [debuggee]",
                true,
            ),
        ]
    );
    assert!(redirected_output_paths(&Json::Null).is_empty());
    let other = Json::Object(vec![member("stdoutTo", Json::Bool(true))]);
    assert!(redirected_output_paths(&other).is_empty());
}

fn adapter(templates: Vec<DebugTemplate>) -> DebugAdapterConfig {
    DebugAdapterConfig {
        name: "go".into(),
        transport: "stdio".into(),
        command: "dlv".into(),
        args: Vec::new(),
        port_arg: None,
        quirks: DebuggerQuirks {
            absolute_paths: false,
        },
        templates,
    }
}

fn go_test_template() -> DebugTemplate {
    DebugTemplate {
        name: "go-test".into(),
        request: "launch".into(),
        completion: vec![DebugConfigCompletion::Named("package".into())],
        args: vec![
            member("mode", text("test")),
            member("program", text("{0}")),
            member("cwd", text("/tmp/work")),
        ],
    }
}

#[test]
fn resolves_debug_launch_with_template_args() {
    let config = adapter(vec![go_test_template()]);
    let resolved = resolve_debug_launch(
        &config,
        None,
        Some(&vec!["./pkg".to_owned()]),
        &vec![None],
        Ok("/elsewhere".into()),
    )
    .unwrap();
    assert_eq!(resolved.template_name, "go-test");
    assert_eq!(resolved.request_type, "launch");
    assert_eq!(
        show(&resolved.args),
        show(&Json::Object(vec![
            member("mode", text("test")),
            member("program", text("./pkg")),
            member("cwd", text("/tmp/work")),
        ]))
    );
}

#[test]
fn launches_know_their_directory() {
    let mut template = go_test_template();
    template.args.pop();
    let config = adapter(vec![template]);
    let resolved =
        resolve_debug_launch(&config, Some("go-test"), None, &vec![], Ok("/here".into()))
            .unwrap();
    assert_eq!(
        show(&resolved.args),
        r#"{cwd:"/here",mode:"test",program:"{0}"}"#
    );
    let failed =
        resolve_debug_launch(&config, None, None, &vec![], Err("not UTF-8".into())).unwrap_err();
    assert_eq!(failed, "not UTF-8");
    let missing =
        resolve_debug_launch(&config, Some("other"), None, &vec![], Ok("/here".into()))
            .unwrap_err();
    assert_eq!(missing, "No debug config with given name");
}

#[test]
fn parameters_fill_places_and_become_numbers() {
    let params = vec!["8080".to_string(), "x{0}".to_string()];
    assert_eq!(show(&map_value(&text("{0}"), &params)), "8080=Some(8080)");
    assert_eq!(show(&map_value(&text("p{0}"), &params)), r#""p8080""#);
    // A place that a later parameter brings along stays.
    assert_eq!(show(&map_value(&text("{1}"), &params)), r#""x{0}""#);
    let list = Json::List(vec![text("{1}{1}"), Json::Bool(true), Json::Null]);
    assert_eq!(
        show(&map_value(&list, &params)),
        show(&Json::List(vec![text("x{0}x{0}"), Json::Bool(true), Json::Null]))
    );
}

#[test]
fn paths_among_parameters_are_resolved() {
    let mut template = go_test_template();
    template.completion = vec![
        DebugConfigCompletion::Advanced(AdvancedCompletion {
            name: None,
            completion: Some("directory".into()),
            default: None,
        }),
        DebugConfigCompletion::Named("tags".into()),
    ];
    template.args = vec![member("a", text("{0}")), member("b", text("{1}"))];
    let config = adapter(vec![template]);
    let resolved = resolve_debug_launch(
        &config,
        None,
        Some(&vec!["./a".into(), "./b".into()]),
        &vec![Some("/real/a".into()), Some("/real/b".into())],
        Ok("/w".into()),
    )
    .unwrap();
    assert_eq!(show(&resolved.args), r#"{a:"/real/a",b:"./b",cwd:"/w"}"#);
}

#[test]
fn sessions_start_with_known_requests_only() {
    assert_eq!(start_request("launch").unwrap(), StartRequest::Launch);
    assert_eq!(start_request("attach").unwrap(), StartRequest::Attach);
    assert_eq!(
        start_request("spawn").unwrap_err(),
        "Unsupported request 'spawn'"
    );
    assert_eq!(
        dap_start_impl(None, None, None, None, &vec![], Ok("/".into())).unwrap_err(),
        "No debug adapter available for language"
    );
    let config = adapter(vec![go_test_template()]);
    let (launch, start) = dap_start_impl(
        Some(config),
        None,
        Some("127.0.0.1:1".into()),
        Some(&vec!["p".into()]),
        &vec![None],
        Ok("/".into()),
    )
    .unwrap();
    assert_eq!(start, StartRequest::Launch);
    assert_eq!(launch.socket.as_deref(), Some("127.0.0.1:1"));
    assert_eq!(launch.config.command, "dlv");
    assert_eq!(client_started(Ok(3), true), Ok(3));
    assert_eq!(
        client_started(Ok(3), false).unwrap_err(),
        "Failed to get child debugger."
    );
    assert_eq!(
        client_started(Err("no dlv".into()), false).unwrap_err(),
        "Failed to start debug client: no dlv"
    );
    assert_eq!(STARTING, "Starting debug adapter...");
    match dap_started("launch", 3, Some(3), Ok(())) {
        Started::Accepted(status) => assert_eq!(status, "Debug launch request accepted"),
        other => panic!("{other:?}"),
    }
    match dap_started("launch", 3, Some(3), Err("boom".into())) {
        Started::Failed {
            message,
            was_active,
        } => {
            assert_eq!(message, "Failed to start debug session: boom");
            assert!(was_active);
        }
        other => panic!("{other:?}"),
    }
    assert_eq!(dap_launch(false, Some(&launch.config)).unwrap().len(), 1);
    assert_eq!(
        dap_launch(true, Some(&launch.config)).unwrap_err(),
        "Debugger is already running"
    );
    assert_eq!(
        dap_launch(false, None).unwrap_err(),
        "No debug adapter available for language"
    );
}

#[test]
fn restarts_and_reruns_are_explained() {
    assert_eq!(
        dap_restart(true, Some(true), true),
        Ok("Debugging session restarted")
    );
    assert_eq!(
        dap_restart(false, Some(true), true),
        Err("Debugger is not running")
    );
    assert_eq!(
        dap_restart(true, None, true),
        Err("Debugger does not support session restarts")
    );
    assert_eq!(
        dap_restart(true, Some(true), false),
        Err("No arguments found with which to restart the sessions")
    );
    let last = |request: &str| {
        Some(LastDebugLaunch {
            config: adapter(vec![]),
            template_name: "t".into(),
            request_type: request.into(),
            socket: None,
            args: Json::Null,
        })
    };
    assert_eq!(
        dap_rerun_last(true, last("attach")).unwrap_err(),
        "Debugger is already running"
    );
    assert_eq!(
        dap_rerun_last(false, None).unwrap_err(),
        "No previous debug launch to rerun"
    );
    let (launch, start) = dap_rerun_last(false, last("attach")).unwrap();
    assert_eq!((launch.template_name.as_str(), start), ("t", StartRequest::Attach));
    assert_eq!(launch.config.command, "dlv");
    assert_eq!(
        dap_rerun_last(false, last("x")).unwrap_err(),
        "Unsupported request 'x'"
    );
}

#[test]
fn templates_ask_for_their_parameters() {
    let mut template = go_test_template();
    assert_eq!(template_chosen(&template), Chosen::Ask);
    let question = debug_parameter_prompt(&template.completion, 0);
    assert_eq!(
        (question.prompt.as_str(), question.field, question.default.as_str()),
        ("package: ", Field::Plain, "")
    );
    template.completion = vec![
        DebugConfigCompletion::Advanced(AdvancedCompletion {
            name: None,
            completion: Some("go-test-function".into()),
            default: None,
        }),
        DebugConfigCompletion::Advanced(AdvancedCompletion {
            name: Some("binary".into()),
            completion: Some("filename".into()),
            default: Some("a.out".into()),
        }),
    ];
    assert_eq!(template_chosen(&template), Chosen::PickTest);
    let question = debug_parameter_prompt(&template.completion, 0);
    assert_eq!(question.prompt, "go-test-function: ");
    let question = debug_parameter_prompt(&template.completion, 1);
    assert_eq!(
        (question.prompt.as_str(), question.field, question.default.as_str()),
        ("binary: ", Field::Filename, "a.out")
    );
    match parameter_given(vec!["one".into()], "", &question.default, 2) {
        Asking::Start(params) => assert_eq!(params, ["one", "a.out"]),
        other => panic!("{other:?}"),
    }
    match parameter_given(vec![], "x", "", 2) {
        Asking::Ask(params) => assert_eq!(params, ["x"]),
        other => panic!("{other:?}"),
    }
    template.completion.clear();
    assert_eq!(template_chosen(&template), Chosen::Start);

    let entry = GoTestEntry {
        name: "TestA".into(),
        subtest: None,
        file: "a_test.go".into(),
    };
    match test_chosen("/pkg", &entry, 3) {
        Asking::Ask(params) => assert_eq!(params, ["/pkg", "^TestA$"]),
        other => panic!("{other:?}"),
    }
    for asked in [1, 2] {
        match test_chosen("/pkg", &entry, asked) {
            Asking::Start(params) => assert_eq!(params, ["/pkg", "^TestA$"]),
            other => panic!("{other:?}"),
        }
    }
    assert_eq!(
        offer_tests("/pkg", vec![]).unwrap_err(),
        "No Go tests found in /pkg"
    );
    assert_eq!(offer_tests("/pkg", vec![entry]).unwrap().len(), 1);
}

#[test]
fn redirected_output_is_read_once() {
    let mut tail = Tail { offset: 4 };
    assert_eq!(tail.next(Some(4)), None);
    assert_eq!(tail.next(Some(7)), Some(4));
    assert_eq!(tail.read(&vec![b'a', 0xff, b'b']), "a\u{fffd}b");
    assert_eq!(tail.next(Some(7)), None);
    // A file that was truncated is read from its start.
    assert_eq!(tail.next(Some(2)), Some(0));
    assert_eq!(tail.next(None), None);
    assert_eq!(tail.offset, 0);
}

// Expressions

#[test]
fn builds_eval_input_path_next_to_source_file() {
    assert_eq!(
        synthetic_eval_input_path("/tmp/example/main.go", 1),
        "/tmp/example/hx-dap-eval-input-1.go"
    );
    assert_eq!(
        synthetic_eval_input_path("/Makefile", 12),
        "/hx-dap-eval-input-12"
    );
    assert_eq!(
        synthetic_eval_input_path("main.rs", 0),
        "hx-dap-eval-input-0.rs"
    );
    assert_eq!(synthetic_eval_input_path("/", 1), "./hx-dap-eval-input-1");
    assert_eq!(
        synthetic_eval_input_path("/a/.profile", 1),
        "/a/hx-dap-eval-input-1"
    );
    assert_eq!(
        eval_input_path(Some("/a/b.go"), 2, &vec!["/a/hx-dap-eval-input-2.go".into()]),
        None
    );
    assert_eq!(
        eval_input_path(Some("/a/b.go"), 3, &vec![]),
        Some("/a/hx-dap-eval-input-3.go".into())
    );
    assert_eq!(eval_input_path(None, 3, &vec![]), None);
}

#[test]
fn formats_bracketed_eval_values_across_lines() {
    assert_eq!(
        format_eval_value(r#"["a", "b", "c"]"#),
        "[\n  \"a\",\n  \"b\",\n  \"c\"\n]"
    );
}

#[test]
fn formatting_keeps_strings_and_characters() {
    assert_eq!(
        format_eval_value(r#"x{a:"{\"}",b},c, d"#),
        "x{\n  a:\"{\\\"}\",\n  b\n},c, d"
    );
    let value = "map[k:[1,2] q:{}]]";
    let solid = |s: &str| s.chars().filter(|c| !" \n".contains(*c)).collect::<String>();
    assert_eq!(solid(&format_eval_value(value)), solid(value));
}

#[test]
fn extracts_go_eval_expression_from_wrapper() {
    let seed = build_go_eval_input_seed(
        "package foo\n\nimport \"os\"\n",
        "os.Getenv(\"HOME\")",
        None,
    );
    assert_eq!(
        extract_go_eval_expression(&seed.content),
        Some("os.Getenv(\"HOME\")".to_string())
    );
    assert_eq!(seed.language.as_deref(), Some("go"));
    let before: String = seed.content.chars().take(seed.cursor).collect();
    assert!(before.ends_with("os.Getenv(\"HOME\")\n        "));
}

#[test]
fn preserves_go_import_block_in_eval_seed() {
    let seed = build_go_eval_input_seed(
        "package foo\n\nimport (\n    \"fmt\"\n    \"os\"\n)\n\nfunc main() {}\n",
        "",
        None,
    );
    assert!(seed
        .content
        .contains("import (\n    \"fmt\"\n    \"os\"\n)"));
    assert!(seed.content.contains("func __hx_dap_eval__() any {"));
}

#[test]
fn expressions_of_several_lines_are_read_back() {
    let source = "// doc\npackage main\n// imports\nimport \"a/b\"\nimport \"c\"\nvar x int\n";
    let seed = build_go_eval_input_seed(source, "f(\n\tx,\n)\n", Some("/a.go".into()));
    assert_eq!(
        seed.content,
        "package main\n\nimport \"a/b\"\nimport \"c\"\n\nfunc __hx_dap_eval__() any {\n    return (\n        \
         /*__hx_dap_expr_start__*/\n        f(\n        \tx,\n        )\n        \
         /*__hx_dap_expr_end__*/\n    )\n}\n"
    );
    assert_eq!(
        extract_go_eval_expression(&seed.content),
        Some("f(\n\tx,\n)".into())
    );
    assert_eq!(seed.source_path.as_deref(), Some("/a.go"));
    assert_eq!(extract_go_eval_expression("no markers"), None);
}

#[test]
fn packages_and_imports_are_found() {
    assert_eq!(
        detect_go_package_name("// x\n  package foo // y\n").as_deref(),
        Some("foo")
    );
    assert_eq!(detect_go_package_name("packages\n"), None);
    assert_eq!(extract_go_import_block("import \"x\"\n"), None);
    assert_eq!(extract_go_import_block("package a\nvar x\nimport \"x\"\n"), None);
    assert_eq!(
        extract_go_import_block("package a\nimport (\n\"x\"\n").as_deref(),
        Some("import (\n\"x\"")
    );
}

#[test]
fn the_expression_command_opens_or_evaluates() {
    match dap_eval_prompt(false, "package p\n", "x + y", Some("go"), None) {
        EvalPrompt::Open(seed, status) => {
            assert_eq!(
                extract_go_eval_expression(&seed.content).as_deref(),
                Some("x + y")
            );
            assert!(status.starts_with("Opened debug expression buffer."));
        }
        other => panic!("{other:?}"),
    }
    match dap_eval_prompt(true, "  \n", "", Some("rust"), None) {
        EvalPrompt::Status(status) => assert_eq!(status, "No expression to evaluate."),
        other => panic!("{other:?}"),
    }
    match dap_eval_prompt(true, "a + b", "", None, None) {
        EvalPrompt::Evaluate(expression) => assert_eq!(expression, "a + b"),
        other => panic!("{other:?}"),
    }
    assert_eq!(current_selection_or_buffer("all", "sel", Some("go")), "sel");
    assert_eq!(current_selection_or_buffer("all", "s", Some("go")), "all");
    assert_eq!(dap_eval_selection("xy", "word"), Ok("xy".into()));
    assert_eq!(dap_eval_selection("x", "word"), Ok("word".into()));
    assert_eq!(
        dap_eval_selection("x", " "),
        Err("No expression to evaluate.")
    );
    let seed = current_eval_input_seed("text", "ab", Some("rust"), None);
    assert_eq!((seed.content.as_str(), seed.cursor), ("ab", 2));
    assert!(should_seed("x", 0, false));
    assert!(!should_seed("x", 1, false) && !should_seed("", 0, false));
    assert!(!should_seed("x", 0, true));
    assert!(is_current_eval_input_buffer(Some(3), true, 3));
    assert!(!is_current_eval_input_buffer(Some(3), false, 3));
    assert!(!is_current_eval_input_buffer(None, true, 3));
}

fn variable(name: &str, value: &str, reference: usize) -> Variable {
    Variable {
        name: name.into(),
        value: value.into(),
        ty: Some("T".into()),
        evaluate_name: None,
        variables_reference: reference,
        indexed_variables: None,
    }
}

#[test]
fn results_show_their_children() {
    let response = EvaluateResponse {
        result: "{1, 2}".into(),
        ty: None,
        variables_reference: 1,
        indexed_variables: None,
    };
    let top = Answer::Children(vec![variable("a", "{1}", 2), variable("b", "x", 2)]);
    // The children of `a` are not known yet.
    let question = format_eval_response("v", &response, &top, &vec![]).unwrap_err();
    assert_eq!(question.reference, 2);
    let known = vec![Known {
        reference: 2,
        answer: Answer::Children(vec![variable("c", "3", 0)]),
    }];
    assert_eq!(
        format_eval_response("v", &response, &top, &known).unwrap(),
        "v\n\nchildren:\na: T =\n  {\n    1\n  }\n  c: T = 3\nb: T = x"
    );
    let failing = vec![Known {
        reference: 2,
        answer: Answer::Failed("gone".into()),
    }];
    assert_eq!(
        format_eval_children(1, &top, &failing).unwrap().unwrap(),
        "children:\n<failed to expand children: gone>"
    );
    let bytes = Answer::Bytes(DecodedBytes {
        inline: "hi".into(),
        pretty: "hi\nthere".into(),
        kind: DecodedBytesKind::Text,
    });
    assert_eq!(
        format_eval_children(1, &bytes, &vec![]).unwrap().as_deref(),
        Some("hi\nthere")
    );
    let plain = EvaluateResponse {
        result: String::new(),
        ty: Some("int".into()),
        variables_reference: 0,
        indexed_variables: None,
    };
    assert_eq!(
        format_eval_response("x", &plain, &top, &vec![]).unwrap(),
        "x: int\n\n(empty)"
    );
}

#[test]
fn children_are_shown_to_a_limit() {
    // Each level refers to the next; the fourth is not expanded.
    let known: Vec<Known> = (1..6)
        .map(|n| Known {
            reference: n,
            answer: Answer::Children(vec![variable(&format!("v{}", n + 1), "x", n + 1)]),
        })
        .collect();
    let top = Answer::Children(vec![variable("v1", "x", 1)]);
    assert_eq!(
        format_eval_children(9, &top, &known).unwrap().unwrap(),
        "children:\nv1: T = x\n  v2: T = x\n    v3: T = x\n      v4: T = x"
    );
    let many = Answer::Children((0..600).map(|_| variable("v", "x", 0)).collect());
    let shown = format_eval_children(9, &many, &vec![]).unwrap().unwrap();
    assert_eq!(shown.lines().count(), 1 + 512 + 1);
    assert!(shown.ends_with("\n..."));
    // A reference that was expanded is not expanded again.
    let same = vec![Known {
        reference: 1,
        answer: Answer::Children(vec![variable("inner", "x", 1)]),
    }];
    assert_eq!(
        format_eval_children(9, &top, &same).unwrap().unwrap(),
        "children:\nv1: T = x\n  inner: T = x"
    );
    let mut lines = Vec::new();
    push_variable_lines(&mut lines, &variable("n", "1", 0), 1);
    assert_eq!(lines, ["  n: T = 1"]);
}

// Breakpoints and stepping

#[test]
fn toggling_twice_restores_the_breakpoints() {
    let mut all = Breakpoints::new();
    dap_toggle_breakpoint_impl(&mut all, "/a", 3);
    dap_toggle_breakpoint_impl(&mut all, "/b", 3);
    dap_toggle_breakpoint_impl(&mut all, "/a", 5);
    let lines = |all: &Breakpoints| {
        all.files
            .iter()
            .map(|f| {
                (
                    f.path.clone(),
                    f.breakpoints.iter().map(|b| b.line).collect::<Vec<_>>(),
                )
            })
            .collect::<Vec<_>>()
    };
    let before = lines(&all);
    assert_eq!(
        before,
        vec![("/a".to_string(), vec![3, 5]), ("/b".to_string(), vec![3])]
    );
    dap_toggle_breakpoint(&mut all, Some("/a"), 4).unwrap();
    assert_ne!(lines(&all), before);
    dap_toggle_breakpoint(&mut all, Some("/a"), 4).unwrap();
    assert_eq!(lines(&all), before);
    assert_eq!(
        dap_toggle_breakpoint(&mut all, None, 4),
        Err("Can't set breakpoint: document has no path")
    );
    dap_toggle_breakpoint_impl(&mut all, "/a", 3);
    assert_eq!(lines(&all)[0].1, vec![5]);
}

#[test]
fn breakpoints_are_edited_and_listed() {
    let mut all = Breakpoints::new();
    assert_eq!(dap_breakpoint_picker(&all).unwrap_err(), "No breakpoints set");
    dap_toggle_breakpoint_impl(&mut all, "/src/a.go", 9);
    dap_edit_condition(&mut all, "/src/a.go", 0, "x > 1");
    dap_edit_log(&mut all, "/src/a.go", 0, "hit");
    let (at, found) = get_breakpoint_at_current_line(&all, Some("/src/a.go"), 9).unwrap();
    assert_eq!(at, 0);
    assert_eq!(found.condition.as_deref(), Some("x > 1"));
    assert_eq!(breakpoint_info(found), "if x > 1 log: hit (unverified)");
    assert!(get_breakpoint_at_current_line(&all, Some("/src/a.go"), 8).is_none());
    assert!(get_breakpoint_at_current_line(&all, None, 9).is_none());
    assert_eq!(breakpoint_place("/src/a.go", 9), "a.go:10");
    dap_edit_condition(&mut all, "/src/a.go", 0, "");
    let items = dap_breakpoint_picker(&all).unwrap();
    assert_eq!(items.len(), 1);
    assert_eq!(items[0].path, "/src/a.go");
    assert_eq!(breakpoint_info(items[0].breakpoint), "log: hit (unverified)");
}

fn debugger(thread: Option<i64>, frame: Option<usize>) -> Debugger {
    let frame_of = |id: usize| StackFrame {
        id,
        name: format!("f{id}"),
        path: None,
        line: id,
        end_line: None,
    };
    Debugger {
        thread_id: thread,
        active_frame: frame,
        stacks: vec![ThreadFrames {
            thread: 7,
            frames: vec![frame_of(0), frame_of(20)],
        }],
    }
}

#[test]
fn steps_need_a_stopped_thread() {
    let stopped = debugger(Some(7), Some(0));
    let running = debugger(None, None);
    for (step, request) in [
        (dap_continue(Some(&stopped)), Request::Continue(7)),
        (dap_step_in(Some(&stopped)), Request::StepIn(7)),
        (dap_step_out(Some(&stopped)), Request::StepOut(7)),
        (dap_next(Some(&stopped)), Request::Next(7)),
    ] {
        match step {
            Step::Ask(asked) => assert_eq!(asked, request),
            other => panic!("{other:?}"),
        }
    }
    for step in [
        dap_continue(Some(&running)),
        dap_step_in(Some(&running)),
        dap_step_out(Some(&running)),
        dap_next(Some(&running)),
    ] {
        match step {
            Step::Error(e) => assert_eq!(
                e,
                "Currently active thread is not stopped. Switch the thread."
            ),
            other => panic!("{other:?}"),
        }
    }
    assert!(matches!(dap_next(None), Step::Nothing));

    let mut all = Breakpoints::new();
    dap_toggle_breakpoint_impl(&mut all, "/a", 2);
    assert!(matches!(
        dap_run_to_cursor(&mut all, Some("/a"), 4, Some(&stopped)),
        RunTo::Send(7)
    ));
    // The program goes on only once the breakpoints are sent.
    assert_eq!(run_to_cursor_sent(7, Ok(())), Ok(Request::Continue(7)));
    assert_eq!(
        run_to_cursor_sent(7, Err("gone".into())).unwrap_err(),
        "Failed to set breakpoints: gone"
    );
    assert_eq!(breakpoints_sent(Ok(())), Ok(()));
    assert_eq!(
        breakpoints_sent(Err("gone".into())).unwrap_err(),
        "Failed to set breakpoints: gone"
    );
    assert_eq!(open_error("denied"), "Failed to open file: denied");
    assert!(matches!(
        dap_run_to_cursor(&mut all, Some("/a"), 4, None),
        RunTo::Nothing
    ));
    let lines: Vec<_> = all.files[0]
        .breakpoints
        .iter()
        .map(|b| (b.line, b.temporary))
        .collect();
    assert_eq!(lines, [(2, false), (4, true)]);
    dap_run_to_cursor(&mut all, Some("/a"), 2, Some(&stopped));
    assert_eq!(all.files[0].breakpoints.len(), 2);
    match dap_run_to_cursor(&mut all, None, 2, Some(&stopped)) {
        RunTo::Error(e) => assert_eq!(e, "Can't run to cursor: document has no path"),
        other => panic!("{other:?}"),
    }
}

#[test]
fn frames_are_chosen_and_missing_ones_explained() {
    assert_eq!(current_stack_frame_id(None), Err("No active debug session."));
    assert_eq!(
        current_stack_frame_id(Some(&debugger(None, None))),
        Err("Cannot evaluate while target is running.")
    );
    assert_eq!(
        current_stack_frame_id(Some(&debugger(Some(7), None))),
        Err("Cannot find current stack frame to evaluate.")
    );
    assert_eq!(current_stack_frame_id(Some(&debugger(Some(7), Some(1)))), Ok(20));
    assert_eq!(eval_error("x", "no"), "Eval 'x': no");
    let told = |d: Debugger| match dap_variables(&d) {
        Ok(id) => format!("{id}"),
        Err(Message::Status(s)) => format!("status {s}"),
        Err(Message::Error(e)) => format!("error {e}"),
    };
    assert_eq!(told(debugger(Some(7), Some(1))), "20");
    assert_eq!(
        told(debugger(None, None)),
        "status Cannot access variables while target is running."
    );
    assert_eq!(
        told(debugger(Some(7), None)),
        "status Cannot find current stack frame to access variables."
    );
    assert_eq!(
        told(debugger(Some(-8), Some(0))),
        "error Failed to get stack frame for thread: -8"
    );
    assert_eq!(
        told(debugger(Some(7), Some(2))),
        "error Failed to get stack frame for thread 7 and frame 2."
    );
    let d = debugger(Some(7), Some(1));
    let frames = dap_switch_stack_frame(&d).unwrap();
    let (at, frame) = frame_chosen(frames, 20);
    assert_eq!((at, frame.unwrap().id), (Some(1), 20));
    let (at, frame) = frame_chosen(frames, 99);
    assert_eq!((at, frame.unwrap().id), (None, 0));
    assert_eq!(frame_lines(&frames[0]), (0, 0));
    assert_eq!(frame_lines(&frames[1]), (19, 19));
    assert_eq!(
        dap_switch_stack_frame(&debugger(None, None)).unwrap_err(),
        "No thread is currently active"
    );
    let thread = |id: i64| Thread {
        id,
        name: "t".into(),
    };
    assert_eq!(only_thread(&vec![thread(1)]).unwrap().id, 1);
    assert!(only_thread(&vec![thread(1), thread(2)]).is_none());
    let states = vec![ThreadState {
        id: 1,
        state: "stopped".into(),
    }];
    assert_eq!(thread_state(&states, 1), "stopped");
    assert_eq!(thread_state(&states, 2), "unknown");
    assert_eq!(
        dap_terminate(Some(true)),
        ("Terminating debug session...", true)
    );
    assert!(!dap_terminate(None).1);
}

#[test]
fn watches_are_added_once_and_removed() {
    let mut watches = Vec::new();
    assert_eq!(dap_remove_watch(&watches).unwrap_err(), "No watch expressions to remove");
    assert_eq!(dap_add_watch(&mut watches, "  "), None);
    assert_eq!(
        dap_add_watch(&mut watches, " x "),
        Some("Added watch: x".into())
    );
    assert_eq!(
        dap_add_watch(&mut watches, "x"),
        Some("Already watching: x".into())
    );
    dap_add_watch(&mut watches, "y");
    assert_eq!(watches, ["x", "y"]);
    assert_eq!(watch_chosen(&mut watches, "x"), "Removed watch: x");
    assert_eq!(dap_remove_watch(&watches).unwrap(), &["y"]);
    assert_eq!(watch_prefill("ab", "w"), "ab");
    assert_eq!(watch_prefill("a", "w"), "w");
    assert_eq!(watch_prefill("a", "  "), "");
}

#[test]
fn pauses_switches_and_exceptions_follow_the_adapter() {
    let thread = |id| devflow::dap::Thread {
        id,
        name: format!("thread {id}"),
    };
    assert_eq!(
        devflow::dap::dap_pause(&vec![thread(4)]),
        Some(devflow::dap::Request::Pause(4))
    );
    assert_eq!(devflow::dap::dap_pause(&vec![thread(4), thread(5)]), None);
    assert_eq!(devflow::dap::dap_pause(&vec![]), None);
    assert_eq!(devflow::dap::pause_error("gone"), "Failed to pause: gone");
    assert_eq!(devflow::dap::dap_switch_thread(&vec![thread(7)]), Some(7));
    assert_eq!(
        devflow::dap::dap_switch_thread(&vec![thread(7), thread(8)]),
        None
    );
    let filter = |filter: &str| devflow::dap::ExceptionFilter {
        filter: filter.to_owned(),
        label: String::new(),
    };
    assert_eq!(
        devflow::dap::dap_enable_exceptions(Some(&vec![filter("raised"), filter("uncaught")])),
        Some(vec!["raised".to_owned(), "uncaught".to_owned()])
    );
    assert_eq!(devflow::dap::dap_enable_exceptions(None), None);
    assert!(devflow::dap::dap_disable_exceptions().is_empty());
}

#[test]
fn result_buffers_are_used_again() {
    use_again(Some(3), true, Some(9), devflow::eval::Showing::Visible(3, 9));
    use_again(Some(3), true, None, devflow::eval::Showing::Hidden(3));
    use_again(Some(3), false, None, devflow::eval::Showing::New);
    use_again(None, false, None, devflow::eval::Showing::New);
    let visible = devflow::eval::Showing::Visible(3, 9);
    assert_eq!(devflow::eval::focus_after(visible, 1, false), Some(9));
    assert_eq!(devflow::eval::focus_after(visible, 1, true), Some(1));
    let split = devflow::eval::Showing::Hidden(3);
    assert_eq!(devflow::eval::focus_after(split, 1, false), None);
}

fn use_again(last: Option<u64>, open: bool, view: Option<u64>, wanted: devflow::eval::Showing) {
    assert_eq!(devflow::eval::showing(last, open, view), wanted);
}
