use devflow::adapter::{Scope, Variable};
use devflow::console::{error_line, first_shown, footer, DebugOutputPanel};
use devflow::decode::{
    decode_byte_collection, decode_text, is_probably_text, parse_byte_value, parse_index_name,
    DecodedBytes, DecodedBytesKind, Pages,
};
use devflow::variables::{
    format_node, frame, handle_key, load_children, sanitize_inline, sort_scopes, thumb, Action,
    Answer, Children, DebugVariables, Evaluation, Expansion, Key, Node, NodeKind, Style, Watch,
};

fn byte_variable(index: usize, value: &str) -> Variable {
    Variable {
        name: format!("[{index}]"),
        value: value.to_string(),
        ty: Some("uint8".to_string()),
        evaluate_name: None,
        variables_reference: 0,
        indexed_variables: None,
    }
}

fn string_view_variable(value: &str) -> Variable {
    Variable {
        name: "string()".to_string(),
        value: value.to_string(),
        ty: Some("string".to_string()),
        evaluate_name: None,
        variables_reference: 0,
        indexed_variables: None,
    }
}

#[test]
fn decodes_utf8_byte_collections_as_text() {
    let variables = vec![
        byte_variable(0, "104"),
        byte_variable(1, "101"),
        byte_variable(2, "108"),
        byte_variable(3, "108"),
        byte_variable(4, "111"),
    ];
    assert_eq!(
        decode_byte_collection(&variables),
        Some(DecodedBytes {
            inline: "hello".to_string(),
            pretty: "hello".to_string(),
            kind: DecodedBytesKind::Text,
        })
    );
}

#[test]
fn pretty_prints_json_byte_collections() {
    let variables = br#"{"ok":true}"#
        .iter()
        .enumerate()
        .map(|(index, byte)| byte_variable(index, &byte.to_string()))
        .collect::<Vec<_>>();
    let rendered = decode_byte_collection(&variables).unwrap();
    assert_eq!(rendered.kind, DecodedBytesKind::Json);
    assert_eq!(rendered.inline, r#"{"ok":true}"#);
    assert_eq!(rendered.pretty, "{\n  \"ok\": true\n}");
    assert_eq!(rendered.label(), "json");
}

#[test]
fn decodes_string_view_json_collections() {
    let variables = vec![
        string_view_variable(r#""{\"ok\":true}""#),
        byte_variable(0, "123"),
        byte_variable(1, "34"),
    ];
    let rendered = decode_byte_collection(&variables).unwrap();
    assert_eq!(rendered.kind, DecodedBytesKind::Json);
    assert_eq!(rendered.inline, r#"{"ok":true}"#);
    assert_eq!(rendered.pretty, "{\n  \"ok\": true\n}");
}

#[test]
fn rejects_non_byte_collections() {
    let variables = vec![Variable {
        name: "[0]".to_string(),
        value: "42".to_string(),
        ty: Some("int".to_string()),
        evaluate_name: None,
        variables_reference: 0,
        indexed_variables: None,
    }];
    assert_eq!(decode_byte_collection(&variables), None);
}

#[test]
fn parses_byte_values_with_hex_suffixes() {
    let variables = vec![
        byte_variable(0, "123 = 0x7b"),
        byte_variable(1, "125 = 0x7d"),
    ];
    let rendered = decode_byte_collection(&variables).unwrap();
    assert_eq!(rendered.kind, DecodedBytesKind::Json);
    assert_eq!(rendered.inline, "{}");
    assert_eq!(rendered.pretty, "{}");
}

#[test]
fn elements_are_put_in_the_order_of_their_indices() {
    let variables = vec![byte_variable(1, "105"), byte_variable(0, "72")];
    assert_eq!(decode_byte_collection(&variables).unwrap().inline, "Hi");
    // Bytes that are no text say nothing.
    let variables = vec![byte_variable(0, "255"), byte_variable(1, "254")];
    assert_eq!(decode_byte_collection(&variables), None);
    assert_eq!(decode_byte_collection(&vec![]), None);
}

#[test]
fn a_collection_with_other_children_is_not_decoded() {
    let mut variables = vec![byte_variable(0, "72"), byte_variable(1, "105")];
    variables[1].name = "next".into();
    assert_eq!(decode_byte_collection(&variables), None);
}

#[test]
fn names_and_values_of_elements_are_read() {
    assert_eq!(parse_index_name(" [12] "), Some(12));
    assert_eq!(parse_index_name("7"), Some(7));
    assert_eq!(parse_index_name("[x]"), None);
    assert_eq!(parse_byte_value("0x7f"), Some(127));
    assert_eq!(parse_byte_value("256"), None);
    assert_eq!(parse_byte_value("65 'A'"), Some(65));
    assert!(is_probably_text("two\nlines\t"));
    assert!(!is_probably_text("\u{0}\u{1}\u{2}"));
    assert_eq!(decode_text("[1, 2]").unwrap().pretty, "[\n  1,\n  2\n]");
    assert_eq!(decode_text("plain").unwrap().label(), "text");
}

#[test]
fn collections_are_fetched_in_pages() {
    let mut pages = Pages::new(70);
    assert_eq!(pages.next(), Some((0, 64)));
    pages.take_page((0..64).map(|i| byte_variable(i, "97")).collect());
    assert_eq!(pages.next(), Some((64, 6)));
    assert!(pages.finish().is_none());
    pages.take_page((64..70).map(|i| byte_variable(i, "98")).collect());
    assert_eq!(pages.next(), None);
    let whole = pages.finish().unwrap();
    assert_eq!(whole.inline, "a".repeat(64) + "bbbbbb");
    let mut short = Pages::new(3);
    short.take_page(vec![]);
    assert_eq!(short.next(), None);
    assert!(short.finish().is_none());
}

fn scope(name: &str, hint: Option<&str>, reference: usize) -> Scope {
    Scope {
        name: name.into(),
        presentation_hint: hint.map(str::to_owned),
        variables_reference: reference,
        expensive: false,
    }
}

#[test]
fn scope_sort_prefers_locals_first() {
    let scopes = sort_scopes(vec![
        scope("Registers", Some("registers"), 1),
        scope("Arguments", Some("arguments"), 1),
        scope("Locals", Some("locals"), 1),
    ]);
    assert_eq!(scopes[0].name, "Locals");
    assert_eq!(scopes[1].name, "Arguments");
    assert_eq!(scopes[2].name, "Registers");
}

fn variable_node(name: &str, value: &str, reference: usize) -> Node {
    Node {
        kind: NodeKind::Variable {
            name: name.into(),
            value: value.into(),
            ty: Some("i32".into()),
            variables_reference: reference,
            indexed_variables: None,
        },
        expanded: false,
        children: if reference == 0 {
            Children::Loaded(Vec::new())
        } else {
            Children::Unloaded
        },
    }
}

#[test]
fn refresh_visible_paths_includes_expanded_children() {
    let mut variables = DebugVariables {
        debugger_id: 0,
        roots: vec![Node {
            kind: NodeKind::Scope {
                name: "Locals".into(),
                presentation_hint: Some("locals".into()),
                expensive: false,
                variables_reference: 1,
            },
            expanded: true,
            children: Children::Loaded(vec![variable_node("answer", "42", 0)]),
        }],
        visible_paths: Vec::new(),
        cursor: 0,
        scroll: 0,
        page_size: 10,
        viewport: (80, 25),
        status: None,
        frame_id: None,
    };
    variables.refresh_visible_paths();
    assert_eq!(variables.visible_paths, vec![vec![0], vec![0, 0]]);
}

fn variable(name: &str, reference: usize) -> Variable {
    Variable {
        name: name.into(),
        value: "v".into(),
        ty: None,
        evaluate_name: None,
        variables_reference: reference,
        indexed_variables: None,
    }
}

#[test]
fn the_order_of_listed_children_does_not_matter() {
    let child = |name: &str, value: &str, ty: &str| Variable {
        name: name.into(),
        value: value.into(),
        ty: Some(ty.into()),
        evaluate_name: None,
        variables_reference: 0,
        indexed_variables: None,
    };
    let listed = |order: &[usize]| {
        let children = order
            .iter()
            .map(|&i| match i {
                0 => byte_variable(0, "72"),
                1 => byte_variable(1, "105"),
                2 => child("len", "2", "int"),
                3 => child("string()", "\"Ho\"", "string"),
                _ => child("other", "1", "int"),
            })
            .collect();
        decode_byte_collection(&children).map(|d| d.inline)
    };
    for order in [[0, 1, 2], [1, 0, 2], [2, 1, 0]] {
        assert_eq!(listed(&order).as_deref(), Some("Hi"));
    }
    for order in [[3, 1, 0], [0, 3, 1]] {
        assert_eq!(listed(&order).as_deref(), Some("Ho"));
    }
    for order in [[4, 0, 1], [0, 1, 4]] {
        assert_eq!(listed(&order), None);
    }
}

#[test]
fn nodes_expand_load_and_collapse() {
    let mut browser = DebugVariables::new(
        1,
        vec![scope("Globals", None, 2), scope("Locals", None, 1)],
        Some(5),
    );
    assert_eq!(browser.visible_paths, vec![vec![0], vec![1]]);
    let load = match browser.expand_initial() {
        Expansion::Load {
            path, reference, ..
        } => (path, reference),
        other => panic!("{other:?}"),
    };
    assert_eq!(load, (vec![0], 1));
    let children = load_children(Answer::Variables(vec![variable("a", 3), variable("b", 0)]));
    assert_eq!(browser.take_children(&vec![0], children), None);
    assert_eq!(
        browser.visible_paths,
        vec![vec![0], vec![0, 0], vec![0, 1], vec![1]]
    );
    browser.move_down();
    assert_eq!(browser.selected_path(), Some(vec![0, 0]));
    assert!(matches!(
        browser.expand_selected(),
        Expansion::Load { reference: 3, .. }
    ));
    // A failure is told and shown at its node; the rows stay.
    let failed = load_children(Answer::Failed("gone".into()));
    assert_eq!(
        browser.take_children(&vec![0, 0], failed),
        Some("Failed to load variables: gone".into())
    );
    assert_eq!(browser.footer_text(), "Failed to load variables: gone");
    assert_eq!(browser.visible_paths.len(), 4);
    browser.move_end();
    assert_eq!((browser.cursor, browser.scroll), (3, 3));
    browser.resize(2);
    browser.move_page_up();
    assert_eq!((browser.cursor, browser.scroll), (1, 1));
    browser.move_page_down();
    assert_eq!((browser.cursor, browser.scroll), (3, 2));
    browser.move_up();
    // From a child without children of its own to its parent, which collapses.
    browser.collapse_selected();
    assert_eq!(browser.selected_path(), Some(vec![0]));
    browser.collapse_selected();
    assert_eq!(browser.visible_paths, vec![vec![0], vec![1]]);
    assert!(matches!(browser.expand_selected(), Expansion::Done));
    assert_eq!(browser.visible_paths.len(), 4);
    browser.move_home();
    assert_eq!(browser.cursor, 0);
    for path in &browser.visible_paths {
        assert!(browser.node(path).is_some());
    }
    browser.required_size((80, 10));
    assert_eq!(browser.page_size, 7);
    assert_eq!(
        load_children(Answer::Ended).unwrap_err(),
        "Debugger session ended."
    );
}

#[test]
fn another_frame_restores_what_was_expanded() {
    let mut browser = DebugVariables::new(1, vec![scope("Locals", None, 1)], Some(5));
    browser.expand_initial();
    let children = load_children(Answer::Variables(vec![variable("a", 3)]));
    browser.take_children(&vec![0], children);
    let inner = load_children(Answer::Variables(vec![variable("x", 0)]));
    browser.take_children(&vec![0, 0], inner);
    assert_eq!(browser.needs_refresh(Some(5)), None);
    assert_eq!(browser.needs_refresh(None), None);
    assert_eq!(browser.needs_refresh(Some(6)), Some(6));
    let watch = Watch {
        expression: "w".into(),
        outcome: Err("undefined".into()),
    };
    let names = browser.reframe(6, vec![scope("Locals", None, 9)], vec![watch]);
    assert_eq!(
        names,
        vec![vec!["Locals".to_string()], vec!["Locals".into(), "a".into()]]
    );
    // The watched expressions come first.
    assert_eq!(
        browser.visible_paths,
        vec![vec![0], vec![0, 0], vec![1]]
    );
    match &browser.node(&[0, 0]).unwrap().kind {
        NodeKind::Variable { value, .. } => assert_eq!(value, "<undefined>"),
        other => panic!("{other:?}"),
    }
    let children = load_children(Answer::Variables(vec![variable("b", 0), variable("a", 4)]));
    browser.take_children(&vec![1], children);
    assert_eq!(browser.restore_expanded(&names, &vec![1]), vec![vec![1, 1]]);
    let failed = load_children(Answer::Failed("gone".into()));
    browser.take_children(&vec![1, 1], failed);
    assert!(browser.status.is_some());
    browser.finish_refresh();
    assert_eq!(browser.status, None);
    assert_eq!((browser.frame_id, browser.debugger_id), (Some(6), 1));
}

#[test]
fn browsers_open_with_the_watched_expressions_first() {
    let watch = Watch {
        expression: "w".into(),
        outcome: Err("undefined".into()),
    };
    let browser =
        DebugVariables::open(4, 5, Ok(vec![scope("Locals", None, 1)]), vec![watch]).unwrap();
    assert_eq!(browser.visible_paths, vec![vec![0], vec![0, 0], vec![1]]);
    assert_eq!((browser.frame_id, browser.debugger_id), (Some(5), 4));
    assert_eq!(
        DebugVariables::open(4, 5, Err("gone".into()), vec![]).unwrap_err(),
        "Failed to get scopes: gone"
    );
}

#[test]
fn expanding_keeps_the_cursor_and_the_window() {
    let scopes = vec![scope("Locals", None, 1), scope("Globals", None, 2)];
    let mut browser = DebugVariables::new(4, scopes, Some(5));
    assert_eq!(browser.viewport, (0, 0));
    browser.required_size((80, 5));
    browser.move_down();
    browser.expand_selected();
    let children = load_children(Answer::Variables(vec![variable("a", 0), variable("b", 0)]));
    browser.take_children(&vec![1], children);
    assert_eq!((browser.cursor, browser.scroll), (1, 0));
    browser.move_end();
    assert_eq!((browser.cursor, browser.scroll), (3, 2));
    // Fewer rows: the cursor stays on the last one.
    browser.reframe(6, vec![scope("Locals", None, 9)], vec![]);
    assert_eq!((browser.cursor, browser.scroll), (0, 0));
    assert_eq!((browser.page_size, browser.viewport), (2, (80, 5)));
    assert_eq!((browser.frame_id, browser.debugger_id), (Some(6), 4));
}

#[test]
fn watched_bytes_are_decoded() {
    let mut browser = DebugVariables::new(1, vec![], None);
    browser.build_watch_scope(vec![Watch {
        expression: "b".into(),
        outcome: Ok(Evaluation {
            result: "[]byte len: 2".into(),
            ty: Some("[]uint8".into()),
            variables_reference: 4,
            indexed_variables: Some(2),
            decoded: None,
            variables: Some(vec![byte_variable(0, "72"), byte_variable(1, "105")]),
        }),
    }]);
    browser.refresh_visible_paths();
    match &browser.node(&[0, 0]).unwrap().kind {
        NodeKind::Variable { value, .. } => assert_eq!(value, "Hi"),
        other => panic!("{other:?}"),
    }
}

#[test]
fn rows_show_names_types_and_values() {
    let mut node = variable_node("x", "1", 3);
    node.children = Children::Failed("no".into());
    let row: Vec<_> = format_node(&node, 2)
        .into_iter()
        .map(|s| (s.text, s.style))
        .collect();
    let expected: Vec<(String, Style)> = [
        ("    ", Style::Plain),
        ("> ", Style::Type),
        ("x", Style::Name),
        (": ", Style::Plain),
        ("i32", Style::Type),
        (" = ", Style::Plain),
        ("1", Style::Value),
        (" ", Style::Plain),
        ("[no]", Style::Type),
    ]
    .into_iter()
    .map(|(t, s)| (t.to_string(), s))
    .collect();
    assert_eq!(row, expected);
    assert_eq!(sanitize_inline("a\nb\tc\r"), "a b c ");
    assert_eq!(frame(0, 5), None);
    assert_eq!(frame(3, 1), Some((1, false)));
    assert_eq!(frame(3, 5), Some((4, true)));
    assert_eq!(thumb(10, 10, 0), None);
    assert_eq!(thumb(20, 10, 0), Some((0, 5)));
    assert_eq!(thumb(20, 10, 10), Some((5, 5)));
    // Scrolled further than a window of this height would be.
    assert_eq!(thumb(10, 5, 9), Some((3, 3)));
}

#[test]
fn keys_of_the_browser() {
    assert_eq!(handle_key(Key::Esc), Action::Close);
    assert_eq!(handle_key(Key::Ctrl('c')), Action::Close);
    assert_eq!(handle_key(Key::Char('k')), Action::MoveUp);
    assert_eq!(handle_key(Key::Char('l')), Action::Expand);
    assert_eq!(handle_key(Key::Left), Action::Collapse);
    assert_eq!(handle_key(Key::Char('c')), Action::Ignore);
    assert_eq!(handle_key(Key::Other), Action::Ignore);
}

#[test]
fn the_output_panel_closes_once_without_errors() {
    let mut panel = DebugOutputPanel::for_startup();
    let log = vec!["[stdout] ok".to_string()];
    assert!(!panel.observe(&log, false));
    assert!(panel.observe(&log, true));
    assert!(!panel.observe(&log, true));
    let mut failing = DebugOutputPanel::for_startup();
    assert!(!failing.observe(&vec!["[stderr] bad".into()], true));
    let mut manual = DebugOutputPanel::manual();
    assert!(!manual.observe(&log, true));
    assert_eq!(manual.last_len, 1);
    assert!(error_line("[stderr] x") && !error_line("x [stderr]"));
    assert_eq!((first_shown(10, 4), first_shown(3, 4)), (6, 0));
    assert_eq!(footer(true), "esc close | session running");
    assert_eq!(footer(false), "esc close | starting...");
}
