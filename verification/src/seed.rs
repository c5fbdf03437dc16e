//! The buffer in which expressions for the debugger are written. A Go expression
//! stands in a function, so that the language server understands it.
use crate::paths::{extension, extension_of, join_path, joined, parent, parent_of};
use crate::status::text_view;
use crate::text::{
    after_prefix, chars, contains, decimal, find, has_prefix, join, join_texts, lemma_find, lines, listed, number,
    occurs, part, same, search, slices, spells, split_lines, split_words, starts_with, strip,
    strip_prefix, text, trim_end, trim_right, trimmed, views, words, Pattern,
};
use vstd::prelude::*;

verus! {

pub const GO_EVAL_START_MARKER: &'static str = "/*__hx_dap_expr_start__*/";

pub const GO_EVAL_END_MARKER: &'static str = "/*__hx_dap_expr_end__*/";

pub const GO_EVAL_INDENT: &'static str = "        ";

// ---------------------------------------------------------------------------
// The file that the expression belongs to
// ---------------------------------------------------------------------------

/// The package that a line names.
pub open spec fn package_on(line: Seq<char>) -> Option<Seq<char>> {
    match strip_prefix(trimmed(line), "package "@) {
        Some(rest) => if words(rest).len() > 0 {
            Some(words(rest)[0])
        } else {
            None
        },
        None => None,
    }
}

/// The package that the first line from index `i` on names that names one.
pub open spec fn package_from(rows: Seq<Seq<char>>, i: int) -> Option<Seq<char>>
    decreases rows.len() - i,
{
    if i < 0 || i >= rows.len() {
        None
    } else if package_on(rows[i]) is Some {
        package_on(rows[i])
    } else {
        package_from(rows, i + 1)
    }
}

pub fn detect_go_package_name(source: &str) -> (r: Option<String>)
    ensures
        text_view(r) == package_from(lines(source@), 0),
{
    let all = chars(source);
    let rows = split_lines(&all);
    let ghost given = lines(source@);
    let mut i: usize = 0;
    while i < rows.len()
        invariant
            i <= rows@.len(),
            given == slices(rows@),
            given == lines(source@),
            package_from(given, 0) == package_from(given, i as int),
        decreases rows@.len() - i,
    {
        assert(given[i as int] == rows@[i as int]@);
        match after_prefix(strip(rows[i]), "package ") {
            Some(rest) => {
                let found = split_words(rest);
                if found.len() > 0 {
                    assert(slices(found@)[0] == found@[0]@);
                    return Some(text(found[0]));
                }
            },
            None => {},
        }
        i += 1;
    }
    None
}

/// The index of the first line from `i` on that starts with `p`, white space aside;
/// the number of lines if none does.
pub open spec fn first_starting(rows: Seq<Seq<char>>, p: Seq<char>, i: int) -> int
    decreases rows.len() - i,
{
    if i < 0 || i >= rows.len() {
        rows.len() as int
    } else if starts_with(trimmed(rows[i]), p) {
        i
    } else {
        first_starting(rows, p, i + 1)
    }
}

/// The index of the first line from `i` on that is neither blank nor a comment.
pub open spec fn first_code(rows: Seq<Seq<char>>, i: int) -> int
    decreases rows.len() - i,
{
    if i < 0 || i >= rows.len() {
        rows.len() as int
    } else if trimmed(rows[i]).len() == 0 || starts_with(trimmed(rows[i]), "//"@) {
        first_code(rows, i + 1)
    } else {
        i
    }
}

/// The end of a group of imports: the index behind the first line from `i` on that
/// is a closing parenthesis.
pub open spec fn group_end(rows: Seq<Seq<char>>, i: int) -> int
    decreases rows.len() - i,
{
    if i < 0 || i >= rows.len() {
        rows.len() as int
    } else if trimmed(rows[i]) == ")"@ {
        i + 1
    } else {
        group_end(rows, i + 1)
    }
}

/// The index of the first line from `i` on that is no import.
pub open spec fn imports_end(rows: Seq<Seq<char>>, i: int) -> int
    decreases rows.len() - i,
{
    if i < 0 || i >= rows.len() {
        rows.len() as int
    } else if starts_with(trimmed(rows[i]), "import "@) {
        imports_end(rows, i + 1)
    } else {
        i
    }
}

/// The lines of the imports that follow the package clause: a group of them, or
/// those that stand one below another.
pub open spec fn import_rows(rows: Seq<Seq<char>>) -> Option<Seq<Seq<char>>> {
    let package = first_starting(rows, "package "@, 0);
    let start = first_code(rows, package + 1);
    if package >= rows.len() || start >= rows.len() || !starts_with(
        trimmed(rows[start]),
        "import "@,
    ) {
        None
    } else if starts_with(trimmed(rows[start]), "import ("@) {
        Some(rows.subrange(start, group_end(rows, start + 1)))
    } else {
        Some(rows.subrange(start, imports_end(rows, start + 1)))
    }
}

proof fn lemma_first_starting(rows: Seq<Seq<char>>, p: Seq<char>, i: int)
    requires
        0 <= i <= rows.len(),
    ensures
        i <= first_starting(rows, p, i) <= rows.len(),
    decreases rows.len() - i,
{
    if i < rows.len() {
        lemma_first_starting(rows, p, i + 1);
    }
}

proof fn lemma_first_code(rows: Seq<Seq<char>>, i: int)
    requires
        0 <= i <= rows.len(),
    ensures
        i <= first_code(rows, i) <= rows.len(),
    decreases rows.len() - i,
{
    if i < rows.len() {
        lemma_first_code(rows, i + 1);
    }
}

proof fn lemma_ends(rows: Seq<Seq<char>>, i: int)
    requires
        0 <= i <= rows.len(),
    ensures
        i <= group_end(rows, i) <= rows.len(),
        i <= imports_end(rows, i) <= rows.len(),
    decreases rows.len() - i,
{
    if i < rows.len() {
        lemma_ends(rows, i + 1);
    }
}

pub open spec fn import_block(source: Seq<char>) -> Option<Seq<char>> {
    match import_rows(lines(source)) {
        Some(rows) => Some(join(rows, "\n"@)),
        None => None,
    }
}

/// The rows from `start` to `end`, joined by line feeds.
fn join_rows(rows: &Vec<&[char]>, start: usize, end: usize) -> (r: String)
    requires
        start <= end <= rows@.len(),
    ensures
        r@ == join(slices(rows@).subrange(start as int, end as int), "\n"@),
{
    let ghost given = slices(rows@);
    let mut kept: Vec<String> = Vec::new();
    let mut i: usize = start;
    assert(views(kept@) =~= given.subrange(start as int, start as int));
    while i < end
        invariant
            start <= i <= end <= rows@.len(),
            given == slices(rows@),
            views(kept@) == given.subrange(start as int, i as int),
        decreases end - i,
    {
        let ghost before = views(kept@);
        assert(given[i as int] == rows@[i as int]@);
        kept.push(text(rows[i]));
        assert(views(kept@) =~= before.push(given[i as int]));
        i += 1;
        assert(views(kept@) =~= given.subrange(start as int, i as int));
    }
    join_texts(&kept, "\n")
}

pub fn extract_go_import_block(source: &str) -> (r: Option<String>)
    ensures
        text_view(r) == import_block(source@),
{
    let all = chars(source);
    let rows = split_lines(&all);
    let ghost given = lines(source@);
    let mut i: usize = 0;
    while i < rows.len() && !has_prefix(strip(rows[i]), "package ")
        invariant
            i <= rows@.len(),
            given == slices(rows@),
            first_starting(given, "package "@, 0) == first_starting(given, "package "@, i as int),
        decreases rows@.len() - i,
    {
        assert(given[i as int] == rows@[i as int]@);
        i += 1;
    }
    if i >= rows.len() {
        return None;
    }
    assert(given[i as int] == rows@[i as int]@);
    assert(first_starting(given, "package "@, 0) == i);
    let ghost package = i as int;
    i += 1;
    while i < rows.len() && (strip(rows[i]).len() == 0 || has_prefix(strip(rows[i]), "//"))
        invariant
            i <= rows@.len(),
            given == slices(rows@),
            first_code(given, package + 1) == first_code(given, i as int),
        decreases rows@.len() - i,
    {
        assert(given[i as int] == rows@[i as int]@);
        i += 1;
    }
    if i >= rows.len() {
        return None;
    }
    let start: usize = i;
    assert(given[start as int] == rows@[start as int]@);
    assert(first_code(given, package + 1) == start);
    if !has_prefix(strip(rows[start]), "import ") {
        return None;
    }
    i += 1;
    if has_prefix(strip(rows[start]), "import (") {
        while i < rows.len() && !spells(strip(rows[i]), ")")
            invariant
                start < i <= rows@.len(),
                given == slices(rows@),
                group_end(given, start + 1) == group_end(given, i as int),
            decreases rows@.len() - i,
        {
            assert(given[i as int] == rows@[i as int]@);
            i += 1;
        }
        if i < rows.len() {
            assert(given[i as int] == rows@[i as int]@);
            i += 1;
        }
        return Some(join_rows(&rows, start, i));
    }
    while i < rows.len() && has_prefix(strip(rows[i]), "import ")
        invariant
            start < i <= rows@.len(),
            given == slices(rows@),
            imports_end(given, start + 1) == imports_end(given, i as int),
        decreases rows@.len() - i,
    {
        assert(given[i as int] == rows@[i as int]@);
        i += 1;
    }
    if i < rows.len() {
        assert(given[i as int] == rows@[i as int]@);
    }
    Some(join_rows(&rows, start, i))
}

// ---------------------------------------------------------------------------
// Writing the expression
// ---------------------------------------------------------------------------

/// What a buffer for expressions starts with.
#[derive(Debug)]
pub struct EvalInputSeed {
    pub content: String,
    /// The position of the cursor, in characters.
    pub cursor: usize,
    pub language: Option<String>,
    pub source_path: Option<String>,
}

/// What stands above the expression.
pub open spec fn opening(source: Seq<char>) -> Seq<char> {
    let package = match package_from(lines(source), 0) {
        Some(package) => package,
        None => "main"@,
    };
    let head = "package "@ + package + "\n"@;
    let imported = match import_block(source) {
        Some(block) => head + "\n"@ + block + "\n"@,
        None => head,
    };
    imported + "\nfunc __hx_dap_eval__() any {\n    return (\n"@
}

/// Lines of an expression, indented.
pub open spec fn written(rows: Seq<Seq<char>>) -> Seq<char>
    decreases rows.len(),
{
    if rows.len() == 0 {
        seq![]
    } else {
        written(rows.drop_last()) + GO_EVAL_INDENT@ + rows.last() + "\n"@
    }
}

/// The lines of an expression; an empty one has a line to write on.
pub open spec fn expression_rows(expression: Seq<char>) -> Seq<Seq<char>> {
    if expression.len() == 0 {
        seq![seq![]]
    } else {
        lines(expression)
    }
}

/// The content of the buffer for a Go expression.
pub open spec fn seeded(source: Seq<char>, expression: Seq<char>) -> Seq<char> {
    opening(source) + GO_EVAL_INDENT@ + GO_EVAL_START_MARKER@ + "\n"@ + written(
        expression_rows(expression),
    ) + GO_EVAL_INDENT@ + GO_EVAL_END_MARKER@ + "\n    )\n}\n"@
}

/// Where the expression stands: between the markers, without the line feeds next
/// to them.
pub open spec fn region(s: Seq<char>) -> Option<(int, int)> {
    match find(s, GO_EVAL_START_MARKER@) {
        None => None,
        Some(i) => {
            let from = i + GO_EVAL_START_MARKER@.len();
            match find(s.skip(from), GO_EVAL_END_MARKER@) {
                None => None,
                Some(j) => {
                    let to = from + j;
                    let start = if from < to && s[from] == '\n' {
                        from + 1
                    } else {
                        from
                    };
                    let end = if start < to && s[to - 1] == '\n' {
                        to - 1
                    } else {
                        to
                    };
                    Some((start, end))
                },
            }
        },
    }
}

proof fn lemma_region(s: Seq<char>)
    ensures
        region(s) matches Some((start, end)) ==> 0 <= start <= end <= s.len(),
{
    lemma_find(s, GO_EVAL_START_MARKER@);
    if let Some(i) = find(s, GO_EVAL_START_MARKER@) {
        lemma_find(s.skip(i + GO_EVAL_START_MARKER@.len()), GO_EVAL_END_MARKER@);
    }
}

pub fn go_eval_expression_region(content: &str) -> (r: Option<(usize, usize)>)
    ensures
        match r {
            Some((start, end)) => region(content@) == Some((start as int, end as int)),
            None => region(content@) is None,
        },
{
    let all = chars(content);
    proof {
        lemma_find(content@, GO_EVAL_START_MARKER@);
    }
    let length: usize = all.len();
    let from: usize = match search(&all, GO_EVAL_START_MARKER) {
        Some(i) => {
            assert(i + GO_EVAL_START_MARKER@.len() <= length);
            i + chars(GO_EVAL_START_MARKER).len()
        },
        None => return None,
    };
    let rest = part(&all, from, all.len());
    assert(rest@ =~= content@.skip(from as int));
    proof {
        lemma_find(rest@, GO_EVAL_END_MARKER@);
    }
    let to: usize = match search(rest, GO_EVAL_END_MARKER) {
        Some(j) => from + j,
        None => return None,
    };
    let start: usize = if from < to && all[from] == '\n' { from + 1 } else { from };
    let end: usize = if start < to && all[to - 1] == '\n' { to - 1 } else { to };
    Some((start, end))
}

/// A line without the indentation of the buffer.
pub open spec fn dedented(line: Seq<char>) -> Seq<char> {
    match strip_prefix(line, GO_EVAL_INDENT@) {
        Some(rest) => rest,
        None => line,
    }
}

pub open spec fn dedented_rows(rows: Seq<Seq<char>>) -> Seq<Seq<char>> {
    rows.map_values(|row: Seq<char>| dedented(row))
}

/// The expression that a buffer holds.
pub open spec fn expression_in(s: Seq<char>) -> Option<Seq<char>> {
    match region(s) {
        Some((start, end)) => Some(
            trim_end(
                join(dedented_rows(lines(s.subrange(start, end))), "\n"@),
                Pattern::Space,
            ),
        ),
        None => None,
    }
}

pub fn extract_go_eval_expression(content: &str) -> (r: Option<String>)
    ensures
        text_view(r) == expression_in(content@),
{
    let (start, end) = match go_eval_expression_region(content) {
        Some(found) => found,
        None => return None,
    };
    proof {
        lemma_region(content@);
    }
    let all = chars(content);
    let rows = split_lines(part(&all, start, end));
    let ghost given = slices(rows@);
    let mut kept: Vec<String> = Vec::new();
    let mut i: usize = 0;
    assert(views(kept@) =~= dedented_rows(given.take(0)));
    while i < rows.len()
        invariant
            i <= rows@.len(),
            given == slices(rows@),
            views(kept@) == dedented_rows(given.take(i as int)),
        decreases rows@.len() - i,
    {
        let ghost before = views(kept@);
        assert(given[i as int] == rows@[i as int]@);
        let row = match after_prefix(rows[i], GO_EVAL_INDENT) {
            Some(rest) => rest,
            None => rows[i],
        };
        assert(row@ == dedented(given[i as int]));
        kept.push(text(row));
        assert(views(kept@) =~= before.push(row@));
        i += 1;
        assert(given.take(i as int) =~= given.take(i - 1).push(given[i - 1]));
        assert(views(kept@) =~= dedented_rows(given.take(i as int)));
    }
    assert(given.take(i as int) =~= given);
    let joined = chars(&join_texts(&kept, "\n"));
    Some(text(trim_right(&joined, Pattern::Space)))
}

/// The buffer for a Go expression in the file whose text is `source_text`: the
/// cursor stands behind the expression.
pub fn build_go_eval_input_seed(
    source_text: &str,
    expression: &str,
    source_path: Option<String>,
) -> (r: EvalInputSeed)
    ensures
        r.content@ == seeded(source_text@, expression@),
        r.cursor == (match region(r.content@) {
            Some((_, end)) => end,
            None => r.content@.len() as int,
        }),
        text_view(r.language) == Some("go"@),
        r.source_path == source_path,
{
    let package = match detect_go_package_name(source_text) {
        Some(package) => package,
        None => "main".to_owned(),
    };
    let mut content = "package ".to_owned();
    content.append(&package);
    content.append("\n");
    match extract_go_import_block(source_text) {
        Some(block) => {
            content.append("\n");
            content.append(&block);
            content.append("\n");
        },
        None => {},
    }
    content.append("\nfunc __hx_dap_eval__() any {\n    return (\n");
    assert(content@ == opening(source_text@));
    content.append(GO_EVAL_INDENT);
    content.append(GO_EVAL_START_MARKER);
    content.append("\n");
    let ghost head = content@;
    let all = chars(expression);
    if all.len() == 0 {
        content.append(GO_EVAL_INDENT);
        content.append("\n");
        proof {
            let one: Seq<Seq<char>> = seq![seq![]];
            assert(one.drop_last() =~= seq![]);
            reveal_with_fuel(written, 2);
            assert(content@ =~= head + written(one));
        }
    } else {
        let rows = split_lines(&all);
        let ghost given = slices(rows@);
        let mut i: usize = 0;
        assert(content@ =~= head + written(given.take(0)));
        while i < rows.len()
            invariant
                i <= rows@.len(),
                given == slices(rows@),
                content@ == head + written(given.take(i as int)),
            decreases rows@.len() - i,
        {
            proof {
                assert(given.take(i as int + 1).drop_last() =~= given.take(i as int));
                assert(given[i as int] == rows@[i as int]@);
            }
            content.append(GO_EVAL_INDENT);
            content.append(&text(rows[i]));
            content.append("\n");
            i += 1;
            assert(content@ =~= head + written(given.take(i as int)));
        }
        assert(given.take(i as int) =~= given);
    }
    content.append(GO_EVAL_INDENT);
    content.append(GO_EVAL_END_MARKER);
    content.append("\n    )\n}\n");
    let cursor: usize = match go_eval_expression_region(&content) {
        Some((_start, end)) => end,
        None => chars(&content).len(),
    };
    EvalInputSeed { content, cursor, language: Some("go".to_owned()), source_path }
}

// ---------------------------------------------------------------------------
// The buffer
// ---------------------------------------------------------------------------

/// The path of the buffer for expressions of a file: next to the file, with its
/// extension.
pub open spec fn input_path(source_path: Seq<char>, doc_id: usize) -> Seq<char> {
    let directory = match parent_of(source_path) {
        Some(directory) => directory,
        None => "."@,
    };
    let ending = match extension_of(source_path) {
        Some(e) => if e.len() > 0 {
            "."@ + e
        } else {
            seq![]
        },
        None => seq![],
    };
    joined(directory, "hx-dap-eval-input-"@ + decimal(doc_id as nat) + ending)
}

pub fn synthetic_eval_input_path(source_path: &str, doc_id: usize) -> (r: String)
    ensures
        r@ == input_path(source_path@, doc_id),
{
    let directory = match parent(source_path) {
        Some(directory) => directory,
        None => ".".to_owned(),
    };
    let mut name = "hx-dap-eval-input-".to_owned();
    name.append(&number(doc_id));
    match extension(source_path) {
        Some(e) => {
            if chars(&e).len() > 0 {
                name.append(".");
                name.append(&e);
            }
        },
        None => {},
    }
    proof {
        let stem = "hx-dap-eval-input-"@ + decimal(doc_id as nat);
        assert(stem + Seq::<char>::empty() =~= stem);
        match extension_of(source_path@) {
            Some(e) => assert(stem + ("."@ + e) =~= stem + "."@ + e),
            None => {},
        }
    }
    join_path(&directory, &name)
}

/// The path to give to the buffer: the one next to its file, unless another
/// document has it.
pub fn eval_input_path(source_path: Option<&str>, doc_id: usize, open: &Vec<String>) -> (r: Option<
    String,
>)
    ensures
        match r {
            Some(path) => source_path matches Some(source) && path@ == input_path(source@, doc_id)
                && !views(open@).contains(path@),
            None => match source_path {
                Some(source) => views(open@).contains(input_path(source@, doc_id)),
                None => true,
            },
        },
{
    let path = match source_path {
        Some(source) => synthetic_eval_input_path(source, doc_id),
        None => return None,
    };
    if listed(open, &path) {
        None
    } else {
        Some(path)
    }
}

/// The buffer gets the content: it is empty, and nobody has written in it.
pub fn should_seed(content: &str, length: usize, modified: bool) -> (r: bool)
    ensures
        r == (content@.len() > 0 && length == 0 && !modified),
{
    chars(content).len() > 0 && length == 0 && !modified
}

/// The document is the buffer for expressions.
pub fn is_current_eval_input_buffer(input: Option<usize>, is_open: bool, current: usize) -> (r:
    bool)
    ensures
        r == (is_open && input == Some(current)),
{
    match input {
        Some(id) => is_open && id == current,
        None => false,
    }
}

/// What is selected counts if it is more than the cursor.
pub open spec fn prefill(selection: Seq<char>) -> Seq<char> {
    if selection.len() > 1 {
        selection
    } else {
        seq![]
    }
}

fn prefilled(selection: &str) -> (r: String)
    ensures
        r@ == prefill(selection@),
{
    if chars(selection).len() > 1 {
        selection.to_owned()
    } else {
        let empty = String::new();
        assert(empty@ =~= seq![]);
        empty
    }
}

fn is_go(language: Option<&str>) -> (r: bool)
    ensures
        r == (language matches Some(l) && l@ == "go"@),
{
    match language {
        Some(l) => same(l, "go"),
        None => false,
    }
}

/// The buffer for an expression of the file whose text is `source_text`, in which
/// `selection` is selected.
pub open spec fn is_seed(
    seed: EvalInputSeed,
    source_text: Seq<char>,
    selection: Seq<char>,
    language: Option<Seq<char>>,
) -> bool {
    &&& text_view(seed.language) == language
    &&& if language == Some("go"@) {
        &&& seed.content@ == seeded(source_text, prefill(selection))
        &&& seed.cursor == (match region(seed.content@) {
            Some((_, end)) => end,
            None => seed.content@.len() as int,
        })
    } else {
        seed.content@ == prefill(selection) && seed.cursor == prefill(selection).len()
    }
}

pub open spec fn str_view(s: Option<&str>) -> Option<Seq<char>> {
    match s {
        Some(s) => Some(s@),
        None => None,
    }
}

pub fn current_eval_input_seed(
    source_text: &str,
    selection: &str,
    language: Option<&str>,
    source_path: Option<String>,
) -> (r: EvalInputSeed)
    ensures
        is_seed(r, source_text@, selection@, str_view(language)),
        r.source_path == source_path,
{
    let content = prefilled(selection);
    if is_go(language) {
        return build_go_eval_input_seed(source_text, &content, source_path);
    }
    let cursor: usize = chars(&content).len();
    let language = match language {
        Some(l) => Some(l.to_owned()),
        None => None,
    };
    EvalInputSeed { content, cursor, language, source_path }
}

/// What to evaluate of a buffer for expressions: the selection, or else the
/// expression of a Go buffer that still has its markers, or else all of it.
pub open spec fn to_evaluate(
    content: Seq<char>,
    selection: Seq<char>,
    language: Option<Seq<char>>,
) -> Seq<char> {
    if selection.len() > 1 {
        selection
    } else if language == Some("go"@) {
        match expression_in(content) {
            Some(expression) => expression,
            None => content,
        }
    } else {
        content
    }
}

pub fn current_selection_or_buffer(content: &str, selection: &str, language: Option<&str>) -> (r:
    String)
    ensures
        r@ == to_evaluate(content@, selection@, str_view(language)),
{
    if chars(selection).len() > 1 {
        return selection.to_owned();
    }
    if is_go(language) {
        match extract_go_eval_expression(content) {
            Some(expression) => return expression,
            None => {},
        }
    }
    content.to_owned()
}

pub const NO_EXPRESSION: &'static str = "No expression to evaluate.";

pub const OPENED: &'static str =
    "Opened debug expression buffer. Use Space G e here to evaluate selection or buffer.";

/// What the command for expressions does.
#[derive(Debug)]
pub enum EvalPrompt {
    Evaluate(String),
    /// Nothing but a message.
    Status(&'static str),
    /// The buffer is opened, the message shown and insert mode entered.
    Open(EvalInputSeed, &'static str),
}

/// In the buffer for expressions its expression is evaluated; elsewhere the buffer
/// is opened.
pub fn dap_eval_prompt(
    in_input_buffer: bool,
    content: &str,
    selection: &str,
    language: Option<&str>,
    path: Option<String>,
) -> (r: EvalPrompt)
    ensures
        ({
            let expression = to_evaluate(content@, selection@, str_view(language));
            if !in_input_buffer {
                r matches EvalPrompt::Open(seed, status) && is_seed(
                    seed,
                    content@,
                    selection@,
                    str_view(language),
                ) && seed.source_path == path && status@ == OPENED@
            } else if trimmed(expression).len() == 0 {
                r matches EvalPrompt::Status(status) && status@ == NO_EXPRESSION@
            } else {
                r matches EvalPrompt::Evaluate(e) && e@ == expression
            }
        }),
{
    if !in_input_buffer {
        return EvalPrompt::Open(
            current_eval_input_seed(content, selection, language, path),
            OPENED,
        );
    }
    let expression = current_selection_or_buffer(content, selection, language);
    if strip(&chars(&expression)).len() == 0 {
        EvalPrompt::Status(NO_EXPRESSION)
    } else {
        EvalPrompt::Evaluate(expression)
    }
}

/// What to evaluate of a document: the selection, or else the word at the cursor.
pub fn dap_eval_selection(selection: &str, word: &str) -> (r: Result<String, &'static str>)
    ensures
        ({
            let expression = if selection@.len() > 1 {
                selection@
            } else {
                word@
            };
            match r {
                Ok(e) => trimmed(expression).len() > 0 && e@ == expression,
                Err(status) => trimmed(expression).len() == 0 && status@ == NO_EXPRESSION@,
            }
        }),
{
    let expression = if chars(selection).len() > 1 { selection } else { word };
    if strip(&chars(expression)).len() == 0 {
        Err(NO_EXPRESSION)
    } else {
        Ok(expression.to_owned())
    }
}

// ---------------------------------------------------------------------------
// Reading back
// ---------------------------------------------------------------------------

proof fn lemma_part_contains(s: Seq<char>, a: int, b: int, p: Seq<char>)
    requires
        0 <= a <= b <= s.len(),
        contains(s.subrange(a, b), p),
    ensures
        contains(s, p),
{
    let t = s.subrange(a, b);
    lemma_find(t, p);
    lemma_find(s, p);
    let k = find(t, p)->0;
    assert(s.subrange(a + k, a + k + p.len()) =~= t.subrange(k, k + p.len()));
    assert(occurs(s, p, a + k));
}

/// A text occurs on neither side of a character that it does not hold, so it does
/// not occur at all.
proof fn lemma_apart(a: Seq<char>, c: char, b: Seq<char>, p: Seq<char>)
    requires
        p.len() > 0,
        !p.contains(c),
        !contains(a, p),
        !contains(b, p),
    ensures
        !contains(a + seq![c] + b, p),
{
    let s = a + seq![c] + b;
    lemma_find(s, p);
    if let Some(k) = find(s, p) {
        lemma_find(a, p);
        lemma_find(b, p);
        if k + p.len() <= a.len() {
            assert(a.subrange(k, k + p.len()) =~= s.subrange(k, k + p.len()));
            assert(occurs(a, p, k));
        } else if k > a.len() {
            let j = k - a.len() - 1;
            assert(b.subrange(j, j + p.len()) =~= s.subrange(k, k + p.len()));
            assert(occurs(b, p, j));
        } else {
            let t = s.subrange(k, k + p.len());
            assert(t[a.len() - k] == c);
            assert(p[a.len() - k] == c);
        }
    }
}

/// A text does not occur where its first character is missing.
proof fn lemma_absent(s: Seq<char>, p: Seq<char>)
    requires
        p.len() > 0,
        !s.contains(p[0]),
    ensures
        !contains(s, p),
{
    lemma_find(s, p);
    if let Some(k) = find(s, p) {
        assert(s.subrange(k, k + p.len())[0] == s[k]);
    }
}

/// The first occurrence of a text that was put behind `before`.
proof fn lemma_first(before: Seq<char>, p: Seq<char>, after: Seq<char>)
    requires
        before.len() > 0,
        p.len() > 0,
        !contains(before, p),
        !p.contains(before.last()),
    ensures
        find(before + p + after, p) == Some(before.len() as int),
{
    let s = before + p + after;
    let n = before.len() as int;
    lemma_find(s, p);
    lemma_find(before, p);
    assert(s.subrange(n, n + p.len()) =~= p);
    assert(occurs(s, p, n));
    let k = find(s, p)->0;
    if k < n {
        let t = s.subrange(k, k + p.len());
        if k + p.len() <= n {
            assert(before.subrange(k, k + p.len()) =~= t);
            assert(occurs(before, p, k));
        } else {
            assert(t[n - 1 - k] == before.last());
            assert(p[n - 1 - k] == before.last());
        }
    }
}

/// Lines are parts of their text, and hold no line feed.
proof fn lemma_lines(s: Seq<char>, k: int, p: Seq<char>)
    requires
        0 <= k < lines(s).len(),
    ensures
        contains(lines(s)[k], p) ==> contains(s, p),
        !lines(s)[k].contains('\n'),
    decreases s.len(),
{
    let feed = Pattern::One('\n');
    let i = crate::text::position(s, feed);
    crate::text::lemma_position(s, feed);
    let row = lines(s)[k];
    if i >= s.len() {
        assert(row == s);
        if row.contains('\n') {
            let j = choose|j: int| 0 <= j < row.len() && row[j] == '\n';
            assert(feed.hits(s[j]));
        }
    } else if k == 0 {
        assert(row =~= s.subrange(0, row.len() as int));
        if row.contains('\n') {
            let j = choose|j: int| 0 <= j < row.len() && row[j] == '\n';
            assert(feed.hits(s[j]));
        }
        if contains(row, p) {
            lemma_part_contains(s, 0, row.len() as int, p);
        }
    } else {
        let rest = s.skip(i + 1);
        lemma_lines(rest, k - 1, p);
        assert(row == lines(rest)[k - 1]);
        assert(rest =~= s.subrange(i + 1, s.len() as int));
        if contains(rest, p) {
            lemma_part_contains(s, i + 1, s.len() as int, p);
        }
    }
}

proof fn lemma_trimmed_part(s: Seq<char>, p: Seq<char>)
    ensures
        contains(trimmed(s), p) ==> contains(s, p),
{
    let a = crate::text::trim_start(s, Pattern::Space);
    crate::text::lemma_trim(s, Pattern::Space);
    crate::text::lemma_trim(a, Pattern::Space);
    let t = trimmed(s);
    assert(a =~= s.subrange(s.len() - a.len(), s.len() as int));
    assert(t =~= a.subrange(0, t.len() as int));
    if contains(t, p) {
        lemma_part_contains(a, 0, t.len() as int, p);
        lemma_part_contains(s, s.len() - a.len(), s.len() as int, p);
    }
}

proof fn lemma_split_part(s: Seq<char>, at: Pattern, k: int, p: Seq<char>)
    requires
        0 <= k < crate::text::split(s, at).len(),
    ensures
        contains(crate::text::split(s, at)[k], p) ==> contains(s, p),
    decreases s.len(),
{
    let i = crate::text::position(s, at);
    crate::text::lemma_position(s, at);
    if i < s.len() {
        let word = crate::text::split(s, at)[k];
        if k == 0 {
            assert(word =~= s.subrange(0, i));
            if contains(word, p) {
                lemma_part_contains(s, 0, i, p);
            }
        } else {
            let rest = s.skip(i + 1);
            lemma_split_part(rest, at, k - 1, p);
            assert(word == crate::text::split(rest, at)[k - 1]);
            assert(rest =~= s.subrange(i + 1, s.len() as int));
            if contains(rest, p) {
                lemma_part_contains(s, i + 1, s.len() as int, p);
            }
        }
    }
}

proof fn lemma_filled(parts: Seq<Seq<char>>, k: int) -> (j: int)
    requires
        0 <= k < crate::text::filled_parts(parts).len(),
    ensures
        0 <= j < parts.len(),
        parts[j] == crate::text::filled_parts(parts)[k],
    decreases parts.len(),
{
    let before = crate::text::filled_parts(parts.drop_last());
    if k < before.len() {
        lemma_filled(parts.drop_last(), k)
    } else {
        parts.len() - 1
    }
}

/// The package that a line names is a part of the line.
proof fn lemma_package(line: Seq<char>, p: Seq<char>)
    requires
        package_on(line) is Some,
    ensures
        contains(package_on(line)->0, p) ==> contains(line, p),
{
    let t = trimmed(line);
    let n = "package "@.len() as int;
    let rest = strip_prefix(t, "package "@)->0;
    let parts = crate::text::split(rest, Pattern::Space);
    let j = lemma_filled(parts, 0);
    lemma_split_part(rest, Pattern::Space, j, p);
    if contains(package_on(line)->0, p) {
        assert(rest =~= t.subrange(n, t.len() as int));
        lemma_part_contains(t, n, t.len() as int, p);
        lemma_trimmed_part(line, p);
    }
}

proof fn lemma_package_from(rows: Seq<Seq<char>>, i: int) -> (k: int)
    requires
        0 <= i,
        package_from(rows, i) is Some,
    ensures
        i <= k < rows.len(),
        package_on(rows[k]) == package_from(rows, i),
    decreases rows.len() - i,
{
    if package_on(rows[i]) is Some {
        i
    } else {
        lemma_package_from(rows, i + 1)
    }
}

proof fn lemma_joined_rows(rows: Seq<Seq<char>>, p: Seq<char>)
    requires
        p.len() > 0,
        !p.contains('\n'),
        forall|k: int| 0 <= k < rows.len() ==> !contains(#[trigger] rows[k], p),
    ensures
        !contains(join(rows, "\n"@), p),
    decreases rows.len(),
{
    reveal_strlit("\n");
    if rows.len() == 0 {
        lemma_absent(join(rows, "\n"@), p);
    } else if rows.len() > 1 {
        assert forall|k: int| 0 <= k < rows.drop_last().len() implies !contains(
            #[trigger] rows.drop_last()[k],
            p,
        ) by {
            assert(rows.drop_last()[k] == rows[k]);
        }
        lemma_joined_rows(rows.drop_last(), p);
        assert("\n"@ =~= seq!['\n']);
        lemma_apart(join(rows.drop_last(), "\n"@), '\n', rows.last(), p);
    }
}

/// What stands above the expression holds a text only if the file does.
proof fn lemma_opening(source: Seq<char>, p: Seq<char>)
    requires
        p.len() > 0,
        p[0] == '/',
        !p.contains(' '),
        !p.contains('\n'),
        !contains(source, p),
    ensures
        !contains(opening(source), p),
{
    reveal_strlit("package ");
    reveal_strlit("main");
    reveal_strlit("\n");
    reveal_strlit("\nfunc __hx_dap_eval__() any {\n    return (\n");
    let tail = "\nfunc __hx_dap_eval__() any {\n    return (\n"@;
    let rows = lines(source);
    assert forall|k: int| 0 <= k < rows.len() implies !contains(#[trigger] rows[k], p) by {
        lemma_lines(source, k, p);
    }
    let package = match package_from(rows, 0) {
        Some(package) => package,
        None => "main"@,
    };
    if package_from(rows, 0) is Some {
        let k = lemma_package_from(rows, 0);
        lemma_package(rows[k], p);
    } else {
        lemma_absent("main"@, p);
    }
    lemma_absent(tail, p);
    let rest = match import_block(source) {
        Some(block) => "\n"@ + block + "\n"@ + tail,
        None => tail,
    };
    if let Some(found) = import_rows(rows) {
        let at = first_starting(rows, "package "@, 0);
        lemma_first_starting(rows, "package "@, 0);
        lemma_first_code(rows, at + 1);
        let start = first_code(rows, at + 1);
        lemma_ends(rows, start + 1);
        assert forall|k: int| 0 <= k < found.len() implies !contains(#[trigger] found[k], p) by {
            assert(found[k] == rows[start + k]);
        }
        lemma_joined_rows(found, p);
        let block = import_block(source)->0;
        lemma_apart(block, '\n', tail, p);
        let empty = Seq::<char>::empty();
        lemma_absent(empty, p);
        lemma_apart(empty, '\n', block + seq!['\n'] + tail, p);
        assert(rest =~= empty + seq!['\n'] + (block + seq!['\n'] + tail));
    }
    lemma_apart(package, '\n', rest, p);
    let word = "package "@.drop_last();
    lemma_absent(word, p);
    lemma_apart(word, ' ', package + seq!['\n'] + rest, p);
    assert(opening(source) =~= word + seq![' '] + (package + seq!['\n'] + rest));
}

/// Indented lines hold a text only if one of the lines does.
proof fn lemma_written(rows: Seq<Seq<char>>, p: Seq<char>)
    requires
        p.len() > 0,
        p[0] == '/',
        !p.contains(' '),
        !p.contains('\n'),
        forall|k: int| 0 <= k < rows.len() ==> !contains(#[trigger] rows[k], p),
    ensures
        !contains(written(rows), p),
    decreases rows.len(),
{
    reveal_strlit("        ");
    reveal_strlit("\n");
    if rows.len() == 0 {
        lemma_absent(written(rows), p);
    } else {
        assert forall|k: int| 0 <= k < rows.drop_last().len() implies !contains(
            #[trigger] rows.drop_last()[k],
            p,
        ) by {
            assert(rows.drop_last()[k] == rows[k]);
        }
        lemma_written(rows.drop_last(), p);
        let before = written(rows.drop_last());
        let row = rows.last();
        let empty = Seq::<char>::empty();
        let blanks = GO_EVAL_INDENT@.take(6);
        lemma_absent(empty, p);
        lemma_absent(blanks, p);
        lemma_apart(row, '\n', empty, p);
        lemma_apart(blanks, ' ', row + seq!['\n'] + empty, p);
        lemma_apart(before, ' ', blanks + seq![' '] + (row + seq!['\n'] + empty), p);
        assert(written(rows) =~= before + seq![' '] + (blanks + seq![' '] + (row + seq!['\n']
            + empty)));
    }
}

/// The lines of a text that starts with a line.
proof fn lemma_line_first(row: Seq<char>, rest: Seq<char>)
    requires
        !row.contains('\n'),
        row.len() == 0 || row.last() != '\r',
    ensures
        lines(row + "\n"@ + rest) == seq![row] + lines(rest),
{
    reveal_strlit("\n");
    let feed = Pattern::One('\n');
    let whole = row + "\n"@ + rest;
    let n = row.len() as int;
    assert forall|j: int| 0 <= j < n implies !feed.hits(#[trigger] whole[j]) by {
        assert(whole[j] == row[j]);
        assert(row.contains(row[j]));
    }
    crate::text::lemma_position_is(whole, feed, n);
    assert(whole.take(n) =~= row);
    assert(whole.skip(n + 1) =~= rest);
}

pub open spec fn indented_rows(rows: Seq<Seq<char>>) -> Seq<Seq<char>> {
    rows.map_values(|row: Seq<char>| GO_EVAL_INDENT@ + row)
}

/// The lines of indented lines and what follows them.
proof fn lemma_written_lines(rows: Seq<Seq<char>>, rest: Seq<char>)
    requires
        forall|k: int|
            0 <= k < rows.len() ==> !(#[trigger] rows[k]).contains('\n') && (rows[k].len() == 0
                || rows[k].last() != '\r'),
    ensures
        lines(written(rows) + rest) == indented_rows(rows) + lines(rest),
    decreases rows.len(),
{
    reveal_strlit("        ");
    if rows.len() == 0 {
        assert(written(rows) + rest =~= rest);
        assert(indented_rows(rows) + lines(rest) =~= lines(rest));
    } else {
        let fewer = rows.drop_last();
        let row = GO_EVAL_INDENT@ + rows.last();
        assert forall|k: int| 0 <= k < fewer.len() implies !(#[trigger] fewer[k]).contains('\n')
            && (fewer[k].len() == 0 || fewer[k].last() != '\r') by {
            assert(fewer[k] == rows[k]);
        }
        let more = row + "\n"@ + rest;
        assert(written(rows) + rest =~= written(fewer) + more);
        lemma_written_lines(fewer, more);
        if row.contains('\n') {
            let j = choose|j: int| 0 <= j < row.len() && row[j] == '\n';
            assert(j >= 8);
            assert(rows.last()[j - 8] == '\n');
        }
        assert(rows[rows.len() - 1] == rows.last());
        lemma_line_first(row, rest);
        assert(indented_rows(fewer) + (seq![row] + lines(rest)) =~= indented_rows(rows) + lines(
            rest,
        ));
    }
}

/// An expression is read back from the buffer that was made for it, line by line and
/// without white space at its end, unless the file holds the first marker, the
/// expression holds the second, or a line of it ends in a carriage return.
pub proof fn seeded_expressions_are_read_back(source: Seq<char>, expression: Seq<char>)
    requires
        !contains(source, GO_EVAL_START_MARKER@),
        !contains(expression, GO_EVAL_END_MARKER@),
        forall|k: int|
            0 <= k < lines(expression).len() ==> (#[trigger] lines(expression)[k]).len() == 0
                || lines(expression)[k].last() != '\r',
    ensures
        expression_in(seeded(source, expression)) == Some(
            trim_end(join(lines(expression), "\n"@), Pattern::Space),
        ),
{
    reveal_strlit("/*__hx_dap_expr_start__*/");
    reveal_strlit("/*__hx_dap_expr_end__*/");
    reveal_strlit("        ");
    reveal_strlit("\n");
    let first = GO_EVAL_START_MARKER@;
    let second = GO_EVAL_END_MARKER@;
    let blanks = GO_EVAL_INDENT@;
    assert forall|i: int| 0 <= i < first.len() implies #[trigger] first[i] != ' ' && first[i]
        != '\n' by {}
    assert forall|i: int| 0 <= i < second.len() implies #[trigger] second[i] != ' ' && second[i]
        != '\n' by {}
    let rows = expression_rows(expression);
    let empty = Seq::<char>::empty();
    let others = blanks.take(7);
    assert forall|k: int| 0 <= k < rows.len() implies !contains(#[trigger] rows[k], second)
        && !rows[k].contains('\n') && (rows[k].len() == 0 || rows[k].last() != '\r') by {
        if expression.len() > 0 {
            lemma_lines(expression, k, second);
        } else {
            assert(rows[k] =~= empty);
            lemma_absent(rows[k], second);
        }
    }
    let top = opening(source);
    let before = top + blanks;
    lemma_opening(source, first);
    lemma_absent(others, first);
    lemma_apart(top, ' ', others, first);
    assert(before =~= top + seq![' '] + others);
    let body = written(rows);
    let inner = "\n"@ + body + blanks;
    let after = inner + second + "\n    )\n}\n"@;
    let whole = seeded(source, expression);
    assert(whole =~= before + first + after);
    lemma_first(before, first, after);
    let from: int = (before.len() + first.len()) as int;
    assert(whole.skip(from) =~= after);
    lemma_written(rows, second);
    lemma_absent(others, second);
    lemma_apart(body, ' ', others, second);
    lemma_absent(empty, second);
    lemma_apart(empty, '\n', body + seq![' '] + others, second);
    assert(inner =~= empty + seq!['\n'] + (body + seq![' '] + others));
    lemma_first(inner, second, "\n    )\n}\n"@);
    let to: int = from + inner.len();
    assert(whole[from] == '\n');
    assert(whole[to - 1] == ' ');
    assert(region(whole) == Some((from + 1, to)));
    let held = whole.subrange(from + 1, to);
    assert(held =~= body + blanks);
    lemma_written_lines(rows, blanks);
    crate::text::lemma_position_is(blanks, Pattern::One('\n'), blanks.len() as int);
    assert(lines(blanks) =~= seq![blanks]);
    let found = dedented_rows(lines(held));
    let expected = rows.push(empty);
    assert forall|k: int| 0 <= k < expected.len() implies #[trigger] found[k] == expected[k] by {
        let row = lines(held)[k];
        assert(row =~= blanks + expected[k]);
        assert(row.take(8) =~= blanks);
        assert(row.skip(8) =~= expected[k]);
    }
    assert(found =~= expected);
    assert(expected.drop_last() =~= rows);
    let joined = join(rows, "\n"@);
    assert(join(expected, "\n"@) =~= joined.push('\n'));
    assert(joined.push('\n').drop_last() =~= joined);
    assert(crate::text::is_space('\n'));
    if expression.len() == 0 {
        assert(rows =~= seq![empty]);
        assert(joined =~= empty);
        assert(lines(expression) =~= seq![]);
        assert(join(lines(expression), "\n"@) =~= empty);
    } else {
        assert(rows == lines(expression));
    }
}

/// The package of a file is the one that its first package clause names.
pub proof fn the_first_package_clause_counts(rows: Seq<Seq<char>>, k: int)
    requires
        0 <= k < rows.len(),
        package_on(rows[k]) is Some,
        forall|j: int| 0 <= j < k ==> package_on(#[trigger] rows[j]) is None,
    ensures
        package_from(rows, 0) == package_on(rows[k]),
{
    lemma_package_clause(rows, 0, k);
}

proof fn lemma_package_clause(rows: Seq<Seq<char>>, i: int, k: int)
    requires
        0 <= i <= k < rows.len(),
        package_on(rows[k]) is Some,
        forall|j: int| i <= j < k ==> package_on(#[trigger] rows[j]) is None,
    ensures
        package_from(rows, i) == package_on(rows[k]),
    decreases k - i,
{
    if i < k {
        lemma_package_clause(rows, i + 1, k);
    }
}

proof fn lemma_starting_is(rows: Seq<Seq<char>>, p: Seq<char>, i: int, k: int)
    requires
        0 <= i <= k < rows.len(),
        starts_with(trimmed(rows[k]), p),
        forall|j: int| i <= j < k ==> !starts_with(trimmed(#[trigger] rows[j]), p),
    ensures
        first_starting(rows, p, i) == k,
    decreases k - i,
{
    if i < k {
        lemma_starting_is(rows, p, i + 1, k);
    }
}

/// A line that is blank or a comment.
pub open spec fn no_code(row: Seq<char>) -> bool {
    trimmed(row).len() == 0 || starts_with(trimmed(row), "//"@)
}

proof fn lemma_code_is(rows: Seq<Seq<char>>, i: int, k: int)
    requires
        0 <= i <= k < rows.len(),
        !no_code(rows[k]),
        forall|j: int| i <= j < k ==> no_code(#[trigger] rows[j]),
    ensures
        first_code(rows, i) == k,
    decreases k - i,
{
    if i < k {
        assert(no_code(rows[i]));
        lemma_code_is(rows, i + 1, k);
    }
}

proof fn lemma_group_end(rows: Seq<Seq<char>>, i: int, k: int)
    requires
        0 <= i <= k < rows.len(),
        trimmed(rows[k]) == ")"@,
        forall|j: int| i <= j < k ==> trimmed(#[trigger] rows[j]) != ")"@,
    ensures
        group_end(rows, i) == k + 1,
    decreases k - i,
{
    if i < k {
        lemma_group_end(rows, i + 1, k);
    }
}

proof fn lemma_imports_end(rows: Seq<Seq<char>>, i: int, k: int)
    requires
        0 <= i <= k <= rows.len(),
        forall|j: int| i <= j < k ==> starts_with(trimmed(#[trigger] rows[j]), "import "@),
        k == rows.len() || !starts_with(trimmed(rows[k]), "import "@),
    ensures
        imports_end(rows, i) == k,
    decreases k - i,
{
    if i < k {
        assert(starts_with(trimmed(rows[i]), "import "@));
        lemma_imports_end(rows, i + 1, k);
    }
}

proof fn lemma_import_is_code(row: Seq<char>)
    requires
        starts_with(trimmed(row), "import "@),
    ensures
        !no_code(row),
{
    reveal_strlit("import ");
    reveal_strlit("//");
    let t = trimmed(row);
    assert(t.take(7)[0] == 'i');
    if starts_with(t, "//"@) {
        assert(t.take(2)[0] == '/');
    }
}

/// A group of imports that follows the package clause is taken as it is, from its first
/// line to the one that closes it.
pub proof fn groups_of_imports_are_taken(rows: Seq<Seq<char>>, p: int, s: int, e: int)
    requires
        0 <= p < s < e < rows.len(),
        starts_with(trimmed(rows[p]), "package "@),
        forall|j: int| 0 <= j < p ==> !starts_with(trimmed(#[trigger] rows[j]), "package "@),
        forall|j: int| p < j < s ==> no_code(#[trigger] rows[j]),
        starts_with(trimmed(rows[s]), "import ("@),
        trimmed(rows[e]) == ")"@,
        forall|j: int| s < j < e ==> trimmed(#[trigger] rows[j]) != ")"@,
    ensures
        import_rows(rows) == Some(rows.subrange(s, e + 1)),
{
    reveal_strlit("import ");
    reveal_strlit("import (");
    let t = trimmed(rows[s]);
    assert(t.take(7) =~= t.take(8).take(7));
    assert("import ("@.take(7) =~= "import "@);
    lemma_import_is_code(rows[s]);
    lemma_starting_is(rows, "package "@, 0, p);
    lemma_code_is(rows, p + 1, s);
    lemma_group_end(rows, s + 1, e);
}

/// Imports that follow the package clause one below another are taken, and nothing else.
pub proof fn single_imports_are_taken(rows: Seq<Seq<char>>, p: int, s: int, e: int)
    requires
        0 <= p < s < e <= rows.len(),
        starts_with(trimmed(rows[p]), "package "@),
        forall|j: int| 0 <= j < p ==> !starts_with(trimmed(#[trigger] rows[j]), "package "@),
        forall|j: int| p < j < s ==> no_code(#[trigger] rows[j]),
        !starts_with(trimmed(rows[s]), "import ("@),
        forall|j: int| s <= j < e ==> starts_with(trimmed(#[trigger] rows[j]), "import "@),
        e == rows.len() || !starts_with(trimmed(rows[e]), "import "@),
    ensures
        import_rows(rows) == Some(rows.subrange(s, e)),
{
    assert(starts_with(trimmed(rows[s]), "import "@));
    lemma_import_is_code(rows[s]);
    lemma_starting_is(rows, "package "@, 0, p);
    lemma_code_is(rows, p + 1, s);
    lemma_imports_end(rows, s + 1, e);
}

/// What is selected is evaluated; without a selection the buffer is, and of a Go buffer
/// only the expression between the markers.
pub proof fn selections_are_evaluated_first(
    content: Seq<char>,
    selection: Seq<char>,
    language: Option<Seq<char>>,
)
    ensures
        selection.len() > 1 ==> to_evaluate(content, selection, language) == selection,
        selection.len() <= 1 && language != Some("go"@) ==> to_evaluate(
            content,
            selection,
            language,
        ) == content,
        selection.len() <= 1 && language == Some("go"@) ==> (expression_in(content) matches Some(e)
            ==> to_evaluate(content, selection, language) == e),
        selection.len() <= 1 && expression_in(content) is None ==> to_evaluate(
            content,
            selection,
            language,
        ) == content,
{
}

/// A buffer without the markers holds no expression of its own.
pub proof fn buffers_without_markers_hold_no_expression(s: Seq<char>)
    requires
        !contains(s, GO_EVAL_START_MARKER@) || !contains(s, GO_EVAL_END_MARKER@),
    ensures
        expression_in(s) is None,
{
    if contains(s, GO_EVAL_START_MARKER@) {
        let from = find(s, GO_EVAL_START_MARKER@)->0 + GO_EVAL_START_MARKER@.len();
        let t = s.skip(from);
        crate::text::lemma_find(s, GO_EVAL_START_MARKER@);
        crate::text::lemma_find(s, GO_EVAL_END_MARKER@);
        crate::text::lemma_find(t, GO_EVAL_END_MARKER@);
        if let Some(j) = find(t, GO_EVAL_END_MARKER@) {
            let n = GO_EVAL_END_MARKER@.len();
            assert(s.subrange(from + j, from + j + n) =~= t.subrange(j, j + n));
            assert(crate::text::occurs(s, GO_EVAL_END_MARKER@, from + j));
        }
    }
}

} // verus!
