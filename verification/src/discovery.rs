//! Go tests, found by their usual shape: test functions, and the cases in them
//! whose names are plain to see.
use crate::order::{
    key_order, sort, sorted_by, sorting_sorts_views, text_le, text_le_total, text_le_transitive,
    text_not_after, Keyed,
};
use crate::status::text_view;
use crate::text::{
    after_prefix, any, chars, ends_with, first_hit, has_any, has_prefix, has_suffix, lines, part,
    position, same, slices, split_lines, starts_with, strip_prefix, text, trim_left, trim_start,
    views, Pattern,
};
use vstd::prelude::*;

verus! {

/// A Go test: a function (then all of its cases are meant), or one case of it.
#[derive(Debug)]
pub struct GoTestEntry {
    /// Bare function name, e.g. `TestDownloadArtifacts`.
    pub name: String,
    /// The specific subtest case, in source form (spaces preserved for
    /// display). `None` means "the whole test function".
    pub subtest: Option<String>,
    /// The `_test.go` file the function is declared in (basename only).
    pub file: String,
}

pub struct EntryView {
    pub name: Seq<char>,
    pub subtest: Option<Seq<char>>,
    pub file: Seq<char>,
}

impl View for GoTestEntry {
    type V = EntryView;

    open spec fn view(&self) -> EntryView {
        EntryView { name: self.name@, subtest: text_view(self.subtest), file: self.file@ }
    }
}

pub open spec fn entry_view(e: GoTestEntry) -> EntryView {
    e@
}

pub open spec fn entry_views(entries: Seq<GoTestEntry>) -> Seq<EntryView> {
    entries.map_values(|e: GoTestEntry| entry_view(e))
}

// ---------------------------------------------------------------------------
// Lines
// ---------------------------------------------------------------------------

pub open spec fn is_ascii_space(c: char) -> bool {
    c == ' ' || c == '\t' || c == '\n' || c == '\u{c}' || c == '\r'
}

fn ascii_space(c: char) -> (r: bool)
    ensures
        r == is_ascii_space(c),
{
    c == ' ' || c == '\t' || c == '\n' || c == '\u{c}' || c == '\r'
}

/// The name of a top-level `func TestXxx(...)`. Methods, benchmarks, fuzz tests
/// and a bare `Test` are none.
pub open spec fn test_named(line: Seq<char>) -> Option<Seq<char>> {
    match strip_prefix(line, "func"@) {
        None => None,
        Some(after) => {
            let rest = trim_start(after, Pattern::Space);
            let end = position(rest, Pattern::NotIdentifier);
            if after.len() > 0 && is_ascii_space(after[0]) && starts_with(rest, "Test"@) && end > 4
                && starts_with(trim_start(rest.skip(end), Pattern::Space), "("@) {
                Some(rest.take(end))
            } else {
                None
            }
        },
    }
}

pub fn extract_go_test_fn_name(line: &[char]) -> (r: Option<String>)
    ensures
        text_view(r) == test_named(line@),
{
    let after = match after_prefix(line, "func") {
        Some(after) => after,
        None => return None,
    };
    if after.len() == 0 || !ascii_space(after[0]) {
        return None;
    }
    let rest = trim_left(after, Pattern::Space);
    if !has_prefix(rest, "Test") {
        return None;
    }
    let end: usize = first_hit(rest, Pattern::NotIdentifier);
    if end <= 4 {
        return None;
    }
    let tail = part(rest, end, rest.len());
    assert(tail@ =~= rest@.skip(end as int));
    if !has_prefix(trim_left(tail, Pattern::Space), "(") {
        return None;
    }
    let name = part(rest, 0, end);
    assert(name@ =~= rest@.take(end as int));
    Some(text(name))
}

/// What stands before the first quote, if it needs no decoding and is no path.
pub open spec fn simple_string(s: Seq<char>) -> Option<Seq<char>> {
    let end = position(s, Pattern::One('"'));
    let content = s.take(end);
    if end >= s.len() || any(content, Pattern::Either('\\', '/')) {
        None
    } else {
        Some(content)
    }
}

fn take_simple_go_string(s: &[char]) -> (r: Option<String>)
    ensures
        text_view(r) == simple_string(s@),
{
    let end: usize = first_hit(s, Pattern::One('"'));
    if end == s.len() {
        return None;
    }
    let content = part(s, 0, end);
    assert(content@ =~= s@.take(end as int));
    if has_any(content, Pattern::Either('\\', '/')) {
        return None;
    }
    Some(text(content))
}

/// The string after a field's name.
pub open spec fn field_string(after: Seq<char>) -> Option<Seq<char>> {
    match strip_prefix(trim_start(after, Pattern::Space), "\""@) {
        Some(s) => simple_string(s),
        None => None,
    }
}

/// The name of a case: `t.Run("name", …)`, or `name: "name"` in a table.
pub open spec fn subtest_named(line: Seq<char>) -> Option<Seq<char>> {
    let s = trim_start(line, Pattern::Space);
    match strip_prefix(s, "t.Run(\""@) {
        Some(after) => simple_string(after),
        None => match strip_prefix(s, "name:"@) {
            Some(after) => field_string(after),
            None => match strip_prefix(s, "Name:"@) {
                Some(after) => field_string(after),
                None => None,
            },
        },
    }
}

fn read_field(after: &[char]) -> (r: Option<String>)
    ensures
        text_view(r) == field_string(after@),
{
    match after_prefix(trim_left(after, Pattern::Space), "\"") {
        Some(s) => take_simple_go_string(s),
        None => None,
    }
}

pub fn extract_go_subtest_name(line: &[char]) -> (r: Option<String>)
    ensures
        text_view(r) == subtest_named(line@),
{
    let s = trim_left(line, Pattern::Space);
    match after_prefix(s, "t.Run(\"") {
        Some(after) => take_simple_go_string(after),
        None => match after_prefix(s, "name:") {
            Some(after) => read_field(after),
            None => match after_prefix(s, "Name:") {
                Some(after) => read_field(after),
                None => None,
            },
        },
    }
}

// ---------------------------------------------------------------------------
// Files
// ---------------------------------------------------------------------------

/// The first line from `j` on that starts with `}`: the end of a formatted
/// function.
pub open spec fn body_end(rows: Seq<Seq<char>>, j: int) -> int
    decreases rows.len() - j,
{
    if j < 0 || j >= rows.len() {
        rows.len() as int
    } else if starts_with(rows[j], "}"@) {
        j
    } else {
        body_end(rows, j + 1)
    }
}

/// The different names of cases in the rows, in order.
pub open spec fn cases(rows: Seq<Seq<char>>) -> Seq<Seq<char>>
    decreases rows.len(),
{
    if rows.len() == 0 {
        seq![]
    } else {
        let before = cases(rows.drop_last());
        match subtest_named(rows.last()) {
            Some(name) => if before.contains(name) {
                before
            } else {
                before.push(name)
            },
            None => before,
        }
    }
}

/// A test function, followed by its cases.
pub open spec fn entries_of(name: Seq<char>, cases: Seq<Seq<char>>, file: Seq<char>) -> Seq<
    EntryView,
> {
    seq![EntryView { name, subtest: None, file }] + cases.map_values(
        |c: Seq<char>| EntryView { name, subtest: Some(c), file },
    )
}

/// The tests declared from row `i` on.
pub open spec fn tests_from(rows: Seq<Seq<char>>, file: Seq<char>, i: int) -> Seq<EntryView>
    decreases rows.len() + 1 - i,
    via tests_from_decreases
{
    if i < 0 || i >= rows.len() {
        seq![]
    } else {
        match test_named(rows[i]) {
            Some(name) => {
                let end = body_end(rows, i + 1);
                entries_of(name, cases(rows.subrange(i + 1, end)), file) + tests_from(
                    rows,
                    file,
                    end + 1,
                )
            },
            None => tests_from(rows, file, i + 1),
        }
    }
}

#[via_fn]
proof fn tests_from_decreases(rows: Seq<Seq<char>>, file: Seq<char>, i: int) {
    if 0 <= i < rows.len() {
        lemma_body_end(rows, i + 1);
    }
}

proof fn lemma_body_end(rows: Seq<Seq<char>>, j: int)
    requires
        0 <= j <= rows.len(),
    ensures
        j <= body_end(rows, j) <= rows.len(),
    decreases rows.len() - j,
{
    if j < rows.len() && !starts_with(rows[j], "}"@) {
        lemma_body_end(rows, j + 1);
    }
}

fn push_entry(out: &mut Vec<GoTestEntry>, name: &str, subtest: Option<String>, file: &str)
    ensures
        entry_views(final(out)@) == entry_views(old(out)@).push(
            EntryView { name: name@, subtest: text_view(subtest), file: file@ },
        ),
{
    let e = GoTestEntry { name: name.to_owned(), subtest, file: file.to_owned() };
    let ghost shown = e@;
    out.push(e);
    assert(entry_views(out@) =~= entry_views(old(out)@).push(shown));
}

/// Parse one `_test.go` file and push discovered tests and their cases.
pub fn parse_go_test_file(content: &str, file: &str, out: &mut Vec<GoTestEntry>)
    ensures
        entry_views(final(out)@) == entry_views(old(out)@) + tests_from(
            lines(content@),
            file@,
            0,
        ),
{
    let all = chars(content);
    let rows = split_lines(&all);
    let ghost given = slices(rows@);
    let ghost start = entry_views(out@);
    let ghost whole = tests_from(given, file@, 0);
    let mut i: usize = 0;
    assert(entry_views(out@) + whole =~= start + whole);
    while i < rows.len()
        invariant
            given == slices(rows@),
            given == lines(content@),
            start == entry_views(old(out)@),
            whole == tests_from(given, file@, 0),
            entry_views(out@) + tests_from(given, file@, i as int) == start + whole,
        decreases rows@.len() - i,
    {
        assert(given[i as int] == rows@[i as int]@);
        let ghost before = entry_views(out@);
        match extract_go_test_fn_name(rows[i]) {
            Some(name) => {
                let mut end: usize = i + 1;
                while end < rows.len() && !has_prefix(rows[end], "}")
                    invariant
                        i < rows@.len(),
                        i + 1 <= end <= rows@.len(),
                        given == slices(rows@),
                        body_end(given, i as int + 1) == body_end(given, end as int),
                    decreases rows@.len() - end,
                {
                    assert(given[end as int] == rows@[end as int]@);
                    end += 1;
                }
                if end < rows.len() {
                    assert(given[end as int] == rows@[end as int]@);
                }
                let ghost body = given.subrange(i as int + 1, end as int);
                let mut found: Vec<String> = Vec::new();
                let mut k: usize = i + 1;
                assert(views(found@) =~= seq![]);
                while k < end
                    invariant
                        i + 1 <= k <= end <= rows@.len(),
                        given == slices(rows@),
                        body == given.subrange(i as int + 1, end as int),
                        views(found@) == cases(body.take(k - i - 1)),
                    decreases end - k,
                {
                    let ghost had = views(found@);
                    proof {
                        assert(body.take(k - i).drop_last() =~= body.take(k - i - 1));
                        assert(body.take(k - i).last() == given[k as int]);
                        assert(given[k as int] == rows@[k as int]@);
                    }
                    match extract_go_subtest_name(rows[k]) {
                        Some(sub) => {
                            if !crate::text::listed(&found, &sub) {
                                found.push(sub);
                                assert(views(found@) =~= had.push(sub@));
                            }
                        },
                        None => {},
                    }
                    k += 1;
                }
                assert(body.take(k - i - 1) =~= body);
                let ghost names = views(found@);
                let ghost wanted = entries_of(name@, names, file@);
                push_entry(out, &name, None, file);
                let mut m: usize = 0;
                assert(entry_views(out@) =~= before + wanted.take(1));
                while m < found.len()
                    invariant
                        m <= found@.len(),
                        names == views(found@),
                        wanted == entries_of(name@, names, file@),
                        entry_views(out@) == before + wanted.take(m + 1),
                    decreases found@.len() - m,
                {
                    let ghost had = entry_views(out@);
                    assert(names[m as int] == found@[m as int]@);
                    push_entry(out, &name, Some(found[m].clone()), file);
                    assert(wanted.take(m + 2) =~= wanted.take(m + 1).push(wanted[m + 1]));
                    assert(entry_views(out@) =~= before + wanted.take(m + 2));
                    m += 1;
                }
                assert(wanted.take(m + 1) =~= wanted);
                let ghost rest = tests_from(given, file@, end + 1);
                assert(before + (wanted + rest) =~= (before + wanted) + rest);
                if end == rows.len() {
                    assert(rest =~= seq![]);
                    assert(entry_views(out@) + rest =~= entry_views(out@));
                    assert(entry_views(out@) == start + whole);
                    return;
                }
                i = end + 1;
            },
            None => {
                i += 1;
            },
        }
    }
    assert(entry_views(out@) + tests_from(given, file@, i as int) =~= entry_views(out@));
    assert(start + whole == entry_views(out@));
}

// ---------------------------------------------------------------------------
// Packages
// ---------------------------------------------------------------------------

pub open spec fn subtest_le(a: Option<Seq<char>>, b: Option<Seq<char>>) -> bool {
    match (a, b) {
        (None, _) => true,
        (Some(_), None) => false,
        (Some(x), Some(y)) => text_le(x, y),
    }
}

/// By name; the function itself before its cases.
pub open spec fn entry_le(a: EntryView, b: EntryView) -> bool {
    if a.name != b.name {
        text_le(a.name, b.name)
    } else {
        subtest_le(a.subtest, b.subtest)
    }
}

pub open spec fn entry_order() -> spec_fn(EntryView, EntryView) -> bool {
    |a: EntryView, b: EntryView| entry_le(a, b)
}

proof fn lemma_subtest_transitive(
    a: Option<Seq<char>>,
    b: Option<Seq<char>>,
    c: Option<Seq<char>>,
)
    requires
        subtest_le(a, b),
        subtest_le(b, c),
    ensures
        subtest_le(a, c),
{
    match (a, b, c) {
        (Some(x), Some(y), Some(z)) => {
            text_le_transitive(x, y, z);
        },
        _ => {},
    }
}

proof fn lemma_antisymmetric(a: Seq<char>, b: Seq<char>)
    requires
        text_le(a, b),
        text_le(b, a),
    ensures
        a == b,
    decreases a.len(),
{
    if a.len() > 0 && b.len() > 0 && a[0] == b[0] {
        lemma_antisymmetric(a.skip(1), b.skip(1));
        assert(a =~= seq![a[0]] + a.skip(1));
        assert(b =~= seq![b[0]] + b.skip(1));
    } else {
        assert(a =~= b);
    }
}

impl Keyed for GoTestEntry {
    open spec fn le(&self, other: &GoTestEntry) -> bool {
        entry_le(self@, other@)
    }

    proof fn total(a: &GoTestEntry, b: &GoTestEntry) {
        text_le_total(a.name@, b.name@);
        match (a.subtest, b.subtest) {
            (Some(x), Some(y)) => {
                text_le_total(x@, y@);
            },
            _ => {},
        }
    }

    proof fn transitive(a: &GoTestEntry, b: &GoTestEntry, c: &GoTestEntry) {
        if a.name@ == b.name@ && b.name@ == c.name@ {
            lemma_subtest_transitive(a@.subtest, b@.subtest, c@.subtest);
        } else {
            text_le_total(a.name@, b.name@);
            text_le_total(b.name@, c.name@);
            text_le_transitive(a.name@, b.name@, c.name@);
            if a.name@ == c.name@ {
                lemma_antisymmetric(a.name@, b.name@);
            }
        }
    }

    fn not_after(&self, other: &GoTestEntry) -> (r: bool) {
        if !same(&self.name, &other.name) {
            return text_not_after(&chars(&self.name), &chars(&other.name));
        }
        match (&self.subtest, &other.subtest) {
            (None, _) => true,
            (Some(_x), None) => false,
            (Some(x), Some(y)) => text_not_after(&chars(x), &chars(y)),
        }
    }
}

/// A file of a package.
#[derive(Debug)]
pub struct SourceFile {
    pub name: String,
    pub content: String,
}

/// The tests of the files in the order in which those are listed.
pub open spec fn listed(files: Seq<SourceFile>) -> Seq<EntryView>
    decreases files.len(),
{
    if files.len() == 0 {
        seq![]
    } else {
        let before = listed(files.drop_last());
        let f = files.last();
        if ends_with(f.name@, "_test.go"@) {
            before + tests_from(lines(f.content@), f.name@, 0)
        } else {
            before
        }
    }
}

/// The tests of a package's test files, by name; the function itself before its
/// cases.
pub fn find_go_tests(files: &Vec<SourceFile>) -> (r: Vec<GoTestEntry>)
    ensures
        entry_views(r@) == sorted_by(listed(files@), entry_order()),
{
    let mut tests: Vec<GoTestEntry> = Vec::new();
    let mut i: usize = 0;
    assert(entry_views(tests@) =~= seq![]);
    while i < files.len()
        invariant
            i <= files@.len(),
            entry_views(tests@) == listed(files@.take(i as int)),
        decreases files@.len() - i,
    {
        assert(files@.take(i as int + 1).drop_last() =~= files@.take(i as int));
        if has_suffix(&chars(&files[i].name), "_test.go") {
            parse_go_test_file(&files[i].content, &files[i].name, &mut tests);
        }
        i += 1;
    }
    assert(files@.take(i as int) =~= files@);
    let ghost unsorted = tests@;
    let r = sort(tests);
    proof {
        let view = |e: GoTestEntry| entry_view(e);
        sorting_sorts_views(unsorted, key_order::<GoTestEntry>(), view, entry_order());
    }
    r
}

// ---------------------------------------------------------------------------
// The runner's names
// ---------------------------------------------------------------------------

/// Go's test runner writes white space in the names of cases as underscores.
pub open spec fn case_char(c: char) -> char {
    if is_ascii_space(c) {
        '_'
    } else {
        c
    }
}

pub open spec fn case_name(s: Seq<char>) -> Seq<char> {
    s.map_values(|c: char| case_char(c))
}

pub fn normalize(s: &str) -> (r: String)
    ensures
        r@ == case_name(s@),
{
    let all = chars(s);
    let mut r = String::new();
    let mut i: usize = 0;
    assert(r@ =~= case_name(all@).take(0));
    while i < all.len()
        invariant
            i <= all@.len(),
            r@ == case_name(all@).take(i as int),
        decreases all@.len() - i,
    {
        let c = all[i];
        r.push(if ascii_space(c) { '_' } else { c });
        i += 1;
        assert(r@ =~= case_name(all@).take(i as int));
    }
    assert(case_name(all@).take(i as int) =~= case_name(all@));
    r
}

/// A character that means something in a regular expression, or separates a test
/// from its cases.
pub open spec fn is_meta(c: char) -> bool {
    c == '.' || c == '*' || c == '+' || c == '?' || c == '(' || c == ')' || c == '[' || c == ']'
        || c == '{' || c == '}' || c == '|' || c == '^' || c == '$' || c == '\\' || c == '/'
}

pub open spec fn escaped(s: Seq<char>) -> Seq<char>
    decreases s.len(),
{
    if s.len() == 0 {
        seq![]
    } else {
        escaped(s.drop_last()) + (if is_meta(s.last()) {
            seq!['\\', s.last()]
        } else {
            seq![s.last()]
        })
    }
}

/// Escape RE2 regex metacharacters. Also escapes `/`, which isn't a regex special
/// but is the subtest path separator in Go's `-test.run`.
pub fn regex_escape(s: &str) -> (r: String)
    ensures
        r@ == escaped(s@),
{
    let all = chars(s);
    let mut r = String::new();
    let mut i: usize = 0;
    assert(r@ =~= seq![]);
    while i < all.len()
        invariant
            i <= all@.len(),
            r@ == escaped(all@.take(i as int)),
        decreases all@.len() - i,
    {
        let c = all[i];
        let ghost before = r@;
        assert(all@.take(i as int + 1).drop_last() =~= all@.take(i as int));
        if c == '.' || c == '*' || c == '+' || c == '?' || c == '(' || c == ')' || c == '[' || c
            == ']' || c == '{' || c == '}' || c == '|' || c == '^' || c == '$' || c == '\\' || c
            == '/' {
            r.push('\\');
            r.push(c);
            assert(r@ =~= before + seq!['\\', c]);
        } else {
            r.push(c);
            assert(r@ =~= before + seq![c]);
        }
        i += 1;
    }
    assert(all@.take(i as int) =~= all@);
    r
}

pub open spec fn run_pattern(e: EntryView) -> Seq<char> {
    match e.subtest {
        None => "^"@ + e.name + "$"@,
        Some(sub) => "^"@ + e.name + "$"@ + "/^"@ + escaped(case_name(sub)) + "$"@,
    }
}

/// The value of `-test.run` for an entry: `^TestFoo$`, or
/// `^TestFoo$/^case_name$` with the name as Go's test runner writes it.
pub fn go_test_run_regex(entry: &GoTestEntry) -> (r: String)
    ensures
        r@ == run_pattern(entry@),
{
    let mut r = "^".to_owned();
    r.append(&entry.name);
    r.append("$");
    match &entry.subtest {
        None => {},
        Some(sub) => {
            r.append("/^");
            r.append(&regex_escape(&normalize(sub)));
            r.append("$");
        },
    }
    r
}

/// The text that an escaped text stands for.
pub open spec fn unescaped(s: Seq<char>) -> Seq<char>
    decreases s.len(),
{
    if s.len() == 0 {
        seq![]
    } else if s[0] == '\\' && s.len() > 1 {
        seq![s[1]] + unescaped(s.skip(2))
    } else {
        seq![s[0]] + unescaped(s.skip(1))
    }
}

proof fn lemma_escaped_first(s: Seq<char>)
    requires
        s.len() > 0,
    ensures
        escaped(s) == (if is_meta(s[0]) {
            seq!['\\', s[0]]
        } else {
            seq![s[0]]
        }) + escaped(s.skip(1)),
    decreases s.len(),
{
    if s.len() == 1 {
        assert(s.drop_last() =~= seq![]);
        assert(s.skip(1) =~= seq![]);
        reveal_with_fuel(escaped, 2);
    } else {
        lemma_escaped_first(s.drop_last());
        assert(s.drop_last().skip(1) =~= s.skip(1).drop_last());
        assert(s.skip(1).last() == s.last());
    }
    let first = if is_meta(s[0]) {
        seq!['\\', s[0]]
    } else {
        seq![s[0]]
    };
    assert(escaped(s) =~= first + escaped(s.skip(1)));
}

/// An escaped name stands for itself: undoing the escapes gives it back.
pub proof fn escaped_names_match_literally(s: Seq<char>)
    ensures
        unescaped(escaped(s)) == s,
    decreases s.len(),
{
    if s.len() == 0 {
        assert(unescaped(escaped(s)) =~= s);
    } else {
        lemma_escaped_first(s);
        escaped_names_match_literally(s.skip(1));
        let e = escaped(s);
        let rest = escaped(s.skip(1));
        if is_meta(s[0]) {
            assert(e[0] == '\\' && e[1] == s[0]);
            assert(e.skip(2) =~= rest);
        } else {
            assert(e[0] == s[0]);
            assert(e.skip(1) =~= rest);
            assert(s[0] != '\\');
        }
        assert(seq![s[0]] + s.skip(1) =~= s);
    }
}

/// Different names stay different when they are escaped.
pub proof fn patterns_tell_names_apart(a: Seq<char>, b: Seq<char>)
    requires
        escaped(a) == escaped(b),
    ensures
        a == b,
{
    escaped_names_match_literally(a);
    escaped_names_match_literally(b);
}

/// A test is found by its declaration: what stands between `func` and the parenthesis
/// is its name.
pub proof fn declared_tests_are_found(name: Seq<char>, rest: Seq<char>)
    requires
        name.len() > 4,
        starts_with(name, "Test"@),
        forall|i: int|
            0 <= i < name.len() ==> crate::text::is_alphanumeric(#[trigger] name[i]) || name[i]
                == '_',
    ensures
        test_named("func "@ + name + "("@ + rest) == Some(name),
{
    reveal_strlit("func");
    reveal_strlit("func ");
    reveal_strlit("Test");
    reveal_strlit("(");
    let line = "func "@ + name + "("@ + rest;
    let tail = name + "("@ + rest;
    let open = "("@ + rest;
    assert(line.take(4) =~= "func"@);
    let after = line.skip(4);
    assert(after[0] == ' ');
    assert(after.skip(1) =~= tail);
    assert(name.take(4)[0] == "Test"@[0]);
    assert(tail[0] == 'T');
    reveal_with_fuel(trim_start, 2);
    assert(trim_start(after, Pattern::Space) == tail);
    let n = name.len() as int;
    assert forall|j: int| 0 <= j < n implies !Pattern::NotIdentifier.hits(#[trigger] tail[j]) by {
        assert(tail[j] == name[j]);
    }
    assert(tail[n] == '(');
    crate::text::lemma_position_is(tail, Pattern::NotIdentifier, n);
    assert(tail.take(n) =~= name);
    assert(tail.take(4) =~= name.take(4));
    assert(tail.skip(n) =~= open);
    assert(open[0] == '(');
    assert(open.take(1) =~= "("@);
}

/// A method is no test.
pub proof fn methods_are_no_tests(rest: Seq<char>)
    ensures
        test_named("func ("@ + rest) is None,
{
    reveal_strlit("func");
    reveal_strlit("func (");
    reveal_strlit("Test");
    let line = "func ("@ + rest;
    let after = line.skip(4);
    let tail = after.skip(1);
    assert(line.take(4) =~= "func"@);
    assert(after[0] == ' ');
    assert(tail[0] == '(');
    reveal_with_fuel(trim_start, 2);
    assert(trim_start(after, Pattern::Space) == tail);
    if starts_with(tail, "Test"@) {
        assert(tail.take(4)[0] == 'T');
    }
}

proof fn lemma_simple_string(name: Seq<char>, rest: Seq<char>)
    requires
        forall|i: int|
            0 <= i < name.len() ==> #[trigger] name[i] != '"' && name[i] != '\\' && name[i] != '/',
    ensures
        simple_string(name + seq!['"'] + rest) == Some(name),
{
    let s = name + seq!['"'] + rest;
    crate::text::texts_are_cut_at_the_first(name, '"', rest);
    assert(s.take(name.len() as int) =~= name);
}

/// A case is found by its name: in a call of `t.Run`, or as a field of a table.
pub proof fn named_cases_are_found(name: Seq<char>, rest: Seq<char>)
    requires
        forall|i: int|
            0 <= i < name.len() ==> #[trigger] name[i] != '"' && name[i] != '\\' && name[i] != '/',
    ensures
        subtest_named("t.Run(\""@ + name + seq!['"'] + rest) == Some(name),
        subtest_named("name:\""@ + name + seq!['"'] + rest) == Some(name),
        subtest_named("Name:\""@ + name + seq!['"'] + rest) == Some(name),
{
    reveal_strlit("t.Run(\"");
    reveal_strlit("name:\"");
    reveal_strlit("Name:\"");
    reveal_strlit("name:");
    reveal_strlit("Name:");
    reveal_strlit("\"");
    let said = name + seq!['"'] + rest;
    lemma_simple_string(name, rest);
    let a = "t.Run(\""@ + name + seq!['"'] + rest;
    assert(a.take(7) =~= "t.Run(\""@);
    assert(a.skip(7) =~= said);
    assert(a[0] == 't');
    assert(trim_start(a, Pattern::Space) == a);
    let b = "name:\""@ + name + seq!['"'] + rest;
    let quoted = b.skip(5);
    assert(b[0] == 'n');
    assert(trim_start(b, Pattern::Space) == b);
    if starts_with(b, "t.Run(\""@) {
        assert(b.take(7)[0] == 't');
    }
    assert(b.take(5) =~= "name:"@);
    assert(quoted[0] == '"');
    assert(trim_start(quoted, Pattern::Space) == quoted);
    assert(quoted.take(1) =~= "\""@);
    assert(quoted.skip(1) =~= said);
    let c = "Name:\""@ + name + seq!['"'] + rest;
    assert(c[0] == 'N');
    assert(trim_start(c, Pattern::Space) == c);
    if starts_with(c, "t.Run(\""@) {
        assert(c.take(7)[0] == 't');
    }
    if starts_with(c, "name:"@) {
        assert(c.take(5)[0] == 'n');
    }
    assert(c.take(5) =~= "Name:"@);
    assert(c.skip(5) =~= quoted);
}

proof fn lemma_cases(rows: Seq<Seq<char>>, c: Seq<char>)
    ensures
        cases(rows).contains(c) <==> exists|k: int|
            0 <= k < rows.len() && subtest_named(#[trigger] rows[k]) == Some(c),
        cases(rows).no_duplicates(),
    decreases rows.len(),
{
    if rows.len() > 0 {
        let t = rows.drop_last();
        let before = cases(t);
        let all = cases(rows);
        lemma_cases(t, c);
        if before.contains(c) {
            let k = choose|k: int| 0 <= k < t.len() && subtest_named(#[trigger] t[k]) == Some(c);
            assert(rows[k] == t[k]);
            let j = choose|j: int| 0 <= j < before.len() && before[j] == c;
            assert(all[j] == c);
        }
        let n = rows.len() - 1;
        assert(rows[n] == rows.last());
        if subtest_named(rows[n]) == Some(c) && !before.contains(c) {
            assert(all[before.len() as int] == c);
        }
        if all.contains(c) && !before.contains(c) {
            let j = choose|j: int| 0 <= j < all.len() && all[j] == c;
            if j < before.len() {
                assert(before[j] == c);
            }
            assert(subtest_named(rows[n]) == Some(c));
        }
        if exists|k: int| 0 <= k < rows.len() && subtest_named(#[trigger] rows[k]) == Some(c) {
            let k = choose|k: int|
                0 <= k < rows.len() && subtest_named(#[trigger] rows[k]) == Some(c);
            if k < n {
                assert(t[k] == rows[k]);
            }
        }
    }
}

proof fn lemma_body_end_is(rows: Seq<Seq<char>>, i: int, j: int)
    requires
        0 <= i <= j <= rows.len(),
        forall|k: int| i <= k < j ==> !starts_with(#[trigger] rows[k], "}"@),
        j == rows.len() || starts_with(rows[j], "}"@),
    ensures
        body_end(rows, i) == j,
    decreases j - i,
{
    if i < j {
        lemma_body_end_is(rows, i + 1, j);
    }
}

proof fn lemma_first_test(rows: Seq<Seq<char>>, file: Seq<char>, s: int, i: int)
    requires
        0 <= s <= i <= rows.len(),
        forall|k: int| s <= k < i ==> test_named(#[trigger] rows[k]) is None,
    ensures
        tests_from(rows, file, s) == tests_from(rows, file, i),
    decreases i - s,
{
    if s < i {
        lemma_first_test(rows, file, s + 1, i);
    }
}

/// The first test function from a line on is listed first, then its cases: those named
/// up to the line that closes the function, and no others. What is declared below
/// follows.
pub proof fn tests_are_listed_with_their_cases(
    rows: Seq<Seq<char>>,
    file: Seq<char>,
    s: int,
    i: int,
    j: int,
    e: EntryView,
)
    requires
        0 <= s <= i < j <= rows.len(),
        forall|k: int| s <= k < i ==> test_named(#[trigger] rows[k]) is None,
        test_named(rows[i]) is Some,
        forall|k: int| i < k < j ==> !starts_with(#[trigger] rows[k], "}"@),
        j == rows.len() || starts_with(rows[j], "}"@),
    ensures
        tests_from(rows, file, s)[0] == (EntryView {
            name: test_named(rows[i])->0,
            subtest: None,
            file,
        }),
        tests_from(rows, file, s).contains(e) <==> (tests_from(rows, file, j + 1).contains(e) || (
        e.name == test_named(rows[i])->0 && e.file == file && (e.subtest is None || exists|k: int|
            i < k < j && subtest_named(#[trigger] rows[k]) == e.subtest))),
{
    lemma_first_test(rows, file, s, i);
    lemma_body_end_is(rows, i + 1, j);
    let name = test_named(rows[i])->0;
    let body = rows.subrange(i + 1, j);
    let named = cases(body);
    let own = entries_of(name, named, file);
    let rest = tests_from(rows, file, j + 1);
    let all = own + rest;
    assert(tests_from(rows, file, s) == all);
    if rest.contains(e) {
        let k = choose|k: int| 0 <= k < rest.len() && rest[k] == e;
        assert(all[own.len() + k] == e);
    }
    if own.contains(e) {
        let k = choose|k: int| 0 <= k < own.len() && own[k] == e;
        assert(all[k] == e);
        if k > 0 {
            assert(e.subtest == Some(named[k - 1]));
            assert(named.contains(named[k - 1]));
            lemma_cases(body, named[k - 1]);
            let m = choose|m: int|
                0 <= m < body.len() && subtest_named(#[trigger] body[m]) == e.subtest;
            assert(rows[i + 1 + m] == body[m]);
        }
    }
    if all.contains(e) {
        let k = choose|k: int| 0 <= k < all.len() && all[k] == e;
        if k < own.len() {
            assert(own[k] == e);
        } else {
            assert(rest[k - own.len()] == e);
        }
    }
    if e.name == name && e.file == file && e.subtest is None {
        assert(own[0] == e);
    }
    if e.name == name && e.file == file && exists|k: int|
        i < k < j && subtest_named(#[trigger] rows[k]) == e.subtest && e.subtest is Some {
        let k = choose|k: int|
            i < k < j && subtest_named(#[trigger] rows[k]) == e.subtest && e.subtest is Some;
        assert(body[k - i - 1] == rows[k]);
        lemma_cases(body, e.subtest->0);
        let m = choose|m: int| 0 <= m < named.len() && named[m] == e.subtest->0;
        assert(own[m + 1] == e);
    }
}

/// A file without test functions has no tests.
pub proof fn other_files_have_no_tests(rows: Seq<Seq<char>>, file: Seq<char>)
    requires
        forall|k: int| 0 <= k < rows.len() ==> test_named(#[trigger] rows[k]) is None,
    ensures
        tests_from(rows, file, 0).len() == 0,
{
    lemma_first_test(rows, file, 0, rows.len() as int);
}

proof fn lemma_listed_tests(files: Seq<SourceFile>, e: EntryView)
    ensures
        listed(files).contains(e) <==> exists|i: int|
            0 <= i < files.len() && ends_with((#[trigger] files[i]).name@, "_test.go"@)
                && tests_from(lines(files[i].content@), files[i].name@, 0).contains(e),
    decreases files.len(),
{
    if files.len() > 0 {
        let t = files.drop_last();
        let before = listed(t);
        let f = files.last();
        let own = tests_from(lines(f.content@), f.name@, 0);
        let all = listed(files);
        let n = files.len() - 1;
        lemma_listed_tests(t, e);
        assert(files[n] == f);
        if before.contains(e) {
            let k = choose|k: int| 0 <= k < before.len() && before[k] == e;
            assert(all[k] == e);
            let i = choose|i: int|
                0 <= i < t.len() && ends_with((#[trigger] t[i]).name@, "_test.go"@) && tests_from(
                    lines(t[i].content@),
                    t[i].name@,
                    0,
                ).contains(e);
            assert(files[i] == t[i]);
        }
        if ends_with(f.name@, "_test.go"@) && own.contains(e) {
            let k = choose|k: int| 0 <= k < own.len() && own[k] == e;
            assert(all[before.len() + k] == e);
        }
        if all.contains(e) && !before.contains(e) {
            let k = choose|k: int| 0 <= k < all.len() && all[k] == e;
            if k < before.len() {
                assert(before[k] == e);
            }
            assert(own[k - before.len()] == e);
        }
        if exists|i: int|
            0 <= i < files.len() && ends_with((#[trigger] files[i]).name@, "_test.go"@)
                && tests_from(lines(files[i].content@), files[i].name@, 0).contains(e) {
            let i = choose|i: int|
                0 <= i < files.len() && ends_with((#[trigger] files[i]).name@, "_test.go"@)
                    && tests_from(lines(files[i].content@), files[i].name@, 0).contains(e);
            if i < n {
                assert(t[i] == files[i]);
            }
        }
    }
}

proof fn lemma_entry_order()
    ensures
        crate::order::is_order(entry_order()),
{
    let le = entry_order();
    assert forall|a: EntryView, b: EntryView| #[trigger] le(a, b) || le(b, a) by {
        text_le_total(a.name, b.name);
        if a.subtest is Some && b.subtest is Some {
            text_le_total(a.subtest->0, b.subtest->0);
        }
    }
    assert forall|a: EntryView, b: EntryView, c: EntryView| #[trigger]
        le(a, b) && #[trigger] le(b, c) implies le(a, c) by {
        if a.name == b.name && b.name == c.name {
            lemma_subtest_transitive(a.subtest, b.subtest, c.subtest);
        } else {
            text_le_total(a.name, b.name);
            text_le_total(b.name, c.name);
            text_le_transitive(a.name, b.name, c.name);
            if a.name == c.name {
                lemma_antisymmetric(a.name, b.name);
            }
        }
    }
}

/// The tests of a package are those of its test files, by name, a function before its
/// cases.
pub proof fn all_tests_are_listed_by_name(files: Seq<SourceFile>, e: EntryView)
    ensures
        sorted_by(listed(files), entry_order()).contains(e) <==> exists|i: int|
            0 <= i < files.len() && ends_with((#[trigger] files[i]).name@, "_test.go"@)
                && tests_from(lines(files[i].content@), files[i].name@, 0).contains(e),
        forall|i: int, j: int|
            #![trigger sorted_by(listed(files), entry_order())[i], sorted_by(
                listed(files),
                entry_order(),
            )[j]]
            0 <= i < j < sorted_by(listed(files), entry_order()).len() ==> {
                let a = sorted_by(listed(files), entry_order())[i];
                let b = sorted_by(listed(files), entry_order())[j];
                text_le(a.name, b.name) && (a.name == b.name && b.subtest is None
                    ==> a.subtest is None)
            },
{
    lemma_listed_tests(files, e);
    lemma_entry_order();
    let all = listed(files);
    let r = sorted_by(all, entry_order());
    crate::order::sorting_orders(all, entry_order());
    vstd::seq_lib::to_multiset_contains(all, e);
    vstd::seq_lib::to_multiset_contains(r, e);
    assert forall|i: int, j: int| #![trigger r[i], r[j]] 0 <= i < j < r.len() implies {
        let a = r[i];
        let b = r[j];
        text_le(a.name, b.name) && (a.name == b.name && b.subtest is None ==> a.subtest is None)
    } by {
        let le = entry_order();
        assert(le(r[i], r[j]));
        text_le_total(r[i].name, r[i].name);
    }
}

} // verus!
