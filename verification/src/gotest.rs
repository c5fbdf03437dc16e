//! A small, package-local Go test runner: what it runs, what its output says, and
//! the places in the sources that the output reports.
use crate::bytes::{lossy, lossy_text};
use crate::discovery::{case_name, go_test_run_regex, normalize, run_pattern, EntryView, GoTestEntry};
use crate::paths::{
    extension, extension_of, file_name, join_path, joined, name_of, parent, parent_of,
};
use crate::seed::str_view;
use crate::session::Message;
use crate::status::text_view;
use crate::text::{
    begins, chars, concat, digit, ends_with, full_lines, has_suffix, is_digit, is_space, lemma_position,
    lemma_trim, parse_max, part, position, read_usize, same, slices, spells, split_full_lines,
    starts_with, strip, text, trim_end, trim_right, trimmed, views, whitespace, Pattern,
};
use vstd::prelude::*;

verus! {

// ---------------------------------------------------------------------------
// Places in the sources
// ---------------------------------------------------------------------------

/// The end of the run of digits that starts at `i`.
pub open spec fn digits_end(s: Seq<char>, i: int) -> int
    decreases s.len() - i,
{
    if 0 <= i < s.len() && is_digit(s[i]) {
        digits_end(s, i + 1)
    } else {
        i
    }
}

/// The index of the first character from `i` on that is no white space.
pub open spec fn past_spaces(s: Seq<char>, i: int) -> int
    decreases s.len() - i,
{
    if 0 <= i < s.len() && is_space(s[i]) {
        past_spaces(s, i + 1)
    } else {
        i
    }
}

/// The index of the first line feed from `i` on.
pub open spec fn row_end(s: Seq<char>, i: int) -> int
    decreases s.len() - i,
{
    if 0 <= i < s.len() && s[i] != '\n' {
        row_end(s, i + 1)
    } else {
        i
    }
}

/// What can follow a line number.
pub open spec fn ends_number(s: Seq<char>, i: int) -> bool {
    i >= s.len() || s[i] == ':' || is_space(s[i])
}

/// A path of a Go file ends before index `i`, and a line number follows it.
pub open spec fn path_ends(s: Seq<char>, i: int) -> bool {
    &&& 3 <= i < s.len()
    &&& s.subrange(i - 3, i) == ".go"@
    &&& s[i] == ':'
    &&& digits_end(s, i + 1) > i + 1
    &&& ends_number(s, digits_end(s, i + 1))
}

/// The last index up to `i` before which a path ends that starts at `from`; below
/// `from` if there is none.
pub open spec fn last_path_end(s: Seq<char>, from: int, i: int) -> int
    decreases i - from,
{
    if i < from + 3 {
        from - 1
    } else if path_ends(s, i) {
        i
    } else {
        last_path_end(s, from, i - 1)
    }
}

/// Where the message starts that follows the line number, which ends before `i`: a
/// column number is skipped.
pub open spec fn message_start(s: Seq<char>, i: int) -> int {
    if i >= s.len() {
        i
    } else {
        let column = digits_end(s, i + 1);
        if s[i] == ':' && column > i + 1 && ends_number(s, column) {
            if column < s.len() {
                column + 1
            } else {
                column
            }
        } else {
            i + 1
        }
    }
}

/// A place in the sources that a line of output reports.
#[derive(Debug)]
pub struct Reported {
    /// Where the path stands in the line.
    pub start: usize,
    pub end: usize,
    /// The line number, counted from 0.
    pub line: usize,
    pub message: String,
}

pub struct ReportedView {
    pub start: int,
    pub end: int,
    pub line: nat,
    pub message: Seq<char>,
}

impl View for Reported {
    type V = ReportedView;

    open spec fn view(&self) -> ReportedView {
        ReportedView {
            start: self.start as int,
            end: self.end as int,
            line: self.line as nat,
            message: self.message@,
        }
    }
}

/// The place that a line reports: `path.go:12: message` or `path.go:12:8: message`,
/// behind white space. The path is as long as it can be.
pub open spec fn reported(s: Seq<char>) -> Option<ReportedView> {
    let start = past_spaces(s, 0);
    let end = last_path_end(s, start, row_end(s, start));
    if end < start {
        None
    } else {
        let digits = digits_end(s, end + 1);
        let message = message_start(s, digits);
        match parse_max(s.subrange(end + 1, digits), usize::MAX as nat) {
            Some(n) => if n == 0 {
                None
            } else {
                Some(
                    ReportedView {
                        start,
                        end,
                        line: (n - 1) as nat,
                        message: trimmed(s.subrange(message, row_end(s, message))),
                    },
                )
            },
            None => None,
        }
    }
}

fn skip_digits(s: &[char], from: usize) -> (r: usize)
    requires
        from <= s@.len(),
    ensures
        r == digits_end(s@, from as int),
        from <= r <= s@.len(),
{
    let mut i: usize = from;
    while i < s.len() && digit(s[i])
        invariant
            from <= i <= s@.len(),
            digits_end(s@, from as int) == digits_end(s@, i as int),
        decreases s@.len() - i,
    {
        i += 1;
    }
    i
}

fn skip_row(s: &[char], from: usize) -> (r: usize)
    requires
        from <= s@.len(),
    ensures
        r == row_end(s@, from as int),
        from <= r <= s@.len(),
{
    let mut i: usize = from;
    while i < s.len() && s[i] != '\n'
        invariant
            from <= i <= s@.len(),
            row_end(s@, from as int) == row_end(s@, i as int),
        decreases s@.len() - i,
    {
        i += 1;
    }
    i
}

fn number_ends(s: &[char], i: usize) -> (r: bool)
    ensures
        r == ends_number(s@, i as int),
{
    i >= s.len() || s[i] == ':' || whitespace(s[i])
}

fn is_path_end(s: &[char], i: usize) -> (r: bool)
    ensures
        r == path_ends(s@, i as int),
{
    if i < 3 || i >= s.len() || s[i] != ':' {
        return false;
    }
    if !spells(part(s, i - 3, i), ".go") {
        return false;
    }
    let end: usize = skip_digits(s, i + 1);
    end > i + 1 && number_ends(s, end)
}

proof fn lemma_last_path_end(s: Seq<char>, from: int, i: int)
    requires
        0 <= from,
    ensures
        last_path_end(s, from, i) >= from ==> path_ends(s, last_path_end(s, from, i))
            && last_path_end(s, from, i) >= from + 3,
    decreases i - from,
{
    if i >= from + 3 && !path_ends(s, i) {
        lemma_last_path_end(s, from, i - 1);
    }
}

/// The place that a line of output reports.
pub fn find_location(line: &str) -> (r: Option<Reported>)
    ensures
        match r {
            Some(found) => reported(line@) == Some(found@),
            None => reported(line@) is None,
        },
{
    let all = chars(line);
    let length: usize = all.len();
    let mut start: usize = 0;
    while start < all.len() && whitespace(all[start])
        invariant
            start <= all@.len(),
            all@ == line@,
            past_spaces(line@, 0) == past_spaces(line@, start as int),
        decreases all@.len() - start,
    {
        start += 1;
    }
    let mut end: usize = skip_row(&all, start);
    let ghost limit = end as int;
    while end >= 3 && end - 3 >= start && !is_path_end(&all, end)
        invariant
            all@ == line@,
            end <= all@.len(),
            last_path_end(line@, start as int, limit) == last_path_end(
                line@,
                start as int,
                end as int,
            ),
        decreases end,
    {
        end -= 1;
    }
    if end < 3 || end - 3 < start {
        return None;
    }
    let digits: usize = skip_digits(&all, end + 1);
    let number = part(&all, end + 1, digits);
    let given: usize = match read_usize(number) {
        Some(given) => given,
        None => return None,
    };
    if given == 0 {
        return None;
    }
    let from: usize = if digits >= length {
        digits
    } else {
        let column: usize = skip_digits(&all, digits + 1);
        if all[digits] == ':' && column > digits + 1 && number_ends(&all, column) {
            if column < length {
                column + 1
            } else {
                column
            }
        } else {
            digits + 1
        }
    };
    let to: usize = skip_row(&all, from);
    let message = text(strip(part(&all, from, to)));
    Some(Reported { start, end, line: given - 1, message })
}

proof fn lemma_reported(s: Seq<char>)
    ensures
        reported(s) matches Some(r) ==> 0 <= r.start && r.start + 3 <= r.end < s.len() && path_ends(
            s,
            r.end,
        ),
{
    lemma_past_spaces(s, 0);
    let start = past_spaces(s, 0);
    lemma_last_path_end(s, start, row_end(s, start));
}

proof fn lemma_past_spaces(s: Seq<char>, i: int)
    requires
        0 <= i,
    ensures
        past_spaces(s, i) >= i,
    decreases s.len() - i,
{
    if i < s.len() && is_space(s[i]) {
        lemma_past_spaces(s, i + 1);
    }
}

/// A reported path is one of a Go file, and its line number follows it.
pub proof fn reported_paths_are_go_files(s: Seq<char>)
    ensures
        reported(s) matches Some(r) ==> 0 <= r.start < r.end < s.len() && ends_with(
            s.subrange(r.start, r.end),
            ".go"@,
        ) && s[r.end] == ':',
{
    lemma_reported(s);
    reveal_strlit(".go");
    if let Some(r) = reported(s) {
        let path = s.subrange(r.start, r.end);
        assert(path.skip(path.len() - 3) =~= s.subrange(r.end - 3, r.end));
    }
}

/// The place that a line of output reports, its line feed aside.
pub open spec fn row_place(row: Seq<char>) -> Option<ReportedView> {
    reported(trim_end(row, Pattern::One('\n')))
}

proof fn lemma_row_place(row: Seq<char>)
    ensures
        row_place(row) matches Some(r) ==> 0 <= r.start < r.end < row.len(),
{
    let inner = trim_end(row, Pattern::One('\n'));
    lemma_trim(row, Pattern::One('\n'));
    lemma_reported(inner);
}

/// The paths that the first `n` lines report.
pub open spec fn row_paths(rows: Seq<Seq<char>>, n: nat) -> Seq<Seq<char>>
    decreases n,
{
    if n == 0 || n > rows.len() {
        seq![]
    } else {
        let before = row_paths(rows, (n - 1) as nat);
        match row_place(rows[n - 1]) {
            Some(r) => before.push(rows[n - 1].subrange(r.start, r.end)),
            None => before,
        }
    }
}

/// The first `n` lines with other paths in place of those that they report.
pub open spec fn with_paths(rows: Seq<Seq<char>>, paths: Seq<Seq<char>>, n: nat) -> Seq<char>
    decreases n,
{
    if n == 0 || n > rows.len() {
        seq![]
    } else {
        let before = with_paths(rows, paths, (n - 1) as nat);
        let row = rows[n - 1];
        before + (match row_place(row) {
            Some(r) => row.take(r.start) + paths[row_paths(rows, (n - 1) as nat).len() as int]
                + row.skip(r.end),
            None => row,
        })
    }
}

fn place_in(row: &[char]) -> (r: Option<Reported>)
    ensures
        match r {
            Some(found) => row_place(row@) == Some(found@),
            None => row_place(row@) is None,
        },
{
    find_location(&text(trim_right(row, Pattern::One('\n'))))
}

/// The paths that an output reports, in their order.
pub fn reported_paths(output: &str) -> (r: Vec<String>)
    ensures
        views(r@) == row_paths(full_lines(output@), full_lines(output@).len()),
{
    let all = chars(output);
    let rows = split_full_lines(&all);
    let ghost given = full_lines(output@);
    let mut r: Vec<String> = Vec::new();
    let mut i: usize = 0;
    assert(views(r@) =~= row_paths(given, 0));
    while i < rows.len()
        invariant
            i <= rows@.len(),
            given == slices(rows@),
            views(r@) == row_paths(given, i as nat),
        decreases rows@.len() - i,
    {
        let ghost before = views(r@);
        proof {
            assert(given[i as int] == rows@[i as int]@);
            lemma_row_place(given[i as int]);
        }
        match place_in(rows[i]) {
            Some(found) => {
                let path = text(part(rows[i], found.start, found.end));
                r.push(path);
                assert(views(r@) =~= before.push(path@));
            },
            None => {},
        }
        i += 1;
    }
    r
}

proof fn lemma_fewer_paths(rows: Seq<Seq<char>>, n: nat, m: nat)
    requires
        n <= m <= rows.len(),
    ensures
        row_paths(rows, n).len() <= row_paths(rows, m).len(),
    decreases m - n,
{
    if n < m {
        lemma_fewer_paths(rows, n, (m - 1) as nat);
    }
}

/// An output with other paths in place of those that it reports. The diagnostics
/// stay as they are otherwise.
pub fn resolve_locations(output: &str, paths: &Vec<String>) -> (r: String)
    requires
        paths@.len() == row_paths(full_lines(output@), full_lines(output@).len()).len(),
    ensures
        r@ == with_paths(full_lines(output@), views(paths@), full_lines(output@).len()),
{
    let all = chars(output);
    let rows = split_full_lines(&all);
    let ghost given = full_lines(output@);
    let mut r = String::new();
    let mut i: usize = 0;
    let mut next: usize = 0;
    let total: usize = paths.len();
    assert(r@ =~= with_paths(given, views(paths@), 0));
    while i < rows.len()
        invariant
            i <= rows@.len(),
            given == slices(rows@),
            next == row_paths(given, i as nat).len(),
            total == paths@.len(),
            paths@.len() == row_paths(given, given.len()).len(),
            r@ == with_paths(given, views(paths@), i as nat),
        decreases rows@.len() - i,
    {
        let row = rows[i];
        let ghost before = r@;
        proof {
            assert(given[i as int] == row@);
            lemma_row_place(row@);
            lemma_fewer_paths(given, (i + 1) as nat, given.len());
        }
        match place_in(row) {
            Some(found) => {
                assert(views(paths@)[next as int] == paths@[next as int]@);
                let head = part(row, 0, found.start);
                let tail = part(row, found.end, row.len());
                assert(head@ =~= row@.take(found.start as int));
                assert(tail@ =~= row@.skip(found.end as int));
                r.append(&text(head));
                r.append(&paths[next]);
                r.append(&text(tail));
                next += 1;
                assert(r@ =~= before + (head@ + paths@[next - 1]@ + tail@));
            },
            None => {
                r.append(&text(row));
            },
        }
        i += 1;
    }
    r
}

/// An output in which every path is given back is unchanged.
pub proof fn given_back_paths_change_nothing(output: Seq<char>)
    ensures
        with_paths(
            full_lines(output),
            row_paths(full_lines(output), full_lines(output).len()),
            full_lines(output).len(),
        ) == output,
{
    let rows = full_lines(output);
    let paths = row_paths(rows, rows.len());
    lemma_given_back(rows, paths, rows.len());
    lemma_full_lines(output);
    assert(rows.take(rows.len() as int) =~= rows);
}

proof fn lemma_path_at(rows: Seq<Seq<char>>, n: nat, m: nat, i: int)
    requires
        n <= m <= rows.len(),
        0 <= i < row_paths(rows, n).len(),
    ensures
        i < row_paths(rows, m).len(),
        row_paths(rows, m)[i] == row_paths(rows, n)[i],
    decreases m - n,
{
    if n < m {
        lemma_path_at(rows, n, (m - 1) as nat, i);
    }
}

proof fn lemma_given_back(rows: Seq<Seq<char>>, paths: Seq<Seq<char>>, n: nat)
    requires
        n <= rows.len(),
        paths == row_paths(rows, rows.len()),
    ensures
        with_paths(rows, paths, n) == concat(rows.take(n as int)),
    decreases n,
{
    if n > 0 {
        lemma_given_back(rows, paths, (n - 1) as nat);
        let row = rows[n - 1];
        lemma_row_place(row);
        assert(rows.take(n as int).drop_last() =~= rows.take(n - 1));
        if let Some(r) = row_place(row) {
            let k = row_paths(rows, (n - 1) as nat).len() as int;
            lemma_path_at(rows, n, rows.len(), k);
            assert(row.take(r.start) + row.subrange(r.start, r.end) + row.skip(r.end) =~= row);
        }
    }
}

proof fn lemma_full_lines(s: Seq<char>)
    ensures
        concat(full_lines(s)) == s,
    decreases s.len(),
{
    let feed = Pattern::One('\n');
    let i = position(s, feed);
    lemma_position(s, feed);
    if s.len() == 0 {
        assert(concat(full_lines(s)) =~= s);
    } else if i >= s.len() {
        let one = seq![s];
        assert(one.drop_last() =~= seq![]);
        reveal_with_fuel(concat, 2);
        assert(concat(one) =~= s);
    } else {
        let first = s.take(i + 1);
        let rest = s.skip(i + 1);
        lemma_full_lines(rest);
        lemma_concat_first(first, full_lines(rest));
        assert(first + rest =~= s);
    }
}

proof fn lemma_concat_first(first: Seq<char>, rest: Seq<Seq<char>>)
    ensures
        concat(seq![first] + rest) == first + concat(rest),
    decreases rest.len(),
{
    let whole = seq![first] + rest;
    if rest.len() == 0 {
        assert(whole.drop_last() =~= seq![]);
        reveal_with_fuel(concat, 2);
        assert(concat(whole) =~= first + concat(rest));
    } else {
        assert(whole.drop_last() =~= seq![first] + rest.drop_last());
        lemma_concat_first(first, rest.drop_last());
        assert(concat(whole) =~= first + concat(rest));
    }
}

/// A place in the sources.
#[derive(Debug)]
pub struct SourceLocation {
    pub path: String,
    /// Counted from 0.
    pub line: usize,
    pub message: String,
}

#[verifier::ext_equal]
pub struct LocationView {
    pub path: Seq<char>,
    pub line: nat,
    pub message: Seq<char>,
}

impl View for SourceLocation {
    type V = LocationView;

    open spec fn view(&self) -> LocationView {
        LocationView { path: self.path@, line: self.line as nat, message: self.message@ }
    }
}

pub open spec fn location_view(l: SourceLocation) -> LocationView {
    l@
}

pub open spec fn location_views(v: Seq<SourceLocation>) -> Seq<LocationView> {
    v.map_values(|l: SourceLocation| location_view(l))
}

/// A line of the retained output, without white space at its end, and the path that
/// it reports with its parts resolved.
#[derive(Debug)]
pub struct OutputRow {
    pub text: String,
    pub path: String,
}

/// The places that the first `n` lines report, each once.
pub open spec fn locations(rows: Seq<OutputRow>, n: nat) -> Seq<LocationView>
    decreases n,
{
    if n == 0 || n > rows.len() {
        seq![]
    } else {
        let before = locations(rows, (n - 1) as nat);
        match reported(rows[n - 1].text@) {
            Some(r) => {
                let found = LocationView {
                    path: rows[n - 1].path@,
                    line: r.line,
                    message: r.message,
                };
                if before.contains(found) {
                    before
                } else {
                    before.push(found)
                }
            },
            None => before,
        }
    }
}

fn known_location(known: &Vec<SourceLocation>, path: &str, line: usize, message: &str) -> (r: bool)
    ensures
        r == location_views(known@).contains(
            LocationView { path: path@, line: line as nat, message: message@ },
        ),
{
    let ghost all = location_views(known@);
    let ghost wanted = LocationView { path: path@, line: line as nat, message: message@ };
    let mut i: usize = 0;
    while i < known.len()
        invariant
            i <= known@.len(),
            all == location_views(known@),
            wanted == (LocationView { path: path@, line: line as nat, message: message@ }),
            forall|k: int| 0 <= k < i ==> #[trigger] all[k] != wanted,
        decreases known@.len() - i,
    {
        assert(all[i as int] == known@[i as int]@);
        if known[i].line == line && same(&known[i].path, path) && same(&known[i].message, message) {
            assert(all[i as int] == wanted);
            return true;
        }
        i += 1;
    }
    false
}

pub const NO_OUTPUT: &'static str = "No retained Go test output";

pub const NO_LOCATIONS: &'static str =
    "No source locations reported; Space t r shows the full output";

/// The places that the retained output reports, or why there are none.
pub fn go_test_locations(rows: Option<&Vec<OutputRow>>) -> (r: Result<
    Vec<SourceLocation>,
    &'static str,
>)
    ensures
        match rows {
            None => r matches Err(e) && e@ == NO_OUTPUT@,
            Some(rows) => {
                let found = locations(rows@, rows@.len());
                match r {
                    Ok(listed) => found.len() > 0 && location_views(listed@) == found,
                    Err(e) => found.len() == 0 && e@ == NO_LOCATIONS@,
                }
            },
        },
{
    let rows = match rows {
        Some(rows) => rows,
        None => return Err(NO_OUTPUT),
    };
    let mut found: Vec<SourceLocation> = Vec::new();
    let mut i: usize = 0;
    assert(location_views(found@) =~= locations(rows@, 0));
    while i < rows.len()
        invariant
            i <= rows@.len(),
            location_views(found@) == locations(rows@, i as nat),
        decreases rows@.len() - i,
    {
        let ghost before = location_views(found@);
        match find_location(&rows[i].text) {
            Some(place) => {
                if !known_location(&found, &rows[i].path, place.line, &place.message) {
                    let next = SourceLocation {
                        path: rows[i].path.clone(),
                        line: place.line,
                        message: place.message,
                    };
                    found.push(next);
                    assert(location_views(found@) =~= before.push(next@));
                }
            },
            None => {},
        }
        i += 1;
    }
    assert(location_views(found@).len() == found@.len());
    if found.len() == 0 {
        return Err(NO_LOCATIONS);
    }
    Ok(found)
}

/// No place is listed twice.
pub proof fn locations_are_distinct(rows: Seq<OutputRow>, n: nat)
    ensures
        locations(rows, n).no_duplicates(),
    decreases n,
{
    if n > 0 && n <= rows.len() {
        locations_are_distinct(rows, (n - 1) as nat);
    }
}

/// Whether a place can be shown: its file and its line are still there.
pub fn check_location(is_file: bool, line: usize, lines: usize) -> (r: Result<(), &'static str>)
    ensures
        match r {
            Ok(_) => is_file && line < lines,
            Err(e) => if !is_file {
                e@ == "Reported source file no longer exists"@
            } else {
                line >= lines && e@ == "Reported line no longer exists; save and rerun the test"@
            },
        },
{
    if !is_file {
        return Err("Reported source file no longer exists");
    }
    if line >= lines {
        return Err("Reported line no longer exists; save and rerun the test");
    }
    Ok(())
}

// ---------------------------------------------------------------------------
// Events
// ---------------------------------------------------------------------------

/// An event of `go test -json`.
#[derive(Debug)]
pub struct TestEvent {
    pub action: String,
    pub test: String,
    pub output: String,
}

/// What a run wrote, as text.
pub fn output_text(bytes: &[u8]) -> (r: String)
    ensures
        r@ == lossy_text(bytes@),
{
    lossy(bytes)
}

/// The lines that a run wrote, with their line feeds.
pub fn output_lines(bytes: &Vec<u8>) -> (r: Vec<String>)
    ensures
        views(r@) == full_lines(lossy_text(bytes@)),
{
    let whole = lossy(bytes);
    let all = chars(&whole);
    let rows = split_full_lines(&all);
    let ghost given = full_lines(lossy_text(bytes@));
    let mut r: Vec<String> = Vec::new();
    let mut i: usize = 0;
    assert(views(r@) =~= given.take(0));
    while i < rows.len()
        invariant
            i <= rows@.len(),
            given == slices(rows@),
            views(r@) == given.take(i as int),
        decreases rows@.len() - i,
    {
        let ghost before = views(r@);
        assert(given[i as int] == rows@[i as int]@);
        r.push(text(rows[i]));
        assert(views(r@) =~= before.push(given[i as int]));
        i += 1;
        assert(views(r@) =~= given.take(i as int));
    }
    assert(given.take(i as int) =~= given);
    r
}

/// Some event of the selected test is this action.
pub open spec fn happened(
    events: Seq<Option<TestEvent>>,
    target: Seq<char>,
    action: Seq<char>,
) -> bool {
    exists|i: int|
        0 <= i < events.len() && is_action(#[trigger] events[i], target, action)
}

pub open spec fn is_action(e: Option<TestEvent>, target: Seq<char>, action: Seq<char>) -> bool {
    e matches Some(e) && e.test@ == target && e.action@ == action
}

/// What a line of the run says: the output of its event, or the line itself where it
/// is none, as older versions of Go write build diagnostics.
pub open spec fn said(line: Seq<char>, event: Option<TestEvent>) -> Seq<char> {
    match event {
        Some(e) => e.output@,
        None => line,
    }
}

pub open spec fn all_said(lines: Seq<Seq<char>>, events: Seq<Option<TestEvent>>) -> Seq<Seq<char>> {
    Seq::new(lines.len(), |i: int| said(lines[i], events[i]))
}

/// What a run wrote, and what became of the selected test.
#[derive(Debug)]
pub struct ParsedOutput {
    /// The output, in pieces: each is the output of an event or a line.
    pub pieces: Vec<String>,
    pub ran: bool,
    pub skipped: bool,
    pub passed: bool,
}

/// What a run wrote: `events` holds the event of each line that is one.
pub fn parse_output(lines: &Vec<String>, events: &Vec<Option<TestEvent>>, target: &str) -> (r:
    ParsedOutput)
    requires
        events@.len() == lines@.len(),
    ensures
        views(r.pieces@) == all_said(views(lines@), events@),
        r.ran == happened(events@, target@, "run"@),
        r.skipped == happened(events@, target@, "skip"@),
        r.passed == happened(events@, target@, "pass"@),
{
    let mut pieces: Vec<String> = Vec::new();
    let mut ran = false;
    let mut skipped = false;
    let mut passed = false;
    let mut i: usize = 0;
    while i < lines.len()
        invariant
            i <= lines@.len(),
            events@.len() == lines@.len(),
            pieces@.len() == i,
            forall|k: int|
                0 <= k < i ==> (#[trigger] pieces@[k])@ == said(lines@[k]@, events@[k]),
            ran == happened(events@.take(i as int), target@, "run"@),
            skipped == happened(events@.take(i as int), target@, "skip"@),
            passed == happened(events@.take(i as int), target@, "pass"@),
        decreases lines@.len() - i,
    {
        proof {
            lemma_happened(events@, i as int, target@, "run"@);
            lemma_happened(events@, i as int, target@, "skip"@);
            lemma_happened(events@, i as int, target@, "pass"@);
        }
        match &events[i] {
            Some(event) => {
                if same(&event.test, target) {
                    ran = ran || same(&event.action, "run");
                    skipped = skipped || same(&event.action, "skip");
                    passed = passed || same(&event.action, "pass");
                }
                pieces.push(event.output.clone());
            },
            None => pieces.push(lines[i].clone()),
        }
        i += 1;
    }
    assert(events@.take(i as int) =~= events@);
    assert(views(pieces@) =~= all_said(views(lines@), events@));
    ParsedOutput { pieces, ran, skipped, passed }
}

proof fn lemma_happened(
    events: Seq<Option<TestEvent>>,
    i: int,
    target: Seq<char>,
    action: Seq<char>,
)
    requires
        0 <= i < events.len(),
    ensures
        happened(events.take(i + 1), target, action) == (happened(events.take(i), target, action)
            || is_action(events[i], target, action)),
{
    let a = events.take(i);
    let b = events.take(i + 1);
    if happened(a, target, action) {
        let k = choose|k: int| 0 <= k < a.len() && is_action(#[trigger] a[k], target, action);
        assert(b[k] == a[k]);
    }
    if is_action(events[i], target, action) {
        assert(b[i] == events[i]);
    }
    if happened(b, target, action) {
        let k = choose|k: int| 0 <= k < b.len() && is_action(#[trigger] b[k], target, action);
        if k < i {
            assert(a[k] == b[k]);
        }
    }
}

// ---------------------------------------------------------------------------
// Running
// ---------------------------------------------------------------------------

/// What is kept of each stream, in bytes. More is read, but dropped.
pub const OUTPUT_LIMIT: usize = 0x200000;

/// How many bytes of a chunk are kept behind those that are held.
pub open spec fn kept(held: nat, len: nat) -> int {
    if held + len <= OUTPUT_LIMIT {
        len as int
    } else {
        OUTPUT_LIMIT - held
    }
}

/// Keeps a chunk of a stream as far as the limit allows. Returns whether something
/// was dropped.
pub fn capture(held: &mut Vec<u8>, chunk: &[u8]) -> (r: bool)
    requires
        old(held)@.len() <= OUTPUT_LIMIT,
    ensures
        final(held)@ == old(held)@ + chunk@.take(kept(old(held)@.len(), chunk@.len())),
        final(held)@.len() <= OUTPUT_LIMIT,
        r == (old(held)@.len() + chunk@.len() > OUTPUT_LIMIT),
{
    let ghost before = held@;
    let room: usize = OUTPUT_LIMIT - held.len();
    let keep: usize = if chunk.len() < room { chunk.len() } else { room };
    let mut i: usize = 0;
    assert(held@ =~= before + chunk@.take(0));
    while i < keep
        invariant
            i <= keep <= chunk@.len(),
            held@ == before + chunk@.take(i as int),
        decreases keep - i,
    {
        held.push(chunk[i]);
        i += 1;
        assert(held@ =~= before + chunk@.take(i as int));
    }
    keep < chunk.len()
}

/// The end of a run.
#[derive(Debug)]
pub enum RunEnd {
    Cancelled,
    ProcessError(String),
    TimedOut,
    Exited { success: bool, status: String },
}

/// What is told of a run.
pub open spec fn run_status(end: RunEnd, ran: bool, skipped: bool, passed: bool) -> Seq<char> {
    match end {
        RunEnd::Cancelled => "CANCELLED"@,
        RunEnd::ProcessError(e) => "PROCESS ERROR: "@ + e@,
        RunEnd::TimedOut => "TIMED OUT (including build time)"@,
        RunEnd::Exited { success, status } => if !success {
            "FAILED ("@ + status@ + ")"@
        } else if !ran {
            "NOT RUN: selected test was not observed (check build tags, names, or truncated output)"@
        } else if skipped {
            "SKIPPED: selected test did not pass or fail"@
        } else if !passed {
            "INCOMPLETE: no passing result observed for the selected test"@
        } else {
            "PASSED"@
        },
    }
}

/// The run passed: it ended well, and the selected test was seen to run and to pass.
pub open spec fn run_passed(end: RunEnd, ran: bool, skipped: bool, passed: bool) -> bool {
    end matches RunEnd::Exited { success, .. } && success && ran && !skipped && passed
}

/// What came of a run.
#[derive(Debug)]
pub struct RunResult {
    pub started: bool,
    pub status: String,
    pub output: String,
    pub success: bool,
}

/// The pieces of the output, what was written to the other stream, and whether
/// something was dropped.
pub open spec fn run_output(
    pieces: Seq<Seq<char>>,
    diagnostics: Seq<char>,
    out_len: nat,
    err_len: nat,
) -> Seq<char> {
    concat(pieces) + (if err_len > 0 {
        "\n--- stderr / build diagnostics ---\n"@ + diagnostics
    } else {
        seq![]
    }) + (if out_len >= OUTPUT_LIMIT || err_len >= OUTPUT_LIMIT {
        "\n[Output limit reached: retained at most 2 MiB per stream.]\n"@
    } else {
        seq![]
    })
}

/// What came of a run that was started. `pieces` and `diagnostics` are what it wrote,
/// with its paths resolved, `out_len` and `err_len` how many bytes of it were kept.
pub fn finished_run(
    end: RunEnd,
    parsed: &ParsedOutput,
    pieces: &Vec<String>,
    diagnostics: &str,
    out_len: usize,
    err_len: usize,
) -> (r: RunResult)
    ensures
        r.started,
        r.status@ == run_status(end, parsed.ran, parsed.skipped, parsed.passed),
        r.success == run_passed(end, parsed.ran, parsed.skipped, parsed.passed),
        r.output@ == run_output(views(pieces@), diagnostics@, out_len as nat, err_len as nat),
{
    let success = match &end {
        RunEnd::Exited { success, status: _ } => *success && parsed.ran && !parsed.skipped
            && parsed.passed,
        _ => false,
    };
    let status = match end {
        RunEnd::Cancelled => "CANCELLED".to_owned(),
        RunEnd::ProcessError(e) => {
            let mut status = "PROCESS ERROR: ".to_owned();
            status.append(&e);
            status
        },
        RunEnd::TimedOut => "TIMED OUT (including build time)".to_owned(),
        RunEnd::Exited { success, status } => {
            if !success {
                let mut failed = "FAILED (".to_owned();
                failed.append(&status);
                failed.append(")");
                failed
            } else if !parsed.ran {
                "NOT RUN: selected test was not observed (check build tags, names, or truncated output)".to_owned()
            } else if parsed.skipped {
                "SKIPPED: selected test did not pass or fail".to_owned()
            } else if !parsed.passed {
                "INCOMPLETE: no passing result observed for the selected test".to_owned()
            } else {
                "PASSED".to_owned()
            }
        },
    };
    let ghost all = views(pieces@);
    let mut output = String::new();
    let mut i: usize = 0;
    assert(output@ =~= concat(all.take(0)));
    while i < pieces.len()
        invariant
            i <= pieces@.len(),
            all == views(pieces@),
            output@ == concat(all.take(i as int)),
        decreases pieces@.len() - i,
    {
        assert(all.take(i as int + 1).drop_last() =~= all.take(i as int));
        assert(all[i as int] == pieces@[i as int]@);
        output.append(&pieces[i]);
        i += 1;
    }
    assert(all.take(i as int) =~= all);
    let ghost written = output@;
    if err_len > 0 {
        output.append("\n--- stderr / build diagnostics ---\n");
        output.append(diagnostics);
    }
    if out_len >= OUTPUT_LIMIT || err_len >= OUTPUT_LIMIT {
        output.append("\n[Output limit reached: retained at most 2 MiB per stream.]\n");
    }
    assert(output@ =~= run_output(all, diagnostics@, out_len as nat, err_len as nat));
    RunResult { started: true, status, output, success }
}

/// What came of a run that could not be started.
pub fn failed_start(problem: &str) -> (r: RunResult)
    ensures
        !r.started,
        !r.success,
        r.status@ == "COULD NOT START go test"@,
        r.output@ == problem@ + "\n"@,
{
    let mut output = problem.to_owned();
    output.append("\n");
    RunResult {
        started: false,
        status: "COULD NOT START go test".to_owned(),
        output,
        success: false,
    }
}

/// A run is told to have passed if and only if it did.
pub proof fn only_passing_runs_are_told_so(end: RunEnd, ran: bool, skipped: bool, passed: bool)
    ensures
        (run_status(end, ran, skipped, passed) == "PASSED"@) == run_passed(
            end,
            ran,
            skipped,
            passed,
        ),
{
    reveal_strlit("PASSED");
    reveal_strlit("CANCELLED");
    reveal_strlit("PROCESS ERROR: ");
    reveal_strlit("TIMED OUT (including build time)");
    reveal_strlit("FAILED (");
    reveal_strlit(
        "NOT RUN: selected test was not observed (check build tags, names, or truncated output)",
    );
    reveal_strlit("SKIPPED: selected test did not pass or fail");
    reveal_strlit("INCOMPLETE: no passing result observed for the selected test");
    let status = run_status(end, ran, skipped, passed);
    if !run_passed(end, ran, skipped, passed) {
        assert(status[0] != 'P' || status[1] != 'A');
    }
}

// ---------------------------------------------------------------------------
// What is run
// ---------------------------------------------------------------------------

/// A test to run.
#[derive(Debug)]
pub struct GoTestRun {
    /// The directory of the package.
    pub directory: String,
    /// The directory whose files must be saved.
    pub workspace: String,
    /// The test as its events name it.
    pub name: String,
    pub run_pattern: String,
    pub selection_note: Option<String>,
}

#[verifier::ext_equal]
pub struct RunView {
    pub directory: Seq<char>,
    pub workspace: Seq<char>,
    pub name: Seq<char>,
    pub run_pattern: Seq<char>,
    pub selection_note: Option<Seq<char>>,
}

impl View for GoTestRun {
    type V = RunView;

    open spec fn view(&self) -> RunView {
        RunView {
            directory: self.directory@,
            workspace: self.workspace@,
            name: self.name@,
            run_pattern: self.run_pattern@,
            selection_note: text_view(self.selection_note),
        }
    }
}

impl GoTestRun {
    pub fn copy(&self) -> (r: GoTestRun)
        ensures
            r@ == self@,
    {
        GoTestRun {
            directory: self.directory.clone(),
            workspace: self.workspace.clone(),
            name: self.name.clone(),
            run_pattern: self.run_pattern.clone(),
            selection_note: match &self.selection_note {
                Some(note) => Some(note.clone()),
                None => None,
            },
        }
    }
}

/// A test as its events name it.
pub open spec fn event_name(e: EntryView) -> Seq<char> {
    match e.subtest {
        Some(sub) => e.name + "/"@ + case_name(sub),
        None => e.name,
    }
}

pub fn test_name(entry: &GoTestEntry) -> (r: String)
    ensures
        r@ == event_name(entry@),
{
    let mut r = entry.name.clone();
    match &entry.subtest {
        Some(sub) => {
            r.append("/");
            r.append(&normalize(sub));
        },
        None => {},
    }
    r
}

/// A test of a package, to be run.
pub fn selection(directory: &str, workspace: &str, entry: &GoTestEntry, note: Option<String>) -> (r:
    GoTestRun)
    ensures
        r@ == (RunView {
            directory: directory@,
            workspace: workspace@,
            name: event_name(entry@),
            run_pattern: run_pattern(entry@),
            selection_note: text_view(note),
        }),
{
    GoTestRun {
        directory: directory.to_owned(),
        workspace: workspace.to_owned(),
        name: test_name(entry),
        run_pattern: go_test_run_regex(entry),
        selection_note: note,
    }
}

/// The arguments of `go` for a run.
pub fn run_arguments(target: &GoTestRun) -> (r: Vec<String>)
    ensures
        views(r@) == seq![
            "test"@,
            "-json"@,
            "-count=1"@,
            "-timeout=2m"@,
            "-run"@,
            target.run_pattern@,
            "."@,
        ],
{
    let mut r: Vec<String> = Vec::new();
    r.push("test".to_owned());
    r.push("-json".to_owned());
    r.push("-count=1".to_owned());
    r.push("-timeout=2m".to_owned());
    r.push("-run".to_owned());
    r.push(target.run_pattern.clone());
    r.push(".".to_owned());
    assert(views(r@) =~= seq![
        "test"@,
        "-json"@,
        "-count=1"@,
        "-timeout=2m"@,
        "-run"@,
        target.run_pattern@,
        "."@,
    ]);
    r
}

/// A text in quotes, with escapes, as Rust shows it for debugging.
pub uninterp spec fn quoted(s: Seq<char>) -> Seq<char>;

/// `format!` of std with `{:?}` for a string: the text is a function of the string.
#[verifier::external_body]
fn quote(s: &str) -> (r: String)
    ensures
        r@ == quoted(s@),
{
    format!("{:?}", s)
}

/// What stands above the output of a run whose pattern is shown as `pattern`.
pub open spec fn heading(target: RunView, pattern: Seq<char>) -> Seq<char> {
    "Go test: "@ + target.name + "\nPackage: "@ + target.directory
        + "\nCommand: go test -json -count=1 -timeout=2m -run "@ + pattern
        + " .\nTests read saved files from disk. Save and rerun after edits.\n"@
        + "Space t f: source locations | Space t r: results | Space t c: cancel\n"@ + (
    match target.selection_note {
        Some(note) => "Original selection: "@ + note + "\n"@,
        None => seq![],
    }) + "\n"@
}

/// What stands above the output of a run whose pattern is shown as `pattern`.
pub fn run_heading(target: &GoTestRun, pattern: &str) -> (r: String)
    ensures
        r@ == heading(target@, pattern@),
{
    let mut r = "Go test: ".to_owned();
    r.append(&target.name);
    r.append("\nPackage: ");
    r.append(&target.directory);
    r.append("\nCommand: go test -json -count=1 -timeout=2m -run ");
    r.append(pattern);
    r.append(" .\nTests read saved files from disk. Save and rerun after edits.\n");
    r.append("Space t f: source locations | Space t r: results | Space t c: cancel\n");
    let ghost before = r@;
    match &target.selection_note {
        Some(note) => {
            r.append("Original selection: ");
            r.append(note);
            r.append("\n");
        },
        None => {},
    }
    r.append("\n");
    assert(r@ =~= heading(target@, pattern@));
    r
}

/// What stands above the output of a run.
pub fn run_header(target: &GoTestRun) -> (r: String)
    ensures
        r@ == heading(target@, quoted(target.run_pattern@)),
{
    run_heading(target, &quote(&target.run_pattern))
}

// ---------------------------------------------------------------------------
// Packages and workspaces
// ---------------------------------------------------------------------------

/// A directory and those above it.
pub open spec fn ancestors_of(directory: Seq<char>) -> Seq<Seq<char>>
    decreases directory.len(),
    via ancestors_decreases
{
    match parent_of(directory) {
        Some(above) => seq![directory] + ancestors_of(above),
        None => seq![directory],
    }
}

#[via_fn]
proof fn ancestors_decreases(directory: Seq<char>) {
    lemma_parent_is_shorter(directory);
}

proof fn lemma_parent_is_shorter(path: Seq<char>)
    ensures
        parent_of(path) matches Some(above) ==> above.len() < path.len(),
{
    reveal_strlit("/");
    crate::paths::lemma_last_index(path, '/');
    if path.len() == 1 && crate::paths::last_index(path, '/') == 0 {
        assert(path =~= "/"@);
    }
}

/// A directory and those above it.
pub fn ancestors(directory: &str) -> (r: Vec<String>)
    ensures
        views(r@) == ancestors_of(directory@),
{
    let mut r: Vec<String> = Vec::new();
    let mut current = directory.to_owned();
    assert(views(r@) + ancestors_of(directory@) =~= ancestors_of(directory@));
    loop
        invariant
            views(r@) + ancestors_of(current@) == ancestors_of(directory@),
        decreases current@.len(),
    {
        let ghost before = views(r@);
        let ghost path = current@;
        proof {
            lemma_parent_is_shorter(path);
        }
        let above = parent(&current);
        r.push(current);
        assert(views(r@) =~= before.push(path));
        match above {
            Some(above) => {
                assert(before + (seq![path] + ancestors_of(above@)) =~= views(r@) + ancestors_of(
                    above@,
                ));
                current = above;
            },
            None => {
                assert(before + seq![path] =~= views(r@));
                return r;
            },
        }
    }
}

/// A directory, and which files of Go it holds.
#[derive(Debug)]
pub struct Directory {
    pub path: String,
    /// It holds `go.work`.
    pub has_work: bool,
    /// It holds `go.mod`.
    pub has_mod: bool,
}

/// The first directory from index `i` on with a workspace file.
pub open spec fn work_from(dirs: Seq<Directory>, i: int) -> int
    decreases dirs.len() - i,
{
    if 0 <= i < dirs.len() && !dirs[i].has_work {
        work_from(dirs, i + 1)
    } else {
        i
    }
}

/// The first directory from index `i` on with a module file.
pub open spec fn module_from(dirs: Seq<Directory>, i: int) -> int
    decreases dirs.len() - i,
{
    if 0 <= i < dirs.len() && !dirs[i].has_mod {
        module_from(dirs, i + 1)
    } else {
        i
    }
}

/// The directory of the workspace: the nearest with a workspace file, or else the
/// nearest with a module file, or else the first.
pub open spec fn root_of(dirs: Seq<Directory>) -> int {
    if work_from(dirs, 0) < dirs.len() {
        work_from(dirs, 0)
    } else if module_from(dirs, 0) < dirs.len() {
        module_from(dirs, 0)
    } else {
        0
    }
}

/// The directory of the workspace of the first of the directories, which the others
/// are above.
pub fn workspace_root(dirs: &Vec<Directory>) -> (r: &String)
    requires
        dirs@.len() > 0,
    ensures
        *r == dirs@[root_of(dirs@)].path,
{
    let mut i: usize = 0;
    while i < dirs.len() && !dirs[i].has_work
        invariant
            i <= dirs@.len(),
            work_from(dirs@, 0) == work_from(dirs@, i as int),
        decreases dirs@.len() - i,
    {
        i += 1;
    }
    if i < dirs.len() {
        return &dirs[i].path;
    }
    let mut j: usize = 0;
    while j < dirs.len() && !dirs[j].has_mod
        invariant
            j <= dirs@.len(),
            module_from(dirs@, 0) == module_from(dirs@, j as int),
        decreases dirs@.len() - j,
    {
        j += 1;
    }
    if j < dirs.len() {
        &dirs[j].path
    } else {
        &dirs[0].path
    }
}

/// An open document.
#[derive(Debug)]
pub struct OpenDocument {
    pub name: String,
    pub path: Option<String>,
    pub modified: bool,
}

/// The path is the directory or lies below it.
pub open spec fn is_below(path: Seq<char>, root: Seq<char>) -> bool {
    path == root || starts_with(path, joined(root, seq![]))
}

/// The document is a file below the directory, with edits that are not saved.
pub open spec fn blocks(d: OpenDocument, root: Seq<char>) -> bool {
    d.modified && (d.path matches Some(path) && is_below(path@, root))
}

/// The first document from index `i` on that is not saved.
pub open spec fn unsaved_from(documents: Seq<OpenDocument>, root: Seq<char>, i: int) -> int
    decreases documents.len() - i,
{
    if 0 <= i < documents.len() && !blocks(documents[i], root) {
        unsaved_from(documents, root, i + 1)
    } else {
        i
    }
}

/// All files of the workspace are saved, or why not.
pub open spec fn saved(documents: Seq<OpenDocument>, root: Seq<char>) -> Result<(), Seq<char>> {
    let i = unsaved_from(documents, root, 0);
    if i < documents.len() {
        Err("Save modified files before running Go tests: "@ + documents[i].name@)
    } else {
        Ok(())
    }
}

/// Tests read files from disk, so all files of the workspace must be saved.
pub fn check_workspace_saved(documents: &Vec<OpenDocument>, root: &str) -> (r: Result<(), String>)
    ensures
        match r {
            Ok(_) => saved(documents@, root@) is Ok,
            Err(e) => saved(documents@, root@) == Err::<(), Seq<char>>(e@),
        },
{
    let inner = join_path(root, "");
    proof {
        reveal_strlit("");
        assert(""@ =~= seq![]);
    }
    let inner = chars(&inner);
    let mut i: usize = 0;
    while i < documents.len()
        invariant
            i <= documents@.len(),
            inner@ == joined(root@, seq![]),
            unsaved_from(documents@, root@, 0) == unsaved_from(documents@, root@, i as int),
        decreases documents@.len() - i,
    {
        let d = &documents[i];
        let below = match &d.path {
            Some(path) => same(path, root) || begins(&chars(path), &inner),
            None => false,
        };
        if d.modified && below {
            let mut e = "Save modified files before running Go tests: ".to_owned();
            e.append(&d.name);
            return Err(e);
        }
        i += 1;
    }
    Ok(())
}

/// The workspace of a run is saved as far as it is looked at: no document below it
/// has edits.
pub proof fn saved_workspaces_have_no_edits(documents: Seq<OpenDocument>, root: Seq<char>, k: int)
    requires
        saved(documents, root) is Ok,
        0 <= k < documents.len(),
    ensures
        !blocks(documents[k], root),
{
    lemma_unsaved(documents, root, 0, k);
}

proof fn lemma_unsaved(documents: Seq<OpenDocument>, root: Seq<char>, i: int, k: int)
    requires
        unsaved_from(documents, root, i) >= documents.len(),
        0 <= i <= k < documents.len(),
    ensures
        !blocks(documents[k], root),
    decreases documents.len() - i,
{
    if i < k {
        lemma_unsaved(documents, root, i + 1, k);
    }
}

pub const ALREADY_RUNNING: &'static str = "A Go test is already running (Space t c to cancel)";

pub const NO_GO_FILE: &'static str = "Open a saved Go file to select a test";

pub const NO_TEST_FILE: &'static str = "Open a saved Go test file (*_test.go)";

pub const NO_TESTS: &'static str = "No Go tests found in this package";

/// The file is one of Go.
pub open spec fn is_go_file(path: Seq<char>) -> bool {
    extension_of(path) == Some("go"@)
}

proof fn lemma_has_parent(path: Seq<char>)
    requires
        name_of(path).len() > 0,
    ensures
        parent_of(path) is Some,
{
    reveal_strlit("/");
    if path == "/"@ {
        assert(crate::paths::last_index(path, '/') == 0);
    }
    crate::paths::lemma_last_index(path, '/');
}

/// The package whose tests are offered, or why there is none.
pub fn go_test_picker(running: bool, path: Option<&str>) -> (r: Result<String, &'static str>)
    ensures
        match r {
            Ok(directory) => !running && (path matches Some(path) && is_go_file(path@)
                && parent_of(path@) == Some(directory@)),
            Err(e) => if running {
                e@ == ALREADY_RUNNING@
            } else {
                e@ == NO_GO_FILE@ && !(path matches Some(path) && is_go_file(path@))
            },
        },
{
    if running {
        return Err(ALREADY_RUNNING);
    }
    let path = match path {
        Some(path) => path,
        None => return Err(NO_GO_FILE),
    };
    match extension(path) {
        Some(e) => {
            if same(&e, "go") {
                proof {
                    lemma_has_parent(path@);
                }
                match parent(path) {
                    Some(directory) => return Ok(directory),
                    None => {},
                }
            }
        },
        None => {},
    }
    Err(NO_GO_FILE)
}

/// The tests to choose from, or that there are none.
pub fn offer_tests(tests: Vec<GoTestEntry>) -> (r: Result<Vec<GoTestEntry>, &'static str>)
    ensures
        match r {
            Ok(offered) => tests@.len() > 0 && offered == tests,
            Err(e) => tests@.len() == 0 && e@ == NO_TESTS@,
        },
{
    if tests.len() == 0 {
        Err(NO_TESTS)
    } else {
        Ok(tests)
    }
}

/// The file is one of Go tests.
pub open spec fn is_test_file(path: Seq<char>) -> bool {
    ends_with(name_of(path), "_test.go"@)
}

/// The package and the name of the file whose test at the cursor is run, or why there
/// is none.
pub fn go_test_nearest(running: bool, path: Option<&str>) -> (r: Result<
    (String, String),
    &'static str,
>)
    ensures
        match r {
            Ok((directory, name)) => !running && (path matches Some(path) && is_test_file(path@)
                && parent_of(path@) == Some(directory@) && name@ == name_of(path@)),
            Err(e) => if running {
                e@ == ALREADY_RUNNING@
            } else {
                e@ == NO_TEST_FILE@ && !(path matches Some(path) && is_test_file(path@))
            },
        },
{
    if running {
        return Err(ALREADY_RUNNING);
    }
    let path = match path {
        Some(path) => path,
        None => return Err(NO_TEST_FILE),
    };
    let name = file_name(path);
    if has_suffix(&chars(&name), "_test.go") {
        proof {
            reveal_strlit("_test.go");
            lemma_has_parent(path@);
        }
        match parent(path) {
            Some(directory) => return Ok((directory, name)),
            None => {},
        }
    }
    Err(NO_TEST_FILE)
}

/// The document can be asked for the test at the cursor, or why not.
pub fn check_language(language: Option<&str>, has_syntax: bool) -> (r: Result<(), &'static str>)
    ensures
        match r {
            Ok(_) => str_view(language) == Some("go"@) && has_syntax,
            Err(e) => if str_view(language) != Some("go"@) {
                e@ == "Set the document language to Go first"@
            } else {
                !has_syntax && e@
                    == "Go syntax is unavailable; install the Go grammar or use Space t t"@
            },
        },
{
    let go = match language {
        Some(language) => same(language, "go"),
        None => false,
    };
    if !go {
        return Err("Set the document language to Go first");
    }
    if !has_syntax {
        return Err("Go syntax is unavailable; install the Go grammar or use Space t t");
    }
    Ok(())
}

// ---------------------------------------------------------------------------
// The runner
// ---------------------------------------------------------------------------

/// What the editor remembers of test runs.
#[derive(Debug)]
pub struct Runner {
    pub running: bool,
    /// The last test whose process was started.
    pub last: Option<GoTestRun>,
}

pub open spec fn run_view(r: Option<GoTestRun>) -> Option<RunView> {
    match r {
        Some(r) => Some(r@),
        None => None,
    }
}

/// What a run shows when it starts.
#[derive(Debug)]
pub struct Starting {
    pub header: String,
    /// The content of the result buffer.
    pub output: String,
    pub status: String,
}

impl Runner {
    pub fn new() -> (r: Runner)
        ensures
            !r.running,
            r.last is None,
    {
        Runner { running: false, last: None }
    }

    /// Starts a run, unless another goes on or a file of its workspace is not saved.
    pub fn start_run(&mut self, target: &GoTestRun, documents: &Vec<OpenDocument>) -> (r: Result<
        Starting,
        String,
    >)
        ensures
            final(self).last == old(self).last,
            match r {
                Ok(starting) => !old(self).running && final(self).running && saved(
                    documents@,
                    target.workspace@,
                ) is Ok && starting.header@ == heading(target@, quoted(target.run_pattern@))
                    && starting.output@ == starting.header@ + "RUNNING\n"@ && starting.status@
                    == "Running "@ + target.name@ + "…"@,
                Err(e) => final(self).running == old(self).running && if old(self).running {
                    e@ == ALREADY_RUNNING@
                } else {
                    saved(documents@, target.workspace@) == Err::<(), Seq<char>>(e@)
                },
            },
    {
        if self.running {
            return Err(ALREADY_RUNNING.to_owned());
        }
        match check_workspace_saved(documents, &target.workspace) {
            Ok(_done) => {},
            Err(e) => return Err(e),
        }
        let header = run_header(target);
        let mut output = header.clone();
        output.append("RUNNING\n");
        let mut status = "Running ".to_owned();
        status.append(&target.name);
        status.append("…");
        self.running = true;
        Ok(Starting { header, output, status })
    }

    /// Takes in the end of a run. A run that could not be started does not replace
    /// the last one. Returns the content of the result buffer and what to tell.
    pub fn finish_run(&mut self, target: GoTestRun, header: &str, result: &RunResult) -> (r: (
        String,
        Message,
    ))
        ensures
            !final(self).running,
            final(self).last == (if result.started {
                Some(target)
            } else {
                old(self).last
            }),
            r.0@ == header@ + result.status@ + "\n\n"@ + result.output@,
            if result.success {
                r.1 matches Message::Status(m) && m@ == result.status@
                    + " (Space t r for output)"@
            } else {
                r.1 matches Message::Error(m) && m@ == result.status@
                    + " (Space t r: output, Space t f: locations)"@
            },
    {
        self.running = false;
        if result.started {
            self.last = Some(target);
        }
        let mut output = header.to_owned();
        output.append(&result.status);
        output.append("\n\n");
        output.append(&result.output);
        let mut message = result.status.clone();
        if result.success {
            message.append(" (Space t r for output)");
            (output, Message::Status(message))
        } else {
            message.append(" (Space t r: output, Space t f: locations)");
            (output, Message::Error(message))
        }
    }
}

/// The last run, to be run again, or why it is not.
pub fn go_test_last(runner: &Runner) -> (r: Result<GoTestRun, &'static str>)
    ensures
        match r {
            Ok(target) => !runner.running && run_view(runner.last) == Some(target@),
            Err(e) => if runner.running {
                e@ == ALREADY_RUNNING@
            } else {
                runner.last is None && e@ == "No Go test has been started in this session"@
            },
        },
{
    if runner.running {
        return Err(ALREADY_RUNNING);
    }
    match &runner.last {
        Some(last) => Ok(last.copy()),
        None => Err("No Go test has been started in this session"),
    }
}

/// Cancels the run, if one goes on.
pub fn go_test_cancel(runner: &Runner) -> (r: Result<&'static str, &'static str>)
    ensures
        match r {
            Ok(status) => runner.running && status@ == "Cancelling Go test…"@,
            Err(e) => !runner.running && e@ == "No Go test is running"@,
        },
{
    if runner.running {
        Ok("Cancelling Go test…")
    } else {
        Err("No Go test is running")
    }
}

/// The result buffer to show, or that there is none.
pub fn go_test_results(buffer: Option<usize>, is_open: bool) -> (r: Result<usize, &'static str>)
    ensures
        match r {
            Ok(id) => is_open && buffer == Some(id),
            Err(e) => !(is_open && buffer is Some) && e@ == NO_OUTPUT@,
        },
{
    match buffer {
        Some(id) => {
            if is_open {
                Ok(id)
            } else {
                Err(NO_OUTPUT)
            }
        },
        None => Err(NO_OUTPUT),
    }
}

/// A line that starts with a place reports it: white space, the path of a Go file, a
/// colon and a line number that something other than a digit or nothing follows. The
/// line is counted from one in the text. Where more than one colon could end the path,
/// the last does.
pub proof fn places_at_the_start_of_a_line_are_reported(
    indent: Seq<char>,
    path: Seq<char>,
    digits: Seq<char>,
    tail: Seq<char>,
    n: nat,
)
    requires
        forall|i: int| 0 <= i < indent.len() ==> is_space(#[trigger] indent[i]),
        path.len() > 3,
        !is_space(path[0]),
        ends_with(path, ".go"@),
        forall|i: int| 0 <= i < path.len() ==> #[trigger] path[i] != '\n',
        digits.len() > 0,
        forall|i: int| 0 <= i < digits.len() ==> is_digit(#[trigger] digits[i]),
        tail.len() > 0 ==> tail[0] == ':' || is_space(tail[0]),
        parse_max(digits, usize::MAX as nat) == Some(n),
        n > 0,
        forall|i: int|
            indent.len() + path.len() < i <= (indent + path + ":"@ + digits + tail).len()
                ==> !path_ends(#[trigger] (indent + path + ":"@ + digits + tail), i),
    ensures
        reported(indent + path + ":"@ + digits + tail) matches Some(r) && r.start == indent.len()
            && r.end == indent.len() + path.len() && r.line == n - 1,
{
    reveal_strlit(":");
    reveal_strlit(".go");
    let s = indent + path + ":"@ + digits + tail;
    let a = indent.len() as int;
    let b = a + path.len();
    let c = b + 1 + digits.len();
    assert forall|i: int| 0 <= i < a implies is_space(#[trigger] s[i]) by {
        assert(s[i] == indent[i]);
    }
    assert(s[a] == path[0]);
    lemma_first_behind_spaces(s, 0, a);
    assert forall|i: int| a <= i < b implies #[trigger] s[i] == path[i - a] by {}
    assert(s[b] == ':');
    assert forall|i: int| b + 1 <= i < c implies #[trigger] s[i] == digits[i - b - 1] by {}
    lemma_digits_end(s, b + 1, c);
    assert(s.subrange(b - 3, b) =~= path.skip(path.len() - 3));
    if c < s.len() {
        assert(s[c] == tail[0]);
    }
    assert(path_ends(s, b));
    lemma_row_end(s, a);
    let end = row_end(s, a);
    assert(end > b) by {
        if end <= b {
            assert(s[end] == '\n');
            if end < b {
                assert(path[end - a] != '\n');
            }
        }
    }
    lemma_last_path(s, a, end, b);
    assert(s.subrange(b + 1, c) =~= digits);
}

proof fn lemma_first_behind_spaces(s: Seq<char>, i: int, p: int)
    requires
        0 <= i <= p < s.len(),
        forall|j: int| i <= j < p ==> is_space(#[trigger] s[j]),
        !is_space(s[p]),
    ensures
        past_spaces(s, i) == p,
    decreases p - i,
{
    if i < p {
        assert(is_space(s[i]));
        lemma_first_behind_spaces(s, i + 1, p);
    }
}

proof fn lemma_digits_end(s: Seq<char>, i: int, p: int)
    requires
        0 <= i <= p <= s.len(),
        forall|j: int| i <= j < p ==> is_digit(#[trigger] s[j]),
        p < s.len() ==> !is_digit(s[p]),
    ensures
        digits_end(s, i) == p,
    decreases p - i,
{
    if i < p {
        assert(is_digit(s[i]));
        lemma_digits_end(s, i + 1, p);
    }
}

proof fn lemma_row_end(s: Seq<char>, i: int)
    requires
        0 <= i <= s.len(),
    ensures
        i <= row_end(s, i) <= s.len(),
        row_end(s, i) < s.len() ==> s[row_end(s, i)] == '\n',
        forall|j: int| i <= j < row_end(s, i) ==> #[trigger] s[j] != '\n',
    decreases s.len() - i,
{
    if i < s.len() && s[i] != '\n' {
        lemma_row_end(s, i + 1);
    }
}

proof fn lemma_last_path(s: Seq<char>, from: int, i: int, p: int)
    requires
        from + 3 <= p <= i <= s.len(),
        path_ends(s, p),
        forall|j: int| p < j <= s.len() ==> !path_ends(s, j),
    ensures
        last_path_end(s, from, i) == p,
    decreases i - p,
{
    if i > p {
        assert(!path_ends(s, i));
        lemma_last_path(s, from, i - 1, p);
    }
}

/// A run is told to have passed exactly if Go ended well and the selected test was seen
/// to run and to pass, and not to be skipped. Every other end is told as what it is.
pub proof fn runs_are_told_as_they_ended(end: RunEnd, ran: bool, skipped: bool, passed: bool)
    ensures
        run_passed(end, ran, skipped, passed) <==> (end matches RunEnd::Exited { success, .. }
            && success) && ran && passed && !skipped,
        end is Cancelled ==> run_status(end, ran, skipped, passed) == "CANCELLED"@,
        end is TimedOut ==> run_status(end, ran, skipped, passed)
            == "TIMED OUT (including build time)"@,
        end matches RunEnd::ProcessError(e) ==> run_status(end, ran, skipped, passed)
            == "PROCESS ERROR: "@ + e@,
        end matches RunEnd::Exited { success, status } ==> {
            let told = run_status(end, ran, skipped, passed);
            &&& !success ==> told == "FAILED ("@ + status@ + ")"@
            &&& success && ran && skipped ==> told
                == "SKIPPED: selected test did not pass or fail"@
            &&& success && !ran ==> told
                == "NOT RUN: selected test was not observed (check build tags, names, or truncated output)"@
            &&& success && ran && passed && !skipped ==> told == "PASSED"@
            &&& success && ran && !passed && !skipped ==> told
                == "INCOMPLETE: no passing result observed for the selected test"@
        },
{
}

/// The workspace is the nearest directory with a workspace file; without one, the
/// nearest with a module file; without that, the directory itself.
pub proof fn workspaces_are_the_nearest(dirs: Seq<Directory>, k: int)
    requires
        0 <= k < dirs.len(),
    ensures
        ({
            let i = root_of(dirs);
            &&& 0 <= i < dirs.len()
            &&& dirs[k].has_work ==> dirs[i].has_work && i <= k
            &&& dirs[k].has_mod && !dirs[i].has_work ==> dirs[i].has_mod && i <= k
            &&& !dirs[i].has_work && !dirs[i].has_mod ==> i == 0
        }),
{
    lemma_work_from(dirs, 0);
    lemma_module_from(dirs, 0);
}

proof fn lemma_work_from(dirs: Seq<Directory>, i: int)
    requires
        0 <= i <= dirs.len(),
    ensures
        i <= work_from(dirs, i) <= dirs.len(),
        work_from(dirs, i) < dirs.len() ==> dirs[work_from(dirs, i)].has_work,
        forall|k: int| i <= k < work_from(dirs, i) ==> !(#[trigger] dirs[k]).has_work,
    decreases dirs.len() - i,
{
    if i < dirs.len() && !dirs[i].has_work {
        lemma_work_from(dirs, i + 1);
    }
}

proof fn lemma_module_from(dirs: Seq<Directory>, i: int)
    requires
        0 <= i <= dirs.len(),
    ensures
        i <= module_from(dirs, i) <= dirs.len(),
        module_from(dirs, i) < dirs.len() ==> dirs[module_from(dirs, i)].has_mod,
        forall|k: int| i <= k < module_from(dirs, i) ==> !(#[trigger] dirs[k]).has_mod,
    decreases dirs.len() - i,
{
    if i < dirs.len() && !dirs[i].has_mod {
        lemma_module_from(dirs, i + 1);
    }
}

/// Tests are run exactly if no document with unsaved edits is a file of the workspace;
/// else one such document is named. Documents elsewhere, or without a file, do not
/// matter.
pub proof fn only_edits_in_the_workspace_matter(
    documents: Seq<OpenDocument>,
    root: Seq<char>,
    below: Seq<char>,
)
    ensures
        saved(documents, root) is Ok <==> forall|k: int|
            0 <= k < documents.len() ==> !((#[trigger] documents[k]).modified && (
            documents[k].path matches Some(path) && is_below(path@, root))),
        saved(documents, root) matches Err(e) ==> exists|k: int|
            0 <= k < documents.len() && (#[trigger] documents[k]).modified && (
            documents[k].path matches Some(path) && is_below(path@, root)) && e
                == "Save modified files before running Go tests: "@ + documents[k].name@,
        is_below(root, root),
        root.len() > 0 && root.last() != '/' ==> is_below(root + "/"@ + below, root),
        root.len() > 0 && root.last() != '/' && below.len() > 0 && below[0] != '/' ==> !is_below(
            root + below,
            root,
        ),
{
    lemma_unsaved_from(documents, root, 0);
    let i = unsaved_from(documents, root, 0);
    if i < documents.len() {
        assert(blocks(documents[i], root));
    }
    if saved(documents, root) is Ok {
        assert forall|k: int| 0 <= k < documents.len() implies !((#[trigger] documents[k]).modified
            && (documents[k].path matches Some(path) && is_below(path@, root))) by {
            assert(!blocks(documents[k], root));
        }
    }
    reveal_strlit("/");
    if root.len() > 0 && root.last() != '/' {
        let dir = root + "/"@;
        assert(joined(root, seq![]) =~= dir);
        assert((root + "/"@ + below).take(dir.len() as int) =~= dir);
        if below.len() > 0 && below[0] != '/' {
            let other = root + below;
            if starts_with(other, dir) {
                assert(other.take(dir.len() as int)[root.len() as int] == dir[root.len() as int]);
            }
        }
    }
}

proof fn lemma_unsaved_from(documents: Seq<OpenDocument>, root: Seq<char>, i: int)
    requires
        0 <= i <= documents.len(),
    ensures
        i <= unsaved_from(documents, root, i) <= documents.len(),
        unsaved_from(documents, root, i) < documents.len() ==> blocks(
            documents[unsaved_from(documents, root, i)],
            root,
        ),
        forall|k: int|
            i <= k < unsaved_from(documents, root, i) ==> !blocks(#[trigger] documents[k], root),
    decreases documents.len() - i,
{
    if i < documents.len() && !blocks(documents[i], root) {
        lemma_unsaved_from(documents, root, i + 1);
    }
}

/// Every place that a line of the output reports is listed, under the file that the
/// line's path leads to, and nothing else is.
pub proof fn all_reported_places_are_listed(rows: Seq<OutputRow>, n: nat, place: LocationView)
    requires
        n <= rows.len(),
    ensures
        locations(rows, n).contains(place) <==> exists|i: int|
            0 <= i < n && (reported((#[trigger] rows[i]).text@) matches Some(r) && place.path
                == rows[i].path@ && place.line == r.line && place.message == r.message),
    decreases n,
{
    if n > 0 {
        let before = locations(rows, (n - 1) as nat);
        let all = locations(rows, n);
        all_reported_places_are_listed(rows, (n - 1) as nat, place);
        if before.contains(place) {
            let k = before.index_of(place);
            assert(all[k] == place);
        }
        if let Some(r) = reported(rows[n - 1].text@) {
            let found = LocationView {
                path: rows[n - 1].path@,
                line: r.line,
                message: r.message,
            };
            if !before.contains(found) {
                assert(all.last() == found);
                assert(all[all.len() - 1] == found);
            }
            if all.contains(place) && !before.contains(place) {
                let k = all.index_of(place);
                if k < before.len() {
                    assert(before[k] == place);
                }
                assert(place == found);
                assert(reported(rows[n - 1].text@) == Some(r));
            }
            if place.path == found.path && place.line == found.line && place.message
                == found.message {
                assert(place == found);
            }
        }
    }
}

/// The output of a run holds what the tests printed, and what was printed as errors below
/// it, where there is any; that output is missing is told.
pub proof fn outputs_hold_both_streams(
    pieces: Seq<Seq<char>>,
    diagnostics: Seq<char>,
    out_len: nat,
    err_len: nat,
)
    ensures
        ({
            let all = run_output(pieces, diagnostics, out_len, err_len);
            let printed = concat(pieces);
            let below = printed + "\n--- stderr / build diagnostics ---\n"@ + diagnostics;
            let cut = out_len >= OUTPUT_LIMIT || err_len >= OUTPUT_LIMIT;
            &&& err_len == 0 && !cut ==> all == printed
            &&& err_len > 0 && !cut ==> all == below
            &&& err_len > 0 ==> below.len() <= all.len() && all.take(below.len() as int) == below
            &&& cut ==> all.len() >= printed.len() && all.take(printed.len() as int) == printed
                && crate::text::ends_with(
                all,
                "\n[Output limit reached: retained at most 2 MiB per stream.]\n"@,
            )
        }),
{
    let all = run_output(pieces, diagnostics, out_len, err_len);
    let printed = concat(pieces);
    let below = printed + "\n--- stderr / build diagnostics ---\n"@ + diagnostics;
    let note = "\n[Output limit reached: retained at most 2 MiB per stream.]\n"@;
    let cut = out_len >= OUTPUT_LIMIT || err_len >= OUTPUT_LIMIT;
    assert(err_len == 0 && !cut ==> all =~= printed);
    assert(err_len > 0 && !cut ==> all =~= below);
    if err_len > 0 {
        assert(all.take(below.len() as int) =~= below);
    }
    if cut {
        assert(all.take(printed.len() as int) =~= printed);
        assert(all.skip(all.len() - note.len()) =~= note);
    }
}

} // verus!
