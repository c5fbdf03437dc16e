//! The state of a working tree, as Git's porcelain formats describe it.
use crate::bytes::{byte_views, lossy, lossy_text, records, split_records, utf8, utf8_text};
use crate::order::{
    key_order, ordered_by, sort, sorted_by, sorting_orders, sorting_sorts_views, text_le, text_le_total, text_le_transitive,
    text_not_after, Keyed,
};
use crate::text::{
    after_prefix, chars, cut, decimal, full_lines, part, parse_max, read_number, same, slices, spells, split,
    split_at, split_at_most, split_full_lines, split_n, split_once, strip_prefix, text, trim_end,
    trim_left, trim_right, trim_start, Pattern,
};
use vstd::prelude::*;

verus! {

#[derive(Debug)]
pub struct Branch {
    /// `None` for a detached HEAD.
    pub name: Option<String>,
    /// `None` before the first commit.
    pub oid: Option<String>,
    pub upstream: Option<String>,
    pub ahead: u32,
    pub behind: u32,
}

/// Which side of a file's changes a row describes. A partly staged file has a
/// `Staged` and an `Unstaged` row.
#[derive(Clone, Copy, Debug, PartialEq, Eq, Structural)]
pub enum Part {
    /// A buffer with unsaved edits; Git cannot see them.
    Unsaved,
    Conflict,
    Staged,
    Unstaged,
    Untracked,
}

#[derive(Debug)]
pub struct Change {
    /// Repository-relative, `/`-separated.
    pub path: String,
    /// Source of a staged rename or copy.
    pub orig: Option<String>,
    pub part: Part,
    /// Git's status letter for this part (`M`, `A`, `D`, `R`, `C`, `T`, `U`, `?`).
    pub code: char,
    /// The file also has changes on the other side of the index.
    pub partial: bool,
}

#[derive(Debug)]
pub struct Status {
    pub branch: Branch,
    pub changes: Vec<Change>,
}

pub struct BranchView {
    pub name: Option<Seq<char>>,
    pub oid: Option<Seq<char>>,
    pub upstream: Option<Seq<char>>,
    pub ahead: nat,
    pub behind: nat,
}

pub struct ChangeView {
    pub path: Seq<char>,
    pub orig: Option<Seq<char>>,
    pub part: Part,
    /// The status letter, as a text.
    pub code: Seq<char>,
    pub partial: bool,
}

pub struct StatusView {
    pub branch: BranchView,
    pub changes: Seq<ChangeView>,
}

pub open spec fn text_view(t: Option<String>) -> Option<Seq<char>> {
    match t {
        Some(t) => Some(t@),
        None => None,
    }
}

impl View for Branch {
    type V = BranchView;

    open spec fn view(&self) -> BranchView {
        BranchView {
            name: text_view(self.name),
            oid: text_view(self.oid),
            upstream: text_view(self.upstream),
            ahead: self.ahead as nat,
            behind: self.behind as nat,
        }
    }
}

impl View for Change {
    type V = ChangeView;

    open spec fn view(&self) -> ChangeView {
        ChangeView {
            path: self.path@,
            orig: text_view(self.orig),
            part: self.part,
            code: seq![self.code],
            partial: self.partial,
        }
    }
}

pub open spec fn change_view(c: Change) -> ChangeView {
    c@
}

pub open spec fn change_views(c: Seq<Change>) -> Seq<ChangeView> {
    c.map_values(|x: Change| change_view(x))
}

impl View for Status {
    type V = StatusView;

    open spec fn view(&self) -> StatusView {
        StatusView { branch: self.branch@, changes: change_views(self.changes@) }
    }
}

// ---------------------------------------------------------------------------
// Rows
// ---------------------------------------------------------------------------

pub open spec fn kind_of(code: Seq<char>) -> Seq<char> {
    if code == seq!['M'] {
        "modified"@
    } else if code == seq!['A'] {
        "new file"@
    } else if code == seq!['D'] {
        "deleted"@
    } else if code == seq!['R'] {
        "renamed"@
    } else if code == seq!['C'] {
        "copied"@
    } else if code == seq!['T'] {
        "type changed"@
    } else {
        "changed"@
    }
}

pub open spec fn described(c: ChangeView) -> Seq<char> {
    let text = match c.part {
        Part::Unsaved => "unsaved buffer"@,
        Part::Conflict => "conflict"@,
        Part::Untracked => "untracked"@,
        Part::Staged => "staged "@ + kind_of(c.code),
        Part::Unstaged => "unstaged "@ + kind_of(c.code),
    };
    if c.partial {
        text + " (partly staged)"@
    } else {
        text
    }
}

impl Change {
    /// `staged modified`, `unstaged deleted (partly staged)`, `untracked`, …
    pub fn describe(&self) -> (r: String)
        ensures
            r@ == described(self@),
    {
        proof {
            assert(seq![self.code][0] == self.code);
        }
        let kind = match self.code {
            'M' => "modified",
            'A' => "new file",
            'D' => "deleted",
            'R' => "renamed",
            'C' => "copied",
            'T' => "type changed",
            _ => "changed",
        };
        let mut r = match self.part {
            Part::Unsaved => "unsaved buffer",
            Part::Conflict => "conflict",
            Part::Untracked => "untracked",
            Part::Staged => "staged ",
            Part::Unstaged => "unstaged ",
        }.to_owned();
        match self.part {
            Part::Staged | Part::Unstaged => {
                r.append(kind);
            },
            _ => {},
        }
        if self.partial {
            r.append(" (partly staged)");
        }
        r
    }

    /// `path`, or `orig -> path` for renames and copies.
    pub fn display_path(&self) -> (r: String)
        ensures
            r@ == (match self@.orig {
                Some(orig) => orig + " -> "@ + self@.path,
                None => self@.path,
            }),
    {
        match &self.orig {
            Some(orig) => {
                let mut r = orig.clone();
                r.append(" -> ");
                r.append(&self.path);
                r
            },
            None => self.path.clone(),
        }
    }
}

pub open spec fn part_rank(p: Part) -> int {
    match p {
        Part::Unsaved => 0,
        Part::Conflict => 1,
        Part::Staged => 2,
        Part::Unstaged => 3,
        Part::Untracked => 4,
    }
}

fn rank(p: Part) -> (r: u8)
    ensures
        r == part_rank(p),
{
    match p {
        Part::Unsaved => 0,
        Part::Conflict => 1,
        Part::Staged => 2,
        Part::Unstaged => 3,
        Part::Untracked => 4,
    }
}

/// Conflicts, staged, unstaged, untracked; by path within each group.
pub open spec fn change_le(a: ChangeView, b: ChangeView) -> bool {
    if a.part != b.part {
        part_rank(a.part) < part_rank(b.part)
    } else {
        text_le(a.path, b.path)
    }
}

pub open spec fn change_order() -> spec_fn(ChangeView, ChangeView) -> bool {
    |a: ChangeView, b: ChangeView| change_le(a, b)
}

impl Keyed for Change {
    open spec fn le(&self, other: &Change) -> bool {
        change_le(self@, other@)
    }

    proof fn total(a: &Change, b: &Change) {
        text_le_total(a.path@, b.path@);
    }

    proof fn transitive(a: &Change, b: &Change, c: &Change) {
        if a.part == b.part && b.part == c.part {
            text_le_transitive(a.path@, b.path@, c.path@);
        }
    }

    fn not_after(&self, other: &Change) -> (r: bool) {
        if self.part != other.part {
            rank(self.part) < rank(other.part)
        } else {
            text_not_after(&chars(&self.path), &chars(&other.path))
        }
    }
}

// ---------------------------------------------------------------------------
// git status --porcelain=v2 -z --branch
// ---------------------------------------------------------------------------

pub const NOT_UTF8: &'static str = "Git reported a path that is not UTF-8";

pub const UNEXPECTED: &'static str = "Unexpected git status record";

/// The first word of `s` and what follows the space after it.
pub open spec fn first_word(s: Seq<char>) -> (Seq<char>, Seq<char>) {
    match split_once(s, " "@) {
        Some(p) => p,
        None => (s, seq![]),
    }
}

fn word<'a>(a: &'a [char]) -> (r: (&'a [char], &'a [char]))
    ensures
        (r.0@, r.1@) == first_word(a@),
{
    match cut(a, " ") {
        Some(p) => p,
        None => {
            let rest = part(a, a.len(), a.len());
            assert(rest@ =~= seq![]);
            (a, rest)
        },
    }
}

/// The count in part `i` of `+2 -1`.
pub open spec fn count(s: Seq<char>, i: int) -> nat {
    let parts = split(s, Pattern::One(' '));
    if i < parts.len() {
        match parse_max(trim_start(parts[i], Pattern::Either('+', '-')), u32::MAX as nat) {
            Some(n) => n,
            None => 0,
        }
    } else {
        0
    }
}

fn read_count(a: &[char], i: usize) -> (r: u32)
    ensures
        r == count(a@, i as int),
{
    let parts = split_at(a, Pattern::One(' '));
    assert(slices(parts@).len() == parts@.len());
    if i < parts.len() {
        assert(slices(parts@)[i as int] == parts@[i as int]@);
        match read_number(trim_left(parts[i], Pattern::Either('+', '-')), 0xffff_ffff) {
            Some(n) => n as u32,
            None => 0,
        }
    } else {
        0
    }
}

/// The branch after a header line without its `# `.
pub open spec fn with_header(b: BranchView, rest: Seq<char>) -> BranchView {
    let (key, value) = first_word(rest);
    if key == "branch.oid"@ && value != "(initial)"@ {
        BranchView { oid: Some(value), ..b }
    } else if key == "branch.head"@ && value != "(detached)"@ {
        BranchView { name: Some(value), ..b }
    } else if key == "branch.upstream"@ {
        BranchView { upstream: Some(value), ..b }
    } else if key == "branch.ab"@ {
        BranchView { ahead: count(value, 0), behind: count(value, 1), ..b }
    } else {
        b
    }
}

fn read_header(branch: &mut Branch, rest: &[char])
    ensures
        final(branch)@ == with_header(old(branch)@, rest@),
{
    let (key, value) = word(rest);
    proof {
        reveal_strlit("branch.oid");
        reveal_strlit("branch.head");
        reveal_strlit("branch.upstream");
        reveal_strlit("branch.ab");
        assert("branch.oid"@.len() != "branch.head"@.len());
        assert("branch.oid"@.len() != "branch.upstream"@.len());
        assert("branch.oid"@.len() != "branch.ab"@.len());
        assert("branch.head"@.len() != "branch.upstream"@.len());
        assert("branch.head"@.len() != "branch.ab"@.len());
    }
    if spells(key, "branch.oid") && !spells(value, "(initial)") {
        branch.oid = Some(text(value));
    } else if spells(key, "branch.head") && !spells(value, "(detached)") {
        branch.name = Some(text(value));
    } else if spells(key, "branch.upstream") {
        branch.upstream = Some(text(value));
    } else if spells(key, "branch.ab") {
        branch.ahead = read_count(value, 0);
        branch.behind = read_count(value, 1);
    }
}

/// The rows of a file whose state is `xy`: of its index and of its worktree.
pub open spec fn rows_of(
    path: Seq<char>,
    orig: Option<Seq<char>>,
    xy: Seq<char>,
) -> Seq<ChangeView> {
    let staged = ChangeView {
        path,
        orig,
        part: Part::Staged,
        code: xy.take(1),
        partial: xy[1] != '.',
    };
    let unstaged = ChangeView {
        path,
        orig: None,
        part: Part::Unstaged,
        code: xy.skip(1),
        partial: xy[0] != '.',
    };
    (if xy[0] != '.' {
        seq![staged]
    } else {
        seq![]
    }) + (if xy[1] != '.' {
        seq![unstaged]
    } else {
        seq![]
    })
}

/// What the records say, after `status`.
pub open spec fn read_records(records: Seq<Seq<u8>>, status: StatusView) -> Result<
    StatusView,
    Seq<char>,
>
    decreases records.len(),
{
    if records.len() == 0 {
        Ok(status)
    } else {
        match utf8_text(records[0]) {
            None => Err(NOT_UTF8@),
            Some(record) => {
                let (kind, rest) = first_word(record);
                let next = records.skip(1);
                if kind == "#"@ {
                    read_records(
                        next,
                        StatusView { branch: with_header(status.branch, rest), ..status },
                    )
                } else if kind == "1"@ {
                    let fields = split_n(rest, Pattern::One(' '), 8);
                    if fields.len() != 8 || fields[0].len() != 2 {
                        Err(UNEXPECTED@)
                    } else {
                        read_records(next, with_changes(status, rows_of(fields[7], None, fields[0])))
                    }
                } else if kind == "2"@ {
                    let fields = split_n(rest, Pattern::One(' '), 9);
                    if fields.len() != 9 || fields[0].len() != 2 || next.len() == 0 {
                        Err(UNEXPECTED@)
                    } else {
                        match utf8_text(next[0]) {
                            None => Err(NOT_UTF8@),
                            Some(orig) => read_records(
                                next.skip(1),
                                with_changes(status, rows_of(fields[8], Some(orig), fields[0])),
                            ),
                        }
                    }
                } else if kind == "u"@ {
                    let fields = split_n(rest, Pattern::One(' '), 10);
                    if fields.len() != 10 {
                        Err(UNEXPECTED@)
                    } else {
                        read_records(
                            next,
                            with_changes(status, seq![plain_row(fields[9], Part::Conflict, seq!['U'])]),
                        )
                    }
                } else if kind == "?"@ {
                    read_records(
                        next,
                        with_changes(status, seq![plain_row(rest, Part::Untracked, seq!['?'])]),
                    )
                } else if kind == "!"@ {
                    read_records(next, status)
                } else {
                    Err(UNEXPECTED@)
                }
            },
        }
    }
}

pub open spec fn plain_row(path: Seq<char>, part: Part, code: Seq<char>) -> ChangeView {
    ChangeView { path, orig: None, part, code, partial: false }
}

pub open spec fn with_changes(status: StatusView, rows: Seq<ChangeView>) -> StatusView {
    StatusView { changes: status.changes + rows, ..status }
}

pub open spec fn empty_status() -> StatusView {
    StatusView {
        branch: BranchView { name: None, oid: None, upstream: None, ahead: 0, behind: 0 },
        changes: seq![],
    }
}

pub open spec fn slice_view(s: Option<&[char]>) -> Option<Seq<char>> {
    match s {
        Some(s) => Some(s@),
        None => None,
    }
}

fn push_rows(changes: &mut Vec<Change>, path: &[char], orig: Option<&[char]>, xy: &[char])
    requires
        xy@.len() == 2,
    ensures
        change_views(final(changes)@) == change_views(old(changes)@) + rows_of(
            path@,
            slice_view(orig),
            xy@,
        ),
{
    let ghost start = change_views(changes@);
    let index = xy[0];
    let worktree = xy[1];
    if index != '.' {
        push_row(changes, path, orig, Part::Staged, index, worktree != '.');
    }
    if worktree != '.' {
        push_row(changes, path, None, Part::Unstaged, worktree, index != '.');
    }
    assert(xy@.take(1) =~= seq![index]);
    assert(xy@.skip(1) =~= seq![worktree]);
    assert(change_views(changes@) =~= start + rows_of(path@, slice_view(orig), xy@));
}

fn push_row(
    changes: &mut Vec<Change>,
    path: &[char],
    orig: Option<&[char]>,
    part: Part,
    code: char,
    partial: bool,
)
    ensures
        change_views(final(changes)@) == change_views(old(changes)@) + seq![
            ChangeView { path: path@, orig: slice_view(orig), part, code: seq![code], partial },
        ],
{
    let orig = match orig {
        Some(o) => Some(text(o)),
        None => None,
    };
    let change = Change { path: text(path), orig, part, code, partial };
    changes.push(change);
    assert(change_views(changes@) =~= change_views(old(changes)@) + seq![change@]);
}

/// Parse `git status --porcelain=v2 -z --branch` output. Changes are sorted:
/// conflicts, staged, unstaged, untracked; by path within each group.
pub fn parse(out: &[u8]) -> (r: Result<Status, &'static str>)
    ensures
        match (r, read_records(records(out@), empty_status())) {
            (Ok(s), Ok(read)) => s@ == (StatusView {
                changes: sorted_by(read.changes, change_order()),
                ..read
            }),
            (Err(e), Err(expected)) => e@ == expected,
            _ => false,
        },
{
    let all = split_records(out);
    let ghost given = byte_views(all@);
    let mut status = Status {
        branch: Branch { name: None, oid: None, upstream: None, ahead: 0, behind: 0 },
        changes: Vec::new(),
    };
    let mut i: usize = 0;
    assert(given.skip(0) =~= given);
    assert(change_views(status.changes@) =~= seq![]);
    while i < all.len()
        invariant
            i <= all@.len(),
            given == byte_views(all@),
            given == records(out@),
            read_records(given.skip(i as int), status@) == read_records(given, empty_status()),
        decreases all@.len() - i,
    {
        let ghost left = given.skip(i as int);
        let ghost before = status@;
        proof {
            assert(left[0] == given[i as int]);
            assert(given[i as int] == all@[i as int]@);
            assert(left.skip(1) =~= given.skip(i as int + 1));
            reveal_strlit("#");
            reveal_strlit("1");
            reveal_strlit("2");
            reveal_strlit("u");
            reveal_strlit("?");
            reveal_strlit("!");
            assert("#"@[0] == '#' && "1"@[0] == '1' && "2"@[0] == '2' && "u"@[0] == 'u' && "?"@[0]
                == '?' && "!"@[0] == '!');
        }
        let record = match utf8(all[i]) {
            Some(record) => chars(record),
            None => return Err(NOT_UTF8),
        };
        let (kind, rest) = word(&record);
        i += 1;
        if spells(kind, "#") {
            read_header(&mut status.branch, rest);
        } else if spells(kind, "1") {
            let fields = split_at_most(rest, Pattern::One(' '), 8);
            let ghost f = slices(fields@);
            assert(f.len() == fields@.len());
            if fields.len() != 8 {
                return Err(UNEXPECTED);
            }
            assert(f[0] == fields@[0]@ && f[7] == fields@[7]@);
            if fields[0].len() != 2 {
                return Err(UNEXPECTED);
            }
            push_rows(&mut status.changes, fields[7], None, fields[0]);
        } else if spells(kind, "2") {
            let fields = split_at_most(rest, Pattern::One(' '), 9);
            let ghost f = slices(fields@);
            assert(f.len() == fields@.len());
            if fields.len() != 9 {
                return Err(UNEXPECTED);
            }
            assert(f[0] == fields@[0]@ && f[8] == fields@[8]@);
            if fields[0].len() != 2 || i == all.len() {
                return Err(UNEXPECTED);
            }
            assert(left.skip(1)[0] == given[i as int]);
            assert(given[i as int] == all@[i as int]@);
            assert(left.skip(1).skip(1) =~= given.skip(i as int + 1));
            let orig = match utf8(all[i]) {
                Some(orig) => chars(orig),
                None => return Err(NOT_UTF8),
            };
            i += 1;
            push_rows(&mut status.changes, fields[8], Some(&orig), fields[0]);
        } else if spells(kind, "u") {
            let fields = split_at_most(rest, Pattern::One(' '), 10);
            let ghost f = slices(fields@);
            assert(f.len() == fields@.len());
            if fields.len() != 10 {
                return Err(UNEXPECTED);
            }
            assert(f[9] == fields@[9]@);
            push_row(&mut status.changes, fields[9], None, Part::Conflict, 'U', false);
        } else if spells(kind, "?") {
            push_row(&mut status.changes, rest, None, Part::Untracked, '?', false);
        } else if !spells(kind, "!") {
            return Err(UNEXPECTED);
        }
    }
    assert(given.skip(i as int) =~= seq![]);
    let ghost unsorted = status.changes@;
    let Status { branch, changes } = status;
    let changes = sort(changes);
    proof {
        let view = |x: Change| change_view(x);
        sorting_sorts_views(unsorted, key_order::<Change>(), view, change_order());
    }
    Ok(Status { branch, changes })
}

/// Rows come in groups: conflicts, staged, unstaged, untracked; by path within
/// each group. Sorting keeps every row.
pub proof fn rows_are_grouped(changes: Seq<ChangeView>)
    ensures
        ({
            let sorted = sorted_by(changes, change_order());
            &&& ordered_by(sorted, change_order())
            &&& sorted.to_multiset() == changes.to_multiset()
        }),
{
    let le = change_order();
    assert forall|a: ChangeView, b: ChangeView| #[trigger] le(a, b) || le(b, a) by {
        text_le_total(a.path, b.path);
    }
    assert forall|a: ChangeView, b: ChangeView, c: ChangeView| #[trigger]
        le(a, b) && #[trigger] le(b, c) implies le(a, c) by {
        if a.part == b.part && b.part == c.part {
            text_le_transitive(a.path, b.path, c.path);
        }
    }
    sorting_orders(changes, le);
}

/// A file with changes on both sides of the index has two rows, and both say
/// so; a file with changes on one side has one row.
pub proof fn partly_staged_files_have_two_rows(
    path: Seq<char>,
    orig: Option<Seq<char>>,
    xy: Seq<char>,
)
    requires
        xy.len() == 2,
    ensures
        ({
            let rows = rows_of(path, orig, xy);
            &&& forall|i: int|
                0 <= i < rows.len() ==> (#[trigger] rows[i]).partial == (rows.len() == 2)
                    && rows[i].path == path
            &&& (rows.len() == 2 ==> rows[0].part == Part::Staged && rows[1].part
                == Part::Unstaged)
            &&& (rows.len() == 0 <==> xy == seq!['.', '.'])
        }),
{
    assert(xy[0] == '.' && xy[1] == '.' ==> xy =~= seq!['.', '.']);
}

// ---------------------------------------------------------------------------
// Diffs
// ---------------------------------------------------------------------------

/// The path of a section's header without its `diff --git `. Both sides name the
/// same path; quoted (unusual) paths give none.
pub open spec fn header_path(header: Seq<char>) -> Option<Seq<char>> {
    let n = (header.len() - 5) / 2;
    let path = header.subrange(2, 2 + n);
    if header.len() >= 5 && header == "a/"@ + path + " b/"@ + path {
        Some(path)
    } else {
        None
    }
}

/// A header names the path that both of its sides hold.
pub proof fn headers_name_their_path(path: Seq<char>)
    ensures
        header_path("a/"@ + path + " b/"@ + path) == Some(path),
{
    reveal_strlit("a/");
    reveal_strlit(" b/");
    let header = "a/"@ + path + " b/"@ + path;
    assert(header.subrange(2, 2 + path.len() as int) =~= path);
}

/// The path of the section that the last of the lines belongs to.
pub open spec fn section_path(lines: Seq<Seq<char>>) -> Option<Seq<char>>
    decreases lines.len(),
{
    if lines.len() == 0 {
        None
    } else {
        match strip_prefix(lines.last(), "diff --git "@) {
            Some(header) => header_path(trim_end(header, Pattern::Either('\n', '\r'))),
            None => section_path(lines.drop_last()),
        }
    }
}

/// The lines that belong to `path`, one after another.
pub open spec fn section(lines: Seq<Seq<char>>, path: Seq<char>) -> Option<Seq<char>>
    decreases lines.len(),
{
    if lines.len() == 0 {
        None
    } else {
        let before = section(lines.drop_last(), path);
        if section_path(lines) == Some(path) {
            match before {
                Some(text) => Some(text + lines.last()),
                None => Some(lines.last()),
            }
        } else {
            before
        }
    }
}

/// The changes of one file.
#[derive(Debug)]
pub struct Section {
    pub path: String,
    pub text: String,
}

/// The text of `path` from index `i` on.
pub open spec fn lookup(sections: Seq<Section>, path: Seq<char>, i: int) -> Option<Seq<char>>
    decreases sections.len() - i,
{
    if i < 0 || i >= sections.len() {
        None
    } else if sections[i].path@ == path {
        Some(sections[i].text@)
    } else {
        lookup(sections, path, i + 1)
    }
}

/// No path has two sections.
pub open spec fn distinct(sections: Seq<Section>) -> bool {
    forall|i: int, j: int|
        #![trigger sections[i], sections[j]]
        0 <= i < j < sections.len() ==> sections[i].path@ != sections[j].path@
}

proof fn lemma_lookup(sections: Seq<Section>, k: int, i: int)
    requires
        distinct(sections),
        0 <= i <= k < sections.len(),
    ensures
        lookup(sections, sections[k].path@, i) == Some(sections[k].text@),
    decreases k - i,
{
    if i < k {
        assert(sections[i].path@ != sections[k].path@);
        lemma_lookup(sections, k, i + 1);
    }
}

proof fn lemma_absent(sections: Seq<Section>, path: Seq<char>, i: int)
    requires
        0 <= i <= sections.len(),
        forall|j: int| i <= j < sections.len() ==> (#[trigger] sections[j]).path@ != path,
    ensures
        lookup(sections, path, i) is None,
    decreases sections.len() - i,
{
    if i < sections.len() {
        lemma_absent(sections, path, i + 1);
    }
}

proof fn lemma_lookup_same(a: Seq<Section>, b: Seq<Section>, path: Seq<char>, i: int)
    requires
        a.len() <= b.len(),
        0 <= i,
        forall|j: int|
            0 <= j < a.len() ==> (#[trigger] a[j]).path@ == b[j].path@ && (a[j].path@ == path
                ==> a[j].text@ == b[j].text@),
        forall|j: int| a.len() <= j < b.len() ==> (#[trigger] b[j]).path@ != path,
    ensures
        lookup(a, path, i) == lookup(b, path, i),
    decreases b.len() - i,
{
    if i < a.len() {
        assert(a[i].path@ == b[i].path@);
        lemma_lookup_same(a, b, path, i + 1);
    } else if i < b.len() {
        assert(b[i].path@ != path);
        lemma_lookup_same(a, b, path, i + 1);
    }
}

fn read_header_path(header: &[char]) -> (r: Option<String>)
    ensures
        text_view(r) == header_path(header@),
{
    proof {
        reveal_strlit("a/");
        reveal_strlit(" b/");
    }
    if header.len() < 5 {
        return None;
    }
    let n: usize = (header.len() - 5) / 2;
    let path = part(header, 2, 2 + n);
    assert(path@ =~= header@.subrange(2, 2 + n));
    let mut expected = "a/".to_owned();
    let name = text(path);
    expected.append(&name);
    expected.append(" b/");
    expected.append(&name);
    if spells(header, &expected) {
        Some(name)
    } else {
        None
    }
}

fn find_section(sections: &Vec<Section>, path: &str) -> (r: Option<usize>)
    ensures
        match r {
            Some(i) => i < sections@.len() && sections@[i as int].path@ == path@,
            None => forall|j: int|
                0 <= j < sections@.len() ==> (#[trigger] sections@[j]).path@ != path@,
        },
{
    let mut i: usize = 0;
    while i < sections.len()
        invariant
            i <= sections@.len(),
            forall|j: int| 0 <= j < i ==> (#[trigger] sections@[j]).path@ != path@,
        decreases sections@.len() - i,
    {
        if same(&sections[i].path, path) {
            return Some(i);
        }
        i += 1;
    }
    None
}

/// Appends a line to the section of `path`, which may be new.
fn add_line(sections: &mut Vec<Section>, path: &str, line: &str)
    requires
        distinct(old(sections)@),
    ensures
        distinct(final(sections)@),
        forall|p: Seq<char>| #[trigger]
            lookup(final(sections)@, p, 0) == (if p == path@ {
                match lookup(old(sections)@, p, 0) {
                    Some(t) => Some(t + line@),
                    None => Some(line@),
                }
            } else {
                lookup(old(sections)@, p, 0)
            }),
{
    let ghost before = sections@;
    match find_section(sections, path) {
        Some(i) => {
            let mut changed = sections.remove(i);
            changed.text.append(line);
            sections.insert(i, changed);
            let ghost after = sections@;
            proof {
                assert(after =~= before.update(i as int, changed));
                assert forall|a: int, b: int| #![trigger after[a], after[b]] 0 <= a < b
                    < after.len() implies after[a].path@ != after[b].path@ by {
                    assert(after[a].path@ == before[a].path@);
                    assert(after[b].path@ == before[b].path@);
                }
                lemma_lookup(before, i as int, 0);
                lemma_lookup(after, i as int, 0);
                assert forall|p: Seq<char>| p != path@ implies #[trigger] lookup(after, p, 0)
                    == lookup(before, p, 0) by {
                    lemma_lookup_same(before, after, p, 0);
                }
            }
        },
        None => {
            let new = Section { path: path.to_owned(), text: line.to_owned() };
            sections.push(new);
            let ghost after = sections@;
            proof {
                assert(after =~= before.push(new));
                assert(distinct(after));
                lemma_absent(before, path@, 0);
                lemma_lookup(after, after.len() - 1, 0);
                assert forall|p: Seq<char>| p != path@ implies #[trigger] lookup(after, p, 0)
                    == lookup(before, p, 0) by {
                    lemma_lookup_same(before, after, p, 0);
                }
            }
        },
    }
}

/// The sections of a patch as Git printed it.
pub fn split_patch(patch: &[u8]) -> (r: Vec<Section>)
    ensures
        distinct(r@),
        forall|path: Seq<char>| #[trigger]
            lookup(r@, path, 0) == section(full_lines(lossy_text(patch@)), path),
{
    split_diff(&lossy(patch))
}

/// Split `git diff --no-renames --src-prefix=a/ --dst-prefix=b/` output into
/// sections by path. Without renames both header paths are equal, which makes
/// paths with spaces unambiguous; quoted (unusual) paths get no section.
pub fn split_diff(patch: &str) -> (r: Vec<Section>)
    ensures
        distinct(r@),
        forall|path: Seq<char>| #[trigger]
            lookup(r@, path, 0) == section(full_lines(patch@), path),
{
    let all = chars(patch);
    let lines = split_full_lines(&all);
    let ghost given = slices(lines@);
    let mut sections: Vec<Section> = Vec::new();
    let mut current: Option<String> = None;
    let mut i: usize = 0;
    while i < lines.len()
        invariant
            i <= lines@.len(),
            given == slices(lines@),
            distinct(sections@),
            text_view(current) == section_path(given.take(i as int)),
            forall|path: Seq<char>| #[trigger]
                lookup(sections@, path, 0) == section(given.take(i as int), path),
        decreases lines@.len() - i,
    {
        let ghost before = given.take(i as int);
        let ghost after = given.take(i as int + 1);
        let line = lines[i];
        proof {
            assert(after.drop_last() =~= before);
            assert(given[i as int] == lines@[i as int]@);
            assert(after.last() == line@);
        }
        match after_prefix(line, "diff --git ") {
            Some(header) => {
                current = read_header_path(trim_right(header, Pattern::Either('\n', '\r')));
            },
            None => {},
        }
        assert(text_view(current) == section_path(after));
        match &current {
            Some(path) => {
                add_line(&mut sections, path, &text(line));
                assert forall|p: Seq<char>| #[trigger] lookup(sections@, p, 0) == section(
                    after,
                    p,
                ) by {
                    assert(section(before, p) == section(after.drop_last(), p));
                }
            },
            None => {
                assert forall|p: Seq<char>| #[trigger] lookup(sections@, p, 0) == section(
                    after,
                    p,
                ) by {
                    assert(section(before, p) == section(after.drop_last(), p));
                }
            },
        }
        i += 1;
    }
    assert(given.take(i as int) =~= given);
    sections
}

pub const UNEXPECTED_DIFF: &'static str = "Unexpected git diff record";

/// What the fields say, after `entries`: pairs of a status letter and a path.
pub open spec fn read_entries(
    fields: Seq<Seq<u8>>,
    entries: Seq<(Seq<char>, Seq<char>)>,
) -> Result<Seq<(Seq<char>, Seq<char>)>, Seq<char>>
    decreases fields.len(),
{
    if fields.len() == 0 {
        Ok(entries)
    } else {
        match utf8_text(fields[0]) {
            None => Err(NOT_UTF8@),
            Some(status) => if status.len() == 0 || fields.len() == 1 {
                Err(UNEXPECTED_DIFF@)
            } else {
                match utf8_text(fields[1]) {
                    None => Err(NOT_UTF8@),
                    Some(path) => read_entries(
                        fields.skip(2),
                        entries.push((status.take(1), path)),
                    ),
                }
            },
        }
    }
}

pub open spec fn entry_views(entries: Seq<(char, String)>) -> Seq<(Seq<char>, Seq<char>)> {
    entries.map_values(|e: (char, String)| (seq![e.0], e.1@))
}

/// `git diff --name-status -z` output: `(status letter, path)` pairs.
pub fn parse_name_status(out: &[u8]) -> (r: Result<Vec<(char, String)>, &'static str>)
    ensures
        match (r, read_entries(records(out@), seq![])) {
            (Ok(entries), Ok(read)) => entry_views(entries@) == read,
            (Err(e), Err(expected)) => e@ == expected,
            _ => false,
        },
{
    let fields = split_records(out);
    let ghost given = byte_views(fields@);
    let mut entries: Vec<(char, String)> = Vec::new();
    let mut i: usize = 0;
    assert(given.skip(0) =~= given);
    assert(entry_views(entries@) =~= seq![]);
    while i < fields.len()
        invariant
            i <= fields@.len(),
            given == byte_views(fields@),
            given == records(out@),
            read_entries(given.skip(i as int), entry_views(entries@)) == read_entries(
                given,
                seq![],
            ),
        decreases fields@.len() - i,
    {
        let ghost left = given.skip(i as int);
        let ghost before = entry_views(entries@);
        assert(left[0] == given[i as int]);
        assert(given[i as int] == fields@[i as int]@);
        let status = match utf8(fields[i]) {
            Some(status) => chars(status),
            None => return Err(NOT_UTF8),
        };
        if status.len() == 0 || i + 1 == fields.len() {
            return Err(UNEXPECTED_DIFF);
        }
        assert(left[1] == given[i as int + 1]);
        assert(given[i as int + 1] == fields@[i as int + 1]@);
        match utf8(fields[i + 1]) {
            Some(path) => {
                let code = status[0];
                entries.push((code, path.to_owned()));
                assert(status@.take(1) =~= seq![code]);
                assert(entry_views(entries@) =~= before.push((status@.take(1), path@)));
            },
            None => return Err(NOT_UTF8),
        }
        assert(left.skip(2) =~= given.skip(i as int + 2));
        i += 2;
    }
    assert(given.skip(i as int) =~= seq![]);
    Ok(entries)
}

/// The row of the index tells what is staged, the row of the working tree what is not:
/// each is there exactly if its letter says so, and shows that letter. Only what is
/// staged was renamed.
pub proof fn rows_tell_index_and_working_tree(
    path: Seq<char>,
    orig: Option<Seq<char>>,
    xy: Seq<char>,
    row: ChangeView,
)
    requires
        xy.len() == 2,
    ensures
        rows_of(path, orig, xy).contains(row) <==> row.path == path && (({
            &&& xy[0] != '.'
            &&& row.part == Part::Staged
            &&& row.code == seq![xy[0]]
            &&& row.orig == orig
            &&& row.partial == (xy[1] != '.')
        }) || ({
            &&& xy[1] != '.'
            &&& row.part == Part::Unstaged
            &&& row.code == seq![xy[1]]
            &&& row.orig is None
            &&& row.partial == (xy[0] != '.')
        })),
{
    let rows = rows_of(path, orig, xy);
    assert(xy.take(1) =~= seq![xy[0]]);
    assert(xy.skip(1) =~= seq![xy[1]]);
    if xy[0] != '.' {
        assert(rows[0].part == Part::Staged);
    }
    if xy[1] != '.' {
        assert(rows.last().part == Part::Unstaged);
        assert(rows[rows.len() - 1].part == Part::Unstaged);
    }
    if rows.contains(row) {
        let i = rows.index_of(row);
        assert(rows[i] == row);
    }
}

/// Fields with a space behind each, and a path, which may hold spaces.
pub open spec fn fields_and_path(fields: Seq<Seq<char>>, path: Seq<char>) -> Seq<char>
    decreases fields.len(),
{
    if fields.len() == 0 {
        path
    } else {
        fields[0] + " "@ + fields_and_path(fields.skip(1), path)
    }
}

pub open spec fn without_spaces(fields: Seq<Seq<char>>) -> bool {
    forall|i: int, j: int|
        0 <= i < fields.len() && 0 <= j < fields[i].len() ==> #[trigger] fields[i][j] != ' '
}

proof fn lemma_fields(fields: Seq<Seq<char>>, path: Seq<char>)
    requires
        without_spaces(fields),
    ensures
        split_n(fields_and_path(fields, path), Pattern::One(' '), fields.len() + 1)
            == fields.push(path),
    decreases fields.len(),
{
    reveal_strlit(" ");
    let s = fields_and_path(fields, path);
    if fields.len() == 0 {
        assert(fields.push(path) =~= seq![path]);
    } else {
        let first = fields[0];
        let rest = fields_and_path(fields.skip(1), path);
        assert forall|i: int| 0 <= i < first.len() implies #[trigger] first[i] != ' ' by {
            assert(fields[0][i] != ' ');
        }
        assert forall|i: int, j: int|
            0 <= i < fields.skip(1).len() && 0 <= j < fields.skip(1)[i].len() implies #[trigger]
            fields.skip(1)[i][j] != ' ' by {
            assert(fields[i + 1][j] != ' ');
        }
        assert(" "@ =~= seq![' ']);
        crate::text::texts_are_cut_at_the_first(first, ' ', rest);
        lemma_fields(fields.skip(1), path);
        assert(s.take(first.len() as int) =~= first);
        assert(s.skip(first.len() as int + 1) =~= rest);
        assert(seq![first] + fields.skip(1).push(path) =~= fields.push(path));
    }
}

proof fn lemma_kind(kind: char, rest: Seq<char>)
    requires
        kind != ' ',
    ensures
        first_word(seq![kind] + " "@ + rest) == (seq![kind], rest),
{
    reveal_strlit(" ");
    assert(" "@ =~= seq![' ']);
    crate::text::texts_are_cut_at_the_first(seq![kind], ' ', rest);
}

/// What a record adds: the changes before it stay, its own follow, and the branch is
/// as it was.
pub open spec fn adds(records: Seq<Seq<u8>>, status: StatusView, rows: Seq<ChangeView>) -> bool {
    read_records(records, status) == Ok::<StatusView, Seq<char>>(
        StatusView { branch: status.branch, changes: status.changes + rows },
    )
}

/// A file that Git does not know is listed as untracked, whatever its name holds.
pub proof fn untracked_files_are_listed(record: Seq<u8>, path: Seq<char>, status: StatusView)
    requires
        utf8_text(record) == Some("?"@ + " "@ + path),
    ensures
        adds(
            seq![record],
            status,
            seq![
                ChangeView {
                    path,
                    orig: None,
                    part: Part::Untracked,
                    code: seq!['?'],
                    partial: false,
                },
            ],
        ),
{
    reveal_with_fuel(read_records, 3);
    lemma_letters();
    lemma_kind('?', path);
    assert(seq![record].skip(1) =~= seq![]);
}

proof fn lemma_letters()
    ensures
        "#"@ == seq!['#'],
        "1"@ == seq!['1'],
        "2"@ == seq!['2'],
        "u"@ == seq!['u'],
        "?"@ == seq!['?'],
        "!"@ == seq!['!'],
        seq!['#'] != seq!['1'],
        forall|a: char, b: char| a != b ==> #[trigger] seq![a] != #[trigger] seq![b],
{
    reveal_strlit("#");
    reveal_strlit("1");
    reveal_strlit("2");
    reveal_strlit("u");
    reveal_strlit("?");
    reveal_strlit("!");
    assert("#"@ =~= seq!['#']);
    assert("1"@ =~= seq!['1']);
    assert("2"@ =~= seq!['2']);
    assert("u"@ =~= seq!['u']);
    assert("?"@ =~= seq!['?']);
    assert("!"@ =~= seq!['!']);
    assert forall|a: char, b: char| a != b implies #[trigger] seq![a] != #[trigger] seq![b] by {
        assert(seq![a][0] == a && seq![b][0] == b);
    }
}

/// A changed file is listed with the rows of its two letters and its whole path.
pub proof fn changed_files_are_listed(
    record: Seq<u8>,
    fields: Seq<Seq<char>>,
    path: Seq<char>,
    status: StatusView,
)
    requires
        fields.len() == 7,
        fields[0].len() == 2,
        without_spaces(fields),
        utf8_text(record) == Some("1"@ + " "@ + fields_and_path(fields, path)),
    ensures
        adds(seq![record], status, rows_of(path, None, fields[0])),
{
    reveal_with_fuel(read_records, 3);
    lemma_letters();
    lemma_kind('1', fields_and_path(fields, path));
    lemma_fields(fields, path);
    assert(seq![record].skip(1) =~= seq![]);
}

/// A renamed file is listed under its new path, with the old one beside what is staged.
pub proof fn renamed_files_are_listed(
    record: Seq<u8>,
    source: Seq<u8>,
    fields: Seq<Seq<char>>,
    path: Seq<char>,
    orig: Seq<char>,
    status: StatusView,
)
    requires
        fields.len() == 8,
        fields[0].len() == 2,
        without_spaces(fields),
        utf8_text(record) == Some("2"@ + " "@ + fields_and_path(fields, path)),
        utf8_text(source) == Some(orig),
    ensures
        adds(seq![record, source], status, rows_of(path, Some(orig), fields[0])),
{
    reveal_with_fuel(read_records, 3);
    lemma_letters();
    lemma_kind('2', fields_and_path(fields, path));
    lemma_fields(fields, path);
    let all = seq![record, source];
    assert(all.skip(1)[0] == source);
    assert(all.skip(1).skip(1) =~= seq![]);
}

/// A file with merge conflicts is listed as such.
pub proof fn conflicts_are_listed(
    record: Seq<u8>,
    fields: Seq<Seq<char>>,
    path: Seq<char>,
    status: StatusView,
)
    requires
        fields.len() == 9,
        without_spaces(fields),
        utf8_text(record) == Some("u"@ + " "@ + fields_and_path(fields, path)),
    ensures
        adds(
            seq![record],
            status,
            seq![
                ChangeView {
                    path,
                    orig: None,
                    part: Part::Conflict,
                    code: seq!['U'],
                    partial: false,
                },
            ],
        ),
{
    reveal_with_fuel(read_records, 3);
    lemma_letters();
    lemma_kind('u', fields_and_path(fields, path));
    lemma_fields(fields, path);
    assert(seq![record].skip(1) =~= seq![]);
}

/// Whole records are read one after another: what is listed for the first of them stays.
pub proof fn records_are_read_one_after_another(
    record: Seq<u8>,
    more: Seq<Seq<u8>>,
    status: StatusView,
    after: StatusView,
)
    requires
        read_records(seq![record], status) == Ok::<StatusView, Seq<char>>(after),
        utf8_text(record) matches Some(text) && first_word(text).0 != "2"@,
    ensures
        read_records(seq![record] + more, status) == read_records(more, after),
{
    reveal_with_fuel(read_records, 3);
    let all = seq![record] + more;
    assert(all[0] == record);
    assert(all.skip(1) =~= more);
    assert(seq![record].skip(1) =~= seq![]);
    assert(seq![record][0] == record);
}

/// The branch is what the headers tell: its name unless HEAD is detached, its commit
/// unless there is none yet, its upstream, and how far they are apart.
pub proof fn headers_describe_the_branch(b: BranchView, value: Seq<char>, ahead: nat, behind: nat)
    requires
        ahead <= u32::MAX,
        behind <= u32::MAX,
    ensures
        with_header(b, "branch.head"@ + " "@ + value) == (BranchView {
            name: if value == "(detached)"@ {
                b.name
            } else {
                Some(value)
            },
            ..b
        }),
        with_header(b, "branch.oid"@ + " "@ + value) == (BranchView {
            oid: if value == "(initial)"@ {
                b.oid
            } else {
                Some(value)
            },
            ..b
        }),
        with_header(b, "branch.upstream"@ + " "@ + value) == (BranchView {
            upstream: Some(value),
            ..b
        }),
        with_header(
            b,
            "branch.ab"@ + " "@ + ("+"@ + decimal(ahead) + " -"@ + decimal(behind)),
        ) == (BranchView { ahead, behind, ..b }),
{
    reveal_strlit("branch.oid");
    reveal_strlit("branch.head");
    reveal_strlit("branch.upstream");
    reveal_strlit("branch.ab");
    reveal_strlit(" ");
    reveal_strlit("+");
    reveal_strlit(" -");
    assert(" "@ =~= seq![' ']);
    let counts = "+"@ + decimal(ahead) + " -"@ + decimal(behind);
    crate::text::texts_are_cut_at_the_first("branch.head"@, ' ', value);
    crate::text::texts_are_cut_at_the_first("branch.oid"@, ' ', value);
    crate::text::texts_are_cut_at_the_first("branch.upstream"@, ' ', value);
    crate::text::texts_are_cut_at_the_first("branch.ab"@, ' ', counts);
    assert("branch.oid"@.len() == 10 && "branch.head"@.len() == 11 && "branch.upstream"@.len() == 15
        && "branch.ab"@.len() == 9);
    lemma_counts(ahead, behind);
}

proof fn lemma_counts(ahead: nat, behind: nat)
    requires
        ahead <= u32::MAX,
        behind <= u32::MAX,
    ensures
        count("+"@ + decimal(ahead) + " -"@ + decimal(behind), 0) == ahead,
        count("+"@ + decimal(ahead) + " -"@ + decimal(behind), 1) == behind,
{
    reveal_strlit("+");
    reveal_strlit(" -");
    let a = "+"@ + decimal(ahead);
    let b = seq!['-'] + decimal(behind);
    let s = "+"@ + decimal(ahead) + " -"@ + decimal(behind);
    assert(s =~= a + seq![' '] + b);
    crate::text::lemma_decimal(ahead);
    crate::text::lemma_decimal(behind);
    assert forall|i: int| 0 <= i < a.len() implies #[trigger] a[i] != ' ' by {
        if i > 0 {
            assert(a[i] == decimal(ahead)[i - 1]);
            assert(crate::text::is_digit(decimal(ahead)[i - 1]));
        }
    }
    assert forall|i: int| 0 <= i < b.len() implies #[trigger] b[i] != ' ' by {
        if i > 0 {
            assert(b[i] == decimal(behind)[i - 1]);
            assert(crate::text::is_digit(decimal(behind)[i - 1]));
        }
    }
    crate::text::texts_are_cut_at_the_first(a, ' ', b);
    crate::text::texts_without_a_separator_stay_whole(b, ' ');
    assert(s.take(a.len() as int) =~= a);
    assert(s.skip(a.len() as int + 1) =~= b);
    let parts = split(s, Pattern::One(' '));
    assert(split(b, Pattern::One(' ')) =~= seq![b]);
    assert(parts =~= seq![a, b]);
    lemma_sign('+', ahead);
    lemma_sign('-', behind);
    assert("+"@ =~= seq!['+']);
}

proof fn lemma_sign(sign: char, n: nat)
    requires
        sign == '+' || sign == '-',
        n <= u32::MAX,
    ensures
        parse_max(
            trim_start(seq![sign] + decimal(n), Pattern::Either('+', '-')),
            u32::MAX as nat,
        ) == Some(n),
{
    let s = seq![sign] + decimal(n);
    crate::text::lemma_decimal(n);
    crate::text::numbers_are_read_back(n, u32::MAX as nat);
    assert(s.skip(1) =~= decimal(n));
    assert(crate::text::is_digit(decimal(n)[0]));
    assert(trim_start(decimal(n), Pattern::Either('+', '-')) == decimal(n));
}

/// The lines of a file's part of a patch, from its header up to the next one, make up
/// its section, behind what was there before; they belong to no other file.
pub proof fn sections_hold_the_lines_of_their_file(
    before: Seq<Seq<char>>,
    header: Seq<char>,
    body: Seq<Seq<char>>,
    path: Seq<char>,
    other: Seq<char>,
)
    requires
        header == "diff --git "@ + ("a/"@ + path + " b/"@ + path) + "\n"@,
        path.len() > 0,
        path.last() != '\r',
        path.last() != '\n',
        forall|i: int|
            0 <= i < body.len() ==> strip_prefix(#[trigger] body[i], "diff --git "@) is None,
    ensures
        section(before + seq![header] + body, path) == Some(
            (match section(before, path) {
                Some(text) => text,
                None => seq![],
            }) + header + crate::text::concat(body),
        ),
        other != path ==> section(before + seq![header] + body, other) == section(before, other),
        section_path(before + seq![header] + body) == Some(path),
    decreases body.len(),
{
    let all = before + seq![header] + body;
    if body.len() == 0 {
        assert(all =~= before.push(header));
        assert(all.drop_last() =~= before);
        lemma_header(header, path);
        assert(crate::text::concat(body) =~= seq![]);
        let old = match section(before, path) {
            Some(text) => text,
            None => seq![],
        };
        assert(old + header + seq![] =~= old + header);
        assert(Seq::<char>::empty() + header =~= header);
    } else {
        let rest = body.drop_last();
        assert forall|i: int| 0 <= i < rest.len() implies strip_prefix(
            #[trigger] rest[i],
            "diff --git "@,
        ) is None by {
            assert(rest[i] == body[i]);
        }
        sections_hold_the_lines_of_their_file(before, header, rest, path, other);
        assert(all.drop_last() =~= before + seq![header] + rest);
        assert(all.last() == body.last());
        assert(body[body.len() - 1] == body.last());
        let old = match section(before, path) {
            Some(text) => text,
            None => seq![],
        };
        assert(old + header + crate::text::concat(rest) + body.last() =~= old + header
            + crate::text::concat(body));
    }
}

proof fn lemma_header(header: Seq<char>, path: Seq<char>)
    requires
        header == "diff --git "@ + ("a/"@ + path + " b/"@ + path) + "\n"@,
        path.len() > 0,
        path.last() != '\r',
        path.last() != '\n',
    ensures
        strip_prefix(header, "diff --git "@) matches Some(rest) && header_path(
            trim_end(rest, Pattern::Either('\n', '\r')),
        ) == Some(path),
{
    reveal_strlit("\n");
    let names = "a/"@ + path + " b/"@ + path;
    let p = "diff --git "@;
    assert(header.take(p.len() as int) =~= p);
    let rest = header.skip(p.len() as int);
    assert(rest =~= names + "\n"@);
    assert(rest.drop_last() =~= names);
    assert(names.last() == path.last());
    assert(trim_end(names, Pattern::Either('\n', '\r')) == names);
    headers_name_their_path(path);
}

/// The names of changed files are read in pairs: the first letter of the status, and the
/// path.
pub proof fn changed_files_are_read_in_pairs(
    fields: Seq<Seq<u8>>,
    pairs: Seq<(Seq<char>, Seq<char>)>,
    entries: Seq<(Seq<char>, Seq<char>)>,
)
    requires
        fields.len() == 2 * pairs.len(),
        forall|i: int|
            #![trigger pairs[i]]
            0 <= i < pairs.len() ==> utf8_text(fields[2 * i]) == Some(pairs[i].0) && pairs[i].0.len()
                > 0 && utf8_text(fields[2 * i + 1]) == Some(pairs[i].1),
    ensures
        read_entries(fields, entries) == Ok::<Seq<(Seq<char>, Seq<char>)>, Seq<char>>(
            entries + pairs.map_values(|p: (Seq<char>, Seq<char>)| (seq![p.0[0]], p.1)),
        ),
    decreases pairs.len(),
{
    let f = |p: (Seq<char>, Seq<char>)| (seq![p.0[0]], p.1);
    if pairs.len() > 0 {
        let t = pairs.skip(1);
        let rest = fields.skip(2);
        assert(pairs[0].0.take(1) =~= seq![pairs[0].0[0]]);
        assert(utf8_text(fields[2 * 0int]) == Some(pairs[0].0));
        assert(utf8_text(fields[2 * 0int + 1]) == Some(pairs[0].1));
        assert forall|i: int| #![trigger t[i]] 0 <= i < t.len() implies utf8_text(rest[2 * i])
            == Some(t[i].0) && t[i].0.len() > 0 && utf8_text(rest[2 * i + 1]) == Some(t[i].1) by {
            assert(t[i] == pairs[i + 1]);
            assert(rest[2 * i] == fields[2 * (i + 1)]);
            assert(rest[2 * i + 1] == fields[2 * (i + 1) + 1]);
        }
        let next = entries.push((pairs[0].0.take(1), pairs[0].1));
        changed_files_are_read_in_pairs(rest, t, next);
        assert(next + t.map_values(f) =~= entries + pairs.map_values(f));
    } else {
        assert(entries + pairs.map_values(f) =~= entries);
    }
}

} // verus!
