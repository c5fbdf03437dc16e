//! The changes of a working tree, and moving them in and out of the index.
use crate::git::Repo;
use crate::order::{sort, sorted, text_le, text_le_total, text_le_transitive, text_not_after, Keyed};
use crate::paths::{join_path, joined};
use crate::push::{check_focus, focused_on, refocused};
use crate::review::{safe, safe_text};
use crate::status::{lookup, Branch, BranchView, Change, ChangeView, Part, Section, Status};
use crate::text::{chars, decimal, number, push_decimal, same, views};
use vstd::prelude::*;

verus! {

// ---------------------------------------------------------------------------
// Unsaved buffers
// ---------------------------------------------------------------------------

/// A buffer of a file in the repository with edits that Git cannot see.
#[derive(Debug)]
pub struct Unsaved {
    pub path: String,
    pub document: u64,
}

impl Keyed for Unsaved {
    /// By path, and by document among buffers of one path.
    open spec fn le(&self, other: &Unsaved) -> bool {
        if self.path@ != other.path@ {
            text_le(self.path@, other.path@)
        } else {
            self.document <= other.document
        }
    }

    proof fn total(a: &Unsaved, b: &Unsaved) {
        text_le_total(a.path@, b.path@);
    }

    proof fn transitive(a: &Unsaved, b: &Unsaved, c: &Unsaved) {
        text_le_total(a.path@, b.path@);
        text_le_total(b.path@, c.path@);
        text_le_transitive(a.path@, b.path@, c.path@);
    }

    fn not_after(&self, other: &Unsaved) -> (r: bool) {
        let a = chars(&self.path);
        let b = chars(&other.path);
        if crate::text::equal(&a, &b) {
            self.document <= other.document
        } else {
            text_not_after(&a, &b)
        }
    }
}

/// Unsaved buffers by path.
pub fn unsaved_buffers(buffers: Vec<Unsaved>) -> (r: Vec<Unsaved>)
    ensures
        r@ == sorted(buffers@),
{
    sort(buffers)
}

// ---------------------------------------------------------------------------
// Rows
// ---------------------------------------------------------------------------

/// What the picker shows beside a row.
#[derive(Debug)]
pub enum Preview {
    /// A diff.
    Diff(String),
    /// The file itself, as far as it is one.
    File,
    Document(u64),
    Nothing,
}

#[derive(Debug)]
pub struct Row {
    pub change: Change,
    pub preview: Preview,
    /// The buffer of an `Unsaved` row.
    pub document: Option<u64>,
}

pub enum PreviewView {
    Diff(Seq<char>),
    File,
    Document(u64),
    Nothing,
}

pub struct RowView {
    pub change: ChangeView,
    pub preview: PreviewView,
    pub document: Option<u64>,
}

impl View for Row {
    type V = RowView;

    open spec fn view(&self) -> RowView {
        RowView {
            change: self.change@,
            preview: match self.preview {
                Preview::Diff(s) => PreviewView::Diff(s@),
                Preview::File => PreviewView::File,
                Preview::Document(d) => PreviewView::Document(d),
                Preview::Nothing => PreviewView::Nothing,
            },
            document: self.document,
        }
    }
}

pub open spec fn row_views(rows: Seq<Row>) -> Seq<RowView> {
    rows.map_values(|r: Row| r@)
}

pub open spec fn text_or_empty(t: Option<Seq<char>>) -> Seq<char> {
    match t {
        Some(t) => t,
        None => seq![],
    }
}

/// The sections of a rename's source and of the path itself.
pub open spec fn diff_of(change: ChangeView, sections: Seq<Section>) -> Seq<char> {
    (match change.orig {
        Some(orig) => text_or_empty(lookup(sections, orig, 0)),
        None => seq![],
    }) + text_or_empty(lookup(sections, change.path, 0))
}

/// The row of a change.
pub open spec fn change_row(
    change: ChangeView,
    staged: Seq<Section>,
    unstaged: Seq<Section>,
) -> RowView {
    let diff = match change.part {
        Part::Staged => diff_of(change, staged),
        _ => diff_of(change, unstaged),
    };
    RowView {
        change,
        preview: match change.part {
            Part::Staged | Part::Unstaged => if diff.len() > 0 {
                PreviewView::Diff(diff)
            } else {
                PreviewView::Nothing
            },
            Part::Untracked | Part::Conflict => PreviewView::File,
            Part::Unsaved => PreviewView::Nothing,
        },
        document: None,
    }
}

/// The row of an unsaved buffer.
pub open spec fn unsaved_row(u: Unsaved) -> RowView {
    RowView {
        change: ChangeView {
            path: u.path@,
            orig: None,
            part: Part::Unsaved,
            code: seq!['M'],
            partial: false,
        },
        preview: PreviewView::Document(u.document),
        document: Some(u.document),
    }
}

pub open spec fn rows_of(
    changes: Seq<ChangeView>,
    unsaved: Seq<Unsaved>,
    staged: Seq<Section>,
    unstaged: Seq<Section>,
) -> Seq<RowView> {
    unsaved.map_values(|u: Unsaved| unsaved_row(u)) + changes.map_values(
        |c: ChangeView| change_row(c, staged, unstaged),
    )
}

fn push_section(out: &mut String, sections: &Vec<Section>, path: &str)
    ensures
        final(out)@ == old(out)@ + text_or_empty(lookup(sections@, path@, 0)),
{
    let mut i: usize = 0;
    while i < sections.len()
        invariant
            i <= sections@.len(),
            out@ == old(out)@,
            lookup(sections@, path@, 0) == lookup(sections@, path@, i as int),
        decreases sections@.len() - i,
    {
        if same(&sections[i].path, path) {
            out.append(&sections[i].text);
            return;
        }
        i += 1;
    }
    assert(out@ =~= old(out)@ + text_or_empty(lookup(sections@, path@, 0)));
}

fn diff_text(change: &Change, sections: &Vec<Section>) -> (r: String)
    ensures
        r@ == diff_of(change@, sections@),
{
    let mut r = String::new();
    match &change.orig {
        Some(orig) => {
            push_section(&mut r, sections, orig);
        },
        None => {},
    }
    assert(r@ =~= match change@.orig {
        Some(orig) => text_or_empty(lookup(sections@, orig, 0)),
        None => seq![],
    });
    push_section(&mut r, sections, &change.path);
    r
}

impl Change {
    /// The same change once more.
    pub fn copy(&self) -> (r: Change)
        ensures
            r@ == self@,
            r.part == self.part,
            r.partial == self.partial,
    {
        Change {
            path: self.path.clone(),
            orig: match &self.orig {
                Some(o) => Some(o.clone()),
                None => None,
            },
            part: self.part,
            code: self.code,
            partial: self.partial,
        }
    }
}

/// The rows of the changes picker: unsaved buffers, then the changes Git knows.
pub fn load(
    status: &Status,
    unsaved: &Vec<Unsaved>,
    staged: &Vec<Section>,
    unstaged: &Vec<Section>,
) -> (r: Vec<Row>)
    ensures
        row_views(r@) == rows_of(status@.changes, unsaved@, staged@, unstaged@),
{
    let mut rows: Vec<Row> = Vec::new();
    let ghost first = unsaved@.map_values(|u: Unsaved| unsaved_row(u));
    let ghost second = status@.changes.map_values(
        |c: ChangeView| change_row(c, staged@, unstaged@),
    );
    let mut i: usize = 0;
    assert(row_views(rows@) =~= first.take(0));
    while i < unsaved.len()
        invariant
            i <= unsaved@.len(),
            first == unsaved@.map_values(|u: Unsaved| unsaved_row(u)),
            row_views(rows@) == first.take(i as int),
        decreases unsaved@.len() - i,
    {
        let ghost before = row_views(rows@);
        let row = Row {
            change: Change {
                path: unsaved[i].path.clone(),
                orig: None,
                part: Part::Unsaved,
                code: 'M',
                partial: false,
            },
            preview: Preview::Document(unsaved[i].document),
            document: Some(unsaved[i].document),
        };
        assert(row@ == unsaved_row(unsaved@[i as int]));
        rows.push(row);
        assert(row_views(rows@) =~= before.push(row@));
        assert(first.take(i as int + 1) =~= first.take(i as int).push(first[i as int]));
        i += 1;
    }
    assert(first.take(i as int) =~= first);
    let mut k: usize = 0;
    assert(row_views(rows@) =~= first + second.take(0));
    while k < status.changes.len()
        invariant
            k <= status.changes@.len(),
            second == status@.changes.map_values(
                |c: ChangeView| change_row(c, staged@, unstaged@),
            ),
            row_views(rows@) == first + second.take(k as int),
        decreases status.changes@.len() - k,
    {
        let ghost before = row_views(rows@);
        let change = &status.changes[k];
        assert(status@.changes[k as int] == change@);
        let preview = match change.part {
            Part::Staged | Part::Unstaged => {
                let diff = match change.part {
                    Part::Staged => diff_text(change, staged),
                    _ => diff_text(change, unstaged),
                };
                if chars(&diff).len() > 0 {
                    Preview::Diff(diff)
                } else {
                    Preview::Nothing
                }
            },
            Part::Untracked | Part::Conflict => Preview::File,
            Part::Unsaved => Preview::Nothing,
        };
        let row = Row { change: change.copy(), preview, document: None };
        assert(row@ == change_row(change@, staged@, unstaged@));
        rows.push(row);
        assert(row_views(rows@) =~= before.push(row@));
        assert(second.take(k as int + 1) =~= second.take(k as int).push(second[k as int]));
        assert(first + second.take(k as int + 1) =~= (first + second.take(k as int)).push(
            second[k as int],
        ));
        k += 1;
    }
    assert(second.take(k as int) =~= second);
    rows
}

// ---------------------------------------------------------------------------
// The status line
// ---------------------------------------------------------------------------

pub open spec fn branch_text(b: BranchView) -> Seq<char> {
    (match b.name {
        Some(name) => name,
        None => "detached HEAD"@,
    }) + (match b.upstream {
        Some(upstream) => " → "@ + upstream + (if b.ahead > 0 {
            " ↑"@ + decimal(b.ahead)
        } else {
            seq![]
        }) + (if b.behind > 0 {
            " ↓"@ + decimal(b.behind)
        } else {
            seq![]
        }),
        None => " (no upstream)"@,
    })
}

/// The branch, its upstream, and how far they are apart.
pub fn branch_line(branch: &Branch) -> (r: String)
    ensures
        r@ == safe(branch_text(branch@)),
{
    let mut line = match &branch.name {
        Some(name) => name.clone(),
        None => "detached HEAD".to_owned(),
    };
    let ghost name = line@;
    match &branch.upstream {
        Some(upstream) => {
            line.append(" → ");
            line.append(upstream);
            if branch.ahead > 0 {
                line.append(" ↑");
                push_decimal(&mut line, branch.ahead as u64);
            }
            if branch.behind > 0 {
                line.append(" ↓");
                push_decimal(&mut line, branch.behind as u64);
            }
        },
        None => {
            line.append(" (no upstream)");
        },
    }
    assert(line@ =~= branch_text(branch@));
    safe_text(&line)
}

/// How many of the rows are of `part`.
pub open spec fn count(rows: Seq<RowView>, part: Part) -> nat
    decreases rows.len(),
{
    if rows.len() == 0 {
        0
    } else {
        count(rows.drop_last(), part) + (if rows.last().change.part == part {
            1nat
        } else {
            0
        })
    }
}

fn count_rows(rows: &Vec<Row>, part: Part) -> (r: usize)
    ensures
        r == count(row_views(rows@), part),
{
    let ghost all = row_views(rows@);
    let mut n: usize = 0;
    let mut i: usize = 0;
    while i < rows.len()
        invariant
            i <= rows@.len(),
            n <= i,
            all == row_views(rows@),
            n == count(all.take(i as int), part),
        decreases rows@.len() - i,
    {
        assert(all.take(i as int + 1).drop_last() =~= all.take(i as int));
        assert(all[i as int] == rows@[i as int]@);
        if rows[i].change.part == part {
            n += 1;
        }
        i += 1;
    }
    assert(all.take(i as int) =~= all);
    n
}

pub open spec fn counts(rows: Seq<RowView>) -> Seq<char> {
    let conflicts = count(rows, Part::Conflict);
    let unsaved = count(rows, Part::Unsaved);
    decimal(count(rows, Part::Staged)) + " staged, "@ + decimal(count(rows, Part::Unstaged))
        + " unstaged, "@ + decimal(count(rows, Part::Untracked)) + " untracked"@ + (if conflicts
        > 0 {
        ", "@ + decimal(conflicts) + " conflicted"@
    } else {
        seq![]
    }) + (if unsaved > 0 {
        ", "@ + decimal(unsaved) + " unsaved buffer(s)"@
    } else {
        seq![]
    })
}

pub open spec fn status_text(branch: BranchView, rows: Seq<RowView>) -> Seq<char> {
    safe(branch_text(branch)) + (if rows.len() == 0 {
        " · nothing to commit, working tree clean"@
    } else {
        " · "@ + counts(rows)
            + " · Alt-s stage · Alt-a stage whole file · Alt-u unstage · Alt-c commit · Alt-p push"@
    })
}

/// What is said when the changes are shown.
pub fn status_line(branch: &Branch, rows: &Vec<Row>) -> (r: String)
    ensures
        r@ == status_text(branch@, row_views(rows@)),
{
    let mut r = branch_line(branch);
    let ghost line = r@;
    if rows.len() == 0 {
        r.append(" · nothing to commit, working tree clean");
        return r;
    }
    let mut c = number(count_rows(rows, Part::Staged));
    c.append(" staged, ");
    c.append(&number(count_rows(rows, Part::Unstaged)));
    c.append(" unstaged, ");
    c.append(&number(count_rows(rows, Part::Untracked)));
    c.append(" untracked");
    let conflicts: usize = count_rows(rows, Part::Conflict);
    if conflicts > 0 {
        c.append(", ");
        c.append(&number(conflicts));
        c.append(" conflicted");
    }
    let unsaved: usize = count_rows(rows, Part::Unsaved);
    if unsaved > 0 {
        c.append(", ");
        c.append(&number(unsaved));
        c.append(" unsaved buffer(s)");
    }
    assert(c@ =~= counts(row_views(rows@)));
    let hints = " · Alt-s stage · Alt-a stage whole file · Alt-u unstage · Alt-c commit · Alt-p push";
    r.append(" · ");
    r.append(&c);
    r.append(hints);
    assert(r@ =~= line + (" · "@ + counts(row_views(rows@)) + hints@));
    r
}

/// The first row of `path` from index `i` on, of any part or of `part`.
pub open spec fn row_at(
    rows: Seq<RowView>,
    path: Seq<char>,
    part: Option<Part>,
    i: int,
) -> Option<int>
    decreases rows.len() - i,
{
    if i < 0 || i >= rows.len() {
        None
    } else if rows[i].change.path == path && (part is Some ==> rows[i].change.part == part->0) {
        Some(i)
    } else {
        row_at(rows, path, part, i + 1)
    }
}

fn find_row(rows: &Vec<Row>, path: &str, part: Option<Part>) -> (r: Option<usize>)
    ensures
        match r {
            Some(i) => i < rows@.len() && row_at(row_views(rows@), path@, part, 0) == Some(
                i as int,
            ),
            None => row_at(row_views(rows@), path@, part, 0) is None,
        },
{
    let ghost all = row_views(rows@);
    let mut i: usize = 0;
    while i < rows.len()
        invariant
            i <= rows@.len(),
            all == row_views(rows@),
            row_at(all, path@, part, 0) == row_at(all, path@, part, i as int),
        decreases rows@.len() - i,
    {
        assert(all[i as int] == rows@[i as int]@);
        let fits = match part {
            Some(p) => rows[i].change.part == p,
            None => true,
        };
        if fits && same(&rows[i].change.path, path) {
            return Some(i);
        }
        i += 1;
    }
    None
}

pub open spec fn start_row(rows: Seq<RowView>, select: Option<(&str, Part)>) -> int {
    match select {
        Some((path, part)) => match row_at(rows, path@, Some(part), 0) {
            Some(i) => i,
            None => match row_at(rows, path@, None, 0) {
                Some(i) => i,
                None => 0,
            },
        },
        None => 0,
    }
}

/// The row to start at: the one that was acted on, else another of its file, else
/// the first.
pub fn initial_row(rows: &Vec<Row>, select: Option<(&str, Part)>) -> (r: usize)
    ensures
        r == start_row(row_views(rows@), select),
{
    match select {
        Some((path, part)) => match find_row(rows, path, Some(part)) {
            Some(i) => i,
            None => match find_row(rows, path, None) {
                Some(i) => i,
                None => 0,
            },
        },
        None => 0,
    }
}

/// The changes of the repository at `root` are shown: what is said, and the row to
/// start at where there are any; or why they are not shown.
pub fn show(
    repo: Option<&Repo>,
    root: &str,
    loaded: Result<(&Branch, &Vec<Row>), &str>,
    select: Option<(&str, Part)>,
) -> (r: Result<(String, Option<usize>), String>)
    ensures
        match loaded {
            Err(e) => r matches Err(m) && m@ == safe("Git status: "@ + e@),
            Ok((branch, rows)) => if !focused_on(repo, root@) {
                r matches Err(m) && m@ == refocused(":git-status"@)
            } else {
                r matches Ok((status, row)) && status@ == status_text(
                    branch@,
                    row_views(rows@),
                ) && row == (if rows@.len() == 0 {
                    None
                } else {
                    Some(start_row(row_views(rows@), select) as usize)
                })
            },
        },
{
    let (branch, rows) = match loaded {
        Ok(loaded) => loaded,
        Err(e) => {
            let mut m = "Git status: ".to_owned();
            m.append(e);
            return Err(safe_text(&m));
        },
    };
    match check_focus(repo, root, ":git-status") {
        Ok(_) => {},
        Err(e) => return Err(e),
    }
    let row = if rows.len() == 0 { None } else { Some(initial_row(rows, select)) };
    Ok((status_line(branch, rows), row))
}

/// What opening a row does.
#[derive(Debug)]
pub enum Opening {
    /// The buffer was closed meanwhile.
    Nothing,
    /// Go to the buffer.
    Switch(u64),
    /// Open the file.
    File(String),
    Refuse(String),
}

/// Open a row of the changes: the buffer with unsaved edits, if it is still there
/// (`open`), or else the file in the working tree, if it is one (`file`).
pub fn open_row(root: &str, row: &Row, open: bool, file: bool) -> (r: Opening)
    ensures
        match (row.document, r) {
            (Some(document), Opening::Switch(d)) => open && d == document,
            (Some(_), Opening::Nothing) => !open,
            (None, Opening::File(path)) => file && path@ == joined(root@, row.change.path@),
            (None, Opening::Refuse(e)) => !file && e@ == row.change.path@
                + " is not a file in the working tree"@,
            _ => false,
        },
{
    match row.document {
        Some(document) => if open {
            Opening::Switch(document)
        } else {
            Opening::Nothing
        },
        None => if file {
            Opening::File(join_path(root, &row.change.path))
        } else {
            let mut e = row.change.path.clone();
            e.append(" is not a file in the working tree");
            Opening::Refuse(e)
        },
    }
}

/// The file of a row cannot be opened.
pub fn cannot_open(row: &Row, problem: &str) -> (r: String)
    ensures
        r@ == "Cannot open "@ + row.change.path@ + ": "@ + problem@,
{
    let mut r = "Cannot open ".to_owned();
    r.append(&row.change.path);
    r.append(": ");
    r.append(problem);
    r
}

// ---------------------------------------------------------------------------
// Staging
// ---------------------------------------------------------------------------

#[derive(Clone, Copy, Debug, PartialEq, Eq, Structural)]
pub enum IndexAction {
    Stage,
    StageWhole,
    Unstage,
}

/// What an action on a row does.
#[derive(Debug)]
pub enum IndexStep {
    Refuse(String),
    /// Nothing is to be done, and this is said.
    Already(String),
    /// Run Git with these arguments, and say this when it is done.
    Run(Vec<String>, String),
}

/// What an action does to the index.
pub enum StepView {
    Refuse(Seq<char>),
    Already(Seq<char>),
    Run(Seq<Seq<char>>),
}

pub open spec fn with_paths(args: Seq<Seq<char>>, change: ChangeView) -> Seq<Seq<char>> {
    args + (match change.orig {
        Some(orig) => seq![orig],
        None => seq![],
    }) + seq![change.path]
}

/// What `action` does to the file of `change`; `initial` before the first commit.
pub open spec fn step(action: IndexAction, change: ChangeView, initial: bool) -> StepView {
    let path = change.path;
    if change.part == Part::Unsaved {
        StepView::Refuse(
            path
                + " has unsaved edits; save it before staging (Git only sees saved files)"@,
        )
    } else if change.part == Part::Conflict {
        StepView::Refuse(path + " has merge conflicts; resolve them before staging"@)
    } else if action == IndexAction::Unstage {
        if change.part == Part::Unstaged && !change.partial {
            StepView::Refuse(path + " has no staged changes"@)
        } else if change.part == Part::Untracked {
            StepView::Refuse(path + " is untracked, not staged"@)
        } else if initial {
            StepView::Run(with_paths(seq!["rm"@, "--cached"@, "--quiet"@, "--"@], change))
        } else {
            StepView::Run(with_paths(seq!["restore"@, "--staged"@, "--"@], change))
        }
    } else if change.part == Part::Staged && !change.partial {
        StepView::Already(path + " is already staged"@)
    } else if action == IndexAction::Stage && change.partial {
        StepView::Refuse(
            path
                + " is partly staged; Alt-a stages the whole file, including its unstaged changes"@,
        )
    } else {
        StepView::Run(seq!["add"@, "--"@, path])
    }
}

/// What is said when an action is done.
pub open spec fn done_text(action: IndexAction, path: Seq<char>) -> Seq<char> {
    match action {
        IndexAction::Stage => "Staged "@ + path,
        IndexAction::StageWhole => "Staged all of "@ + path,
        IndexAction::Unstage => "Unstaged "@ + path
            + "; its changes remain in the working tree"@,
    }
}

fn say(path: &str, rest: &str) -> (r: String)
    ensures
        r@ == path@ + rest@,
{
    let mut r = path.to_owned();
    r.append(rest);
    r
}

fn push_paths(args: &mut Vec<String>, change: &Change)
    ensures
        views(final(args)@) == with_paths(views(old(args)@), change@),
{
    let ghost start = views(args@);
    match &change.orig {
        Some(orig) => {
            args.push(orig.clone());
            assert(views(args@) =~= start.push(orig@));
        },
        None => {},
    }
    let ghost middle = views(args@);
    args.push(change.path.clone());
    assert(views(args@) =~= middle.push(change.path@));
    assert(views(args@) =~= with_paths(start, change@));
}

/// Stage or unstage the file of a row. Nothing is staged while a commit runs.
pub fn index_action(
    change: &Change,
    action: IndexAction,
    initial: bool,
    running: Option<&str>,
) -> (r: IndexStep)
    ensures
        match (step(action, change@, initial), r) {
            (StepView::Refuse(m), IndexStep::Refuse(e)) => e@ == m,
            (StepView::Already(m), IndexStep::Already(e)) => e@ == m,
            (StepView::Run(args), IndexStep::Run(a, done)) => !commits(running) && views(a@)
                == args && done@ == done_text(action, change.path@),
            (StepView::Run(_), IndexStep::Refuse(e)) => commits(running) && e@
                == "A commit is running in this repository; stage after it finishes"@,
            _ => false,
        },
        r is Already ==> change.part == Part::Staged && !change.partial && action
            != IndexAction::Unstage,
        action != IndexAction::Unstage && !change.partial && (change.part == Part::Unstaged
            || change.part == Part::Untracked) && !(running is Some && running->0@ == "commit"@)
            ==> (r matches IndexStep::Run(args, _) && views(args@) == seq![
            "add"@,
            "--"@,
            change.path@,
        ]),
{
    let path: &str = &change.path;
    let mut args: Vec<String> = Vec::new();
    match change.part {
        Part::Unsaved => {
            return IndexStep::Refuse(
                say(
                    path,
                    " has unsaved edits; save it before staging (Git only sees saved files)",
                ),
            );
        },
        Part::Conflict => {
            return IndexStep::Refuse(
                say(path, " has merge conflicts; resolve them before staging"),
            );
        },
        _ => {},
    }
    match action {
        IndexAction::Unstage => {
            match change.part {
                Part::Unstaged => {
                    if !change.partial {
                        return IndexStep::Refuse(say(path, " has no staged changes"));
                    }
                },
                Part::Untracked => {
                    return IndexStep::Refuse(say(path, " is untracked, not staged"));
                },
                _ => {},
            }
            if initial {
                args.push("rm".to_owned());
                args.push("--cached".to_owned());
                args.push("--quiet".to_owned());
                args.push("--".to_owned());
                assert(views(args@) =~= seq!["rm"@, "--cached"@, "--quiet"@, "--"@]);
            } else {
                args.push("restore".to_owned());
                args.push("--staged".to_owned());
                args.push("--".to_owned());
                assert(views(args@) =~= seq!["restore"@, "--staged"@, "--"@]);
            }
            push_paths(&mut args, change);
        },
        _ => {
            if change.part == Part::Staged && !change.partial {
                return IndexStep::Already(say(path, " is already staged"));
            }
            if action == IndexAction::Stage && change.partial {
                return IndexStep::Refuse(
                    say(
                        path,
                        " is partly staged; Alt-a stages the whole file, including its unstaged changes",
                    ),
                );
            }
            args.push("add".to_owned());
            args.push("--".to_owned());
            args.push(path.to_owned());
            assert(views(args@) =~= seq!["add"@, "--"@, path@]);
        },
    }
    let busy = match running {
        Some(what) => same(what, "commit"),
        None => false,
    };
    if busy {
        return IndexStep::Refuse(
            "A commit is running in this repository; stage after it finishes".to_owned(),
        );
    }
    let mut done = match action {
        IndexAction::Stage => "Staged ",
        IndexAction::StageWhole => "Staged all of ",
        IndexAction::Unstage => "Unstaged ",
    }.to_owned();
    done.append(path);
    match action {
        IndexAction::Unstage => {
            done.append("; its changes remain in the working tree");
        },
        _ => {},
    }
    IndexStep::Run(args, done)
}

/// A commit is running.
pub open spec fn commits(running: Option<&str>) -> bool {
    match running {
        Some(what) => what@ == "commit"@,
        None => false,
    }
}

/// Staging a partly staged file asks for the whole file; it never takes the rest
/// of it into the index silently.
pub proof fn partly_staged_files_are_not_extended(change: ChangeView, initial: bool)
    requires
        change.partial,
    ensures
        !(step(IndexAction::Stage, change, initial) is Run),
{
}

/// Files with conflicts and unsaved edits never move in or out of the index.
pub proof fn unfinished_files_are_not_staged(
    action: IndexAction,
    change: ChangeView,
    initial: bool,
)
    requires
        change.part == Part::Conflict || change.part == Part::Unsaved,
    ensures
        step(action, change, initial) is Refuse,
{
}

/// What the index lacks can be staged: a file with unstaged changes, or a new one, is
/// added by its path and nothing else; a partly staged one on request for the whole
/// file. A file is called staged already only if all of its changes are in the index.
pub proof fn what_the_index_lacks_is_added(
    action: IndexAction,
    change: ChangeView,
    initial: bool,
)
    requires
        action == IndexAction::Stage || action == IndexAction::StageWhole,
    ensures
        (change.part == Part::Unstaged || change.part == Part::Untracked) && !change.partial ==> (
        step(action, change, initial) matches StepView::Run(args) && args == seq![
            "add"@,
            "--"@,
            change.path,
        ]),
        action == IndexAction::StageWhole && change.partial && change.part != Part::Unsaved
            && change.part != Part::Conflict ==> (step(action, change, initial) matches StepView::Run(
            args,
        ) && args == seq!["add"@, "--"@, change.path]),
        step(action, change, initial) is Already <==> change.part == Part::Staged
            && !change.partial,
        step(action, change, initial) matches StepView::Already(m) ==> m == change.path
            + " is already staged"@,
        step(action, change, initial) is Refuse <==> change.part == Part::Unsaved || change.part
            == Part::Conflict || (change.partial && action == IndexAction::Stage),
{
}

/// What the index holds of a file can be taken out again, and only that: a staged or
/// partly staged file is unstaged, with the source of its rename; the working tree is
/// left as it is. Before the first commit there is nothing to restore from.
pub proof fn what_the_index_holds_is_taken_out(change: ChangeView, initial: bool)
    ensures
        step(IndexAction::Unstage, change, initial) is Run <==> change.part == Part::Staged || (
        change.part == Part::Unstaged && change.partial),
        !(step(IndexAction::Unstage, change, initial) is Already),
        step(IndexAction::Unstage, change, initial) matches StepView::Run(args) ==> {
            let named = if change.orig is Some {
                2int
            } else {
                1int
            };
            &&& args.len() == named + if initial {
                4int
            } else {
                3int
            }
            &&& args.last() == change.path
            &&& change.orig is Some ==> args[args.len() - 2] == change.orig->0
            &&& args[args.len() - named - 1] == "--"@
            &&& initial ==> args[0] == "rm"@ && args[1] == "--cached"@ && args[2] == "--quiet"@
            &&& !initial ==> args[0] == "restore"@ && args[1] == "--staged"@
        },
{
}

/// Moving a file in and out of the index are opposite: no file is both called staged
/// already and refused to be unstaged, and what can be added as a whole but not taken
/// out is in no part in the index.
pub proof fn staging_and_unstaging_are_opposite(change: ChangeView, initial: bool)
    ensures
        step(IndexAction::Stage, change, initial) is Already ==> step(
            IndexAction::Unstage,
            change,
            initial,
        ) is Run,
        step(IndexAction::Stage, change, initial) is Run ==> step(
            IndexAction::Unstage,
            change,
            initial,
        ) is Refuse,
        change.partial && (change.part == Part::Staged || change.part == Part::Unstaged) ==> step(
            IndexAction::StageWhole,
            change,
            initial,
        ) is Run && step(IndexAction::Unstage, change, initial) is Run,
{
}

/// What Git is run with names the path of the row last, behind `--`: no path is
/// taken for an option.
pub proof fn paths_are_never_options(action: IndexAction, change: ChangeView, initial: bool)
    ensures
        step(action, change, initial) matches StepView::Run(args) ==> {
            &&& args.len() > 2
            &&& args.last() == change.path
            &&& exists|i: int| 0 <= i < args.len() - 1 && #[trigger] args[i] == "--"@
        },
{
    match step(action, change, initial) {
        StepView::Run(args) => {
            if action == IndexAction::Unstage {
                if initial {
                    assert(args[3] == "--"@);
                } else {
                    assert(args[2] == "--"@);
                }
            } else {
                assert(args[1] == "--"@);
            }
        },
        _ => {},
    }
}

/// What a row shows beside it is of its own side of the index: staged changes show the
/// staged difference, unstaged ones the unstaged one, new and conflicted files the file.
pub proof fn previews_show_the_side_of_their_row(
    change: ChangeView,
    staged: Seq<Section>,
    unstaged: Seq<Section>,
    diff: Seq<char>,
)
    requires
        diff.len() > 0,
        change.orig is None,
    ensures
        change_row(change, staged, unstaged).change == change,
        change_row(change, staged, unstaged).document is None,
        change.part == Part::Staged && lookup(staged, change.path, 0) == Some(diff) ==> change_row(
            change,
            staged,
            unstaged,
        ).preview == PreviewView::Diff(diff),
        change.part == Part::Unstaged && lookup(unstaged, change.path, 0) == Some(diff)
            ==> change_row(change, staged, unstaged).preview == PreviewView::Diff(diff),
        change.part == Part::Untracked || change.part == Part::Conflict ==> change_row(
            change,
            staged,
            unstaged,
        ).preview == PreviewView::File,
{
    assert(Seq::<char>::empty() + diff =~= diff);
}

/// A rename shows what was taken from its source, then what is in its own file.
pub proof fn previews_of_renames_show_both_files(
    change: ChangeView,
    staged: Seq<Section>,
    unstaged: Seq<Section>,
    orig: Seq<char>,
    before: Seq<char>,
    after: Seq<char>,
)
    requires
        change.part == Part::Staged,
        change.orig == Some(orig),
        lookup(staged, orig, 0) == Some(before),
        lookup(staged, change.path, 0) == Some(after),
        (before + after).len() > 0,
    ensures
        change_row(change, staged, unstaged).preview == PreviewView::Diff(before + after),
{
}

/// The first row of the path, and of the part where one is asked for.
pub proof fn rows_are_found_by_path_and_part(
    rows: Seq<RowView>,
    path: Seq<char>,
    part: Option<Part>,
    from: int,
)
    requires
        0 <= from,
    ensures
        match row_at(rows, path, part, from) {
            Some(i) => from <= i < rows.len() && rows[i].change.path == path && (part matches Some(
                p,
            ) ==> rows[i].change.part == p) && forall|k: int|
                from <= k < i ==> !((#[trigger] rows[k]).change.path == path && (part matches Some(
                    p,
                ) ==> rows[k].change.part == p)),
            None => forall|k: int|
                from <= k < rows.len() ==> !((#[trigger] rows[k]).change.path == path && (
                part matches Some(p) ==> rows[k].change.part == p)),
        },
    decreases rows.len() - from,
{
    if from < rows.len() {
        rows_are_found_by_path_and_part(rows, path, part, from + 1);
    }
}

/// The list starts at the row that was acted on where it is still there, else at another
/// of its file, else at the top.
pub proof fn the_list_starts_where_it_was_left(
    rows: Seq<RowView>,
    path: &str,
    part: Part,
    i: int,
)
    requires
        0 <= i < rows.len(),
        rows[i].change.path == path@,
    ensures
        ({
            let start = start_row(rows, Some((path, part)));
            &&& 0 <= start < rows.len()
            &&& rows[start].change.path == path@
            &&& rows[i].change.part == part ==> rows[start].change.part == part
        }),
        start_row(rows, None) == 0,
{
    rows_are_found_by_path_and_part(rows, path@, Some(part), 0);
    rows_are_found_by_path_and_part(rows, path@, None, 0);
}

/// Every row counts for its own part, and for no other.
pub proof fn rows_count_for_their_part(rows: Seq<RowView>, row: RowView, part: Part)
    ensures
        count(rows.push(row), part) == count(rows, part) + if row.change.part == part {
            1nat
        } else {
            0
        },
        count(Seq::<RowView>::empty(), part) == 0,
{
    assert(rows.push(row).drop_last() =~= rows);
}

} // verus!
