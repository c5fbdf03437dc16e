//! Commands of a debug session: breakpoints, stepping, frames and watches.
use crate::paths::{file_name, name_of};
use crate::session::Message;
use crate::status::text_view;
use crate::text::{
    chars, decimal, join, join_texts, listed, number, push_decimal, same, strip, text, trimmed,
    views,
};
use vstd::prelude::*;

verus! {

// ---------------------------------------------------------------------------
// Breakpoints
// ---------------------------------------------------------------------------

/// A breakpoint of a file.
#[derive(Debug)]
pub struct Breakpoint {
    /// Counted from 0.
    pub line: usize,
    /// The debugger has set it.
    pub verified: bool,
    pub condition: Option<String>,
    pub log_message: Option<String>,
    /// It goes when the program stops.
    pub temporary: bool,
}

pub open spec fn plain_breakpoint(line: usize, temporary: bool) -> Breakpoint {
    Breakpoint { line, verified: false, condition: None, log_message: None, temporary }
}

/// The index of the first breakpoint from `i` on at a line; the number of
/// breakpoints if there is none.
pub open spec fn at_line(breakpoints: Seq<Breakpoint>, line: usize, i: int) -> int
    decreases breakpoints.len() - i,
{
    if i < 0 || i >= breakpoints.len() {
        breakpoints.len() as int
    } else if breakpoints[i].line == line {
        i
    } else {
        at_line(breakpoints, line, i + 1)
    }
}

proof fn lemma_at_line(breakpoints: Seq<Breakpoint>, line: usize, i: int)
    requires
        0 <= i <= breakpoints.len(),
    ensures
        i <= at_line(breakpoints, line, i) <= breakpoints.len(),
        at_line(breakpoints, line, i) < breakpoints.len() ==> breakpoints[at_line(
            breakpoints,
            line,
            i,
        )].line == line,
        forall|k: int|
            i <= k < at_line(breakpoints, line, i) ==> (#[trigger] breakpoints[k]).line != line,
    decreases breakpoints.len() - i,
{
    if i < breakpoints.len() {
        lemma_at_line(breakpoints, line, i + 1);
    }
}

fn find_line(breakpoints: &Vec<Breakpoint>, line: usize) -> (r: usize)
    ensures
        r == at_line(breakpoints@, line, 0),
        r <= breakpoints@.len(),
{
    let mut i: usize = 0;
    while i < breakpoints.len()
        invariant
            i <= breakpoints@.len(),
            at_line(breakpoints@, line, 0) == at_line(breakpoints@, line, i as int),
        decreases breakpoints@.len() - i,
    {
        if breakpoints[i].line == line {
            return i;
        }
        i += 1;
    }
    i
}

/// The breakpoints without the first one at the line, or with a new one if there is
/// none.
pub open spec fn toggled(breakpoints: Seq<Breakpoint>, line: usize) -> Seq<Breakpoint> {
    let i = at_line(breakpoints, line, 0);
    if i < breakpoints.len() {
        breakpoints.remove(i)
    } else {
        breakpoints.push(plain_breakpoint(line, false))
    }
}

/// The breakpoints with one at the line: a temporary one if there is no other.
pub open spec fn stopping_at(breakpoints: Seq<Breakpoint>, line: usize) -> Seq<Breakpoint> {
    if at_line(breakpoints, line, 0) < breakpoints.len() {
        breakpoints
    } else {
        breakpoints.push(plain_breakpoint(line, true))
    }
}

/// Toggling twice at a line without a breakpoint changes nothing.
pub proof fn toggling_twice_changes_nothing(breakpoints: Seq<Breakpoint>, line: usize)
    requires
        at_line(breakpoints, line, 0) == breakpoints.len(),
    ensures
        toggled(toggled(breakpoints, line), line) == breakpoints,
{
    let once = toggled(breakpoints, line);
    lemma_at_line(breakpoints, line, 0);
    lemma_at_line(once, line, 0);
    let i = at_line(once, line, 0);
    if i < breakpoints.len() {
        assert(once[i] == breakpoints[i]);
    }
    assert(once[breakpoints.len() as int].line == line);
    assert(once.remove(i) =~= breakpoints);
}

/// No two breakpoints are at one line.
pub open spec fn distinct_lines(breakpoints: Seq<Breakpoint>) -> bool {
    forall|i: int, j: int|
        0 <= i < j < breakpoints.len() ==> (#[trigger] breakpoints[i]).line != (
        #[trigger] breakpoints[j]).line
}

/// Neither toggling nor running to a line puts two breakpoints at one line.
pub proof fn lines_have_one_breakpoint(breakpoints: Seq<Breakpoint>, line: usize)
    requires
        distinct_lines(breakpoints),
    ensures
        distinct_lines(toggled(breakpoints, line)),
        distinct_lines(stopping_at(breakpoints, line)),
{
    lemma_at_line(breakpoints, line, 0);
    let n = at_line(breakpoints, line, 0);
    let next = toggled(breakpoints, line);
    if n < breakpoints.len() {
        assert forall|i: int, j: int| 0 <= i < j < next.len() implies (#[trigger] next[i]).line != (
        #[trigger] next[j]).line by {
            let a = if i < n {
                i
            } else {
                i + 1
            };
            let b = if j < n {
                j
            } else {
                j + 1
            };
            assert(next[i] == breakpoints[a]);
            assert(next[j] == breakpoints[b]);
        }
    }
}

/// The breakpoints of a file.
#[derive(Debug)]
pub struct FileBreakpoints {
    pub path: String,
    pub breakpoints: Vec<Breakpoint>,
}

/// The breakpoints of all files.
#[derive(Debug)]
pub struct Breakpoints {
    pub files: Vec<FileBreakpoints>,
}

/// The index of the first entry from `i` on for a path.
pub open spec fn file_at(files: Seq<FileBreakpoints>, path: Seq<char>, i: int) -> int
    decreases files.len() - i,
{
    if i < 0 || i >= files.len() {
        files.len() as int
    } else if files[i].path@ == path {
        i
    } else {
        file_at(files, path, i + 1)
    }
}

impl Breakpoints {
    /// Each file has one entry.
    pub open spec fn well_formed(&self) -> bool {
        forall|i: int, j: int|
            0 <= i < j < self.files@.len() ==> (#[trigger] self.files@[i]).path@ != (
            #[trigger] self.files@[j]).path@
    }

    /// The breakpoints of a file.
    pub open spec fn of(&self, path: Seq<char>) -> Seq<Breakpoint> {
        let i = file_at(self.files@, path, 0);
        if i < self.files@.len() {
            self.files@[i].breakpoints@
        } else {
            seq![]
        }
    }

    pub fn new() -> (r: Breakpoints)
        ensures
            r.well_formed(),
            r.files@.len() == 0,
    {
        Breakpoints { files: Vec::new() }
    }
}

proof fn lemma_file_at(files: Seq<FileBreakpoints>, path: Seq<char>, i: int)
    requires
        0 <= i <= files.len(),
    ensures
        i <= file_at(files, path, i) <= files.len(),
        file_at(files, path, i) < files.len() ==> files[file_at(files, path, i)].path@ == path,
        forall|k: int| i <= k < file_at(files, path, i) ==> (#[trigger] files[k]).path@ != path,
    decreases files.len() - i,
{
    if i < files.len() {
        lemma_file_at(files, path, i + 1);
    }
}

proof fn lemma_file_is(files: Seq<FileBreakpoints>, path: Seq<char>, i: int)
    requires
        0 <= i <= files.len(),
        i < files.len() ==> files[i].path@ == path,
        forall|k: int| 0 <= k < i ==> (#[trigger] files[k]).path@ != path,
    ensures
        file_at(files, path, 0) == i,
{
    lemma_file_at(files, path, 0);
    let j = file_at(files, path, 0);
    if j < i {
        assert(files[j].path@ != path);
    }
    if i < j {
        assert(files[i].path@ != path);
    }
}

fn find_file(files: &Vec<FileBreakpoints>, path: &str) -> (r: usize)
    ensures
        r == file_at(files@, path@, 0),
        r <= files@.len(),
{
    let mut i: usize = 0;
    while i < files.len()
        invariant
            i <= files@.len(),
            file_at(files@, path@, 0) == file_at(files@, path@, i as int),
        decreases files@.len() - i,
    {
        if same(&files[i].path, path) {
            return i;
        }
        i += 1;
    }
    i
}

/// The entry of a file, made if it is missing.
fn entry(all: &mut Breakpoints, path: &str) -> (r: usize)
    requires
        old(all).well_formed(),
    ensures
        final(all).well_formed(),
        r == file_at(final(all).files@, path@, 0),
        r < final(all).files@.len(),
        forall|p: Seq<char>| #[trigger] final(all).of(p) == old(all).of(p),
{
    let i: usize = find_file(&all.files, path);
    if i == all.files.len() {
        let ghost before = all.files@;
        proof {
            lemma_file_at(before, path@, 0);
        }
        all.files.push(FileBreakpoints { path: path.to_owned(), breakpoints: Vec::new() });
        let ghost after = all.files@;
        assert forall|p: Seq<char>| #[trigger] all.of(p) == old(all).of(p) by {
            lemma_file_at(before, p, 0);
            let k = file_at(before, p, 0);
            if k < before.len() {
                assert forall|m: int| 0 <= m < k implies (#[trigger] after[m]).path@ != p by {
                    assert(after[m] == before[m]);
                }
                assert(after[k] == before[k]);
                lemma_file_is(after, p, k);
            } else {
                assert forall|m: int| 0 <= m < before.len() implies (#[trigger] after[m]).path@
                    != p by {
                    assert(after[m] == before[m]);
                }
                if p == path@ {
                    lemma_file_is(after, p, before.len() as int);
                    assert(all.of(p) =~= seq![]);
                } else {
                    lemma_file_is(after, p, after.len() as int);
                }
            }
        }
        assert forall|m: int| 0 <= m < before.len() implies (#[trigger] after[m]).path@ != path@ by {
            assert(after[m] == before[m]);
        }
        proof {
            lemma_file_is(after, path@, before.len() as int);
        }
    }
    i
}

/// Changing the breakpoints of one entry changes those of its file alone.
proof fn lemma_changed(before: Breakpoints, after: Breakpoints, i: int)
    requires
        before.well_formed(),
        0 <= i < before.files@.len(),
        after.files@.len() == before.files@.len(),
        after.files@[i].path@ == before.files@[i].path@,
        forall|k: int|
            0 <= k < before.files@.len() && k != i ==> #[trigger] after.files@[k]
                == before.files@[k],
    ensures
        after.well_formed(),
        after.of(before.files@[i].path@) == after.files@[i].breakpoints@,
        forall|p: Seq<char>|
            p != before.files@[i].path@ ==> #[trigger] after.of(p) == before.of(p),
{
    assert forall|k: int| 0 <= k < before.files@.len() implies (#[trigger] after.files@[k]).path@
        == before.files@[k].path@ by {}
    let path = before.files@[i].path@;
    assert forall|k: int| 0 <= k < i implies (#[trigger] after.files@[k]).path@ != path by {
        assert(before.files@[k].path@ != before.files@[i].path@);
    }
    lemma_file_is(after.files@, path, i);
    assert forall|p: Seq<char>| p != path implies #[trigger] after.of(p) == before.of(p) by {
        lemma_file_at(before.files@, p, 0);
        let k = file_at(before.files@, p, 0);
        assert forall|m: int| 0 <= m < k implies (#[trigger] after.files@[m]).path@ != p by {
            assert(before.files@[m].path@ != p);
        }
        lemma_file_is(after.files@, p, k);
    }
}

/// Sets a breakpoint at a line of a file, or removes the one that is there.
pub fn dap_toggle_breakpoint_impl(all: &mut Breakpoints, path: &str, line: usize)
    requires
        old(all).well_formed(),
    ensures
        final(all).well_formed(),
        final(all).of(path@) == toggled(old(all).of(path@), line),
        forall|p: Seq<char>| p != path@ ==> #[trigger] final(all).of(p) == old(all).of(p),
{
    let i: usize = entry(all, path);
    let ghost before = *all;
    proof {
        lemma_file_at(before.files@, path@, 0);
    }
    let at: usize = find_line(&all.files[i].breakpoints, line);
    if at < all.files[i].breakpoints.len() {
        let _removed = all.files[i].breakpoints.remove(at);
    } else {
        all.files[i].breakpoints.push(
            Breakpoint {
                line,
                verified: false,
                condition: None,
                log_message: None,
                temporary: false,
            },
        );
    }
    proof {
        lemma_changed(before, *all, i as int);
        assert(before.of(path@) == old(all).of(path@));
        assert forall|p: Seq<char>| p != path@ implies #[trigger] all.of(p) == old(all).of(p) by {
            assert(before.of(p) == old(all).of(p));
        }
    }
}

pub const NO_PATH: &'static str = "Can't set breakpoint: document has no path";

/// Toggles the breakpoint at a line of a document, which may have no path.
pub fn dap_toggle_breakpoint(all: &mut Breakpoints, path: Option<&str>, line: usize) -> (r: Result<
    (),
    &'static str,
>)
    requires
        old(all).well_formed(),
    ensures
        final(all).well_formed(),
        match path {
            Some(path) => r is Ok && final(all).of(path@) == toggled(old(all).of(path@), line)
                && forall|p: Seq<char>|
                p != path@ ==> #[trigger] final(all).of(p) == old(all).of(p),
            None => (r matches Err(e) && e@ == NO_PATH@) && *final(all) == *old(all),
        },
{
    match path {
        Some(path) => {
            dap_toggle_breakpoint_impl(all, path, line);
            Ok(())
        },
        None => Err(NO_PATH),
    }
}

/// The breakpoint at a line of a document.
pub fn get_breakpoint_at_current_line<'a>(
    all: &'a Breakpoints,
    path: Option<&str>,
    line: usize,
) -> (r: Option<(usize, &'a Breakpoint)>)
    ensures
        match path {
            Some(path) => {
                let i = at_line(all.of(path@), line, 0);
                match r {
                    Some((at, breakpoint)) => at == i && i < all.of(path@).len() && *breakpoint
                        == all.of(path@)[i],
                    None => i >= all.of(path@).len(),
                }
            },
            None => r is None,
        },
{
    let path = match path {
        Some(path) => path,
        None => return None,
    };
    let i: usize = find_file(&all.files, path);
    if i >= all.files.len() {
        return None;
    }
    let breakpoints = &all.files[i].breakpoints;
    let at: usize = find_line(breakpoints, line);
    if at >= breakpoints.len() {
        return None;
    }
    Some((at, &breakpoints[at]))
}

/// What an edited text means: nothing if it is empty.
pub open spec fn edited(input: Seq<char>) -> Option<Seq<char>> {
    if input.len() == 0 {
        None
    } else {
        Some(input)
    }
}

fn edit(input: &str) -> (r: Option<String>)
    ensures
        text_view(r) == edited(input@),
{
    if chars(input).len() == 0 {
        None
    } else {
        Some(input.to_owned())
    }
}

/// Gives a breakpoint of a file a condition; an empty one takes it away.
pub fn dap_edit_condition(all: &mut Breakpoints, path: &str, at: usize, input: &str)
    requires
        old(all).well_formed(),
        at < old(all).of(path@).len(),
    ensures
        final(all).well_formed(),
        ({
            let before = old(all).of(path@);
            let after = final(all).of(path@);
            &&& after == before.update(
                at as int,
                Breakpoint { condition: after[at as int].condition, ..before[at as int] },
            )
            &&& text_view(after[at as int].condition) == edited(input@)
        }),
        forall|p: Seq<char>| p != path@ ==> #[trigger] final(all).of(p) == old(all).of(p),
{
    let i: usize = find_file(&all.files, path);
    let ghost before = *all;
    proof {
        lemma_file_at(before.files@, path@, 0);
    }
    all.files[i].breakpoints[at].condition = edit(input);
    proof {
        lemma_changed(before, *all, i as int);
        assert(all.of(path@) =~= before.of(path@).update(
            at as int,
            Breakpoint {
                condition: all.of(path@)[at as int].condition,
                ..before.of(path@)[at as int]
            },
        ));
    }
}

/// Gives a breakpoint of a file a message to log; an empty one takes it away.
pub fn dap_edit_log(all: &mut Breakpoints, path: &str, at: usize, input: &str)
    requires
        old(all).well_formed(),
        at < old(all).of(path@).len(),
    ensures
        final(all).well_formed(),
        ({
            let before = old(all).of(path@);
            let after = final(all).of(path@);
            &&& after == before.update(
                at as int,
                Breakpoint { log_message: after[at as int].log_message, ..before[at as int] },
            )
            &&& text_view(after[at as int].log_message) == edited(input@)
        }),
        forall|p: Seq<char>| p != path@ ==> #[trigger] final(all).of(p) == old(all).of(p),
{
    let i: usize = find_file(&all.files, path);
    let ghost before = *all;
    proof {
        lemma_file_at(before.files@, path@, 0);
    }
    all.files[i].breakpoints[at].log_message = edit(input);
    proof {
        lemma_changed(before, *all, i as int);
        assert(all.of(path@) =~= before.of(path@).update(
            at as int,
            Breakpoint {
                log_message: all.of(path@)[at as int].log_message,
                ..before.of(path@)[at as int]
            },
        ));
    }
}

/// A breakpoint in the list of all.
#[derive(Debug)]
pub struct BreakpointItem<'a> {
    pub path: &'a str,
    pub breakpoint: &'a Breakpoint,
}

/// The breakpoints of the first `n` files, file by file.
pub open spec fn listed_items(files: Seq<FileBreakpoints>, n: nat) -> Seq<(Seq<char>, Breakpoint)>
    decreases n,
{
    if n == 0 || n > files.len() {
        seq![]
    } else {
        let file = files[n - 1];
        listed_items(files, (n - 1) as nat) + file.breakpoints@.map_values(
            |b: Breakpoint| (file.path@, b),
        )
    }
}

pub open spec fn item_views(items: Seq<BreakpointItem>) -> Seq<(Seq<char>, Breakpoint)> {
    items.map_values(|i: BreakpointItem| (i.path@, *i.breakpoint))
}

pub const NO_BREAKPOINTS: &'static str = "No breakpoints set";

/// The list of all breakpoints, or that there are none.
pub fn dap_breakpoint_picker<'a>(all: &'a Breakpoints) -> (r: Result<
    Vec<BreakpointItem<'a>>,
    &'static str,
>)
    ensures
        ({
            let items = listed_items(all.files@, all.files@.len());
            match r {
                Ok(found) => items.len() > 0 && item_views(found@) == items,
                Err(status) => items.len() == 0 && status@ == NO_BREAKPOINTS@,
            }
        }),
{
    let mut items: Vec<BreakpointItem<'a>> = Vec::new();
    let mut i: usize = 0;
    assert(item_views(items@) =~= seq![]);
    while i < all.files.len()
        invariant
            i <= all.files@.len(),
            item_views(items@) == listed_items(all.files@, i as nat),
        decreases all.files@.len() - i,
    {
        let file = &all.files[i];
        let ghost before = item_views(items@);
        let ghost own = file.breakpoints@.map_values(|b: Breakpoint| (file.path@, b));
        let mut j: usize = 0;
        assert(item_views(items@) =~= before + own.take(0));
        while j < file.breakpoints.len()
            invariant
                j <= file.breakpoints@.len(),
                own == file.breakpoints@.map_values(|b: Breakpoint| (file.path@, b)),
                item_views(items@) == before + own.take(j as int),
            decreases file.breakpoints@.len() - j,
        {
            let ghost held = item_views(items@);
            items.push(
                BreakpointItem { path: file.path.as_str(), breakpoint: &file.breakpoints[j] },
            );
            assert(own[j as int] == (file.path@, file.breakpoints@[j as int]));
            assert(item_views(items@) =~= held.push(own[j as int]));
            j += 1;
            assert(own.take(j as int) =~= own.take(j - 1).push(own[j - 1]));
            assert(item_views(items@) =~= before + own.take(j as int));
        }
        assert(own.take(j as int) =~= own);
        i += 1;
    }
    assert(item_views(items@).len() == items@.len());
    if items.len() == 0 {
        return Err(NO_BREAKPOINTS);
    }
    Ok(items)
}

/// Where a breakpoint is, for the list.
pub fn breakpoint_place(path: &str, line: usize) -> (r: String)
    requires
        line < usize::MAX,
    ensures
        r@ == name_of(path@) + ":"@ + decimal((line + 1) as nat),
{
    let mut r = file_name(path);
    r.append(":");
    r.append(&number(line + 1));
    r
}

/// What is special about a breakpoint.
pub open spec fn breakpoint_notes(b: Breakpoint) -> Seq<Seq<char>> {
    (match b.condition {
        Some(c) => seq!["if "@ + c@],
        None => seq![],
    }) + (match b.log_message {
        Some(m) => seq!["log: "@ + m@],
        None => seq![],
    }) + (if b.verified {
        seq![]
    } else {
        seq!["(unverified)"@]
    })
}

pub fn breakpoint_info(b: &Breakpoint) -> (r: String)
    ensures
        r@ == join(breakpoint_notes(*b), " "@),
{
    let mut parts: Vec<String> = Vec::new();
    match &b.condition {
        Some(c) => {
            let mut note = "if ".to_owned();
            note.append(c);
            parts.push(note);
        },
        None => {},
    }
    match &b.log_message {
        Some(m) => {
            let mut note = "log: ".to_owned();
            note.append(m);
            parts.push(note);
        },
        None => {},
    }
    if !b.verified {
        parts.push("(unverified)".to_owned());
    }
    assert(views(parts@) =~= breakpoint_notes(*b));
    join_texts(&parts, " ")
}

// ---------------------------------------------------------------------------
// The stopped program
// ---------------------------------------------------------------------------

/// A frame of a stack.
#[derive(Debug)]
pub struct StackFrame {
    pub id: usize,
    pub name: String,
    pub path: Option<String>,
    /// Counted from 1.
    pub line: usize,
    pub end_line: Option<usize>,
}

/// The stack of a thread.
#[derive(Debug)]
pub struct ThreadFrames {
    pub thread: i64,
    pub frames: Vec<StackFrame>,
}

/// What is known of the debugged program.
#[derive(Debug)]
pub struct Debugger {
    /// The thread that is stopped and looked at.
    pub thread_id: Option<i64>,
    /// The index of the frame that is looked at.
    pub active_frame: Option<usize>,
    pub stacks: Vec<ThreadFrames>,
}

/// The index of the first stack from `i` on of a thread.
pub open spec fn stack_from(stacks: Seq<ThreadFrames>, thread: i64, i: int) -> int
    decreases stacks.len() - i,
{
    if i < 0 || i >= stacks.len() {
        stacks.len() as int
    } else if stacks[i].thread == thread {
        i
    } else {
        stack_from(stacks, thread, i + 1)
    }
}

/// The frames of a thread.
pub open spec fn frames_of(stacks: Seq<ThreadFrames>, thread: i64) -> Option<Seq<StackFrame>> {
    let i = stack_from(stacks, thread, 0);
    if i < stacks.len() {
        Some(stacks[i].frames@)
    } else {
        None
    }
}

fn find_frames<'a>(stacks: &'a Vec<ThreadFrames>, thread: i64) -> (r: Option<&'a Vec<StackFrame>>)
    ensures
        match r {
            Some(frames) => frames_of(stacks@, thread) == Some(frames@),
            None => frames_of(stacks@, thread) is None,
        },
{
    let mut i: usize = 0;
    while i < stacks.len()
        invariant
            i <= stacks@.len(),
            stack_from(stacks@, thread, 0) == stack_from(stacks@, thread, i as int),
        decreases stacks@.len() - i,
    {
        if stacks[i].thread == thread {
            return Some(&stacks[i].frames);
        }
        i += 1;
    }
    None
}

pub const NOT_STOPPED: &'static str =
    "Currently active thread is not stopped. Switch the thread.";

/// What a command asks of the debugger.
#[derive(Debug, Clone, Copy, PartialEq, Eq, Structural)]
pub enum Request {
    Continue(i64),
    StepIn(i64),
    StepOut(i64),
    Next(i64),
    Pause(i64),
}

/// What a command to go on does: nothing without a debugger.
#[derive(Debug)]
pub enum Step {
    Nothing,
    Ask(Request),
    Error(&'static str),
}

/// The thread that goes on, if there is a debugger.
pub open spec fn stopped_thread(debugger: Option<&Debugger>) -> Option<Option<i64>> {
    match debugger {
        Some(d) => Some(d.thread_id),
        None => None,
    }
}

pub open spec fn steps(debugger: Option<&Debugger>, step: Step, f: spec_fn(i64) -> Request) -> bool {
    match stopped_thread(debugger) {
        None => step is Nothing,
        Some(None) => step matches Step::Error(e) && e@ == NOT_STOPPED@,
        Some(Some(id)) => step == Step::Ask(f(id)),
    }
}

pub fn dap_continue(debugger: Option<&Debugger>) -> (r: Step)
    ensures
        steps(debugger, r, |id: i64| Request::Continue(id)),
{
    match debugger {
        None => Step::Nothing,
        Some(d) => match d.thread_id {
            Some(id) => Step::Ask(Request::Continue(id)),
            None => Step::Error(NOT_STOPPED),
        },
    }
}

pub fn dap_step_in(debugger: Option<&Debugger>) -> (r: Step)
    ensures
        steps(debugger, r, |id: i64| Request::StepIn(id)),
{
    match debugger {
        None => Step::Nothing,
        Some(d) => match d.thread_id {
            Some(id) => Step::Ask(Request::StepIn(id)),
            None => Step::Error(NOT_STOPPED),
        },
    }
}

pub fn dap_step_out(debugger: Option<&Debugger>) -> (r: Step)
    ensures
        steps(debugger, r, |id: i64| Request::StepOut(id)),
{
    match debugger {
        None => Step::Nothing,
        Some(d) => match d.thread_id {
            Some(id) => Step::Ask(Request::StepOut(id)),
            None => Step::Error(NOT_STOPPED),
        },
    }
}

pub fn dap_next(debugger: Option<&Debugger>) -> (r: Step)
    ensures
        steps(debugger, r, |id: i64| Request::Next(id)),
{
    match debugger {
        None => Step::Nothing,
        Some(d) => match d.thread_id {
            Some(id) => Step::Ask(Request::Next(id)),
            None => Step::Error(NOT_STOPPED),
        },
    }
}

pub const CANNOT_RUN_TO: &'static str = "Can't run to cursor: document has no path";

/// What the command to run to the cursor does: nothing without a debugger.
#[derive(Debug)]
pub enum RunTo {
    Nothing,
    Error(&'static str),
    /// Send the breakpoints of the file; the thread that goes on after that.
    Send(i64),
}

/// Goes on to a line of a document: a breakpoint is put there, a temporary one if
/// there is no other. It has to be sent before the program goes on.
pub fn dap_run_to_cursor(
    all: &mut Breakpoints,
    path: Option<&str>,
    line: usize,
    debugger: Option<&Debugger>,
) -> (r: RunTo)
    requires
        old(all).well_formed(),
    ensures
        final(all).well_formed(),
        match path {
            None => (r matches RunTo::Error(e) && e@ == CANNOT_RUN_TO@) && *final(all) == *old(all),
            Some(path) => match stopped_thread(debugger) {
                None => r is Nothing && *final(all) == *old(all),
                Some(None) => (r matches RunTo::Error(e) && e@ == NOT_STOPPED@) && *final(all)
                    == *old(all),
                Some(Some(id)) => {
                    &&& r == RunTo::Send(id)
                    &&& final(all).of(path@) == stopping_at(old(all).of(path@), line)
                    &&& forall|p: Seq<char>|
                        p != path@ ==> #[trigger] final(all).of(p) == old(all).of(p)
                },
            },
        },
{
    let path = match path {
        Some(path) => path,
        None => return RunTo::Error(CANNOT_RUN_TO),
    };
    let id = match debugger {
        None => return RunTo::Nothing,
        Some(d) => match d.thread_id {
            Some(id) => id,
            None => return RunTo::Error(NOT_STOPPED),
        },
    };
    let i: usize = entry(all, path);
    let ghost before = *all;
    proof {
        lemma_file_at(before.files@, path@, 0);
    }
    if find_line(&all.files[i].breakpoints, line) == all.files[i].breakpoints.len() {
        all.files[i].breakpoints.push(
            Breakpoint {
                line,
                verified: false,
                condition: None,
                log_message: None,
                temporary: true,
            },
        );
    }
    proof {
        lemma_changed(before, *all, i as int);
        assert(before.of(path@) == old(all).of(path@));
        assert forall|p: Seq<char>| p != path@ implies #[trigger] all.of(p) == old(all).of(p) by {
            assert(before.of(p) == old(all).of(p));
        }
    }
    RunTo::Send(id)
}

/// The breakpoints of a file were sent, or why they were not.
pub fn breakpoints_sent(sent: Result<(), String>) -> (r: Result<(), String>)
    ensures
        match (sent, r) {
            (Ok(_), Ok(_)) => true,
            (Err(problem), Err(e)) => e@ == "Failed to set breakpoints: "@ + problem@,
            _ => false,
        },
{
    match sent {
        Ok(_) => Ok(()),
        Err(problem) => {
            let mut e = "Failed to set breakpoints: ".to_owned();
            e.append(&problem);
            Err(e)
        },
    }
}

/// Running to the cursor goes on once the breakpoints were sent, and stops with what
/// went wrong otherwise.
pub fn run_to_cursor_sent(thread: i64, sent: Result<(), String>) -> (r: Result<Request, String>)
    ensures
        match (sent, r) {
            (Ok(_), Ok(request)) => request == Request::Continue(thread),
            (Err(problem), Err(e)) => e@ == "Failed to set breakpoints: "@ + problem@,
            _ => false,
        },
{
    match breakpoints_sent(sent) {
        Ok(_) => Ok(Request::Continue(thread)),
        Err(e) => Err(e),
    }
}

/// A file that could not be opened.
pub fn open_error(problem: &str) -> (r: String)
    ensures
        r@ == "Failed to open file: "@ + problem@,
{
    let mut r = "Failed to open file: ".to_owned();
    r.append(problem);
    r
}

/// A number with its sign.
pub open spec fn signed(n: int) -> Seq<char> {
    if n < 0 {
        "-"@ + decimal((-n) as nat)
    } else {
        decimal(n as nat)
    }
}

fn push_signed(out: &mut String, n: i64)
    ensures
        final(out)@ == old(out)@ + signed(n as int),
{
    if n < 0 {
        out.append("-");
        push_decimal(out, (-(n + 1)) as u64 + 1);
        assert(out@ =~= old(out)@ + signed(n as int));
    } else {
        push_decimal(out, n as u64);
    }
}

pub const NO_SESSION: &'static str = "No active debug session.";

pub const EVAL_RUNNING: &'static str = "Cannot evaluate while target is running.";

pub const NO_EVAL_FRAME: &'static str = "Cannot find current stack frame to evaluate.";

/// The frame in which an expression is evaluated, or why there is none.
pub fn current_stack_frame_id(debugger: Option<&Debugger>) -> (r: Result<usize, &'static str>)
    requires
        debugger matches Some(d) ==> (d.thread_id matches Some(t) ==> (
        d.active_frame matches Some(f) ==> frames_of(d.stacks@, t) matches Some(frames) && f
            < frames.len())),
    ensures
        match debugger {
            None => r matches Err(e) && e@ == NO_SESSION@,
            Some(d) => match (d.thread_id, d.active_frame) {
                (None, _) => r matches Err(e) && e@ == EVAL_RUNNING@,
                (Some(t), None) => r matches Err(e) && e@ == NO_EVAL_FRAME@,
                (Some(t), Some(f)) => r == Ok::<usize, &'static str>(
                    frames_of(d.stacks@, t)->0[f as int].id,
                ),
            },
        },
{
    let d = match debugger {
        Some(d) => d,
        None => return Err(NO_SESSION),
    };
    let thread = match d.thread_id {
        Some(thread) => thread,
        None => return Err(EVAL_RUNNING),
    };
    let frame: usize = match d.active_frame {
        Some(frame) => frame,
        None => return Err(NO_EVAL_FRAME),
    };
    match find_frames(&d.stacks, thread) {
        Some(frames) => Ok(frames[frame].id),
        None => Err(NO_EVAL_FRAME),
    }
}

/// Why an expression has no value.
pub fn eval_error(expression: &str, problem: &str) -> (r: String)
    ensures
        r@ == "Eval '"@ + expression@ + "': "@ + problem@,
{
    let mut r = "Eval '".to_owned();
    r.append(expression);
    r.append("': ");
    r.append(problem);
    r
}

pub const VARIABLES_RUNNING: &'static str = "Cannot access variables while target is running.";

pub const NO_VARIABLES_FRAME: &'static str =
    "Cannot find current stack frame to access variables.";

/// The frame whose variables are shown, or what to tell.
pub fn dap_variables(debugger: &Debugger) -> (r: Result<usize, Message>)
    ensures
        match (debugger.thread_id, debugger.active_frame) {
            (None, _) => r matches Err(Message::Status(e)) && e@ == VARIABLES_RUNNING@,
            (Some(t), None) => r matches Err(Message::Status(e)) && e@ == NO_VARIABLES_FRAME@,
            (Some(t), Some(f)) => match frames_of(debugger.stacks@, t) {
                None => r matches Err(Message::Error(e)) && e@
                    == "Failed to get stack frame for thread: "@ + signed(t as int),
                Some(frames) => if f < frames.len() {
                    r == Ok::<usize, Message>(frames[f as int].id)
                } else {
                    r matches Err(Message::Error(e)) && e@
                        == "Failed to get stack frame for thread "@ + signed(t as int)
                        + " and frame "@ + decimal(f as nat) + "."@
                },
            },
        },
{
    let thread = match debugger.thread_id {
        Some(thread) => thread,
        None => return Err(Message::Status(VARIABLES_RUNNING.to_owned())),
    };
    let frame: usize = match debugger.active_frame {
        Some(frame) => frame,
        None => return Err(Message::Status(NO_VARIABLES_FRAME.to_owned())),
    };
    match find_frames(&debugger.stacks, thread) {
        None => {
            let mut e = "Failed to get stack frame for thread: ".to_owned();
            push_signed(&mut e, thread);
            Err(Message::Error(e))
        },
        Some(frames) => {
            if frame < frames.len() {
                return Ok(frames[frame].id);
            }
            let mut e = "Failed to get stack frame for thread ".to_owned();
            push_signed(&mut e, thread);
            e.append(" and frame ");
            e.append(&number(frame));
            e.append(".");
            Err(Message::Error(e))
        },
    }
}

// ---------------------------------------------------------------------------
// Threads and frames
// ---------------------------------------------------------------------------

/// A thread of the program.
#[derive(Debug)]
pub struct Thread {
    pub id: i64,
    pub name: String,
}

/// The state that the debugger told of a thread.
#[derive(Debug)]
pub struct ThreadState {
    pub id: i64,
    pub state: String,
}

/// The thread to act on: there is no choice if there is but one.
pub fn only_thread(threads: &Vec<Thread>) -> (r: Option<&Thread>)
    ensures
        match r {
            Some(t) => threads@.len() == 1 && *t == threads@[0],
            None => threads@.len() != 1,
        },
{
    if threads.len() == 1 {
        Some(&threads[0])
    } else {
        None
    }
}

/// The request to pause, if there is but one thread; else one is picked first.
pub fn dap_pause(threads: &Vec<Thread>) -> (r: Option<Request>)
    ensures
        r == (if threads@.len() == 1 {
            Some(Request::Pause(threads@[0].id))
        } else {
            None
        }),
{
    match only_thread(threads) {
        Some(thread) => Some(Request::Pause(thread.id)),
        None => None,
    }
}

/// What is said of a pause that failed.
pub fn pause_error(problem: &str) -> (r: String)
    ensures
        r@ == "Failed to pause: "@ + problem@,
{
    let mut r = "Failed to pause: ".to_owned();
    r.append(problem);
    r
}

/// The thread to switch to, if there is but one; else one is picked first.
pub fn dap_switch_thread(threads: &Vec<Thread>) -> (r: Option<i64>)
    ensures
        r == (if threads@.len() == 1 {
            Some(threads@[0].id)
        } else {
            None
        }),
{
    match only_thread(threads) {
        Some(thread) => Some(thread.id),
        None => None,
    }
}

/// A kind of exception that the adapter can stop at.
#[derive(Debug)]
pub struct ExceptionFilter {
    pub filter: String,
    pub label: String,
}

/// The filters to set, to stop at every kind of exception that the adapter
/// offers; nothing is asked of an adapter that offers none.
pub fn dap_enable_exceptions(offered: Option<&Vec<ExceptionFilter>>) -> (r: Option<Vec<String>>)
    ensures
        match (r, offered) {
            (Some(set), Some(all)) => views(set@) == all@.map_values(
                |f: ExceptionFilter| f.filter@,
            ),
            (None, None) => true,
            _ => false,
        },
{
    let all = match offered {
        Some(all) => all,
        None => return None,
    };
    let mut set: Vec<String> = Vec::new();
    let mut i: usize = 0;
    while i < all.len()
        invariant
            i <= all@.len(),
            views(set@) =~= all@.map_values(|f: ExceptionFilter| f.filter@).take(i as int),
        decreases all@.len() - i,
    {
        let ghost before = views(set@);
        set.push(all[i].filter.clone());
        assert(views(set@) =~= before.push(all@[i as int].filter@));
        i += 1;
    }
    Some(set)
}

/// The filters to set, to stop at no exception.
pub fn dap_disable_exceptions() -> (r: Vec<String>)
    ensures
        r@.len() == 0,
{
    Vec::new()
}

/// The first state from index `i` on of a thread.
pub open spec fn state_from(states: Seq<ThreadState>, id: i64, i: int) -> Seq<char>
    decreases states.len() - i,
{
    if i < 0 || i >= states.len() {
        "unknown"@
    } else if states[i].id == id {
        states[i].state@
    } else {
        state_from(states, id, i + 1)
    }
}

/// The state of a thread, for the list.
pub fn thread_state<'a>(states: &'a Vec<ThreadState>, id: i64) -> (r: &'a str)
    ensures
        r@ == state_from(states@, id, 0),
{
    let mut i: usize = 0;
    while i < states.len()
        invariant
            i <= states@.len(),
            state_from(states@, id, 0) == state_from(states@, id, i as int),
        decreases states@.len() - i,
    {
        if states[i].id == id {
            return states[i].state.as_str();
        }
        i += 1;
    }
    "unknown"
}

pub const NO_THREAD: &'static str = "No thread is currently active";

/// The frames to choose from, or why there are none.
pub fn dap_switch_stack_frame(debugger: &Debugger) -> (r: Result<&Vec<StackFrame>, &'static str>)
    requires
        debugger.thread_id matches Some(t) ==> frames_of(debugger.stacks@, t) is Some,
    ensures
        match debugger.thread_id {
            Some(t) => r matches Ok(frames) && frames_of(debugger.stacks@, t) == Some(frames@),
            None => r matches Err(e) && e@ == NO_THREAD@,
        },
{
    match debugger.thread_id {
        Some(thread) => match find_frames(&debugger.stacks, thread) {
            Some(frames) => Ok(frames),
            None => Err(NO_THREAD),
        },
        None => Err(NO_THREAD),
    }
}

/// The index of the first frame from `i` on with an id.
pub open spec fn frame_from(frames: Seq<StackFrame>, id: usize, i: int) -> Option<int>
    decreases frames.len() - i,
{
    if i < 0 || i >= frames.len() {
        None
    } else if frames[i].id == id {
        Some(i)
    } else {
        frame_from(frames, id, i + 1)
    }
}

/// The frame that was chosen: its index, which becomes the active one, and the frame
/// to show, which is the first one if the chosen one is gone.
pub fn frame_chosen(frames: &Vec<StackFrame>, id: usize) -> (r: (Option<usize>, Option<&StackFrame>))
    ensures
        match frame_from(frames@, id, 0) {
            Some(i) => r.0 == Some(i as usize) && 0 <= i < frames@.len() && r.1 == Some(
                &frames@[i],
            ),
            None => r.0 is None && r.1 == (if frames@.len() > 0 {
                Some(&frames@[0])
            } else {
                None
            }),
        },
{
    let mut i: usize = 0;
    while i < frames.len()
        invariant
            i <= frames@.len(),
            frame_from(frames@, id, 0) == frame_from(frames@, id, i as int),
        decreases frames@.len() - i,
    {
        if frames[i].id == id {
            return (Some(i), Some(&frames[i]));
        }
        i += 1;
    }
    if frames.len() > 0 {
        (None, Some(&frames[0]))
    } else {
        (None, None)
    }
}

/// The lines of a frame in its file, counted from 0: the first and the last.
pub fn frame_lines(frame: &StackFrame) -> (r: (usize, usize))
    ensures
        r.0 == (if frame.line > 0 {
            frame.line - 1
        } else {
            0
        }),
        r.1 == (match frame.end_line {
            Some(end) => if end > 0 {
                end - 1
            } else {
                0
            },
            None => r.0 as int,
        }),
{
    let end: usize = match frame.end_line {
        Some(end) => end,
        None => frame.line,
    };
    (
        if frame.line > 0 {
            frame.line - 1
        } else {
            0
        },
        if end > 0 {
            end - 1
        } else {
            0
        },
    )
}

pub const TERMINATING: &'static str = "Terminating debug session...";

/// The session is ended by a request, where the debugger says that it takes one; it
/// is dropped otherwise. Answers what is said, and whether it is asked.
pub fn dap_terminate(supported: Option<bool>) -> (r: (&'static str, bool))
    ensures
        r.0@ == TERMINATING@,
        r.1 == (supported == Some(true)),
{
    let asked = match supported {
        Some(supported) => supported,
        None => false,
    };
    (TERMINATING, asked)
}

// ---------------------------------------------------------------------------
// Watches
// ---------------------------------------------------------------------------

/// What is proposed for a watch: the selection, or else the word at the cursor.
pub fn watch_prefill(selection: &str, word: &str) -> (r: String)
    ensures
        r@ == (if selection@.len() > 1 {
            selection@
        } else if trimmed(word@).len() == 0 {
            seq![]
        } else {
            word@
        }),
{
    if chars(selection).len() > 1 {
        selection.to_owned()
    } else if strip(&chars(word)).len() == 0 {
        let empty = String::new();
        assert(empty@ =~= seq![]);
        empty
    } else {
        word.to_owned()
    }
}

/// The watches with an expression, unless it is blank or watched already.
pub open spec fn with_watch(watches: Seq<Seq<char>>, input: Seq<char>) -> Seq<Seq<char>> {
    let expr = trimmed(input);
    if expr.len() == 0 || watches.contains(expr) {
        watches
    } else {
        watches.push(expr)
    }
}

/// Watches an expression. Returns what to tell; nothing if the expression is blank.
pub fn dap_add_watch(watches: &mut Vec<String>, input: &str) -> (r: Option<String>)
    ensures
        views(final(watches)@) == with_watch(views(old(watches)@), input@),
        match r {
            Some(status) => trimmed(input@).len() > 0 && status@ == (if views(
                old(watches)@,
            ).contains(trimmed(input@)) {
                "Already watching: "@
            } else {
                "Added watch: "@
            }) + trimmed(input@),
            None => trimmed(input@).len() == 0,
        },
{
    let all = chars(input);
    let expr = text(strip(&all));
    if chars(&expr).len() == 0 {
        return None;
    }
    if listed(watches, &expr) {
        let mut status = "Already watching: ".to_owned();
        status.append(&expr);
        return Some(status);
    }
    let mut status = "Added watch: ".to_owned();
    status.append(&expr);
    let ghost before = views(watches@);
    watches.push(expr);
    assert(views(watches@) =~= before.push(expr@));
    Some(status)
}

/// The watches but those of an expression.
pub open spec fn without_watch(watches: Seq<Seq<char>>, expr: Seq<char>) -> Seq<Seq<char>>
    decreases watches.len(),
{
    if watches.len() == 0 {
        seq![]
    } else if watches.last() == expr {
        without_watch(watches.drop_last(), expr)
    } else {
        without_watch(watches.drop_last(), expr).push(watches.last())
    }
}

pub const NO_WATCHES: &'static str = "No watch expressions to remove";

/// The watches to choose from, or that there are none.
pub fn dap_remove_watch(watches: &Vec<String>) -> (r: Result<&Vec<String>, &'static str>)
    ensures
        match r {
            Ok(offered) => watches@.len() > 0 && *offered == *watches,
            Err(status) => watches@.len() == 0 && status@ == NO_WATCHES@,
        },
{
    if watches.len() == 0 {
        Err(NO_WATCHES)
    } else {
        Ok(watches)
    }
}

/// Watches an expression no longer. Returns what to tell.
pub fn watch_chosen(watches: &mut Vec<String>, expr: &str) -> (r: String)
    ensures
        views(final(watches)@) == without_watch(views(old(watches)@), expr@),
        r@ == "Removed watch: "@ + expr@,
{
    let ghost all = views(watches@);
    let mut kept: Vec<String> = Vec::new();
    let mut i: usize = 0;
    assert(views(kept@) =~= without_watch(all.take(0), expr@));
    while i < watches.len()
        invariant
            i <= watches@.len(),
            all == views(watches@),
            views(kept@) == without_watch(all.take(i as int), expr@),
        decreases watches@.len() - i,
    {
        proof {
            assert(all.take(i as int + 1).drop_last() =~= all.take(i as int));
            assert(all[i as int] == watches@[i as int]@);
        }
        if !same(&watches[i], expr) {
            let ghost before = views(kept@);
            kept.push(watches[i].clone());
            assert(views(kept@) =~= before.push(all[i as int]));
        }
        i += 1;
    }
    assert(all.take(i as int) =~= all);
    *watches = kept;
    let mut status = "Removed watch: ".to_owned();
    status.append(expr);
    status
}

/// No expression is watched twice.
pub proof fn watches_are_distinct(watches: Seq<Seq<char>>, input: Seq<char>)
    requires
        watches.no_duplicates(),
    ensures
        with_watch(watches, input).no_duplicates(),
{
}

/// Removing a watch that was added gives the former watches.
pub proof fn added_watches_are_removed(watches: Seq<Seq<char>>, input: Seq<char>)
    requires
        !watches.contains(trimmed(input)),
    ensures
        without_watch(with_watch(watches, input), trimmed(input)) == watches,
{
    lemma_without_watch(watches, trimmed(input));
    if trimmed(input).len() > 0 {
        assert(with_watch(watches, input).drop_last() =~= watches);
    }
}

proof fn lemma_without_watch(watches: Seq<Seq<char>>, expr: Seq<char>)
    requires
        !watches.contains(expr),
    ensures
        without_watch(watches, expr) == watches,
    decreases watches.len(),
{
    if watches.len() > 0 {
        let fewer = watches.drop_last();
        if fewer.contains(expr) {
            let k = choose|k: int| 0 <= k < fewer.len() && fewer[k] == expr;
            assert(watches[k] == expr);
        }
        assert(watches[watches.len() - 1] == watches.last());
        lemma_without_watch(fewer, expr);
        assert(fewer.push(watches.last()) =~= watches);
    } else {
        assert(without_watch(watches, expr) =~= watches);
    }
}

proof fn lemma_breakpoint_at(breakpoints: Seq<Breakpoint>, line: usize, from: int)
    requires
        0 <= from <= breakpoints.len(),
    ensures
        ({
            let i = at_line(breakpoints, line, from);
            &&& from <= i <= breakpoints.len()
            &&& i < breakpoints.len() ==> breakpoints[i].line == line
            &&& forall|k: int| from <= k < i ==> (#[trigger] breakpoints[k]).line != line
        }),
    decreases breakpoints.len() - from,
{
    if from < breakpoints.len() {
        lemma_breakpoint_at(breakpoints, line, from + 1);
    }
}

/// A breakpoint is set at the line.
pub open spec fn set_at(breakpoints: Seq<Breakpoint>, line: usize) -> bool {
    exists|i: int| 0 <= i < breakpoints.len() && (#[trigger] breakpoints[i]).line == line
}

/// Toggling sets a breakpoint at the line where there is none, a plain one, and removes
/// it where there is one; the breakpoints of other lines stay as they are.
pub proof fn toggling_changes_one_line(
    breakpoints: Seq<Breakpoint>,
    line: usize,
    other: Breakpoint,
)
    requires
        distinct_lines(breakpoints),
    ensures
        set_at(toggled(breakpoints, line), line) <==> !set_at(breakpoints, line),
        other.line != line ==> (toggled(breakpoints, line).contains(other)
            <==> breakpoints.contains(other)),
        !set_at(breakpoints, line) ==> ({
            let new = toggled(breakpoints, line).last();
            new.line == line && !new.temporary && new.condition is None && new.log_message is None
                && !new.verified
        }),
{
    lemma_breakpoint_at(breakpoints, line, 0);
    let i = at_line(breakpoints, line, 0);
    let all = toggled(breakpoints, line);
    if i < breakpoints.len() {
        assert(breakpoints[i].line == line);
        assert forall|k: int| 0 <= k < all.len() implies (#[trigger] all[k]).line != line by {
            if k < i {
                assert(all[k] == breakpoints[k]);
            } else {
                assert(all[k] == breakpoints[k + 1]);
                assert(breakpoints[i].line != breakpoints[k + 1].line);
            }
        }
        if breakpoints.contains(other) && other.line != line {
            let k = breakpoints.index_of(other);
            if k < i {
                assert(all[k] == other);
            } else {
                assert(all[k - 1] == other);
            }
        }
        if all.contains(other) {
            let k = all.index_of(other);
            if k < i {
                assert(breakpoints[k] == other);
            } else {
                assert(breakpoints[k + 1] == other);
            }
        }
    } else {
        assert(all[breakpoints.len() as int].line == line);
        if breakpoints.contains(other) {
            let k = breakpoints.index_of(other);
            assert(all[k] == other);
        }
        if all.contains(other) && other.line != line {
            let k = all.index_of(other);
            assert(breakpoints[k] == other);
        }
    }
}

/// Running to a line stops there, and keeps the breakpoints that are set: one that is
/// there already stays, and a new one goes when the program stops.
pub proof fn running_to_a_line_stops_there(
    breakpoints: Seq<Breakpoint>,
    line: usize,
    own: Breakpoint,
)
    ensures
        set_at(stopping_at(breakpoints, line), line),
        breakpoints.contains(own) ==> stopping_at(breakpoints, line).contains(own),
        set_at(breakpoints, line) ==> stopping_at(breakpoints, line) == breakpoints,
        !set_at(breakpoints, line) ==> stopping_at(breakpoints, line).len() == breakpoints.len() + 1
            && stopping_at(breakpoints, line).last().temporary,
{
    lemma_breakpoint_at(breakpoints, line, 0);
    let i = at_line(breakpoints, line, 0);
    let all = stopping_at(breakpoints, line);
    if i < breakpoints.len() {
        assert(breakpoints[i].line == line);
    } else {
        assert(all[breakpoints.len() as int].line == line);
        if breakpoints.contains(own) {
            let k = breakpoints.index_of(own);
            assert(all[k] == own);
        }
    }
}

/// Every breakpoint of every file is listed, under its file.
pub proof fn all_breakpoints_are_listed(
    files: Seq<FileBreakpoints>,
    n: nat,
    path: Seq<char>,
    b: Breakpoint,
)
    requires
        n <= files.len(),
    ensures
        listed_items(files, n).contains((path, b)) <==> exists|i: int|
            0 <= i < n && (#[trigger] files[i]).path@ == path && files[i].breakpoints@.contains(b),
    decreases n,
{
    if n > 0 {
        let file = files[n - 1];
        let before = listed_items(files, (n - 1) as nat);
        let own = file.breakpoints@.map_values(|b: Breakpoint| (file.path@, b));
        let all = listed_items(files, n);
        all_breakpoints_are_listed(files, (n - 1) as nat, path, b);
        assert(all == before + own);
        if before.contains((path, b)) {
            let k = before.index_of((path, b));
            assert(all[k] == (path, b));
        }
        if file.path@ == path && file.breakpoints@.contains(b) {
            let k = file.breakpoints@.index_of(b);
            assert(own[k] == (path, b));
            assert(all[before.len() + k] == (path, b));
        }
        if all.contains((path, b)) && !before.contains((path, b)) {
            let k = all.index_of((path, b));
            if k < before.len() {
                assert(before[k] == (path, b));
            }
            let m = k - before.len();
            assert(own[m] == (path, b));
            assert(file.breakpoints@[m] == b);
        }
    }
}

/// What is looked at in a debugger is found by the id of its thread and of its frame.
pub proof fn frames_are_found_by_id(
    stacks: Seq<ThreadFrames>,
    thread: i64,
    frames: Seq<StackFrame>,
    id: usize,
)
    ensures
        match frames_of(stacks, thread) {
            Some(found) => exists|i: int|
                0 <= i < stacks.len() && (#[trigger] stacks[i]).thread == thread
                    && stacks[i].frames@ == found,
            None => forall|i: int| 0 <= i < stacks.len() ==> (#[trigger] stacks[i]).thread != thread,
        },
        match frame_from(frames, id, 0) {
            Some(i) => 0 <= i < frames.len() && frames[i].id == id,
            None => forall|i: int| 0 <= i < frames.len() ==> (#[trigger] frames[i]).id != id,
        },
{
    lemma_stack_found(stacks, thread, 0);
    lemma_frame_found(frames, id, 0);
    let i = stack_from(stacks, thread, 0);
    if i < stacks.len() {
        assert(stacks[i].frames@ == frames_of(stacks, thread)->0);
    }
}

proof fn lemma_stack_found(stacks: Seq<ThreadFrames>, thread: i64, from: int)
    requires
        0 <= from <= stacks.len(),
    ensures
        ({
            let i = stack_from(stacks, thread, from);
            &&& from <= i <= stacks.len()
            &&& i < stacks.len() ==> stacks[i].thread == thread
            &&& i == stacks.len() ==> forall|k: int|
                from <= k < stacks.len() ==> (#[trigger] stacks[k]).thread != thread
        }),
    decreases stacks.len() - from,
{
    if from < stacks.len() {
        lemma_stack_found(stacks, thread, from + 1);
    }
}

proof fn lemma_frame_found(frames: Seq<StackFrame>, id: usize, from: int)
    requires
        0 <= from,
    ensures
        match frame_from(frames, id, from) {
            Some(i) => from <= i < frames.len() && frames[i].id == id,
            None => forall|i: int| from <= i < frames.len() ==> (#[trigger] frames[i]).id != id,
        },
    decreases frames.len() - from,
{
    if from < frames.len() {
        lemma_frame_found(frames, id, from + 1);
    }
}

/// Adding a watch watches the expression without the white space around it, unless it is
/// blank; removing one watches all others as before.
pub proof fn watches_are_added_and_removed(
    watches: Seq<Seq<char>>,
    input: Seq<char>,
    other: Seq<char>,
)
    ensures
        trimmed(input).len() > 0 ==> with_watch(watches, input).contains(trimmed(input)),
        trimmed(input).len() == 0 ==> with_watch(watches, input) == watches,
        other != trimmed(input) ==> (with_watch(watches, input).contains(other)
            <==> watches.contains(other)),
        !without_watch(watches, input).contains(input),
        other != input ==> (without_watch(watches, input).contains(other) <==> watches.contains(
            other,
        )),
    decreases watches.len(),
{
    let expr = trimmed(input);
    if expr.len() > 0 && !watches.contains(expr) {
        let all = watches.push(expr);
        assert(all[watches.len() as int] == expr);
        if watches.contains(other) {
            let k = watches.index_of(other);
            assert(all[k] == other);
        }
        if all.contains(other) && other != expr {
            let k = all.index_of(other);
            assert(watches[k] == other);
        }
    }
    lemma_without(watches, input, other);
    lemma_without(watches, input, input);
}

proof fn lemma_without(watches: Seq<Seq<char>>, expr: Seq<char>, x: Seq<char>)
    ensures
        without_watch(watches, expr).contains(x) <==> watches.contains(x) && x != expr,
    decreases watches.len(),
{
    if watches.len() > 0 {
        let rest = watches.drop_last();
        let before = without_watch(rest, expr);
        let all = without_watch(watches, expr);
        lemma_without(rest, expr, x);
        assert(watches[watches.len() - 1] == watches.last());
        if rest.contains(x) {
            let k = rest.index_of(x);
            assert(watches[k] == x);
        }
        if watches.contains(x) && x != watches.last() {
            let k = watches.index_of(x);
            assert(rest[k] == x);
        }
        if before.contains(x) {
            let k = before.index_of(x);
            assert(all[k] == x);
        }
        if watches.last() != expr {
            assert(all[before.len() as int] == watches.last());
            if all.contains(x) && !before.contains(x) {
                let k = all.index_of(x);
                if k < before.len() {
                    assert(before[k] == x);
                }
            }
        }
    }
}

proof fn lemma_state_from(states: Seq<ThreadState>, id: i64, i: int, k: int)
    requires
        0 <= i <= k < states.len(),
        states[k].id == id,
        forall|j: int| i <= j < k ==> (#[trigger] states[j]).id != id,
    ensures
        state_from(states, id, i) == states[k].state@,
    decreases k - i,
{
    if i < k {
        lemma_state_from(states, id, i + 1, k);
    }
}

/// A thread is shown in the state that was told of it.
pub proof fn threads_are_shown_in_their_state(states: Seq<ThreadState>, id: i64, k: int)
    requires
        0 <= k < states.len(),
        states[k].id == id,
        forall|j: int| 0 <= j < k ==> (#[trigger] states[j]).id != id,
    ensures
        state_from(states, id, 0) == states[k].state@,
{
    lemma_state_from(states, id, 0, k);
}

} // verus!
