//! Review controller: context epochs reject delayed results before they reach
//! the UI. Local HEAD is checked before rendering; remote work is asynchronous
//! and explicit.
use std::sync::Arc;

use vstd::prelude::*;

use crate::fetch::has_text;
use crate::github::{good_path, valid_path};
use crate::inline::Block;
use crate::review::{
    accepts, placeable, safe, safe_text, same_context, same_contexts, summary, Context, Review,
    State, Thread,
};
use crate::selection::{announced, announcement, find_again, found_again};
use crate::text::{
    after_prefix, chars, cut, has_prefix, join, join_texts, lines, same, slices, spells, split,
    split_at, split_lines, split_once, starts_with, strip, strip_prefix, text, trimmed, views,
    Pattern,
};

verus! {

// ---------------------------------------------------------------------------
// The repository
// ---------------------------------------------------------------------------

/// The parts of a path that name something: neither empty nor `.`.
pub open spec fn named_parts(parts: Seq<Seq<char>>) -> Seq<Seq<char>>
    decreases parts.len(),
{
    if parts.len() == 0 {
        seq![]
    } else {
        let rest = named_parts(parts.drop_last());
        if parts.last().len() == 0 || parts.last() == "."@ {
            rest
        } else {
            rest.push(parts.last())
        }
    }
}

/// The key of a path relative to the repository, with slashes. `None` for a
/// path that is absolute, starts at the current directory or goes up.
pub open spec fn key_of(path: Seq<char>) -> Option<Seq<char>> {
    let parts = split(path, Pattern::One('/'));
    if (path.len() > 0 && path[0] == '/') || parts[0] == "."@ || parts.contains(".."@) {
        None
    } else {
        Some(join(named_parts(parts), "/"@))
    }
}

pub fn relative_key(path: &str) -> (r: Option<String>)
    ensures
        match r {
            Some(x) => key_of(path@) == Some(x@),
            None => key_of(path@) is None,
        },
{
    let all = chars(path);
    if all.len() > 0 && all[0] == '/' {
        return None;
    }
    let parts = split_at(&all, Pattern::One('/'));
    let ghost every = split(path@, Pattern::One('/'));
    assert(every[0] == parts@[0]@);
    if spells(parts[0], ".") {
        return None;
    }
    let mut named: Vec<String> = Vec::new();
    let mut i: usize = 0;
    assert(every.take(0) =~= seq![]);
    assert(views(named@) =~= seq![]);
    while i < parts.len()
        invariant
            i <= parts@.len(),
            every == slices(parts@),
            every == split(path@, Pattern::One('/')),
            forall|k: int| 0 <= k < i ==> #[trigger] every[k] != ".."@,
            views(named@) == named_parts(every.take(i as int)),
        decreases parts@.len() - i,
    {
        let part = parts[i];
        assert(every[i as int] == part@);
        assert(every.take(i + 1).drop_last() =~= every.take(i as int));
        assert(every.take(i + 1).last() == part@);
        if spells(part, "..") {
            assert(every.contains(".."@));
            return None;
        }
        if part.len() > 0 && !spells(part, ".") {
            let ghost before = views(named@);
            named.push(text(part));
            assert(views(named@) =~= before.push(part@));
        }
        i += 1;
    }
    assert(every.take(i as int) =~= every);
    Some(join_texts(&named, "/"))
}

/// The directory that a `.git` file names.
pub fn gitdir(contents: &str) -> (r: Option<String>)
    ensures
        match r {
            Some(x) => strip_prefix(trimmed(contents@), "gitdir: "@) == Some(x@),
            None => strip_prefix(trimmed(contents@), "gitdir: "@) is None,
        },
{
    let all = chars(contents);
    match after_prefix(strip(&all), "gitdir: ") {
        Some(dir) => Some(text(dir)),
        None => None,
    }
}

/// The branch reference that HEAD names.
pub open spec fn head_reference(head: Seq<char>) -> Option<Seq<char>> {
    match strip_prefix(trimmed(head), "ref: "@) {
        Some(reference) => if starts_with(reference, "refs/heads/"@) && good_path(reference) {
            Some(reference)
        } else {
            None
        },
        None => None,
    }
}

pub fn branch_reference(head: &str) -> (r: Option<String>)
    ensures
        match r {
            Some(x) => head_reference(head@) == Some(x@),
            None => head_reference(head@) is None,
        },
{
    let all = chars(head);
    match after_prefix(strip(&all), "ref: ") {
        Some(reference) => {
            let whole = text(reference);
            if has_prefix(reference, "refs/heads/") && valid_path(&whole) {
                Some(whole)
            } else {
                None
            }
        },
        None => None,
    }
}

/// The object id of a reference in a packed list, from line `i` on.
pub open spec fn packed_id(rows: Seq<Seq<char>>, reference: Seq<char>, i: int) -> Option<Seq<char>>
    decreases rows.len() - i,
{
    if i < 0 || i >= rows.len() {
        None
    } else {
        match split_once(rows[i], " "@) {
            Some((oid, name)) => if name == reference {
                Some(oid)
            } else {
                packed_id(rows, reference, i + 1)
            },
            None => packed_id(rows, reference, i + 1),
        }
    }
}

fn find_packed(refs: &str, reference: &str) -> (r: Option<String>)
    ensures
        match r {
            Some(x) => packed_id(lines(refs@), reference@, 0) == Some(x@),
            None => packed_id(lines(refs@), reference@, 0) is None,
        },
{
    let all = chars(refs);
    let parts = split_lines(&all);
    let ghost rows = lines(refs@);
    let mut i: usize = 0;
    while i < parts.len()
        invariant
            i <= parts@.len(),
            rows == slices(parts@),
            rows == lines(refs@),
            packed_id(rows, reference@, 0) == packed_id(rows, reference@, i as int),
        decreases parts@.len() - i,
    {
        assert(rows[i as int] == parts@[i as int]@);
        match cut(parts[i], " ") {
            Some((oid, name)) => {
                if spells(name, reference) {
                    return Some(text(oid));
                }
            },
            None => {},
        }
        i += 1;
    }
    None
}

/// What was read of a repository.
#[derive(Debug)]
pub struct Repository {
    pub root: String,
    pub git_dir: String,
    /// The contents of `HEAD`.
    pub head: String,
    /// The contents of the branch's own file, and of the packed references.
    pub loose: Option<String>,
    pub packed: Option<String>,
    /// The configuration of the repository and of the worktree.
    pub config: Option<Vec<u8>>,
    pub worktree: Option<Vec<u8>>,
}

/// The object id that the branch points to.
pub open spec fn branch_id(r: Repository, reference: Seq<char>) -> Option<Seq<char>> {
    match (r.loose, r.packed) {
        (Some(oid), _) => Some(oid@),
        (None, Some(refs)) => packed_id(lines(refs@), reference, 0),
        (None, None) => None,
    }
}

pub open spec fn bytes_or_none(b: Option<Vec<u8>>) -> Seq<u8> {
    match b {
        Some(v) => v@,
        None => seq![],
    }
}

/// The context of a repository on a branch. A late response after a checkout,
/// a commit or a change of the configuration finds another one.
pub fn context_of(repository: &Repository) -> (r: Option<Context>)
    ensures
        match head_reference(repository.head@) {
            None => r is None,
            Some(reference) => match (r, branch_id(*repository, reference)) {
                (None, None) => true,
                (Some(c), Some(oid)) => {
                    &&& c.root == repository.root
                    &&& c.git_dir == repository.git_dir
                    &&& c.branch@ == reference.skip("refs/heads/"@.len() as int)
                    &&& c.head@ == trimmed(oid)
                    &&& c.config@ == bytes_or_none(repository.config) + bytes_or_none(
                        repository.worktree,
                    )
                },
                _ => false,
            },
        },
{
    let reference = match branch_reference(&repository.head) {
        Some(reference) => reference,
        None => return None,
    };
    let whole = chars(&reference);
    let branch = match after_prefix(&whole, "refs/heads/") {
        Some(branch) => text(branch),
        None => return None,
    };
    let oid = match (&repository.loose, &repository.packed) {
        (Some(oid), _) => oid.clone(),
        (None, Some(refs)) => match find_packed(refs, &reference) {
            Some(oid) => oid,
            None => return None,
        },
        (None, None) => return None,
    };
    let mut config: Vec<u8> = Vec::new();
    match &repository.config {
        Some(bytes) => {
            let mut more = vstd::slice::slice_to_vec(bytes.as_slice());
            config.append(&mut more);
        },
        None => {},
    }
    assert(config@ =~= bytes_or_none(repository.config));
    match &repository.worktree {
        Some(bytes) => {
            let mut more = vstd::slice::slice_to_vec(bytes.as_slice());
            config.append(&mut more);
        },
        None => {},
    }
    assert(config@ =~= bytes_or_none(repository.config) + bytes_or_none(repository.worktree));
    let id = chars(&oid);
    Some(
        Context {
            root: repository.root.clone(),
            git_dir: repository.git_dir.clone(),
            branch,
            head: text(strip(&id)),
            config,
        },
    )
}

/// Why no context was found: `path` is where the search started and `git` the
/// repository's directory, as shown; `head` the contents of `HEAD`.
pub open spec fn missing_reason(path: Seq<char>, git: Option<Seq<char>>, head: Option<Seq<char>>) -> Seq<
    char,
> {
    match git {
        None => "Reviews: "@ + path + " is not inside a Git repository"@,
        Some(git) => {
            let unreadable = "Reviews: no readable Git HEAD in "@ + git;
            match head {
                None => unreadable,
                Some(head) => {
                    let name = trimmed(head);
                    if starts_with(name, "ref: refs/heads/"@) {
                        "Reviews: cannot read branch "@ + safe(
                            without_prefixes(name, "ref: refs/heads/"@),
                        ) + " (no commits yet or unsupported ref storage)"@
                    } else if !starts_with(name, "ref: "@) {
                        "Reviews: detached HEAD; check out the PR branch to show its discussions"@
                    } else {
                        unreadable
                    }
                },
            }
        },
    }
}

/// `s` without any number of `prefix` at its start.
pub open spec fn without_prefixes(s: Seq<char>, prefix: Seq<char>) -> Seq<char>
    decreases s.len(),
{
    if prefix.len() > 0 {
        match strip_prefix(s, prefix) {
            Some(rest) => without_prefixes(rest, prefix),
            None => s,
        }
    } else {
        s
    }
}

/// Explain why no reviewable branch was found.
pub fn missing_context(path: &str, git: Option<&str>, head: Option<&str>) -> (r: String)
    ensures
        r@ == missing_reason(path@, crate::github::opt(git), crate::github::opt(head)),
{
    let git = match git {
        Some(git) => git,
        None => {
            let mut r = "Reviews: ".to_owned();
            r.append(path);
            r.append(" is not inside a Git repository");
            return r;
        },
    };
    match head {
        Some(head) => {
            let all = chars(head);
            let name = strip(&all);
            if has_prefix(name, "ref: refs/heads/") {
                let mut branch = name;
                proof {
                    reveal_strlit("ref: refs/heads/");
                }
                loop
                    invariant_except_break
                        without_prefixes(name@, "ref: refs/heads/"@) == without_prefixes(
                            branch@,
                            "ref: refs/heads/"@,
                        ),
                        "ref: refs/heads/"@.len() > 0,
                    ensures
                        branch@ == without_prefixes(name@, "ref: refs/heads/"@),
                    decreases branch@.len(),
                {
                    match after_prefix(branch, "ref: refs/heads/") {
                        Some(rest) => {
                            branch = rest;
                        },
                        None => {
                            break;
                        },
                    }
                }
                let mut r = "Reviews: cannot read branch ".to_owned();
                r.append(&safe_text(&text(branch)));
                r.append(" (no commits yet or unsupported ref storage)");
                return r;
            }
            if !has_prefix(name, "ref: ") {
                return "Reviews: detached HEAD; check out the PR branch to show its discussions".to_owned();
            }
        },
        None => {},
    }
    let mut r = "Reviews: no readable Git HEAD in ".to_owned();
    r.append(git);
    r
}

// ---------------------------------------------------------------------------
// Loading
// ---------------------------------------------------------------------------

/// What no change of the context or the display touches: the discussion view,
/// the drafts and what is remembered across loads.
pub open spec fn lasting(a: State, b: State) -> bool {
    a.document == b.document && a.compose == b.compose && a.remembered == b.remembered
        && a.after_load == b.after_load
}

/// Nothing is loaded, selected or shown whole.
pub open spec fn reset(s: State) -> bool {
    &&& s.task is None
    &&& !s.loading
    &&& !s.failed
    &&& s.review is None
    &&& s.selected is None
    &&& s.pending_selection is None
    &&& s.expanded@.len() == 0
}

/// What to do after the state met the current context.
#[derive(Debug)]
pub struct Sync {
    /// The context changed: documents show nothing, and loading is stopped.
    pub changed: bool,
    pub abort: Option<u64>,
    /// Load the review, in this generation and of this pull request.
    pub load: Option<Load>,
    /// Place the discussions in the open documents.
    pub attach: bool,
}

#[derive(Debug)]
pub struct Load {
    pub generation: u64,
    pub pull: Option<String>,
}

/// Called at rendering boundaries and before review commands. `context` is what
/// the repository says now and `missing` why there is none. An epoch changes for
/// refresh, repository and branch changes.
pub fn synchronize(state: &mut State, context: Option<Context>, closing: bool, missing: String) -> (r:
    Sync)
    ensures
        !old(state).enabled || closing ==> *final(state) == *old(state) && !r.changed && r.abort
            is None && r.load is None && !r.attach,
        old(state).enabled && !closing ==> {
            let changed = !same_contexts(context, old(state).context);
            &&& r.changed == changed
            &&& r.abort == (if changed {
                old(state).task
            } else {
                None
            })
            &&& final(state).enabled
            &&& final(state).context == (if changed {
                context
            } else {
                old(state).context
            })
            &&& final(state).generation == (if changed {
                old(state).generation.wrapping_add(1)
            } else {
                old(state).generation
            })
            &&& final(state).review == (if changed {
                None
            } else {
                old(state).review
            })
            &&& final(state).pull == (if changed {
                None
            } else {
                old(state).pull
            })
            &&& lasting(*final(state), *old(state))
            &&& final(state).task == (if changed {
                None
            } else {
                old(state).task
            })
            &&& final(state).selected == (if changed {
                None
            } else {
                old(state).selected
            })
            &&& final(state).pending_selection == (if changed {
                None
            } else {
                old(state).pending_selection
            })
            &&& if changed {
                final(state).expanded@.len() == 0
            } else {
                final(state).expanded == old(state).expanded
            }
            &&& r.attach == (context is Some)
            &&& match context {
                None => final(state).status == missing && final(state).failed && r.load is None
                    && final(state).loading == (!changed && old(state).loading),
                Some(_) => {
                    let wanted = if changed {
                        true
                    } else {
                        old(state).review is None && !old(state).loading && old(state).status@.len() == 0
                    };
                    &&& r.load is Some == wanted
                    &&& wanted ==> final(state).loading && final(state).status@
                        == "Loading GitHub reviews…"@
                    &&& wanted ==> (r.load->0).generation == final(state).generation
                    &&& wanted ==> (r.load->0).pull == final(state).pull
                    &&& wanted ==> final(state).failed == (!changed && old(state).failed)
                    &&& !wanted ==> *final(state) == *old(state)
                },
            }
        },
{
    if !state.enabled || closing {
        return Sync { changed: false, abort: None, load: None, attach: false };
    }
    let known = context.is_some();
    let unchanged = match (&context, &state.context) {
        (Some(a), Some(b)) => a.same(b),
        (None, None) => true,
        _ => false,
    };
    let mut abort: Option<u64> = None;
    if !unchanged {
        abort = state.invalidate(context);
        state.status = String::new();
    }
    if !known {
        state.status = missing;
        state.failed = true;
        return Sync { changed: !unchanged, abort, load: None, attach: false };
    }
    let mut load: Option<Load> = None;
    if state.review.is_none() && !state.loading && state.status.as_str().is_empty() {
        state.loading = true;
        state.status = "Loading GitHub reviews…".to_owned();
        load = Some(Load { generation: state.generation, pull: state.pull.clone() });
    }
    Sync { changed: !unchanged, abort, load, attach: true }
}

/// A message for the status line.
#[derive(Debug)]
pub enum Message {
    Status(String),
    Error(String),
}

/// Show the result of loading, unless it is of another epoch or the repository
/// says something else by now. The discussion selected last on the branch is
/// selected again. Returns what to tell the user: the message of the Git action
/// that caused the load, or else the summary.
pub fn loaded(
    state: &mut State,
    generation: u64,
    context: &Context,
    current: &Option<Context>,
    result: Result<Option<Review>, String>,
) -> (r: Option<Message>)
    ensures
        ({
            let fresh = accepts(*old(state), generation, *context) && match *current {
                Some(c) => same_context(c, *context),
                None => false,
            };
            &&& !fresh ==> *final(state) == *old(state) && r is None
            &&& fresh ==> {
                &&& !final(state).loading
                &&& final(state).task is None
                &&& final(state).generation == old(state).generation
                &&& final(state).context == old(state).context
                &&& final(state).enabled
                &&& final(state).pull == old(state).pull
                &&& final(state).expanded == old(state).expanded
                &&& final(state).pending_selection == old(state).pending_selection
                &&& final(state).document == old(state).document
                &&& final(state).compose == old(state).compose
                &&& final(state).remembered == old(state).remembered
                &&& final(state).after_load == (if announced(*old(state), *context) is Some {
                    None
                } else {
                    old(state).after_load
                })
                &&& match result {
                    Ok(Some(review)) => {
                        &&& final(state).review matches Some(x) && *x == review
                        &&& final(state).selected == (match found_again(
                            *old(state),
                            *context,
                            review,
                        ) {
                            Some(i) => Some(i as usize),
                            None => old(state).selected,
                        })
                        &&& final(state).status@ == summary(review)
                        &&& final(state).failed == old(state).failed
                        &&& r matches Some(Message::Status(m)) && m@ == (match announced(
                            *old(state),
                            *context,
                        ) {
                            Some(message) => message,
                            None => summary(review),
                        })
                    },
                    Ok(None) => {
                        &&& final(state).selected == old(state).selected
                        &&& final(state).review == old(state).review
                        &&& final(state).status@ == "Reviews: no open pull request for branch "@
                            + safe(context.branch@)
                            + "; use :review-select owner/repo#number"@
                        &&& final(state).failed == old(state).failed
                        &&& r matches Some(Message::Status(m)) && m@ == final(state).status@
                    },
                    Err(e) => {
                        &&& final(state).selected == old(state).selected
                        &&& final(state).review == old(state).review
                        &&& final(state).status@ == safe("Reviews: "@ + e@)
                        &&& final(state).failed
                        &&& r matches Some(Message::Error(m)) && m@ == final(state).status@
                    },
                }
            }
        }),
{
    let still = match current {
        Some(c) => c.same(context),
        None => false,
    };
    if !state.accepts(generation, context) || !still {
        return None;
    }
    let message = announcement(state, context);
    if message.is_some() {
        state.after_load = None;
    }
    state.loading = false;
    state.task = None;
    match result {
        Ok(Some(review)) => {
            match find_again(state, context, &review) {
                Some(i) => {
                    state.selected = Some(i);
                },
                None => {},
            }
            state.status = review.summary();
            state.review = Some(Arc::new(review));
            Some(
                Message::Status(
                    match message {
                        Some(message) => message,
                        None => state.status.clone(),
                    },
                ),
            )
        },
        Ok(None) => {
            let mut shown = "Reviews: no open pull request for branch ".to_owned();
            shown.append(&safe_text(&context.branch));
            shown.append("; use :review-select owner/repo#number");
            state.status = shown.clone();
            Some(Message::Status(shown))
        },
        Err(e) => {
            let mut shown = "Reviews: ".to_owned();
            shown.append(&e);
            let shown = safe_text(&shown);
            state.failed = true;
            state.status = shown.clone();
            Some(Message::Error(shown))
        },
    }
}

/// Show or hide discussions; what was loaded is dropped either way. Returns the
/// task to abort. The state has to be synchronized next.
pub fn toggle(state: &mut State) -> (r: Option<u64>)
    ensures
        final(state).enabled == !old(state).enabled,
        final(state).context is None,
        final(state).pull is None,
        final(state).status@.len() == 0,
        final(state).generation == old(state).generation.wrapping_add(1),
        reset(*final(state)),
        lasting(*final(state), *old(state)),
        r == old(state).task,
{
    state.enabled = !state.enabled;
    let task = state.invalidate(None);
    state.status = String::new();
    task
}

/// What is said after the display was toggled and synchronized.
pub fn toggled(state: &State) -> (r: Message)
    ensures
        match r {
            Message::Status(m) => if state.enabled {
                state.context is Some && m@ == "GitHub review comments enabled · "@
                    + state.status@
            } else {
                m@ == "GitHub review comments hidden"@
            },
            Message::Error(m) => state.enabled && state.context is None && m == state.status,
        },
{
    if !state.enabled {
        Message::Status("GitHub review comments hidden".to_owned())
    } else if state.context.is_none() {
        // Never hide why nothing will be shown behind a generic confirmation.
        Message::Error(state.status.clone())
    } else {
        let mut m = "GitHub review comments enabled · ".to_owned();
        m.append(&state.status);
        Message::Status(m)
    }
}

/// Load again, the given pull request or (in the same context) the one selected
/// before. Returns the task to abort. The state has to be synchronized next.
pub fn refresh(state: &mut State, context: Option<Context>, selection: Option<String>) -> (r: Option<
    u64,
>)
    ensures
        final(state).enabled,
        final(state).context == context,
        final(state).status@.len() == 0,
        final(state).generation == old(state).generation.wrapping_add(1),
        reset(*final(state)),
        lasting(*final(state), *old(state)),
        r == old(state).task,
        final(state).pull == (match selection {
            Some(_) => selection,
            None => if same_contexts(context, old(state).context) {
                old(state).pull
            } else {
                None
            },
        }),
{
    state.enabled = true;
    let unchanged = match (&context, &state.context) {
        (Some(a), Some(b)) => a.same(b),
        (None, None) => true,
        _ => false,
    };
    let pull = match selection {
        Some(selection) => Some(selection),
        None => if unchanged {
            state.pull.take()
        } else {
            None
        },
    };
    let task = state.invalidate(context);
    state.pull = pull;
    state.status = String::new();
    task
}

/// What is said after a refresh, once the state was synchronized.
pub fn refreshed(state: &State) -> (r: Message)
    ensures
        match r {
            Message::Status(m) => state.context is Some && m == state.status,
            Message::Error(m) => state.context is None && m == state.status,
        },
{
    if state.context.is_none() {
        Message::Error(state.status.clone())
    } else {
        Message::Status(state.status.clone())
    }
}

/// The list with `id` where it was not, and without it where it was.
pub open spec fn flipped(list: Seq<Seq<char>>, id: Seq<char>) -> Seq<Seq<char>> {
    if list.contains(id) {
        list.filter(|x: Seq<char>| x != id)
    } else {
        list.push(id)
    }
}

fn flip(list: Vec<String>, id: &str) -> (r: Vec<String>)
    ensures
        views(r@) == flipped(views(list@), id@),
{
    let mut list = list;
    if !has_text(&list, id) {
        let ghost before = views(list@);
        list.push(id.to_owned());
        assert(views(list@) =~= before.push(id@));
        return list;
    }
    let ghost all = views(list@);
    let mut r: Vec<String> = Vec::new();
    let mut i: usize = 0;
    let ghost other = |x: Seq<char>| x != id@;
    assert(all.take(0).filter(other) =~= seq![]) by {
        reveal(Seq::filter);
    }
    assert(views(r@) =~= seq![]);
    while i < list.len()
        invariant
            i <= list@.len(),
            all == views(list@),
            other == (|x: Seq<char>| x != id@),
            views(r@) =~= all.take(i as int).filter(other),
        decreases list@.len() - i,
    {
        assert(all[i as int] == list@[i as int]@);
        assert(all.take(i + 1).drop_last() =~= all.take(i as int));
        proof {
            reveal(Seq::filter);
        }
        if !same(&list[i], id) {
            let ghost before = views(r@);
            r.push(list[i].clone());
            assert(views(r@) =~= before.push(all[i as int]));
        }
        i += 1;
    }
    assert(all.take(i as int) =~= all);
    r
}

/// Show a discussion whole, or not any more. Older mapping results are rejected;
/// fetched data stays.
pub fn expand(state: &mut State, id: &str)
    ensures
        views(final(state).expanded@) == flipped(views(old(state).expanded@), id@),
        final(state).generation == old(state).generation.wrapping_add(1),
        final(state).review == old(state).review,
        final(state).context == old(state).context,
        final(state).enabled == old(state).enabled,
        final(state).status == old(state).status,
        final(state).selected == old(state).selected,
        final(state).loading == old(state).loading,
        final(state).failed == old(state).failed,
        final(state).task == old(state).task,
        final(state).pull == old(state).pull,
        final(state).pending_selection == old(state).pending_selection,
        lasting(*final(state), *old(state)),
{
    let mut list: Vec<String> = Vec::new();
    std::mem::swap(&mut list, &mut state.expanded);
    state.expanded = flip(list, id);
    state.generation = state.generation.wrapping_add(1);
}

// ---------------------------------------------------------------------------
// Documents
// ---------------------------------------------------------------------------

/// The generation, document version and path that blocks belong to.
#[derive(Debug)]
pub struct Stamp {
    pub generation: u64,
    pub version: i32,
    pub path: String,
}

pub open spec fn same_stamp(a: Stamp, b: Stamp) -> bool {
    a.generation == b.generation && a.version == b.version && a.path@ == b.path@
}

impl Stamp {
    pub fn same(&self, other: &Stamp) -> (r: bool)
        ensures
            r == same_stamp(*self, *other),
    {
        self.generation == other.generation && self.version == other.version && same(
            &self.path,
            &other.path,
        )
    }
}

/// The discussions that a document shows.
#[derive(Debug)]
pub struct DocumentReview {
    pub stamp: Option<Stamp>,
    pub blocks: Vec<Block>,
    /// The background task that places them.
    pub task: Option<u64>,
}

impl Default for DocumentReview {
    fn default() -> (r: DocumentReview)
        ensures
            r.stamp is None,
            r.blocks@.len() == 0,
            r.task is None,
    {
        DocumentReview { stamp: None, blocks: Vec::new(), task: None }
    }
}

/// The paths that discussions can be placed in, in order, possibly repeated.
pub open spec fn placeable_paths(threads: Seq<Arc<Thread>>) -> Seq<Seq<char>>
    decreases threads.len(),
{
    if threads.len() == 0 {
        seq![]
    } else {
        let rest = placeable_paths(threads.drop_last());
        if placeable(*threads.last()) {
            rest.push(threads.last().path@)
        } else {
            rest
        }
    }
}

fn has_placeable(threads: &Vec<Arc<Thread>>, path: &str) -> (r: bool)
    ensures
        r == placeable_paths(threads@).contains(path@),
{
    let mut r = false;
    let mut i: usize = 0;
    assert(threads@.take(0) =~= seq![]);
    while i < threads.len()
        invariant
            i <= threads@.len(),
            r == placeable_paths(threads@.take(i as int)).contains(path@),
        decreases threads@.len() - i,
    {
        let ghost before = placeable_paths(threads@.take(i as int));
        let ghost after = placeable_paths(threads@.take(i + 1));
        assert(threads@.take(i + 1).drop_last() =~= threads@.take(i as int));
        if threads[i].placeable() {
            let hit = same(&threads[i].path, path);
            proof {
                assert(after == before.push(threads@[i as int].path@));
                if before.contains(path@) {
                    assert(after[before.index_of(path@)] == path@);
                }
                if hit {
                    assert(after[before.len() as int] == path@);
                }
                if after.contains(path@) && !hit {
                    let k = after.index_of(path@);
                    assert(before[k] == path@);
                }
            }
            if hit {
                r = true;
            }
        }
        i += 1;
    }
    assert(threads@.take(i as int) =~= threads@);
    r
}

/// What happens to a document when discussions are attached.
#[derive(Debug)]
pub struct Attach {
    /// The document's own placing task is obsolete.
    pub abort: Option<u64>,
    /// Place the discussions of the file with this key.
    pub place: Option<String>,
}

/// Prepare a document for the discussions of the review. `same_root` tells
/// whether its file, links resolved, is in the review's repository and `key`
/// where: an outside file is never bound through a link, nor a nested
/// repository's buffer to the outer repository.
pub fn attach(
    document: &mut DocumentReview,
    stamp: Stamp,
    review: &Review,
    same_root: bool,
    key: Option<String>,
) -> (r: Attach)
    ensures
        ({
            let current = match old(document).stamp {
                Some(s) => same_stamp(s, stamp),
                None => false,
            };
            let wanted = same_root && match key {
                Some(k) => placeable_paths(review.threads@).contains(k@),
                None => false,
            };
            &&& current ==> *final(document) == *old(document) && r.abort is None && r.place
                is None
            &&& !current ==> {
                &&& final(document).stamp == Some(stamp)
                &&& final(document).blocks@.len() == 0
                &&& final(document).task is None
                &&& r.abort == old(document).task
                &&& r.place == (if wanted {
                    key
                } else {
                    None
                })
            }
        }),
{
    let current = match &document.stamp {
        Some(s) => s.same(&stamp),
        None => false,
    };
    if current {
        return Attach { abort: None, place: None };
    }
    let abort = document.task.take();
    document.stamp = Some(stamp);
    document.blocks = Vec::new();
    let place = match key {
        Some(k) => if same_root && has_placeable(&review.threads, &k) {
            Some(k)
        } else {
            None
        },
        None => None,
    };
    Attach { abort, place }
}

/// Where the user is when blocks arrive.
#[derive(Clone, Copy, Debug)]
pub struct Position {
    pub document: u64,
    pub view: u64,
    pub cursor: usize,
    pub version: i32,
}

/// The blocks may be shown: they are of this epoch, and of the document's
/// current text and path.
pub open spec fn may_show(state: State, stamp: Stamp, context: Context, own: Option<Stamp>) -> bool {
    accepts(state, stamp.generation, context) && match own {
        Some(s) => same_stamp(s, stamp),
        None => false,
    }
}

/// Show placed discussions, unless the epoch, the repository, the file or the
/// text changed since they were requested. `unchanged` tells that the repository,
/// the file and the document's version and path are the same. Returns the
/// discussion whose selection waited for them.
pub fn show_blocks(
    state: &mut State,
    document: &mut DocumentReview,
    stamp: &Stamp,
    context: &Context,
    unchanged: bool,
    id: u64,
    blocks: Vec<Block>,
    at: Position,
) -> (r: Option<usize>)
    ensures
        ({
            let shown = unchanged && may_show(*old(state), *stamp, *context, old(document).stamp);
            &&& !shown ==> *final(state) == *old(state) && *final(document) == *old(document) && r
                is None
            &&& shown ==> {
                &&& final(document).blocks == blocks
                &&& final(document).task is None
                &&& final(document).stamp == old(document).stamp
                &&& *final(state) == (State {
                    pending_selection: final(state).pending_selection,
                    ..*old(state)
                })
                &&& match old(state).pending_selection {
                    None => r is None && final(state).pending_selection is None,
                    Some(p) => {
                        &&& final(state).pending_selection == (if p.document == id {
                            None
                        } else {
                            Some(p)
                        })
                        &&& r == (if p.document == id && at.view == p.view && at.version
                            == p.version && at.document == p.document && at.cursor == p.cursor {
                            Some(p.index)
                        } else {
                            None
                        })
                    },
                }
            }
        }),
{
    let own = match &document.stamp {
        Some(s) => s.same(stamp),
        None => false,
    };
    if !unchanged || !own || !state.accepts(stamp.generation, context) {
        return None;
    }
    document.blocks = blocks;
    document.task = None;
    match state.pending_selection {
        Some(p) => {
            if p.document == id {
                state.pending_selection = None;
                if at.view == p.view && at.version == p.version && at.document == p.document
                    && at.cursor == p.cursor {
                    return Some(p.index);
                }
            }
            None
        },
        None => None,
    }
}

/// Blocks that were placed for an older text are not shown.
pub proof fn blocks_of_an_older_text_are_rejected(
    state: State,
    stamp: Stamp,
    context: Context,
    own: Stamp,
)
    requires
        own.version != stamp.version || own.generation != stamp.generation || own.path@
            != stamp.path@,
    ensures
        !may_show(state, stamp, context, Some(own)),
{
}

/// Expanding a discussion shows it whole if it was not, and the other way round; nothing
/// else changes.
pub proof fn expanding_flips_one_discussion(list: Seq<Seq<char>>, id: Seq<char>, other: Seq<char>)
    ensures
        flipped(list, id).contains(id) <==> !list.contains(id),
        other != id ==> (flipped(list, id).contains(other) <==> list.contains(other)),
{
    if list.contains(id) {
        assert forall|p: spec_fn(Seq<char>) -> bool| true implies #[trigger] list.filter(
            p,
        ).contains(id) == (list.contains(id) && p(id)) && list.filter(p).contains(other) == (
        list.contains(other) && p(other)) by {
            lemma_filter(list, p, id);
            lemma_filter(list, p, other);
        }
    } else {
        let all = list.push(id);
        assert(all[list.len() as int] == id);
        if list.contains(other) {
            let k = list.index_of(other);
            assert(all[k] == other);
        }
        if all.contains(other) && other != id {
            let k = all.index_of(other);
            assert(list[k] == other);
        }
    }
}

proof fn lemma_filter(list: Seq<Seq<char>>, p: spec_fn(Seq<char>) -> bool, x: Seq<char>)
    ensures
        list.filter(p).contains(x) <==> list.contains(x) && p(x),
    decreases list.len(),
{
    reveal(Seq::filter);
    if list.len() > 0 {
        let rest = list.drop_last();
        let kept = rest.filter(p);
        let all = list.filter(p);
        lemma_filter(rest, p, x);
        assert(list[list.len() - 1] == list.last());
        if rest.contains(x) {
            let k = rest.index_of(x);
            assert(list[k] == x);
        }
        if list.contains(x) && x != list.last() {
            let k = list.index_of(x);
            assert(rest[k] == x);
        }
        if p(list.last()) {
            assert(all == kept.push(list.last()));
            assert(all[kept.len() as int] == list.last());
            if kept.contains(x) {
                let k = kept.index_of(x);
                assert(all[k] == x);
            }
            if all.contains(x) && x != list.last() {
                let k = all.index_of(x);
                assert(kept[k] == x);
            }
        }
    }
}

/// The commit of a branch is what its own file says, and only without one what the
/// packed references say: the first row of that reference.
pub proof fn branch_files_come_before_packed_references(
    r: Repository,
    reference: Seq<char>,
    oid: Seq<char>,
    k: int,
)
    ensures
        r.loose matches Some(own) ==> branch_id(r, reference) == Some(own@),
        r.loose is None && r.packed is None ==> branch_id(r, reference) is None,
        r.loose is None && (r.packed matches Some(refs) && 0 <= k < lines(refs@).len() && lines(
            refs@,
        )[k] == oid + " "@ + reference && (forall|i: int| 0 <= i < oid.len() ==> #[trigger] oid[i]
            != ' ') && (forall|j: int|
            0 <= j < k ==> (split_once(#[trigger] lines(refs@)[j], " "@) matches Some(row)
                ==> row.1 != reference))) ==> branch_id(r, reference) == Some(oid),
{
    if let Some(refs) = r.packed {
        let rows = lines(refs@);
        if 0 <= k < rows.len() && rows[k] == oid + " "@ + reference && (forall|i: int|
            0 <= i < oid.len() ==> #[trigger] oid[i] != ' ') && (forall|j: int|
            0 <= j < k ==> (split_once(#[trigger] rows[j], " "@) matches Some(row) ==> row.1
                != reference)) {
            reveal_strlit(" ");
            assert(" "@ =~= seq![' ']);
            crate::text::texts_are_cut_at_the_first(oid, ' ', reference);
            lemma_packed_id(rows, reference, 0, k, oid);
        }
    }
}

proof fn lemma_packed_id(
    rows: Seq<Seq<char>>,
    reference: Seq<char>,
    i: int,
    k: int,
    oid: Seq<char>,
)
    requires
        0 <= i <= k < rows.len(),
        split_once(rows[k], " "@) == Some((oid, reference)),
        forall|j: int|
            i <= j < k ==> (split_once(#[trigger] rows[j], " "@) matches Some(row) ==> row.1
                != reference),
    ensures
        packed_id(rows, reference, i) == Some(oid),
    decreases k - i,
{
    if i < k {
        assert(split_once(rows[i], " "@) matches Some(row) ==> row.1 != reference);
        lemma_packed_id(rows, reference, i + 1, k, oid);
    }
}

/// HEAD names a branch exactly if it refers to one; a detached HEAD does not.
pub proof fn heads_name_their_branch(head: Seq<char>, branch: Seq<char>)
    ensures
        trimmed(head) == "ref: "@ + ("refs/heads/"@ + branch) && good_path("refs/heads/"@ + branch)
            ==> head_reference(head) == Some("refs/heads/"@ + branch),
        !starts_with(trimmed(head), "ref: "@) ==> head_reference(head) is None,
        head_reference(head) matches Some(r) ==> starts_with(r, "refs/heads/"@) && good_path(r),
{
    let reference = "refs/heads/"@ + branch;
    let full = "ref: "@ + reference;
    assert(full.take("ref: "@.len() as int) =~= "ref: "@);
    assert(full.skip("ref: "@.len() as int) =~= reference);
    assert(reference.take("refs/heads/"@.len() as int) =~= "refs/heads/"@);
}

/// The discussions of a file are placed exactly if one of them has lines, now or when it
/// was written.
pub proof fn files_with_discussions_are_placed(threads: Seq<Arc<Thread>>, path: Seq<char>)
    ensures
        placeable_paths(threads).contains(path) <==> exists|i: int|
            0 <= i < threads.len() && (#[trigger] threads[i]).path@ == path && (
            threads[i].lines is Some || threads[i].original_lines is Some),
    decreases threads.len(),
{
    if threads.len() > 0 {
        let rest = threads.drop_last();
        let before = placeable_paths(rest);
        let all = placeable_paths(threads);
        files_with_discussions_are_placed(rest, path);
        assert(threads[threads.len() - 1] == threads.last());
        if before.contains(path) {
            let k = before.index_of(path);
            assert(all[k] == path);
            let i = choose|i: int|
                0 <= i < rest.len() && (#[trigger] rest[i]).path@ == path && (
                rest[i].lines is Some || rest[i].original_lines is Some);
            assert(threads[i] == rest[i]);
        }
        if all.len() > before.len() {
            assert(all[before.len() as int] == threads.last().path@);
            if all.contains(path) && !before.contains(path) {
                let k = all.index_of(path);
                if k < before.len() {
                    assert(before[k] == path);
                }
            }
        }
        assert forall|i: int| 0 <= i < threads.len() - 1 implies (#[trigger] threads[i])
            == rest[i] by {}
    }
}

/// Blocks of the document's current text and path are shown as long as nothing else was
/// loaded since.
pub proof fn blocks_of_the_current_text_are_shown(
    state: State,
    stamp: Stamp,
    context: Context,
    own: Stamp,
)
    requires
        state.enabled,
        state.context == Some(context),
        state.generation == stamp.generation,
        own.generation == stamp.generation,
        own.version == stamp.version,
        own.path@ == stamp.path@,
    ensures
        may_show(state, stamp, context, Some(own)),
        !may_show(state, stamp, context, None),
{
}

/// A relative key stays below the repository: no path that is absolute or goes up has
/// one.
pub proof fn keys_stay_below_the_repository(path: Seq<char>)
    ensures
        key_of(path) is Some ==> !(path.len() > 0 && path[0] == '/') && !split(
            path,
            Pattern::One('/'),
        ).contains(".."@),
        !(path.len() > 0 && path[0] == '/') && split(path, Pattern::One('/'))[0] != "."@ && !split(
            path,
            Pattern::One('/'),
        ).contains(".."@) ==> key_of(path) is Some,
{
}

/// Why there is no branch to show discussions for is told: no repository, no branch
/// checked out, or a branch that cannot be read.
pub proof fn missing_branches_are_explained(
    path: Seq<char>,
    git: Seq<char>,
    head: Seq<char>,
    branch: Seq<char>,
)
    ensures
        missing_reason(path, None, Some(head)) == "Reviews: "@ + path
            + " is not inside a Git repository"@,
        missing_reason(path, Some(git), None) == "Reviews: no readable Git HEAD in "@ + git,
        !starts_with(trimmed(head), "ref: "@) && !starts_with(trimmed(head), "ref: refs/heads/"@)
            ==> missing_reason(path, Some(git), Some(head))
            == "Reviews: detached HEAD; check out the PR branch to show its discussions"@,
        trimmed(head) == "ref: refs/heads/"@ + branch && !starts_with(branch, "ref: refs/heads/"@)
            ==> missing_reason(path, Some(git), Some(head)) == "Reviews: cannot read branch "@
            + safe(branch) + " (no commits yet or unsupported ref storage)"@,
{
    reveal_strlit("ref: refs/heads/");
    let name = "ref: refs/heads/"@ + branch;
    assert(name.take("ref: refs/heads/"@.len() as int) =~= "ref: refs/heads/"@);
    assert(name.skip("ref: refs/heads/"@.len() as int) =~= branch);
    reveal_with_fuel(without_prefixes, 2);
}

} // verus!
