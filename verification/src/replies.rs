//! Replying to and resolving review discussions. Every write starts from an
//! explicit command and is bound to one discussion node id: a reply draft keeps
//! the discussion it was opened for, whatever the cursor or checkout does later.
use std::sync::Arc;

use vstd::prelude::*;

use crate::api::PullHead;
use crate::discussions::{list_location, thread_location};
use crate::drafts::{closes, reply_body, written, REPLY_SEPARATOR};
use crate::history::{described, ids_among, mentions_commit, Commit, CommitView, Touch};
use crate::review::{
    first_author, safe, safe_text, same_context, share, Comment, Compose, Context, Original, Review,
    Source, State, Thread,
};
use crate::session::Message;
use crate::text::{
    chars, clip, clippable, clipped, decimal, join, join_texts, lines, number, push_decimal, same,
    slices, split, split_lines, strip, text, trimmed, views, Pattern,
};

verus! {

/// Register that holds the suggested commit id while a reply is written.
pub const COMMIT_REGISTER: char = 'h';

/// The discussion that a command addresses.
#[derive(Debug)]
pub struct Target {
    pub context: Context,
    pub repo: String,
    pub number: u64,
    pub thread: Arc<Thread>,
}

/// `@author on path:line`
pub open spec fn target_label(t: Thread) -> Seq<char> {
    "@"@ + first_author(t) + " on "@ + thread_location(t)
}

/// The discussion's lines are in order, as loaded ones are.
pub open spec fn has_range(t: Thread) -> bool {
    t.lines matches Some(l) ==> l.start <= l.end
}

pub fn thread_label(thread: &Thread) -> (r: String)
    requires
        has_range(*thread),
    ensures
        r@ == target_label(*thread),
{
    let mut r = "@".to_owned();
    if thread.comments.len() > 0 {
        r.append(&thread.comments[0].author);
    } else {
        r.append("[deleted]");
    }
    r.append(" on ");
    r.append(&list_location(thread));
    r
}

impl Target {
    pub fn label(&self) -> (r: String)
        requires
            has_range(*self.thread),
        ensures
            r@ == target_label(*self.thread),
    {
        thread_label(&self.thread)
    }
}

/// The draft of a document from index `i` on.
pub open spec fn draft_index(drafts: Seq<Compose>, document: u64, i: int) -> Option<int>
    decreases drafts.len() - i,
{
    if i < 0 || i >= drafts.len() {
        None
    } else if drafts[i].document == document {
        Some(i)
    } else {
        draft_index(drafts, document, i + 1)
    }
}

pub fn find_draft(drafts: &Vec<Compose>, document: u64) -> (r: Option<usize>)
    ensures
        match r {
            Some(i) => i < drafts@.len() && draft_index(drafts@, document, 0) == Some(i as int)
                && drafts@[i as int].document == document,
            None => draft_index(drafts@, document, 0) is None,
        },
{
    let mut i: usize = 0;
    while i < drafts.len()
        invariant
            i <= drafts@.len(),
            draft_index(drafts@, document, 0) == draft_index(drafts@, document, i as int),
        decreases drafts@.len() - i,
    {
        if drafts[i].document == document {
            return Some(i);
        }
        i += 1;
    }
    None
}

/// The drafts whose documents are still open.
pub open spec fn open_drafts(drafts: Seq<Compose>, live: Seq<u64>) -> Seq<Compose>
    decreases drafts.len(),
{
    if drafts.len() == 0 {
        seq![]
    } else if live.contains(drafts[0].document) {
        seq![drafts[0]] + open_drafts(drafts.skip(1), live)
    } else {
        open_drafts(drafts.skip(1), live)
    }
}

fn is_live(live: &Vec<u64>, document: u64) -> (r: bool)
    ensures
        r == live@.contains(document),
{
    let mut i: usize = 0;
    while i < live.len()
        invariant
            i <= live@.len(),
            forall|k: int| 0 <= k < i ==> #[trigger] live@[k] != document,
        decreases live@.len() - i,
    {
        if live[i] == document {
            return true;
        }
        i += 1;
    }
    false
}

/// Forget the drafts of documents that were closed.
pub fn prune(drafts: Vec<Compose>, live: &Vec<u64>) -> (r: Vec<Compose>)
    ensures
        r@ == open_drafts(drafts@, live@),
{
    let ghost all = drafts@;
    let mut rest = drafts;
    let mut r: Vec<Compose> = Vec::new();
    assert(all.take(all.len() as int) =~= all);
    assert(all.skip(all.len() as int) =~= seq![]);
    loop
        invariant
            rest@.len() <= all.len(),
            rest@ == all.take(rest@.len() as int),
            r@ == open_drafts(all.skip(rest@.len() as int), live@),
        ensures
            r@ == open_drafts(all, live@),
        decreases rest@.len(),
    {
        let ghost n = rest@.len() as int;
        match rest.pop() {
            None => {
                assert(all.skip(0) =~= all);
                break;
            },
            Some(draft) => {
                assert(rest@ =~= all.take(n - 1));
                assert(all.skip(n - 1)[0] == draft);
                assert(all.skip(n - 1).skip(1) =~= all.skip(n));
                if is_live(live, draft.document) {
                    let ghost before = r@;
                    r.insert(0, draft);
                    assert(r@ =~= seq![draft] + before);
                }
            },
        }
    }
    r
}

/// `t` addresses the given discussion.
pub open spec fn addresses(
    t: Target,
    context: Context,
    repo: String,
    number: u64,
    thread: Arc<Thread>,
) -> bool {
    same_context(t.context, context) && t.repo == repo && t.number == number && t.thread == thread
}

/// The reply draft's discussion, else the discussion at the cursor or selected
/// by navigation (`index`) in the loaded review. The state has been pruned and,
/// if `document` is no draft, synchronized.
pub fn target(state: &State, document: u64, index: Option<usize>) -> (r: Result<Target, String>)
    requires
        state.review matches Some(review) ==> (index matches Some(i) ==> i < review.threads@.len()),
    ensures
        match draft_index(state.compose@, document, 0) {
            Some(i) => {
                let draft = state.compose@[i];
                r matches Ok(t) && addresses(
                    t,
                    draft.context,
                    draft.repo,
                    draft.number,
                    draft.thread,
                )
            },
            None => if !state.enabled {
                r matches Err(e) && e@ == "Reviews are not loaded; run :review-refresh first"@
            } else {
                match (state.review, state.context) {
                    (Some(review), Some(context)) => match index {
                        Some(i) => r matches Ok(t) && addresses(
                            t,
                            context,
                            review.repo,
                            review.number,
                            review.threads@[i as int],
                        ),
                        None => r matches Err(e) && e@
                            == "No review discussion selected; use :review-next or :review-list"@,
                    },
                    _ => r matches Err(e) && e@ == if state.status@.len() == 0 {
                        "Reviews are not loaded; run :review-refresh first"@
                    } else {
                        state.status@
                    },
                }
            },
        },
{
    match find_draft(&state.compose, document) {
        Some(i) => {
            let draft = &state.compose[i];
            return Ok(
                Target {
                    context: draft.context.copy(),
                    repo: draft.repo.clone(),
                    number: draft.number,
                    thread: share(&draft.thread),
                },
            );
        },
        None => {},
    }
    if !state.enabled {
        return Err("Reviews are not loaded; run :review-refresh first".to_owned());
    }
    match (&state.review, &state.context) {
        (Some(review), Some(context)) => match index {
            Some(i) => Ok(
                Target {
                    context: context.copy(),
                    repo: review.repo.clone(),
                    number: review.number,
                    thread: share(&review.threads[i]),
                },
            ),
            None => Err(
                "No review discussion selected; use :review-next or :review-list".to_owned(),
            ),
        },
        _ => if state.status.as_str().is_empty() {
            Err("Reviews are not loaded; run :review-refresh first".to_owned())
        } else {
            Err(state.status.clone())
        },
    }
}

// ---------------------------------------------------------------------------
// A reloaded discussion
// ---------------------------------------------------------------------------

/// What a reloaded discussion does to the review.
#[derive(Clone, Copy, Debug, PartialEq, Eq, Structural)]
pub enum Applied {
    /// No review of that pull request is shown.
    Ignored,
    /// The head moved: the whole review has to be loaded again.
    Reload,
    /// The discussion was replaced; blocks have to be placed anew.
    Replaced,
}

/// The discussions with those of the same id replaced.
pub open spec fn replaced(threads: Seq<Arc<Thread>>, thread: Arc<Thread>) -> Seq<Arc<Thread>> {
    threads.map_values(
        |t: Arc<Thread>|
            if t.id@ == thread.id@ {
                thread
            } else {
                t
            },
    )
}

fn replace_threads(threads: &Vec<Arc<Thread>>, thread: &Arc<Thread>) -> (r: Vec<Arc<Thread>>)
    ensures
        r@ == replaced(threads@, *thread),
{
    let mut r: Vec<Arc<Thread>> = Vec::new();
    let mut i: usize = 0;
    while i < threads.len()
        invariant
            i <= threads@.len(),
            r@ =~= replaced(threads@, *thread).take(i as int),
        decreases threads@.len() - i,
    {
        if same(&threads[i].id, &thread.id) {
            r.push(share(thread));
        } else {
            r.push(share(&threads[i]));
        }
        i += 1;
    }
    assert(replaced(threads@, *thread).take(i as int) =~= replaced(threads@, *thread));
    r
}

fn copy_sources(sources: &Vec<Source>) -> (r: Vec<Source>)
    ensures
        r@ == sources@,
{
    let mut r: Vec<Source> = Vec::new();
    let mut i: usize = 0;
    while i < sources.len()
        invariant
            i <= sources@.len(),
            r@ =~= sources@.take(i as int),
        decreases sources@.len() - i,
    {
        r.push(Source { path: sources[i].path.clone(), text: sources[i].text.clone() });
        i += 1;
    }
    assert(sources@.take(i as int) =~= sources@);
    r
}

fn copy_originals(originals: &Vec<Original>) -> (r: Vec<Original>)
    ensures
        r@ == originals@,
{
    let mut r: Vec<Original> = Vec::new();
    let mut i: usize = 0;
    while i < originals.len()
        invariant
            i <= originals@.len(),
            r@ =~= originals@.take(i as int),
        decreases originals@.len() - i,
    {
        r.push(
            Original {
                commit: originals[i].commit.clone(),
                path: originals[i].path.clone(),
                text: originals[i].text.clone(),
            },
        );
        i += 1;
    }
    assert(originals@.take(i as int) =~= originals@);
    r
}

/// `new` is the review `old` with a discussion replaced.
pub open spec fn updated(new: Review, old_review: Review, thread: Arc<Thread>) -> bool {
    &&& new.label == old_review.label
    &&& new.repo == old_review.repo
    &&& new.number == old_review.number
    &&& new.head == old_review.head
    &&& new.threads@ == replaced(old_review.threads@, thread)
    &&& new.sources@ == old_review.sources@
    &&& new.originals@ == old_review.originals@
    &&& new.head_repo == old_review.head_repo
}

/// The drafts with those of the same discussion bound to its new state.
pub open spec fn rebound(drafts: Seq<Compose>, thread: Arc<Thread>) -> Seq<Compose> {
    drafts.map_values(
        |c: Compose|
            if c.thread.id@ == thread.id@ {
                Compose { thread, ..c }
            } else {
                c
            },
    )
}

fn rebind(drafts: Vec<Compose>, thread: &Arc<Thread>) -> (r: Vec<Compose>)
    ensures
        r@ == rebound(drafts@, *thread),
{
    let ghost all = drafts@;
    let mut rest = drafts;
    let mut r: Vec<Compose> = Vec::new();
    assert(all.take(all.len() as int) =~= all);
    assert(r@ =~= rebound(all, *thread).skip(all.len() as int));
    loop
        invariant
            rest@.len() <= all.len(),
            rest@ == all.take(rest@.len() as int),
            r@ == rebound(all, *thread).skip(rest@.len() as int),
        ensures
            r@ == rebound(all, *thread),
        decreases rest@.len(),
    {
        let ghost n = rest@.len() as int;
        match rest.pop() {
            None => {
                assert(rebound(all, *thread).skip(0) =~= rebound(all, *thread));
                break;
            },
            Some(draft) => {
                let mut draft = draft;
                assert(rest@ =~= all.take(n - 1));
                assert(draft == all[n - 1]);
                if same(&draft.thread.id, &thread.id) {
                    draft.thread = share(thread);
                }
                let ghost before = r@;
                r.insert(0, draft);
                assert(r@ =~= rebound(all, *thread).skip(n - 1));
            },
        }
    }
    r
}

/// Replace a re-fetched discussion in the loaded review. Line numbers belong to
/// a head, so a changed head reloads the whole review instead.
pub fn apply_thread(state: &mut State, target: &Target, thread: Thread, head: &str) -> (r: Applied)
    ensures
        match old(state).review {
            None => r == Applied::Ignored && *final(state) == *old(state),
            Some(review) => if review.repo@ != target.repo@ || review.number != target.number {
                r == Applied::Ignored && *final(state) == *old(state)
            } else if review.head@ != head@ {
                r == Applied::Reload && *final(state) == *old(state)
            } else {
                &&& r == Applied::Replaced
                &&& final(state).review matches Some(new) && exists|shared: Arc<Thread>|
                    *shared == thread && #[trigger] updated(*new, *review, shared)
                        && final(state).compose@ == rebound(old(state).compose@, shared)
                &&& final(state).generation == old(state).generation.wrapping_add(1)
                &&& *final(state) == (State {
                    review: final(state).review,
                    compose: final(state).compose,
                    generation: final(state).generation,
                    ..*old(state)
                })
            },
        },
{
    let (new, shared) = match &state.review {
        None => return Applied::Ignored,
        Some(review) => {
            if !same(&review.repo, &target.repo) || review.number != target.number {
                return Applied::Ignored;
            }
            if !same(&review.head, head) {
                return Applied::Reload;
            }
            let shared = Arc::new(thread);
            let new = Review {
                label: review.label.clone(),
                repo: review.repo.clone(),
                number: review.number,
                head: review.head.clone(),
                threads: replace_threads(&review.threads, &shared),
                sources: copy_sources(&review.sources),
                originals: copy_originals(&review.originals),
                head_repo: review.head_repo.clone(),
            };
            assert(updated(new, **review, shared));
            (new, shared)
        },
    };
    state.review = Some(Arc::new(new));
    let mut drafts: Vec<Compose> = Vec::new();
    std::mem::swap(&mut drafts, &mut state.compose);
    state.compose = rebind(drafts, &shared);
    // Remap blocks from the new data; older mapping results are rejected.
    state.generation = state.generation.wrapping_add(1);
    Applied::Replaced
}

/// Drafts stay bound to their discussions when one of these is reloaded.
pub proof fn drafts_keep_their_discussion(drafts: Seq<Compose>, thread: Arc<Thread>, i: int)
    requires
        0 <= i < drafts.len(),
    ensures
        rebound(drafts, thread).len() == drafts.len(),
        rebound(drafts, thread)[i].thread.id@ == drafts[i].thread.id@,
        rebound(drafts, thread)[i].repo == drafts[i].repo,
        rebound(drafts, thread)[i].number == drafts[i].number,
        rebound(drafts, thread)[i].document == drafts[i].document,
        rebound(drafts, thread)[i].context == drafts[i].context,
        rebound(drafts, thread)[i].sending == drafts[i].sending,
{
}

// ---------------------------------------------------------------------------
// Drafts
// ---------------------------------------------------------------------------

pub open spec fn touch_sentence(touch: Touch) -> Seq<char> {
    match touch {
        Touch::Lines => "last change to the discussed lines"@,
        Touch::File => "last change to the file since the discussion"@,
        Touch::Neither => "HEAD"@,
    }
}

pub fn touch_note(commit: &Commit) -> (r: &'static str)
    ensures
        r@ == touch_sentence(commit.touch),
{
    match commit.touch {
        Touch::Lines => "last change to the discussed lines",
        Touch::File => "last change to the file since the discussion",
        Touch::Neither => "HEAD",
    }
}

/// Lines as a quotation.
pub open spec fn quoted_lines(lines: Seq<Seq<char>>) -> Seq<char>
    decreases lines.len(),
{
    if lines.len() == 0 {
        seq![]
    } else {
        quoted_lines(lines.drop_last()) + ">"@ + (if lines.last().len() == 0 {
            ""@
        } else {
            " "@
        }) + lines.last() + "\n"@
    }
}

/// Comments as a quotation.
pub open spec fn quoted(comments: Seq<Comment>) -> Seq<char>
    decreases comments.len(),
{
    if comments.len() == 0 {
        seq![]
    } else {
        quoted(comments.drop_last()) + "\n> @"@ + comments.last().author@ + "\n"@ + quoted_lines(
            lines(comments.last().body@),
        )
    }
}

fn quote(comments: &Vec<Comment>) -> (r: String)
    ensures
        r@ == quoted(comments@),
{
    let mut r = String::new();
    let mut i: usize = 0;
    assert(comments@.take(0) =~= seq![]);
    assert(r@ =~= seq![]);
    while i < comments.len()
        invariant
            i <= comments@.len(),
            r@ == quoted(comments@.take(i as int)),
        decreases comments@.len() - i,
    {
        assert(comments@.take(i + 1).drop_last() =~= comments@.take(i as int));
        let body = chars(&comments[i].body);
        let parts = split_lines(&body);
        let ghost rows = lines(body@);
        let mut said = String::new();
        let mut n: usize = 0;
        assert(rows.take(0) =~= seq![]);
        assert(said@ =~= seq![]);
        while n < parts.len()
            invariant
                n <= parts@.len(),
                rows == slices(parts@),
                said@ == quoted_lines(rows.take(n as int)),
            decreases parts@.len() - n,
        {
            assert(rows.take(n + 1).drop_last() =~= rows.take(n as int));
            assert(rows.take(n + 1).last() == parts@[n as int]@);
            said.append(">");
            said.append(if parts[n].len() == 0 { "" } else { " " });
            said.append(&text(parts[n]));
            said.append("\n");
            n += 1;
        }
        assert(rows.take(n as int) =~= rows);
        r.append("\n> @");
        r.append(&comments[i].author);
        r.append("\n");
        r.append(&said);
        i += 1;
    }
    assert(comments@.take(i as int) =~= comments@);
    r
}

/// The line about the suggested commit.
pub open spec fn suggestion_line(c: CommitView) -> Seq<char> {
    "Suggested commit ("@ + touch_sentence(c.touch) + "): "@ + described(c)
        + " · paste with \"hp, or Ctrl-r h in insert mode; :review-insert-commit lists others\n"@
}

/// Everything below the separator of a draft.
pub open spec fn draft_context(
    thread: Thread,
    repo: Seq<char>,
    number: u64,
    suggestion: Option<CommitView>,
) -> Seq<char> {
    "Reply to "@ + target_label(thread) + " · "@ + (if thread.resolved {
        "resolved"@
    } else {
        "open"@
    }) + " · "@ + repo + "#"@ + decimal(number as nat)
        + "\n:w or :review-send posts the text above; :review-send --resolve also resolves; :bc! discards.\n"@
        + (match suggestion {
        Some(c) => suggestion_line(c),
        None => seq![],
    }) + quoted(thread.comments@)
}

/// The text of a draft.
pub open spec fn draft(
    body: Seq<char>,
    thread: Thread,
    repo: Seq<char>,
    number: u64,
    suggestion: Option<CommitView>,
) -> Seq<char> {
    body + "\n"@ + "\n"@ + REPLY_SEPARATOR@ + "\n"@ + draft_context(
        thread,
        repo,
        number,
        suggestion,
    )
}

pub open spec fn commit_view(c: Option<&Commit>) -> Option<CommitView> {
    match c {
        Some(x) => Some(x@),
        None => None,
    }
}

pub fn draft_text(target: &Target, suggestion: Option<&Commit>, body: &str) -> (r: String)
    requires
        has_range(*target.thread),
        suggestion matches Some(c) ==> clippable(c.sha@, 10),
    ensures
        r@ == draft(
            body@,
            *target.thread,
            target.repo@,
            target.number,
            commit_view(suggestion),
        ),
{
    let mut context = "Reply to ".to_owned();
    context.append(&target.label());
    context.append(" · ");
    context.append(if target.thread.resolved { "resolved" } else { "open" });
    context.append(" · ");
    context.append(&target.repo);
    context.append("#");
    push_decimal(&mut context, target.number);
    context.append(
        "\n:w or :review-send posts the text above; :review-send --resolve also resolves; :bc! discards.\n",
    );
    let mut line = String::new();
    match suggestion {
        Some(commit) => {
            line = "Suggested commit (".to_owned();
            line.append(touch_note(commit));
            line.append("): ");
            line.append(&commit.describe());
            line.append(
                " · paste with \"hp, or Ctrl-r h in insert mode; :review-insert-commit lists others\n",
            );
        },
        None => {
            assert(line@ =~= seq![]);
        },
    }
    context.append(&line);
    context.append(&quote(&target.thread.comments));
    let mut r = body.to_owned();
    r.append("\n");
    r.append("\n");
    r.append(REPLY_SEPARATOR);
    r.append("\n");
    r.append(&context);
    r
}

/// What a draft sends is what stands above its separator; the context is never
/// part of it, whatever it quotes.
pub proof fn draft_context_is_never_part_of_the_body(
    body: Seq<char>,
    thread: Thread,
    repo: Seq<char>,
    number: u64,
    suggestion: Option<CommitView>,
)
    ensures
        written(lines(draft(body, thread, repo, number, suggestion)), REPLY_SEPARATOR@, true)
            == written(
            lines(body + "\n"@ + "\n"@) + seq![REPLY_SEPARATOR@],
            REPLY_SEPARATOR@,
            true,
        ),
{
    crate::drafts::separators_are_lines();
    crate::drafts::text_below_the_separator_is_not_sent(
        body + "\n"@,
        REPLY_SEPARATOR@,
        draft_context(thread, repo, number, suggestion),
        true,
    );
}

/// An untouched draft says nothing: it is refused as empty.
pub proof fn untouched_drafts_are_empty(
    thread: Thread,
    repo: Seq<char>,
    number: u64,
    suggestion: Option<CommitView>,
)
    ensures
        written(
            lines(draft(seq![], thread, repo, number, suggestion)),
            REPLY_SEPARATOR@,
            true,
        ) == Err::<Seq<char>, bool>(true),
{
    let none: Seq<char> = seq![];
    draft_context_is_never_part_of_the_body(none, thread, repo, number, suggestion);
    reveal_strlit("\n");
    crate::drafts::separators_are_lines();
    let top = none + "\n"@ + "\n"@;
    let feed = Pattern::One('\n');
    let empty: Seq<char> = seq![];
    crate::text::lemma_position_is(top, feed, 0);
    assert(top.take(0) =~= empty);
    assert(top.skip(1) =~= seq!['\n']);
    crate::text::lemma_position_is(seq!['\n'], feed, 0);
    assert(seq!['\n'].take(0) =~= empty);
    assert(seq!['\n'].skip(1) =~= empty);
    reveal_with_fuel(lines, 3);
    assert(lines(top) =~= seq![empty, empty]);
    let all = lines(top) + seq![REPLY_SEPARATOR@];
    let sep = REPLY_SEPARATOR@;
    reveal_with_fuel(crate::drafts::above, 4);
    assert(trimmed(empty) == empty);
    assert(crate::text::trim_start(sep, Pattern::Space) == sep);
    assert(crate::text::trim_end(sep, Pattern::Space) == sep);
    assert(all[0] == empty);
    assert(all.skip(1)[0] == empty);
    assert(all.skip(1).skip(1)[0] == sep);
    let kept = crate::drafts::above(all, sep, true)->0;
    assert(kept =~= seq![empty, empty]);
    reveal_with_fuel(crate::text::join, 3);
    let joined = join(kept, "\n"@);
    assert(kept.drop_last() =~= seq![empty]);
    assert(joined =~= seq!['\n']);
    reveal_with_fuel(crate::text::trim_start, 3);
    assert(seq!['\n'].skip(1) =~= empty);
    assert(crate::text::trim_start(joined, feed) =~= empty);
    assert(crate::drafts::content(kept) =~= empty);
}

/// The text of a new draft: prefilled with the fixing commit if it was asked for.
pub open spec fn prefilled(suggestion: Option<CommitView>, fixed: bool) -> Seq<char> {
    match suggestion {
        Some(c) => if fixed {
            "Fixed in "@ + c.sha + "."@
        } else {
            seq![]
        },
        None => seq![],
    }
}

/// A draft to be opened in a scratch buffer.
#[derive(Debug)]
pub struct Opening {
    /// The buffer's name and text, and where the cursor goes.
    pub name: String,
    pub text: String,
    pub cursor: usize,
    /// The template alone is not an unsent reply; typing makes it one.
    pub modified: bool,
    /// The commit id for the register, and what is said.
    pub register: Option<String>,
    pub status: String,
}

/// The draft for a reply. The new buffer is bound to the target's discussion.
pub fn open_draft(target: &Target, suggestion: Option<&Commit>, fixed: bool) -> (r: Opening)
    requires
        has_range(*target.thread),
        suggestion matches Some(c) ==> clippable(c.sha@, 10),
    ensures
        ({
            let view = commit_view(suggestion);
            let body = prefilled(view, fixed);
            &&& r.name@ == "[review-reply] "@ + target_label(*target.thread)
            &&& r.text@ == draft(body, *target.thread, target.repo@, target.number, view)
            &&& r.cursor == body.len()
            &&& r.modified == (body.len() > 0)
            &&& match view {
                Some(c) => r.register matches Some(sha) && sha@ == c.sha,
                None => r.register is None,
            }
            &&& r.status@ == "Replying to "@ + target_label(*target.thread) + (match view {
                Some(c) => " · suggested "@ + described(c) + " (\"hp)"@,
                None => seq![],
            }) + " · :w sends, :bc! discards"@
        }),
{
    let label = target.label();
    let mut body = String::new();
    let mut hint = String::new();
    let mut register: Option<String> = None;
    assert(body@ =~= seq![]);
    assert(hint@ =~= seq![]);
    match suggestion {
        Some(commit) => {
            if fixed {
                body = "Fixed in ".to_owned();
                body.append(&commit.sha);
                body.append(".");
            }
            hint = " · suggested ".to_owned();
            hint.append(&commit.describe());
            hint.append(" (\"hp)");
            register = Some(commit.sha.clone());
        },
        None => {},
    }
    let mut name = "[review-reply] ".to_owned();
    name.append(&label);
    let mut status = "Replying to ".to_owned();
    status.append(&label);
    status.append(&hint);
    status.append(" · :w sends, :bc! discards");
    let cursor: usize = chars(&body).len();
    Opening {
        name,
        text: draft_text(target, suggestion, &body),
        cursor,
        modified: cursor > 0,
        register,
        status,
    }
}

/// The commit that a new draft suggests. A revision that the user gave has to be
/// one; without it a draft is opened whether or not a commit was found.
pub fn draft_suggestion(given: bool, found: Result<Commit, String>) -> (r: Result<
    Option<Commit>,
    String,
>)
    ensures
        match (r, found) {
            (Ok(Some(c)), Ok(commit)) => c == commit,
            (Ok(None), Err(_)) => !given,
            (Err(e), Err(problem)) => given && e@ == safe(problem@),
            _ => false,
        },
{
    match found {
        Ok(commit) => Ok(Some(commit)),
        Err(problem) => if given {
            Err(safe_text(&problem))
        } else {
            Ok(None)
        },
    }
}

/// Bind the buffer of a new draft to its discussion.
pub fn bind_draft(drafts: &mut Vec<Compose>, document: u64, target: &Target)
    ensures
        final(drafts)@.len() == old(drafts)@.len() + 1,
        final(drafts)@.drop_last() == old(drafts)@,
        ({
            let draft = final(drafts)@.last();
            &&& draft.document == document
            &&& !draft.sending
            &&& same_context(draft.context, target.context)
            &&& draft.repo == target.repo
            &&& draft.number == target.number
            &&& draft.thread == target.thread
        }),
{
    drafts.push(
        Compose {
            document,
            context: target.context.copy(),
            repo: target.repo.clone(),
            number: target.number,
            thread: share(&target.thread),
            sending: false,
        },
    );
    assert(drafts@.drop_last() =~= old(drafts)@);
}

/// The draft of a discussion from index `i` on.
pub open spec fn thread_draft(drafts: Seq<Compose>, id: Seq<char>, i: int) -> Option<int>
    decreases drafts.len() - i,
{
    if i < 0 || i >= drafts.len() {
        None
    } else if drafts[i].thread.id@ == id {
        Some(i)
    } else {
        thread_draft(drafts, id, i + 1)
    }
}

fn find_thread_draft(drafts: &Vec<Compose>, id: &str) -> (r: Option<usize>)
    ensures
        match r {
            Some(i) => i < drafts@.len() && thread_draft(drafts@, id@, 0) == Some(i as int),
            None => thread_draft(drafts@, id@, 0) is None,
        },
{
    let mut i: usize = 0;
    while i < drafts.len()
        invariant
            i <= drafts@.len(),
            thread_draft(drafts@, id@, 0) == thread_draft(drafts@, id@, i as int),
        decreases drafts@.len() - i,
    {
        if same(&drafts[i].thread.id, id) {
            return Some(i);
        }
        i += 1;
    }
    None
}

/// GitHub does not take a reply.
pub open spec fn cannot_reply(t: Thread) -> Seq<char> {
    "GitHub does not allow you to reply to "@ + target_label(t) + " (locked, or no access)"@
}

fn refuse_reply(target: &Target) -> (r: String)
    requires
        has_range(*target.thread),
    ensures
        r@ == cannot_reply(*target.thread),
{
    let mut r = "GitHub does not allow you to reply to ".to_owned();
    r.append(&target.label());
    r.append(" (locked, or no access)");
    r
}

/// What the reply command does.
#[derive(Debug)]
pub enum Replying {
    /// Post the text directly.
    Post(String),
    /// Go to the draft that is already open.
    Switch(u64, String),
    /// Open a new draft, with a suggested commit.
    Draft,
    Refuse(String),
}

/// Post `text` directly, or open a reply draft. At most one draft is open for a
/// discussion.
pub fn replying(state: &State, target: &Target, text: Option<String>) -> (r: Replying)
    requires
        has_range(*target.thread),
    ensures
        ({
            let direct = match text {
                Some(t) => trimmed(t@).len() > 0,
                None => false,
            };
            let open = thread_draft(state.compose@, target.thread.id@, 0);
            match r {
                Replying::Post(t) => direct && text == Some(t),
                Replying::Switch(document, m) => !direct && open is Some && document
                    == state.compose@[open->0].document && m@ == "Reply draft to "@
                    + target_label(*target.thread) + " is already open; :w sends it"@,
                Replying::Draft => !direct && open is None && target.thread.can_reply,
                Replying::Refuse(m) => !direct && open is None && !target.thread.can_reply && m@
                    == cannot_reply(*target.thread),
            }
        }),
{
    match text {
        Some(t) => {
            let all = chars(&t);
            if strip(&all).len() > 0 {
                return Replying::Post(t);
            }
        },
        None => {},
    }
    match find_thread_draft(&state.compose, &target.thread.id) {
        Some(i) => {
            let mut m = "Reply draft to ".to_owned();
            m.append(&target.label());
            m.append(" is already open; :w sends it");
            Replying::Switch(state.compose[i].document, m)
        },
        None => if target.thread.can_reply {
            Replying::Draft
        } else {
            Replying::Refuse(refuse_reply(target))
        },
    }
}

// ---------------------------------------------------------------------------
// Sending
// ---------------------------------------------------------------------------

/// A reply may be posted, and what is said meanwhile.
pub fn posting(target: &Target) -> (r: Message)
    requires
        has_range(*target.thread),
    ensures
        match r {
            Message::Status(m) => target.thread.can_reply && m@ == "Sending reply to "@
                + target_label(*target.thread) + "…"@,
            Message::Error(m) => !target.thread.can_reply && m@ == cannot_reply(*target.thread),
        },
{
    if target.thread.can_reply {
        let mut m = "Sending reply to ".to_owned();
        m.append(&target.label());
        m.append("…");
        Message::Status(m)
    } else {
        Message::Error(refuse_reply(target))
    }
}

/// What sending a draft does.
#[derive(Debug)]
pub enum Sending {
    Post(Target, String),
    /// Nothing is to be done, and this is said.
    Already(&'static str),
    Refuse(&'static str),
}

/// Send the draft in `document`. A second send while one is in flight posts
/// nothing; neither does one of a discussion that takes no replies.
pub fn send(drafts: &mut Vec<Compose>, document: u64, text: &str) -> (r: Sending)
    ensures
        match draft_index(old(drafts)@, document, 0) {
            None => *final(drafts) == *old(drafts) && (r matches Sending::Refuse(e) && e@
                == "Not a review reply buffer; open one with :review-reply"@),
            Some(i) => {
                let draft = old(drafts)@[i];
                if draft.sending {
                    *final(drafts) == *old(drafts) && (r matches Sending::Already(m) && m@
                        == "Reply is already being sent"@)
                } else {
                    match written(lines(text@), REPLY_SEPARATOR@, true) {
                        Err(separated) => *final(drafts) == *old(drafts) && (r matches
                            Sending::Refuse(e) && e@ == if separated {
                            "Reply is empty; write it above the separator line"@
                        } else {
                            "Reply separator line was removed; restore it so quoted context is not sent"@
                        }),
                        Ok(body) => {
                            &&& r matches Sending::Post(t, b) && b@ == body && addresses(
                                t,
                                draft.context,
                                draft.repo,
                                draft.number,
                                draft.thread,
                            )
                            &&& final(drafts)@ == old(drafts)@.update(
                                i,
                                Compose { sending: draft.thread.can_reply, ..draft },
                            )
                        },
                    }
                }
            },
        },
{
    let i: usize = match find_draft(drafts, document) {
        Some(i) => i,
        None => return Sending::Refuse("Not a review reply buffer; open one with :review-reply"),
    };
    if drafts[i].sending {
        return Sending::Already("Reply is already being sent");
    }
    let body = match reply_body(text) {
        Ok(body) => body,
        Err(e) => return Sending::Refuse(e),
    };
    let target = Target {
        context: drafts[i].context.copy(),
        repo: drafts[i].repo.clone(),
        number: drafts[i].number,
        thread: share(&drafts[i].thread),
    };
    set_sending(drafts, i, target.thread.can_reply);
    Sending::Post(target, body)
}

fn set_sending(drafts: &mut Vec<Compose>, i: usize, sending: bool)
    requires
        i < old(drafts)@.len(),
    ensures
        final(drafts)@ == old(drafts)@.update(
            i as int,
            Compose { sending, ..old(drafts)@[i as int] },
        ),
{
    let mut draft = drafts.remove(i);
    draft.sending = sending;
    drafts.insert(i, draft);
    assert(drafts@ =~= old(drafts)@.update(
        i as int,
        Compose { sending, ..old(drafts)@[i as int] },
    ));
}

/// The drafts after the one in `document` was posted, or could not be.
pub open spec fn after_post(drafts: Seq<Compose>, document: u64, succeeded: bool) -> Seq<Compose> {
    match draft_index(drafts, document, 0) {
        Some(i) => if succeeded {
            drafts.remove(i)
        } else {
            drafts.update(i, Compose { sending: false, ..drafts[i] })
        },
        None => drafts,
    }
}

/// A post has ended: its draft is done, or may be sent once more. A reply that
/// was given directly has no `draft`, else that is its document and the version that
/// was sent; `now` is its version now, if its buffer is still open. Answers whether
/// the buffer is closed.
pub fn finish_post(
    drafts: &mut Vec<Compose>,
    draft: Option<(u64, i32)>,
    now: Option<i32>,
    succeeded: bool,
) -> (r: bool)
    ensures
        final(drafts)@ == (match draft {
            Some((document, _)) => after_post(old(drafts)@, document, succeeded),
            None => old(drafts)@,
        }),
        r == (succeeded && (draft matches Some((_, sent)) && now == Some(sent))),
{
    let (document, sent): (u64, i32) = match draft {
        Some(draft) => draft,
        None => return false,
    };
    match find_draft(drafts, document) {
        Some(i) => {
            if succeeded {
                let _done = drafts.remove(i);
            } else {
                set_sending(drafts, i, false);
            }
        },
        None => {},
    }
    succeeded && closes(sent, now)
}

/// While a reply is in flight a second one is not sent.
pub proof fn replies_are_sent_once(drafts: Seq<Compose>, document: u64, i: int)
    requires
        draft_index(drafts, document, 0) == Some(i),
        0 <= i < drafts.len(),
    ensures
        ({
            let after = drafts.update(i, Compose { sending: true, ..drafts[i] });
            draft_index(after, document, 0) == Some(i) && after[i].sending
        }),
{
    let after = drafts.update(i, Compose { sending: true, ..drafts[i] });
    lemma_draft_index(drafts, after, document, 0);
}

proof fn lemma_draft_index(a: Seq<Compose>, b: Seq<Compose>, document: u64, i: int)
    requires
        a.len() == b.len(),
        forall|k: int| 0 <= k < a.len() ==> (#[trigger] a[k]).document == b[k].document,
    ensures
        draft_index(a, document, i) == draft_index(b, document, i),
    decreases a.len() - i,
{
    if 0 <= i < a.len() {
        assert(a[i].document == b[i].document);
        lemma_draft_index(a, b, document, i + 1);
    }
}

/// Refuse to post commit ids that GitHub cannot link yet.
pub fn check_pushed(missing: &Vec<String>, pull: &PullHead) -> (r: Result<(), String>)
    requires
        clippable(pull.oid@, 10),
    ensures
        match r {
            Ok(_) => missing@.len() == 0,
            Err(e) => missing@.len() > 0 && e@ == unpushed_text(views(missing@), *pull),
        },
{
    if missing.len() == 0 {
        return Ok(());
    }
    let mut e = join_texts(missing, ", ");
    e.append(" not on ");
    e.append(&pull.name);
    e.append(" (PR head ");
    e.append(&clip(&pull.oid, 10));
    e.append(") yet; push first, or send anyway with :w! / --force");
    Err(e)
}

/// A reply that was posted, but not resolved.
pub fn half_done(url: &str, error: &str) -> (r: String)
    ensures
        r@ == "Reply posted ("@ + url@ + "), but: "@ + error@,
{
    let mut r = "Reply posted (".to_owned();
    r.append(url);
    r.append("), but: ");
    r.append(error);
    r
}

// ---------------------------------------------------------------------------
// The steps of a reply
// ---------------------------------------------------------------------------

/// A reply that was posted, the new state of its discussion if that was changed, and
/// the discussion with the head that its lines belong to.
#[derive(Debug)]
pub struct Posted {
    pub url: String,
    pub resolved: Option<bool>,
    pub refreshed: Option<(Thread, String)>,
}

/// What a reply waits for.
#[derive(Debug)]
pub enum PostStage {
    /// The head of the pull request as it is now.
    Head,
    /// The commits that the reply names and that are not in that head.
    Missing(PullHead),
    /// The address of the posted reply.
    Reply,
    /// The state of the discussion after the reply at this address.
    Resolve(String),
    /// The discussion once more.
    Fetch(String, Option<bool>),
    Done,
}

/// What became of the last step.
#[derive(Debug)]
pub enum PostEvent {
    Head(Result<PullHead, String>),
    Missing(Result<Vec<String>, String>),
    Replied(Result<String, String>),
    Resolved(Result<bool, String>),
    Fetched(Option<(Thread, String)>),
}

/// What is done next.
#[derive(Debug)]
pub enum PostAction {
    ReadHead,
    FindMissing,
    Reply,
    Resolve,
    Fetch,
    End(Result<Posted, String>),
}

pub enum PostActionView {
    ReadHead,
    FindMissing,
    Reply,
    Resolve,
    Fetch,
    End(Result<Posted, Seq<char>>),
}

impl View for PostAction {
    type V = PostActionView;

    open spec fn view(&self) -> PostActionView {
        match *self {
            PostAction::ReadHead => PostActionView::ReadHead,
            PostAction::FindMissing => PostActionView::FindMissing,
            PostAction::Reply => PostActionView::Reply,
            PostAction::Resolve => PostActionView::Resolve,
            PostAction::Fetch => PostActionView::Fetch,
            PostAction::End(Ok(posted)) => PostActionView::End(Ok(posted)),
            PostAction::End(Err(e)) => PostActionView::End(Err(e@)),
        }
    }
}

/// Some word of the reply may be a commit id.
pub open spec fn names_commit(body: Seq<char>) -> bool {
    ids_among(split(body, Pattern::NotWord)).len() > 0
}

/// Where a reply starts: with the head, if it names commits that GitHub may not be
/// able to link yet, unless it is forced.
pub open spec fn first_post_step(body: Seq<char>, force: bool) -> (PostStage, PostActionView) {
    if !force && names_commit(body) {
        (PostStage::Head, PostActionView::ReadHead)
    } else {
        (PostStage::Reply, PostActionView::Reply)
    }
}

pub fn begin_post(body: &str, force: bool) -> (r: (PostStage, PostAction))
    ensures
        (r.0, r.1@) == first_post_step(body@, force),
{
    if !force && mentions_commit(body) {
        (PostStage::Head, PostAction::ReadHead)
    } else {
        (PostStage::Reply, PostAction::Reply)
    }
}

/// The event is one that the reply waits for. The id of a head can be cut.
pub open spec fn post_awaited(stage: PostStage, event: PostEvent) -> bool {
    match stage {
        PostStage::Head => event matches PostEvent::Head(h) && (h matches Ok(pull) ==> clippable(
            pull.oid@,
            10,
        )),
        PostStage::Missing(pull) => event is Missing && clippable(pull.oid@, 10),
        PostStage::Reply => event is Replied,
        PostStage::Resolve(_) => event is Resolved,
        PostStage::Fetch(_, _) => event is Fetched,
        PostStage::Done => false,
    }
}

pub open spec fn unpushed_text(missing: Seq<Seq<char>>, pull: PullHead) -> Seq<char> {
    join(missing, ", "@) + " not on "@ + pull.name@ + " (PR head "@ + clipped(pull.oid@, 10)
        + ") yet; push first, or send anyway with :w! / --force"@
}

pub open spec fn post_failed(e: Seq<char>) -> (PostStage, PostActionView) {
    (PostStage::Done, PostActionView::End(Err(e)))
}

/// What follows an event. `resolve` tells whether the discussion is to be resolved.
pub open spec fn post_step(stage: PostStage, event: PostEvent, resolve: bool) -> (
    PostStage,
    PostActionView,
) {
    match (stage, event) {
        (PostStage::Head, PostEvent::Head(Ok(pull))) => (
            PostStage::Missing(pull),
            PostActionView::FindMissing,
        ),
        (PostStage::Head, PostEvent::Head(Err(e))) => post_failed(e@),
        (PostStage::Missing(pull), PostEvent::Missing(Ok(missing))) => if missing@.len() == 0 {
            (PostStage::Reply, PostActionView::Reply)
        } else {
            post_failed(unpushed_text(views(missing@), pull))
        },
        (PostStage::Missing(_), PostEvent::Missing(Err(e))) => post_failed(e@),
        (PostStage::Reply, PostEvent::Replied(Ok(url))) => if resolve {
            (PostStage::Resolve(url), PostActionView::Resolve)
        } else {
            (PostStage::Fetch(url, None), PostActionView::Fetch)
        },
        (PostStage::Reply, PostEvent::Replied(Err(e))) => post_failed(e@),
        (PostStage::Resolve(url), PostEvent::Resolved(Ok(state))) => (
            PostStage::Fetch(url, Some(state)),
            PostActionView::Fetch,
        ),
        (PostStage::Resolve(url), PostEvent::Resolved(Err(e))) => post_failed(
            "Reply posted ("@ + url@ + "), but: "@ + e@,
        ),
        (PostStage::Fetch(url, resolved), PostEvent::Fetched(refreshed)) => (
            PostStage::Done,
            PostActionView::End(Ok(Posted { url, resolved, refreshed })),
        ),
        _ => post_failed(seq![]),
    }
}

fn fail_post(e: String) -> (r: (PostStage, PostAction))
    ensures
        (r.0, r.1@) == post_failed(e@),
{
    (PostStage::Done, PostAction::End(Err(e)))
}

/// Post a reply, one step after the other.
pub fn next_post_step(stage: PostStage, event: PostEvent, resolve: bool) -> (r: (
    PostStage,
    PostAction,
))
    requires
        post_awaited(stage, event),
    ensures
        (r.0, r.1@) == post_step(stage, event, resolve),
{
    match (stage, event) {
        (PostStage::Head, PostEvent::Head(Ok(pull))) => (
            PostStage::Missing(pull),
            PostAction::FindMissing,
        ),
        (PostStage::Head, PostEvent::Head(Err(e))) => fail_post(e),
        (PostStage::Missing(pull), PostEvent::Missing(Ok(missing))) => match check_pushed(
            &missing,
            &pull,
        ) {
            Ok(_) => (PostStage::Reply, PostAction::Reply),
            Err(e) => fail_post(e),
        },
        (PostStage::Missing(_pull), PostEvent::Missing(Err(e))) => fail_post(e),
        (PostStage::Reply, PostEvent::Replied(Ok(url))) => if resolve {
            (PostStage::Resolve(url), PostAction::Resolve)
        } else {
            (PostStage::Fetch(url, None), PostAction::Fetch)
        },
        (PostStage::Reply, PostEvent::Replied(Err(e))) => fail_post(e),
        (PostStage::Resolve(url), PostEvent::Resolved(Ok(state))) => (
            PostStage::Fetch(url, Some(state)),
            PostAction::Fetch,
        ),
        (PostStage::Resolve(url), PostEvent::Resolved(Err(e))) => fail_post(half_done(&url, &e)),
        (PostStage::Fetch(url, resolved), PostEvent::Fetched(refreshed)) => (
            PostStage::Done,
            PostAction::End(Ok(Posted { url, resolved, refreshed })),
        ),
        _ => fail_post(String::new()),
    }
}

/// Where a reply is after some events, and what was to be done last.
pub open spec fn post_course(
    body: Seq<char>,
    force: bool,
    resolve: bool,
    events: Seq<PostEvent>,
) -> (PostStage, PostActionView)
    decreases events.len(),
{
    if events.len() == 0 {
        first_post_step(body, force)
    } else {
        post_step(
            post_course(body, force, resolve, events.drop_last()).0,
            events.last(),
            resolve,
        )
    }
}

/// No missing commit was found in the head.
pub open spec fn all_pushed(events: Seq<PostEvent>) -> bool {
    &&& events.len() == 2
    &&& events[0] matches PostEvent::Head(Ok(_))
    &&& events[1] matches PostEvent::Missing(Ok(missing)) && missing@.len() == 0
}

/// A reply that names commits is posted only after all of them were found in the head
/// of the pull request, or if it is forced; and it is posted once.
pub proof fn replies_follow_the_check(
    body: Seq<char>,
    force: bool,
    resolve: bool,
    events: Seq<PostEvent>,
)
    requires
        post_course(body, force, resolve, events).1 is Reply,
    ensures
        if !force && names_commit(body) {
            all_pushed(events)
        } else {
            events.len() == 0
        },
{
    lemma_post_course(body, force, resolve, events);
}

/// A discussion is resolved only if that is wanted, and only once the reply is
/// posted.
pub proof fn discussions_are_resolved_after_the_reply(
    body: Seq<char>,
    force: bool,
    resolve: bool,
    events: Seq<PostEvent>,
)
    requires
        post_course(body, force, resolve, events).1 is Resolve,
    ensures
        resolve,
        events.len() > 0,
        events.last() matches PostEvent::Replied(Ok(_)),
        post_course(body, force, resolve, events.drop_last()).1 is Reply,
{
    lemma_post_course(body, force, resolve, events.drop_last());
}

proof fn lemma_post_course(
    body: Seq<char>,
    force: bool,
    resolve: bool,
    events: Seq<PostEvent>,
)
    ensures
        ({
            let (stage, action) = post_course(body, force, resolve, events);
            let checked = !force && names_commit(body);
            &&& action is Reply <==> stage is Reply
            &&& stage is Reply ==> if checked {
                all_pushed(events)
            } else {
                events.len() == 0
            }
            &&& stage is Missing ==> checked && events.len() == 1 && (events[0] matches
                PostEvent::Head(Ok(_)))
            &&& stage is Head ==> checked && events.len() == 0
        }),
    decreases events.len(),
{
    if events.len() > 0 {
        let before = events.drop_last();
        lemma_post_course(body, force, resolve, before);
        if before.len() > 0 {
            assert(before[0] == events[0]);
        }
    }
}

/// What is said of a posted reply.
pub fn posted(target: &Target, resolved: Option<bool>, url: &str) -> (r: String)
    requires
        has_range(*target.thread),
    ensures
        r@ == "Replied to "@ + target_label(*target.thread) + (match resolved {
            Some(true) => " and resolved it"@,
            Some(false) => " (still unresolved)"@,
            None => ""@,
        }) + " · "@ + url@,
{
    let mut r = "Replied to ".to_owned();
    r.append(&target.label());
    r.append(
        match resolved {
            Some(true) => " and resolved it",
            Some(false) => " (still unresolved)",
            None => "",
        },
    );
    r.append(" · ");
    r.append(url);
    r
}

// ---------------------------------------------------------------------------
// Resolving
// ---------------------------------------------------------------------------

/// What resolving or unresolving a discussion does.
#[derive(Debug)]
pub enum Resolving {
    /// Ask GitHub, saying this meanwhile.
    Ask(String),
    /// Nothing is to be done.
    Already(String),
    Refuse(String),
}

pub fn resolving(target: &Target, resolved: bool) -> (r: Resolving)
    requires
        has_range(*target.thread),
    ensures
        ({
            let t = *target.thread;
            let allowed = if resolved {
                t.can_resolve
            } else {
                t.can_unresolve
            };
            match r {
                Resolving::Already(m) => t.resolved == resolved && m@ == target_label(t)
                    + " is already "@ + (if resolved {
                    "resolved"@
                } else {
                    "open"@
                }),
                Resolving::Refuse(m) => t.resolved != resolved && !allowed && m@
                    == "GitHub does not allow you to "@ + (if resolved {
                    "resolve"@
                } else {
                    "unresolve"@
                }) + " "@ + target_label(t)
                    + " (needs write access, or the PR author's permission)"@,
                Resolving::Ask(m) => t.resolved != resolved && allowed && m@ == (if resolved {
                    "Resolving"@
                } else {
                    "Unresolving"@
                }) + " "@ + target_label(t) + "…"@,
            }
        }),
{
    let label = target.label();
    if target.thread.resolved == resolved {
        let mut m = label;
        m.append(" is already ");
        m.append(if resolved { "resolved" } else { "open" });
        return Resolving::Already(m);
    }
    let allowed = if resolved {
        target.thread.can_resolve
    } else {
        target.thread.can_unresolve
    };
    if !allowed {
        let mut m = "GitHub does not allow you to ".to_owned();
        m.append(if resolved { "resolve" } else { "unresolve" });
        m.append(" ");
        m.append(&label);
        m.append(" (needs write access, or the PR author's permission)");
        return Resolving::Refuse(m);
    }
    let mut m = if resolved { "Resolving" } else { "Unresolving" }.to_owned();
    m.append(" ");
    m.append(&label);
    m.append("…");
    Resolving::Ask(m)
}

/// What is said of a discussion's new state.
pub fn resolved_status(target: &Target, state: bool) -> (r: String)
    requires
        has_range(*target.thread),
    ensures
        r@ == target_label(*target.thread) + " is now "@ + (if state {
            "resolved"@
        } else {
            "open"@
        }),
{
    let mut m = target.label();
    m.append(" is now ");
    m.append(if state { "resolved" } else { "open" });
    m
}

// ---------------------------------------------------------------------------
// Commit ids
// ---------------------------------------------------------------------------

/// The repository and, where there is one, the discussion that a command about
/// commits is for. `found` is the discussion that is addressed and `current` what
/// the repository says: lists of commits work without a loaded review too.
pub fn commit_scope(
    state: &State,
    document: u64,
    found: Result<Target, String>,
    current: Option<Context>,
) -> (r: Option<(Context, Option<Target>)>)
    ensures
        ({
            let loaded = state.enabled || draft_index(state.compose@, document, 0) is Some;
            match found {
                Ok(target) if loaded => r matches Some((context, Some(to))) && to == target
                    && same_context(context, target.context),
                _ => match current {
                    Some(context) => r matches Some((here, None)) && here == context,
                    None => r is None,
                },
            }
        }),
{
    let loaded = state.enabled || find_draft(&state.compose, document).is_some();
    if loaded {
        match found {
            Ok(target) => return Some((target.context.copy(), Some(target))),
            Err(_) => {},
        }
    }
    match current {
        Some(context) => Some((context, None)),
        None => None,
    }
}

/// Commands about commits work only in the checkout of a branch.
pub fn check_scope(scope: Option<(Context, Option<Target>)>) -> (r: Result<
    (Context, Option<Target>),
    &'static str,
>)
    ensures
        match r {
            Ok(found) => scope == Some(found),
            Err(e) => scope is None && e@ == "Not inside a Git branch checkout"@,
        },
{
    match scope {
        Some(scope) => Ok(scope),
        None => Err("Not inside a Git branch checkout"),
    }
}

/// The commits to choose from, or that there are none.
pub fn offer_commits(commits: Vec<Commit>) -> (r: Result<Vec<Commit>, &'static str>)
    ensures
        match r {
            Ok(offered) => commits@.len() > 0 && offered == commits,
            Err(e) => commits@.len() == 0 && e@ == "No commits to insert"@,
        },
{
    if commits.len() == 0 {
        Err("No commits to insert")
    } else {
        Ok(commits)
    }
}

/// The text with `what` put in at every cursor.
pub open spec fn inserted(s: Seq<char>, cursors: Seq<usize>, what: Seq<char>) -> Seq<char>
    decreases cursors.len(),
{
    if cursors.len() == 0 {
        s
    } else {
        let at = cursors.last() as int;
        inserted(s.take(at), cursors.drop_last(), what) + what + s.skip(at)
    }
}

/// The cursors follow each other in the text.
pub open spec fn ascending(cursors: Seq<usize>, length: int) -> bool {
    &&& forall|i: int, j: int|
        0 <= i < j < cursors.len() ==> #[trigger] cursors[i] <= #[trigger] cursors[j]
    &&& forall|i: int| 0 <= i < cursors.len() ==> #[trigger] cursors[i] <= length
}

proof fn lemma_inserted(s: Seq<char>, cursors: Seq<usize>, what: Seq<char>, p: int, c: int)
    requires
        0 <= p <= c <= s.len(),
        cursors.len() > 0 ==> cursors.last() <= p,
    ensures
        inserted(s.take(c), cursors, what) == inserted(s.take(p), cursors, what) + s.subrange(p, c),
{
    if cursors.len() == 0 {
        assert(s.take(c) =~= s.take(p) + s.subrange(p, c));
    } else {
        let at = cursors.last() as int;
        assert(s.take(c).take(at) =~= s.take(p).take(at));
        assert(s.take(c).skip(at) =~= s.take(p).skip(at) + s.subrange(p, c));
        let head = inserted(s.take(p).take(at), cursors.drop_last(), what);
        assert(head + what + s.take(c).skip(at) =~= (head + what + s.take(p).skip(at))
            + s.subrange(p, c));
    }
}

/// Insert a commit's id at every cursor of the buffer it was picked for.
pub fn insert_at_cursors(contents: &str, cursors: &Vec<usize>, what: &str, same_buffer: bool) -> (r:
    Result<String, &'static str>)
    requires
        ascending(cursors@, contents@.len() as int),
    ensures
        match r {
            Ok(text) => same_buffer && text@ == inserted(contents@, cursors@, what@),
            Err(e) => !same_buffer && e@ == "The buffer changed; commit not inserted"@,
        },
{
    if !same_buffer {
        return Err("The buffer changed; commit not inserted");
    }
    let all = chars(contents);
    let ghost s = contents@;
    let mut r = String::new();
    let mut from: usize = 0;
    let mut i: usize = 0;
    assert(cursors@.take(0) =~= seq![]);
    assert(r@ =~= s.take(0));
    while i < cursors.len()
        invariant
            i <= cursors@.len(),
            all@ == s,
            from <= s.len(),
            ascending(cursors@, s.len() as int),
            i == 0 ==> from == 0,
            i > 0 ==> from == cursors@[i - 1],
            r@ == inserted(s.take(from as int), cursors@.take(i as int), what@),
        decreases cursors@.len() - i,
    {
        let at: usize = cursors[i];
        let ghost done = cursors@.take(i as int);
        let ghost next = cursors@.take(i + 1);
        assert(i > 0 ==> cursors@[i - 1] <= cursors@[i as int]);
        let ghost before = r@;
        r.append(&text(crate::text::part(&all, from, at)));
        r.append(what);
        proof {
            assert(next.drop_last() =~= done);
            assert(next.last() == at);
            lemma_inserted(s, done, what@, from as int, at as int);
            assert(s.take(at as int).take(at as int) =~= s.take(at as int));
            assert(s.take(at as int).skip(at as int) =~= seq![]);
            assert(r@ =~= before + s.subrange(from as int, at as int) + what@);
            assert(r@ =~= inserted(s.take(at as int), next, what@));
        }
        from = at;
        i += 1;
    }
    r.append(&text(crate::text::part(&all, from, all.len())));
    proof {
        assert(cursors@.take(i as int) =~= cursors@);
        lemma_inserted(s, cursors@, what@, from as int, s.len() as int);
        assert(s.take(s.len() as int) =~= s);
    }
    Ok(r)
}

/// What is said of a commit that was copied.
pub fn yanked(commit: &Commit, clipboard: bool) -> (r: String)
    requires
        clippable(commit.sha@, 10),
    ensures
        r@ == "Yanked "@ + described(commit@) + " ("@ + touch_sentence(commit.touch)
            + ") to register h"@ + (if clipboard {
            " and the clipboard"@
        } else {
            ""@
        }),
{
    let mut r = "Yanked ".to_owned();
    r.append(&commit.describe());
    r.append(" (");
    r.append(touch_note(commit));
    r.append(") to register h");
    r.append(if clipboard { " and the clipboard" } else { "" });
    r
}

/// How a commit is marked in the insert picker: whether it is pushed, and what
/// it touches.
pub fn commit_marks(commit: &Commit) -> (r: (&'static str, &'static str))
    ensures
        r.0@ == (match commit.pushed {
            Some(true) => "pushed"@,
            Some(false) => "local"@,
            None => "?"@,
        }),
        r.1@ == (match commit.touch {
            Touch::Lines => "lines"@,
            Touch::File => "file"@,
            Touch::Neither => ""@,
        }),
{
    (
        match commit.pushed {
            Some(true) => "pushed",
            Some(false) => "local",
            None => "?",
        },
        match commit.touch {
            Touch::Lines => "lines",
            Touch::File => "file",
            Touch::Neither => "",
        },
    )
}

/// A draft that was posted is forgotten, one that could not be posted can be sent again;
/// all other drafts stay as they are.
pub proof fn posted_drafts_are_forgotten(drafts: Seq<Compose>, document: u64, i: int)
    requires
        0 <= i < drafts.len(),
        drafts[i].document == document,
        forall|j: int| 0 <= j < drafts.len() && j != i ==> (#[trigger] drafts[j]).document != document,
    ensures
        after_post(drafts, document, true) == drafts.remove(i),
        after_post(drafts, document, false).len() == drafts.len(),
        !after_post(drafts, document, false)[i].sending,
        after_post(drafts, document, false)[i].document == document,
        after_post(drafts, document, false)[i].thread == drafts[i].thread,
        forall|j: int|
            0 <= j < drafts.len() && j != i ==> #[trigger] after_post(drafts, document, false)[j]
                == drafts[j],
{
    lemma_draft_of(drafts, document, 0, i);
}

proof fn lemma_draft_of(drafts: Seq<Compose>, document: u64, i: int, k: int)
    requires
        0 <= i <= k < drafts.len(),
        drafts[k].document == document,
        forall|j: int| i <= j < k ==> (#[trigger] drafts[j]).document != document,
    ensures
        draft_index(drafts, document, i) == Some(k),
    decreases k - i,
{
    if i < k {
        assert(drafts[i].document != document);
        lemma_draft_of(drafts, document, i + 1, k);
    }
}

/// A draft is kept exactly as long as its document is open.
pub proof fn drafts_live_as_long_as_their_document(
    drafts: Seq<Compose>,
    live: Seq<u64>,
    draft: Compose,
)
    ensures
        open_drafts(drafts, live).contains(draft) <==> drafts.contains(draft) && live.contains(
            draft.document,
        ),
    decreases drafts.len(),
{
    if drafts.len() > 0 {
        let rest = drafts.skip(1);
        let kept = open_drafts(rest, live);
        let all = open_drafts(drafts, live);
        drafts_live_as_long_as_their_document(rest, live, draft);
        if rest.contains(draft) {
            let k = rest.index_of(draft);
            assert(drafts[k + 1] == draft);
        }
        if drafts.contains(draft) && draft != drafts[0] {
            let k = drafts.index_of(draft);
            assert(rest[k - 1] == draft);
        }
        if live.contains(drafts[0].document) {
            assert(all[0] == drafts[0]);
            if kept.contains(draft) {
                let k = kept.index_of(draft);
                assert(all[k + 1] == draft);
            }
            if all.contains(draft) && draft != drafts[0] {
                let k = all.index_of(draft);
                assert(kept[k - 1] == draft);
            }
        }
    }
}

/// The draft of a discussion is found by the id of that.
pub proof fn drafts_are_found_by_discussion(drafts: Seq<Compose>, id: Seq<char>, from: int)
    requires
        0 <= from,
    ensures
        match thread_draft(drafts, id, from) {
            Some(i) => from <= i < drafts.len() && drafts[i].thread.id@ == id,
            None => forall|k: int|
                from <= k < drafts.len() ==> (#[trigger] drafts[k]).thread.id@ != id,
        },
    decreases drafts.len() - from,
{
    if from < drafts.len() {
        drafts_are_found_by_discussion(drafts, id, from + 1);
    }
}

/// A reply that meets no problem is posted, and then resolved if that is wanted, and what
/// came of it is told: its address, the new state, and the discussion as it is now.
pub proof fn replies_without_problems_are_posted(
    body: Seq<char>,
    force: bool,
    resolve: bool,
    checks: Seq<PostEvent>,
    url: String,
    state: bool,
    refreshed: Option<(Thread, String)>,
)
    requires
        checks.len() == 0 ==> force || !names_commit(body),
        checks.len() > 0 ==> !force && names_commit(body) && all_pushed(checks),
    ensures
        post_course(body, force, resolve, checks).1 is Reply,
        resolve ==> post_course(
            body,
            force,
            resolve,
            checks.push(PostEvent::Replied(Ok(url))).push(PostEvent::Resolved(Ok(state))).push(
                PostEvent::Fetched(refreshed),
            ),
        ).1 == PostActionView::End(
            Ok(Posted { url, resolved: Some(state), refreshed }),
        ),
        !resolve ==> post_course(
            body,
            force,
            resolve,
            checks.push(PostEvent::Replied(Ok(url))).push(PostEvent::Fetched(refreshed)),
        ).1 == PostActionView::End(Ok(Posted { url, resolved: None, refreshed })),
{
    if checks.len() == 2 {
        let one = checks.drop_last();
        assert(one.last() == checks[0]);
        assert(one.drop_last().len() == 0);
        assert(post_course(body, force, resolve, one.drop_last()) == first_post_step(body, force));
        assert(post_course(body, force, resolve, one).0 is Missing);
        assert(checks.last() == checks[1]);
    }
    let stage = post_course(body, force, resolve, checks);
    assert(stage.0 is Reply);
    let a = checks.push(PostEvent::Replied(Ok(url)));
    assert(a.drop_last() =~= checks);
    assert(a.last() == PostEvent::Replied(Ok(url)));
    assert(post_course(body, force, resolve, a).0 == if resolve {
        PostStage::Resolve(url)
    } else {
        PostStage::Fetch(url, None)
    });
    let b = a.push(PostEvent::Resolved(Ok(state)));
    assert(b.drop_last() =~= a);
    assert(b.last() == PostEvent::Resolved(Ok(state)));
    assert(resolve ==> post_course(body, force, resolve, b).0 == PostStage::Fetch(url, Some(state)));
    let c = b.push(PostEvent::Fetched(refreshed));
    assert(c.drop_last() =~= b);
    let d = a.push(PostEvent::Fetched(refreshed));
    assert(d.drop_last() =~= a);
}

/// A reply that names commits which the pull request lacks is not posted: it ends, and
/// says which they are.
pub proof fn replies_with_missing_commits_are_held_back(
    body: Seq<char>,
    resolve: bool,
    pull: PullHead,
    missing: Vec<String>,
)
    requires
        names_commit(body),
        missing@.len() > 0,
    ensures
        post_course(
            body,
            false,
            resolve,
            seq![PostEvent::Head(Ok(pull)), PostEvent::Missing(Ok(missing))],
        ).1 == PostActionView::End(
            Err(
                join(views(missing@), ", "@) + " not on "@ + pull.name@ + " (PR head "@ + clipped(
                    pull.oid@,
                    10,
                ) + ") yet; push first, or send anyway with :w! / --force"@,
            ),
        ),
{
    let all = seq![PostEvent::Head(Ok(pull)), PostEvent::Missing(Ok(missing))];
    let one = all.drop_last();
    assert(one =~= seq![PostEvent::Head(Ok(pull))]);
    assert(one.drop_last().len() == 0);
    assert(post_course(body, false, resolve, one.drop_last()) == first_post_step(body, false));
    assert(post_course(body, false, resolve, one).0 == PostStage::Missing(pull));
}

/// A reloaded discussion takes the place of its older state; the others stay where and
/// as they are.
pub proof fn reloaded_discussions_take_their_place(
    threads: Seq<Arc<Thread>>,
    thread: Arc<Thread>,
    i: int,
)
    requires
        0 <= i < threads.len(),
    ensures
        replaced(threads, thread).len() == threads.len(),
        threads[i].id@ == thread.id@ ==> replaced(threads, thread)[i] == thread,
        threads[i].id@ != thread.id@ ==> replaced(threads, thread)[i] == threads[i],
{
}

/// Only a reply to what was fixed names the commit from the start.
pub proof fn only_fixes_name_a_commit(suggestion: Option<CommitView>, fixed: bool)
    ensures
        !fixed || suggestion is None ==> prefilled(suggestion, fixed).len() == 0,
        fixed && suggestion is Some ==> prefilled(suggestion, fixed) == "Fixed in "@
            + suggestion->0.sha + "."@,
{
}

/// A text goes in at the cursor, between what stands before and behind it; with several
/// cursors it goes in at each.
pub proof fn texts_go_in_at_every_cursor(s: Seq<char>, cursors: Seq<usize>, what: Seq<char>)
    requires
        ascending(cursors, s.len() as int),
    ensures
        inserted(s, cursors, what).len() == s.len() + cursors.len() * what.len(),
        cursors.len() == 1 ==> inserted(s, cursors, what) == s.take(cursors[0] as int) + what
            + s.skip(cursors[0] as int),
        cursors.len() > 0 ==> inserted(s, cursors, what).skip(
            inserted(s, cursors, what).len() - (s.len() - cursors.last()),
        ) == s.skip(cursors.last() as int),
    decreases cursors.len(),
{
    if cursors.len() > 0 {
        let at = cursors.last() as int;
        let rest = cursors.drop_last();
        assert(cursors[cursors.len() - 1] == at);
        assert(ascending(rest, at)) by {
            assert forall|i: int| 0 <= i < rest.len() implies #[trigger] rest[i] <= at by {
                assert(cursors[i] <= cursors[cursors.len() - 1]);
            }
            assert forall|i: int, j: int| 0 <= i < j < rest.len() implies #[trigger] rest[i]
                <= #[trigger] rest[j] by {
                assert(cursors[i] <= cursors[j]);
            }
        }
        texts_go_in_at_every_cursor(s.take(at), rest, what);
        let before = inserted(s.take(at), rest, what);
        let all = inserted(s, cursors, what);
        assert(all =~= before + what + s.skip(at));
        assert(all.skip(all.len() - (s.len() - at)) =~= s.skip(at));
        assert((cursors.len() - 1) * what.len() + what.len() == cursors.len() * what.len())
            by (nonlinear_arith);
        if cursors.len() == 1 {
            assert(rest.len() == 0);
            assert(before == s.take(at));
        }
    }
}

/// Whatever goes wrong on the way to a reply ends it and is told; once the reply is
/// posted, that is told too, with where it is.
pub proof fn problems_end_the_reply(pull: PullHead, url: String, resolve: bool, e: String)
    ensures
        post_step(PostStage::Head, PostEvent::Head(Err(e)), resolve) == (
            PostStage::Done,
            PostActionView::End(Err(e@)),
        ),
        post_step(PostStage::Missing(pull), PostEvent::Missing(Err(e)), resolve) == (
            PostStage::Done,
            PostActionView::End(Err(e@)),
        ),
        post_step(PostStage::Reply, PostEvent::Replied(Err(e)), resolve) == (
            PostStage::Done,
            PostActionView::End(Err(e@)),
        ),
        post_step(PostStage::Resolve(url), PostEvent::Resolved(Err(e)), resolve) == (
            PostStage::Done,
            PostActionView::End(Err("Reply posted ("@ + url@ + "), but: "@ + e@)),
        ),
{
}

} // verus!
