//! The selected discussion, and what outlasts a reload of the review.
use std::sync::Arc;

use vstd::prelude::*;

use crate::api::opt_view;
use crate::discussions::{
    block_index, discussion_text, discussion_view, find_block, find_thread, navigate, neighbour,
    selecting, selection_status, selection_text, thread_index, Selecting,
};
use crate::github::good_path;
use crate::inline::Block;
use crate::placement::Placement;
use crate::replies::{has_range, target_label, thread_label};
use crate::review::{
    accepts, placeable, same_context, same_contexts, Context, PendingSelection, Place, Review, State,
    Thread,
};
use crate::session::{expand, flipped, Position};
use crate::text::{same, views};

verus! {

// ---------------------------------------------------------------------------
// Reloading
// ---------------------------------------------------------------------------

/// The place is the context's branch.
pub open spec fn belongs(p: Place, context: Context) -> bool {
    p.root@ == context.root@ && p.branch@ == context.branch@
}

fn is_here(p: &Place, context: &Context) -> (r: bool)
    ensures
        r == belongs(*p, *context),
{
    same(&p.root, &context.root) && same(&p.branch, &context.branch)
}

/// What the next load in the context says in place of the summary.
pub open spec fn announced(state: State, context: Context) -> Option<Seq<char>> {
    match state.after_load {
        Some(p) => if belongs(p, context) {
            Some(p.text@)
        } else {
            None
        },
        None => None,
    }
}

pub fn announcement(state: &State, context: &Context) -> (r: Option<String>)
    ensures
        opt_view(r) == announced(*state, *context),
{
    match &state.after_load {
        Some(p) => if is_here(p, context) {
            Some(p.text.clone())
        } else {
            None
        },
        None => None,
    }
}

/// The discussion of the review that was selected last in the context.
pub open spec fn found_again(state: State, context: Context, review: Review) -> Option<int> {
    match state.remembered {
        Some(p) => if belongs(p, context) {
            thread_index(review.threads@, p.text@, 0)
        } else {
            None
        },
        None => None,
    }
}

pub fn find_again(state: &State, context: &Context, review: &Review) -> (r: Option<usize>)
    ensures
        match r {
            Some(i) => i < review.threads@.len() && found_again(*state, *context, *review) == Some(
                i as int,
            ),
            None => found_again(*state, *context, *review) is None,
        },
{
    match &state.remembered {
        Some(p) => if is_here(p, context) {
            find_thread(&review.threads, &p.text)
        } else {
            None
        },
        None => None,
    }
}

proof fn lemma_thread_index(threads: Seq<Arc<Thread>>, id: Seq<char>, i: int, j: int)
    requires
        0 <= i <= j < threads.len(),
        threads[j].id@ == id,
    ensures
        thread_index(threads, id, i) matches Some(k) && i <= k <= j && threads[k].id@ == id,
    decreases j - i,
{
    if threads[i].id@ != id {
        lemma_thread_index(threads, id, i + 1, j);
    }
}

/// The last selected discussion is found again after a reload on the same
/// branch, wherever it is listed then.
pub proof fn selections_survive_a_reload(
    state: State,
    context: Context,
    before: Review,
    i: int,
    after: Review,
    j: int,
)
    requires
        0 <= i < before.threads@.len(),
        state.remembered matches Some(p) && belongs(p, context) && p.text@
            == before.threads@[i].id@,
        0 <= j < after.threads@.len(),
        after.threads@[j].id@ == before.threads@[i].id@,
    ensures
        found_again(state, context, after) matches Some(k) && 0 <= k < after.threads@.len()
            && after.threads@[k].id@ == before.threads@[i].id@,
{
    lemma_thread_index(after.threads@, before.threads@[i].id@, 0, j);
}

/// How the selected discussion of the branch's review is called.
pub fn selected_label(state: &State, root: &str, branch: &str) -> (r: Option<String>)
    requires
        state.review matches Some(review) ==> forall|i: int|
            0 <= i < review.threads@.len() ==> has_range(*(#[trigger] review.threads@[i])),
    ensures
        ({
            let here = match state.context {
                Some(context) => context.root@ == root@ && context.branch@ == branch@,
                None => false,
            };
            opt_view(r) == (match (state.review, state.selected) {
                (Some(review), Some(i)) => if here && i < review.threads@.len() {
                    Some(target_label(*review.threads@[i as int]))
                } else {
                    None
                },
                _ => None,
            })
        }),
{
    let here = match &state.context {
        Some(context) => same(&context.root, root) && same(&context.branch, branch),
        None => false,
    };
    match (&state.review, state.selected) {
        (Some(review), Some(i)) => if here && i < review.threads.len() {
            assert(has_range(*review.threads@[i as int]));
            Some(thread_label(&review.threads[i]))
        } else {
            None
        },
        _ => None,
    }
}

/// After a commit: the new head reloads a displayed review of the branch, which
/// says `message` in place of the summary.
pub fn announce(state: &mut State, root: &str, branch: &str, message: &str)
    ensures
        !old(state).enabled ==> *final(state) == *old(state),
        old(state).enabled ==> {
            &&& *final(state) == (State { after_load: final(state).after_load, ..*old(state) })
            &&& final(state).after_load matches Some(p) && p.root@ == root@ && p.branch@ == branch@
                && p.text@ == message@
        },
{
    if state.enabled {
        state.after_load = Some(
            Place { root: root.to_owned(), branch: branch.to_owned(), text: message.to_owned() },
        );
    }
}

/// After a push that the pull request shows: whether its discussions have to be
/// loaded again, and which pull request was selected.
pub fn follow_push(state: &mut State, context: &Context, message: &str) -> (r: Option<Option<String>>)
    ensures
        ({
            let shown = old(state).enabled && match old(state).context {
                Some(own) => same_context(own, *context),
                None => false,
            };
            &&& !shown ==> r is None && *final(state) == *old(state)
            &&& shown ==> {
                &&& r matches Some(pull) && opt_view(pull) == opt_view(old(state).pull)
                &&& *final(state) == (State { after_load: final(state).after_load, ..*old(state) })
                &&& final(state).after_load matches Some(p) && belongs(p, *context) && p.text@
                    == message@
            }
        }),
{
    let shown = match &state.context {
        Some(own) => state.enabled && own.same(context),
        None => false,
    };
    if !shown {
        return None;
    }
    announce(state, &context.root, &context.branch, message);
    Some(
        match &state.pull {
            Some(pull) => Some(pull.clone()),
            None => None,
        },
    )
}

// ---------------------------------------------------------------------------
// Selecting
// ---------------------------------------------------------------------------

/// The discussion is remembered for the context, if there is one.
pub open spec fn remembers(after: State, before: State, thread: Thread) -> bool {
    match before.context {
        Some(context) => after.remembered matches Some(p) && belongs(p, context) && p.text@
            == thread.id@,
        None => after.remembered == before.remembered,
    }
}

/// Where the discussion is kept in mind.
fn here(state: &State, id: &str) -> (r: Option<Place>)
    ensures
        match state.context {
            Some(context) => r matches Some(p) && belongs(p, context) && p.text@ == id@,
            None => r is None,
        },
{
    match &state.context {
        Some(context) => Some(
            Place {
                root: context.root.clone(),
                branch: context.branch.clone(),
                text: id.to_owned(),
            },
        ),
        None => None,
    }
}

/// The state shows a review that has a discussion with this index.
pub open spec fn has_discussion(state: State, index: int) -> bool {
    state.review matches Some(review) && 0 <= index < review.threads@.len()
}

/// The discussion was selected, and `opens` is what to open.
pub open spec fn chosen(
    before: State,
    after: State,
    index: usize,
    own_file: bool,
    opens: Option<Selecting>,
) -> bool {
    if !has_discussion(before, index as int) {
        opens is None && after == before
    } else {
        let thread = *(before.review->0).threads@[index as int];
        &&& after == (State {
            selected: Some(index),
            pending_selection: None,
            remembered: after.remembered,
            ..before
        })
        &&& remembers(after, before, thread)
        &&& opens == (if before.context is None {
            None
        } else if placeable(thread) && good_path(thread.path@) && own_file {
            Some(Selecting::File)
        } else {
            Some(Selecting::Discussion)
        })
    }
}

/// Select a discussion. Returns what to open; nothing without such a discussion
/// or without a context. `own_file` tells that its path is a file of the
/// repository itself and not reached through a link.
pub fn select(state: &mut State, index: usize, own_file: bool) -> (r: Option<Selecting>)
    ensures
        chosen(*old(state), *final(state), index, own_file, r),
{
    let (choice, place) = match &state.review {
        Some(review) => if index < review.threads.len() {
            let thread = &review.threads[index];
            (selecting(thread, own_file), here(state, &thread.id))
        } else {
            return None;
        },
        None => return None,
    };
    state.selected = Some(index);
    state.pending_selection = None;
    if state.context.is_none() {
        return None;
    }
    state.remembered = place;
    Some(choice)
}

/// The discussion that a command goes to from the one at the cursor, or what is
/// said where there is none.
pub fn next_discussion(state: &State, at: Option<usize>, previous: bool) -> (r: Result<
    usize,
    String,
>)
    requires
        state.review matches Some(review) ==> (at matches Some(i) ==> i + review.threads@.len()
            <= usize::MAX),
    ensures
        match r {
            Ok(i) => state.review matches Some(review) && review.threads@.len() > 0 && i
                == neighbour(at, review.threads@.len() as int, previous),
            Err(m) => !has_discussion(*state, 0) && m == state.status,
        },
{
    match &state.review {
        Some(review) => if review.threads.len() > 0 {
            Ok(navigate(at, review.threads.len(), previous))
        } else {
            Err(state.status.clone())
        },
        None => Err(state.status.clone()),
    }
}

/// Show the discussion at the cursor whole, or not any more.
pub fn expand_discussion(state: &mut State, at: Option<usize>) -> (r: Result<(), &'static str>)
    requires
        at matches Some(i) ==> has_discussion(*old(state), i as int),
    ensures
        match (r, at) {
            (Ok(_), Some(i)) => {
                let id = (old(state).review->0).threads@[i as int].id@;
                &&& views(final(state).expanded@) == flipped(views(old(state).expanded@), id)
                &&& *final(state) == (State {
                    expanded: final(state).expanded,
                    generation: old(state).generation.wrapping_add(1),
                    ..*old(state)
                })
            },
            (Err(e), None) => *final(state) == *old(state) && e@
                == "No review discussion selected; use :review-next or :review-list"@,
            _ => false,
        },
{
    let id = match (at, &state.review) {
        (Some(i), Some(review)) => review.threads[i].id.clone(),
        _ => return Err("No review discussion selected; use :review-next or :review-list"),
    };
    expand(state, &id);
    Ok(())
}

/// A discussion was chosen from a list that was made in `generation`: it is
/// selected, unless the review or the repository is another by now.
pub fn list_choice(
    state: &mut State,
    index: usize,
    own_file: bool,
    generation: u64,
    context: &Option<Context>,
    current: &Option<Context>,
) -> (r: Result<Option<Selecting>, &'static str>)
    ensures
        ({
            let valid = match *context {
                Some(c) => accepts(*old(state), generation, c) && same_contexts(
                    *current,
                    Some(c),
                ),
                None => false,
            };
            match r {
                Err(e) => !valid && *final(state) == *old(state) && e@
                    == "Review context changed; reopen :review-list"@,
                Ok(opens) => valid && chosen(*old(state), *final(state), index, own_file, opens),
            }
        }),
{
    let valid = match (context, current) {
        (Some(c), Some(now)) => state.accepts(generation, c) && now.same(c),
        _ => false,
    };
    if !valid {
        return Err("Review context changed; reopen :review-list");
    }
    Ok(select(state, index, own_file))
}

/// The discussion's file is open: wait for the discussions to be placed in it,
/// or go on. Returns what is said while waiting.
pub fn arrive(state: &mut State, index: usize, placing: bool, at: Position) -> (r: Option<
    &'static str,
>)
    ensures
        !placing ==> r is None && *final(state) == *old(state),
        placing ==> {
            &&& r matches Some(m) && m@ == "Mapping review location…"@
            &&& *final(state) == (State {
                pending_selection: Some(
                    PendingSelection {
                        index,
                        document: at.document,
                        view: at.view,
                        cursor: at.cursor,
                        version: at.version,
                    },
                ),
                ..*old(state)
            })
        },
{
    if !placing {
        return None;
    }
    state.pending_selection = Some(
        PendingSelection {
            index,
            document: at.document,
            view: at.view,
            cursor: at.cursor,
            version: at.version,
        },
    );
    Some("Mapping review location…")
}

/// Where a selection ends.
#[derive(Debug)]
pub enum Finish {
    /// At this character of the document, saying this.
    Go(usize, String),
    /// In the discussion view: the discussion has no place in the document.
    Discussion,
    /// Nowhere: there is no such discussion any more.
    Nothing,
}

/// Go to a discussion's block in a document of the given length.
pub fn finish_selection(state: &State, index: usize, blocks: &Vec<Block>, length: usize) -> (r:
    Finish)
    ensures
        !has_discussion(*state, index as int) ==> r is Nothing,
        has_discussion(*state, index as int) ==> {
            let threads = (state.review->0).threads@;
            let thread = *threads[index as int];
            match block_index(blocks@, thread.id@, 0) {
                Some(k) => {
                    let block = blocks@[k];
                    r matches Finish::Go(at, m) && at == (if block.anchor <= length {
                        block.anchor
                    } else {
                        length
                    }) && m@ == selection_text(
                        index as int,
                        threads.len() as int,
                        thread,
                        block.placement,
                    )
                },
                None => r is Discussion,
            }
        },
{
    let review = match &state.review {
        Some(review) => review,
        None => return Finish::Nothing,
    };
    if index >= review.threads.len() {
        return Finish::Nothing;
    }
    let thread = &review.threads[index];
    match find_block(blocks, &thread.id) {
        Some(k) => {
            let block = &blocks[k];
            let at: usize = if block.anchor <= length { block.anchor } else { length };
            Finish::Go(at, selection_status(index, review.threads.len(), thread, block.placement))
        },
        None => Finish::Discussion,
    }
}

/// The discussion that the command to open one is about.
pub fn open(at: Option<usize>) -> (r: Result<usize, &'static str>)
    ensures
        match (at, r) {
            (Some(i), Ok(index)) => index == i,
            (None, Err(e)) => e@ == "No discussion selected; use :review-next or :review-list"@,
            _ => false,
        },
{
    match at {
        Some(i) => Ok(i),
        None => Err("No discussion selected; use :review-next or :review-list"),
    }
}

/// The discussion view to be shown.
#[derive(Debug)]
pub struct Discussion {
    pub text: String,
    /// The document to fill; a new one where there is none.
    pub document: Option<u64>,
}

/// Open the discussion itself. `reusable` tells that the discussion view is
/// still there, has no file and no edits; `placement` is how the discussion is
/// placed in an open document.
pub fn open_thread(
    state: &mut State,
    index: usize,
    reusable: bool,
    placement: Option<Placement>,
) -> (r: Option<Discussion>)
    ensures
        !has_discussion(*old(state), index as int) ==> r is None && *final(state) == (State {
            pending_selection: None,
            ..*old(state)
        }),
        has_discussion(*old(state), index as int) ==> {
            let review = *(old(state).review->0);
            let thread = *review.threads@[index as int];
            &&& *final(state) == (State {
                selected: Some(index),
                pending_selection: None,
                remembered: final(state).remembered,
                ..*old(state)
            })
            &&& remembers(*final(state), *old(state), thread)
            &&& r matches Some(view) && view.text@ == discussion_view(review, thread, placement)
                && view.document == (if reusable {
                old(state).document
            } else {
                None
            })
        },
{
    state.pending_selection = None;
    let (text, place) = match &state.review {
        Some(review) => if index < review.threads.len() {
            let thread = &review.threads[index];
            (discussion_text(review, thread, placement), here(state, &thread.id))
        } else {
            return None;
        },
        None => return None,
    };
    state.selected = Some(index);
    if state.context.is_some() {
        state.remembered = place;
    }
    Some(Discussion { text, document: if reusable { state.document } else { None } })
}

/// Selecting a discussion that has a place in a file of the repository opens that file;
/// any other discussion is opened in the discussion view. The selection waits for
/// nothing, and nothing else of the state changes but what is remembered.
pub proof fn selected_discussions_are_opened(
    before: State,
    after: State,
    index: usize,
    own_file: bool,
    opens: Option<Selecting>,
)
    requires
        chosen(before, after, index, own_file, opens),
        before.review matches Some(review) && index < review.threads@.len(),
        before.context is Some,
    ensures
        after.selected == Some(index),
        after.pending_selection is None,
        after.review == before.review,
        after.context == before.context,
        after.remembered matches Some(p) && p.text@ == (
        before.review->0).threads@[index as int].id@ && p.root@ == (before.context->0).root@
            && p.branch@ == (before.context->0).branch@,
        ({
            let thread = *(before.review->0).threads@[index as int];
            if (thread.lines is Some || thread.original_lines is Some) && good_path(thread.path@)
                && own_file {
                opens == Some(Selecting::File)
            } else {
                opens == Some(Selecting::Discussion)
            }
        }),
{
}

/// What is to be said after a load is said on the branch that it was kept for, and on no
/// other.
pub proof fn announcements_are_for_their_branch(state: State, context: Context)
    ensures
        announced(state, context) is Some ==> (state.after_load matches Some(p) && p.root@
            == context.root@ && p.branch@ == context.branch@ && announced(state, context) == Some(
            p.text@,
        )),
        (state.after_load matches Some(p) && p.root@ == context.root@ && p.branch@
            == context.branch@) ==> announced(state, context) is Some,
{
}

} // verus!
