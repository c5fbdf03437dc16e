//! Review discussions of a pull request and the state of their display.
use std::ops::Range;
use std::sync::Arc;

use vstd::prelude::*;

use crate::text::{
    chars, control, decimal, number, same, same_bytes, search, split, split_at, text, Pattern,
};

verus! {

/// The repository and branch that a review belongs to.
#[derive(Debug)]
pub struct Context {
    pub root: String,
    pub git_dir: String,
    pub branch: String,
    pub head: String,
    /// The repository's configuration, to notice when it changes.
    pub config: Vec<u8>,
}

#[derive(Clone, Debug, Default)]
pub struct Comment {
    pub author: String,
    pub body: String,
}

#[derive(Clone, Debug, Default)]
pub struct Thread {
    /// The discussion's node id; replies and resolution changes address this id only.
    pub id: String,
    pub path: String,
    /// One-based line range at the fetched head. `None` for old-side, outdated,
    /// file-level or otherwise uncertain locations.
    pub lines: Option<Range<usize>>,
    pub location: String,
    pub resolved: bool,
    /// The discussion's diff hunk changed on the pull request's head.
    /// Independent of local edits and of the local placement.
    pub outdated: bool,
    pub comments: Vec<Comment>,
    pub diff: String,
    pub url: String,
    /// Commit the discussion was written against (a valid object id).
    pub commit: Option<String>,
    /// One-based line range in `commit`, for discussions of new code.
    pub original_lines: Option<Range<usize>>,
    pub can_reply: bool,
    pub can_resolve: bool,
    pub can_unresolve: bool,
}

/// A second pointer to the same discussion (`Arc::clone` of std): the result
/// points to the value that `thread` points to.
#[verifier::external_body]
pub(crate) fn share(thread: &Arc<Thread>) -> (r: Arc<Thread>)
    ensures
        r == *thread,
{
    thread.clone()
}

pub open spec fn first_author(t: Thread) -> Seq<char> {
    if t.comments@.len() > 0 {
        t.comments@[0].author@
    } else {
        "[deleted]"@
    }
}

pub open spec fn title(t: Thread) -> Seq<char> {
    "@"@ + first_author(t) + " · "@ + (if t.resolved {
        "resolved"@
    } else {
        "open"@
    }) + (if t.outdated {
        " · outdated"@
    } else {
        ""@
    }) + " · "@ + decimal(t.comments@.len()) + " comment(s)"@
}

pub open spec fn placeable(t: Thread) -> bool {
    t.lines is Some || t.original_lines is Some
}

/// The comments, each under its author, with blank lines between them.
pub open spec fn conversation(comments: Seq<Comment>) -> Seq<char>
    decreases comments.len(),
{
    if comments.len() == 0 {
        seq![]
    } else {
        let last = comments.last();
        let said = "@"@ + last.author@ + "\n"@ + last.body@;
        if comments.len() == 1 {
            said
        } else {
            conversation(comments.drop_last()) + "\n\n"@ + said
        }
    }
}

impl Thread {
    pub fn title(&self) -> (r: String)
        ensures
            r@ == title(*self),
    {
        let mut r = "@".to_owned();
        if self.comments.len() > 0 {
            r.append(&self.comments[0].author);
        } else {
            r.append("[deleted]");
        }
        r.append(" · ");
        r.append(if self.resolved { "resolved" } else { "open" });
        r.append(if self.outdated { " · outdated" } else { "" });
        r.append(" · ");
        r.append(&number(self.comments.len()));
        r.append(" comment(s)");
        r
    }

    /// A discussion of new code with a line range, current or original, that can
    /// be shown on the code. Old-side and file-level discussions cannot.
    pub fn placeable(&self) -> (r: bool)
        ensures
            r == placeable(*self),
    {
        self.lines.is_some() || self.original_lines.is_some()
    }

    pub fn conversation(&self) -> (r: String)
        ensures
            r@ == conversation(self.comments@),
    {
        let mut r = String::new();
        let mut i: usize = 0;
        while i < self.comments.len()
            invariant
                i <= self.comments@.len(),
                r@ == conversation(self.comments@.take(i as int)),
            decreases self.comments@.len() - i,
        {
            let ghost before = r@;
            let ghost next = self.comments@.take(i + 1);
            if i > 0 {
                r.append("\n\n");
            }
            let mut said = "@".to_owned();
            said.append(&self.comments[i].author);
            said.append("\n");
            said.append(&self.comments[i].body);
            r.append(&said);
            proof {
                assert(next.drop_last() =~= self.comments@.take(i as int));
                if i == 0 {
                    assert(r@ =~= said@);
                }
            }
            i += 1;
        }
        assert(self.comments@.take(i as int) =~= self.comments@);
        r
    }
}

/// A file's text at the pull request's head.
#[derive(Clone, Debug)]
pub struct Source {
    pub path: String,
    pub text: String,
}

/// A file's text at the commit of an outdated discussion.
#[derive(Clone, Debug)]
pub struct Original {
    pub commit: String,
    pub path: String,
    pub text: String,
}

#[derive(Debug, Default)]
pub struct Review {
    pub label: String,
    /// Base repository (`owner/repo`) and number of the pull request.
    pub repo: String,
    pub number: u64,
    /// Head revision that all line numbers and `sources` belong to.
    pub head: String,
    pub threads: Vec<Arc<Thread>>,
    /// At most one text for each path.
    pub sources: Vec<Source>,
    /// At most one text for each commit and path.
    pub originals: Vec<Original>,
    /// The head repository (`owner/repo`) when discovered from the branch.
    pub head_repo: Option<String>,
}

/// The number of discussions that `f` holds of.
pub open spec fn count(threads: Seq<Arc<Thread>>, f: spec_fn(Thread) -> bool) -> nat
    decreases threads.len(),
{
    if threads.len() == 0 {
        0
    } else {
        count(threads.drop_last(), f) + if f(*threads.last()) {
            1nat
        } else {
            0nat
        }
    }
}

pub open spec fn open() -> spec_fn(Thread) -> bool {
    |t: Thread| !t.resolved
}

pub open spec fn inline() -> spec_fn(Thread) -> bool {
    |t: Thread| placeable(t)
}

pub open spec fn moved() -> spec_fn(Thread) -> bool {
    |t: Thread| placeable(t) && t.lines is None
}

/// The label up to the revision.
pub open spec fn pull(label: Seq<char>) -> Seq<char> {
    match crate::text::split_once(label, " @ "@) {
        Some(parts) => parts.0,
        None => label,
    }
}

pub open spec fn summary(review: Review) -> Seq<char> {
    let threads = review.threads@;
    if threads.len() == 0 {
        pull(review.label@) + ": no review discussions"@
    } else {
        pull(review.label@) + ": "@ + decimal(threads.len()) + " discussion(s), "@ + decimal(
            count(threads, open()),
        ) + " open · "@ + decimal(count(threads, inline())) + " inline ("@ + decimal(
            count(threads, moved()),
        ) + " outdated), "@ + decimal((threads.len() - count(threads, inline())) as nat)
            + " old-side/file-level · :review-next, :review-list"@
    }
}

/// No more discussions are counted than there are, and those that are outdated
/// but shown are among the shown ones.
pub proof fn counts_are_bounded(threads: Seq<Arc<Thread>>)
    ensures
        count(threads, open()) <= threads.len(),
        count(threads, moved()) <= count(threads, inline()) <= threads.len(),
    decreases threads.len(),
{
    if threads.len() > 0 {
        counts_are_bounded(threads.drop_last());
    }
}

impl Review {
    /// `owner/repo#123`, without the revision suffix of `label`.
    pub fn pull(&self) -> (r: &str)
        ensures
            r@ == pull(self.label@),
    {
        let label = chars(&self.label);
        match search(&label, " @ ") {
            Some(i) => {
                let r = self.label.as_str().substring_char(0, i);
                assert(r@ =~= self.label@.take(i as int));
                r
            },
            None => self.label.as_str(),
        }
    }

    pub fn open_count(&self) -> (r: usize)
        ensures
            r == count(self.threads@, open()),
    {
        let mut n: usize = 0;
        let mut i: usize = 0;
        while i < self.threads.len()
            invariant
                n <= i <= self.threads@.len(),
                n == count(self.threads@.take(i as int), open()),
            decreases self.threads@.len() - i,
        {
            assert(self.threads@.take(i + 1).drop_last() =~= self.threads@.take(i as int));
            if !self.threads[i].resolved {
                n += 1;
            }
            i += 1;
        }
        assert(self.threads@.take(i as int) =~= self.threads@);
        n
    }

    /// Counts that explain why fewer discussions may be visible inline.
    pub fn summary(&self) -> (r: String)
        ensures
            r@ == summary(*self),
    {
        let mut r = self.pull().to_owned();
        let total: usize = self.threads.len();
        if total == 0 {
            r.append(": no review discussions");
            return r;
        }
        let open: usize = self.open_count();
        let mut inline: usize = 0;
        let mut outdated: usize = 0;
        let mut i: usize = 0;
        while i < self.threads.len()
            invariant
                outdated <= inline <= i <= self.threads@.len(),
                inline == count(self.threads@.take(i as int), crate::review::inline()),
                outdated == count(self.threads@.take(i as int), moved()),
            decreases self.threads@.len() - i,
        {
            assert(self.threads@.take(i + 1).drop_last() =~= self.threads@.take(i as int));
            if self.threads[i].placeable() {
                inline += 1;
                if self.threads[i].lines.is_none() {
                    outdated += 1;
                }
            }
            i += 1;
        }
        assert(self.threads@.take(i as int) =~= self.threads@);
        r.append(": ");
        r.append(&number(total));
        r.append(" discussion(s), ");
        r.append(&number(open));
        r.append(" open · ");
        r.append(&number(inline));
        r.append(" inline (");
        r.append(&number(outdated));
        r.append(" outdated), ");
        r.append(&number(total - inline));
        r.append(" old-side/file-level · :review-next, :review-list");
        r
    }
}

// ---------------------------------------------------------------------------
// Remote text
// ---------------------------------------------------------------------------

/// Characters that change the direction of the text around them.
pub open spec fn is_bidi(c: char) -> bool {
    let n = c as u32;
    n == 0x61c || n == 0x200e || n == 0x200f || 0x202a <= n <= 0x202e || 0x2066 <= n <= 0x2069
}

/// What is shown for one remote character.
pub open spec fn safe_char(c: char) -> Seq<char> {
    if c == '\n' {
        seq![c]
    } else if c == '\t' {
        seq![' ']
    } else if crate::text::is_control(c) || is_bidi(c) {
        seq![]
    } else {
        seq![c]
    }
}

pub open spec fn safe(s: Seq<char>) -> Seq<char>
    decreases s.len(),
{
    if s.len() == 0 {
        seq![]
    } else {
        safe(s.drop_last()) + safe_char(s.last())
    }
}

/// Strip terminal controls (including bidi overrides) before any UI consumes
/// remote content. Preserve paragraphs; tabs become spaces.
pub fn safe_text(text: &str) -> (r: String)
    ensures
        r@ == safe(text@),
{
    let all = chars(text);
    let mut r = String::new();
    let mut i: usize = 0;
    while i < all.len()
        invariant
            i <= all@.len(),
            r@ == safe(all@.take(i as int)),
        decreases all@.len() - i,
    {
        let ghost next = all@.take(i + 1);
        assert(next.drop_last() =~= all@.take(i as int));
        let c = all[i];
        let n: u32 = c as u32;
        if c == '\n' {
            r.push(c);
        } else if c == '\t' {
            r.push(' ');
        } else if !(control(c) || n == 0x61c || n == 0x200e || n == 0x200f || (0x202a <= n && n
            <= 0x202e) || (0x2066 <= n && n <= 0x2069)) {
            r.push(c);
        }
        assert(r@ =~= safe(next));
        i += 1;
    }
    assert(all@.take(i as int) =~= all@);
    r
}

/// A character that may reach the terminal.
pub open spec fn harmless(c: char) -> bool {
    c == '\n' || !(crate::text::is_control(c) || is_bidi(c))
}

/// Safe text holds no control but line feeds, and no direction override.
pub proof fn safe_text_is_harmless(s: Seq<char>)
    ensures
        forall|i: int| 0 <= i < safe(s).len() ==> harmless(#[trigger] safe(s)[i]),
    decreases s.len(),
{
    if s.len() > 0 {
        let t = s.drop_last();
        safe_text_is_harmless(t);
        assert forall|i: int| 0 <= i < safe(s).len() implies harmless(#[trigger] safe(s)[i]) by {
            if i < safe(t).len() {
                assert(safe(s)[i] == safe(t)[i]);
            } else {
                assert(safe(s)[i] == safe_char(s.last())[i - safe(t).len()]);
            }
        }
    }
}

/// Text that is harmless already is shown as it is; tabs are controls.
pub proof fn harmless_text_is_kept(s: Seq<char>)
    requires
        forall|i: int| 0 <= i < s.len() ==> harmless(#[trigger] s[i]),
    ensures
        safe(s) == s,
    decreases s.len(),
{
    if s.len() > 0 {
        let t = s.drop_last();
        assert forall|i: int| 0 <= i < t.len() implies harmless(#[trigger] t[i]) by {
            assert(t[i] == s[i]);
        }
        harmless_text_is_kept(t);
        assert(harmless(s[s.len() - 1]));
        assert(safe(s) =~= s);
    }
}

/// Making text safe a second time changes nothing.
pub proof fn safe_text_is_stable(s: Seq<char>)
    ensures
        safe(safe(s)) == safe(s),
{
    safe_text_is_harmless(s);
    harmless_text_is_kept(safe(s));
}

/// Removing characters one text at a time or in one go is the same.
pub proof fn safe_text_of_a_sum(a: Seq<char>, b: Seq<char>)
    ensures
        safe(a + b) == safe(a) + safe(b),
    decreases b.len(),
{
    if b.len() == 0 {
        assert(a + b =~= a);
        assert(safe(a) + safe(b) =~= safe(a));
    } else {
        safe_text_of_a_sum(a, b.drop_last());
        assert((a + b).drop_last() =~= a + b.drop_last());
        assert(safe(a + b) =~= safe(a) + safe(b));
    }
}

// ---------------------------------------------------------------------------
// State
// ---------------------------------------------------------------------------

/// A discussion to go to once its file has been placed.
#[derive(Clone, Copy, Debug)]
pub struct PendingSelection {
    pub index: usize,
    pub document: u64,
    pub view: u64,
    pub cursor: usize,
    pub version: i32,
}

/// A reply being written in a scratch buffer. Bound to one discussion node id
/// when opened; posting never re-targets it to whatever is under the cursor.
#[derive(Debug)]
pub struct Compose {
    /// The scratch document.
    pub document: u64,
    pub context: Context,
    pub repo: String,
    pub number: u64,
    pub thread: Arc<Thread>,
    /// A post is in flight; a second write must not send a duplicate.
    pub sending: bool,
}

/// A repository root, a branch and a text that belongs to them.
#[derive(Debug)]
pub struct Place {
    pub root: String,
    pub branch: String,
    pub text: String,
}

#[derive(Debug)]
pub struct State {
    pub enabled: bool,
    pub generation: u64,
    pub context: Option<Context>,
    pub loading: bool,
    /// The background task that loads the review.
    pub task: Option<u64>,
    pub pull: Option<String>,
    pub review: Option<Arc<Review>>,
    /// Ids of the discussions that are shown whole.
    pub expanded: Vec<String>,
    pub selected: Option<usize>,
    pub pending_selection: Option<PendingSelection>,
    pub document: Option<u64>,
    pub status: String,
    /// The last load failed or no reviewable context exists; `status` explains.
    pub failed: bool,
    /// Reply drafts. Survive refreshes and context changes.
    pub compose: Vec<Compose>,
    /// The last selected discussion, by thread id.
    /// Survives the reload after a commit or push on the same branch.
    pub remembered: Option<Place>,
    /// A status message for the next load, shown instead of the summary: the
    /// result of the Git action that caused it.
    pub after_load: Option<Place>,
}

impl Default for State {
    fn default() -> (r: State)
        ensures
            !r.enabled,
            r.generation == 0,
            r.context is None,
            !r.loading,
            r.task is None,
            r.pull is None,
            r.review is None,
            r.expanded@.len() == 0,
            r.selected is None,
            r.pending_selection is None,
            r.document is None,
            r.status@.len() == 0,
            !r.failed,
            r.compose@.len() == 0,
            r.remembered is None,
            r.after_load is None,
    {
        State {
            enabled: false,
            generation: 0,
            context: None,
            loading: false,
            task: None,
            pull: None,
            review: None,
            expanded: Vec::new(),
            selected: None,
            pending_selection: None,
            document: None,
            status: String::new(),
            failed: false,
            compose: Vec::new(),
            remembered: None,
            after_load: None,
        }
    }
}

pub open spec fn same_context(a: Context, b: Context) -> bool {
    a.root@ == b.root@ && a.git_dir@ == b.git_dir@ && a.branch@ == b.branch@ && a.head@ == b.head@
        && a.config@ == b.config@
}

pub open spec fn same_contexts(a: Option<Context>, b: Option<Context>) -> bool {
    match (a, b) {
        (Some(x), Some(y)) => same_context(x, y),
        (None, None) => true,
        _ => false,
    }
}

impl Context {
    pub fn same(&self, other: &Context) -> (r: bool)
        ensures
            r == same_context(*self, *other),
    {
        same(&self.root, &other.root) && same(&self.git_dir, &other.git_dir) && same(
            &self.branch,
            &other.branch,
        ) && same(&self.head, &other.head) && same_bytes(&self.config, &other.config)
    }

    pub fn copy(&self) -> (r: Context)
        ensures
            same_context(r, *self),
    {
        Context {
            root: self.root.clone(),
            git_dir: self.git_dir.clone(),
            branch: self.branch.clone(),
            head: self.head.clone(),
            config: vstd::slice::slice_to_vec(self.config.as_slice()),
        }
    }
}

/// The indicator for the statusline.
pub open spec fn indicator(state: State) -> Option<Seq<char>> {
    if !state.enabled {
        None
    } else {
        Some(
            match state.review {
                Some(review) => split(pull(review.label@), Pattern::One('/')).last() + " "@
                    + decimal(count(review.threads@, open())) + "/"@ + decimal(
                    review.threads@.len(),
                ) + " open"@,
                None => if state.loading {
                    "reviews: loading"@
                } else if state.failed {
                    "reviews: error"@
                } else {
                    "reviews: no PR"@
                },
            },
        )
    }
}

impl State {
    /// Forget what was loaded and start a new generation in `context`. Returns
    /// the task to abort.
    pub fn invalidate(&mut self, context: Option<Context>) -> (r: Option<u64>)
        ensures
            r == old(self).task,
            final(self).task is None,
            final(self).pull is None,
            final(self).generation == old(self).generation.wrapping_add(1),
            final(self).context == context,
            !final(self).loading,
            !final(self).failed,
            final(self).review is None,
            final(self).selected is None,
            final(self).pending_selection is None,
            final(self).expanded@.len() == 0,
            final(self).enabled == old(self).enabled,
            final(self).document == old(self).document,
            final(self).status == old(self).status,
            final(self).compose == old(self).compose,
            final(self).remembered == old(self).remembered,
            final(self).after_load == old(self).after_load,
    {
        let task = self.task.take();
        self.pull = None;
        self.generation = self.generation.wrapping_add(1);
        self.context = context;
        self.loading = false;
        self.failed = false;
        self.review = None;
        self.selected = None;
        self.pending_selection = None;
        self.expanded.clear();
        task
    }

    /// Whether a result requested in `generation` for `context` may be shown.
    pub fn accepts(&self, generation: u64, context: &Context) -> (r: bool)
        ensures
            r == accepts(*self, generation, *context),
    {
        match &self.context {
            Some(own) => self.enabled && self.generation == generation && own.same(context),
            None => false,
        }
    }

    /// Compact state for the statusline; `None` while display is disabled.
    pub fn indicator(&self) -> (r: Option<String>)
        ensures
            match r {
                Some(x) => indicator(*self) == Some(x@),
                None => indicator(*self) is None,
            },
    {
        if !self.enabled {
            return None;
        }
        let mut r;
        match &self.review {
            Some(review) => {
                let pull = chars(review.pull());
                let parts = split_at(&pull, Pattern::One('/'));
                let last = parts[parts.len() - 1];
                assert(last@ == split(pull@, Pattern::One('/')).last());
                r = text(last);
                r.append(" ");
                r.append(&number(review.open_count()));
                r.append("/");
                r.append(&number(review.threads.len()));
                r.append(" open");
            },
            None => {
                r = if self.loading {
                    "reviews: loading"
                } else if self.failed {
                    "reviews: error"
                } else {
                    "reviews: no PR"
                }.to_owned();
            },
        }
        Some(r)
    }
}

pub open spec fn accepts(state: State, generation: u64, context: Context) -> bool {
    state.enabled && state.generation == generation && match state.context {
        Some(own) => same_context(own, context),
        None => false,
    }
}

/// A result that was requested before an invalidation is not accepted after it,
/// whatever the context is now.
pub proof fn delayed_results_are_rejected(before: State, after: State, context: Context)
    requires
        after.generation == before.generation.wrapping_add(1),
    ensures
        !accepts(after, before.generation, context),
{
}

/// A result for the context that is shown is accepted as long as nothing was invalidated
/// since it was requested, and no result is while nothing is shown.
pub proof fn timely_results_are_accepted(state: State, context: Context)
    ensures
        state.enabled && state.context == Some(context) ==> accepts(
            state,
            state.generation,
            context,
        ),
        !state.enabled || state.context is None ==> !accepts(state, state.generation, context),
        accepts(state, state.generation, context) ==> (state.context matches Some(own) && own.branch@
            == context.branch@ && own.head@ == context.head@ && own.root@ == context.root@
            && own.git_dir@ == context.git_dir@ && own.config@ == context.config@),
{
}

/// Discussions are counted one by one: each that is not resolved is open, each with lines
/// is inline, and each of those that has none at the head has moved.
pub proof fn discussions_are_counted_for_what_they_are(threads: Seq<Arc<Thread>>, t: Arc<Thread>)
    ensures
        count(threads.push(t), open()) == count(threads, open()) + if t.resolved {
            0nat
        } else {
            1nat
        },
        count(threads.push(t), inline()) == count(threads, inline()) + if t.lines is Some
            || t.original_lines is Some {
            1nat
        } else {
            0nat
        },
        count(threads.push(t), moved()) == count(threads, moved()) + if t.lines is None
            && t.original_lines is Some {
            1nat
        } else {
            0nat
        },
        count(Seq::<Arc<Thread>>::empty(), open()) == 0,
{
    assert(threads.push(t).drop_last() =~= threads);
}

/// Every comment of a discussion is shown, under its author.
pub proof fn conversations_hold_every_comment(comments: Seq<Comment>, i: int)
    requires
        0 <= i < comments.len(),
    ensures
        crate::text::contains(
            conversation(comments),
            "@"@ + comments[i].author@ + "\n"@ + comments[i].body@,
        ),
    decreases comments.len(),
{
    let said = "@"@ + comments[i].author@ + "\n"@ + comments[i].body@;
    let all = conversation(comments);
    let n = said.len();
    crate::text::lemma_find(all, said);
    if i == comments.len() - 1 {
        let k = all.len() - n;
        assert(all.subrange(k, k + n) =~= said);
        assert(crate::text::occurs(all, said, k));
    } else {
        let before = conversation(comments.drop_last());
        assert(comments.drop_last()[i] == comments[i]);
        conversations_hold_every_comment(comments.drop_last(), i);
        crate::text::lemma_find(before, said);
        let k = crate::text::find(before, said)->0;
        assert(all.take(before.len() as int) =~= before);
        assert(all.subrange(k, k + n) =~= before.subrange(k, k + n));
        assert(crate::text::occurs(all, said, k));
    }
}

/// The status line shows how many discussions are open, or why there are none.
pub proof fn indicators_tell_the_state(state: State)
    ensures
        indicator(state) is Some <==> state.enabled,
        state.enabled ==> (state.review matches Some(review) ==> crate::text::ends_with(
            indicator(state)->0,
            " "@ + decimal(count(review.threads@, open())) + "/"@ + decimal(review.threads@.len())
                + " open"@,
        )),
        state.enabled && state.review is None && state.loading ==> indicator(state)
            == Some("reviews: loading"@),
        state.enabled && state.review is None && !state.loading && state.failed ==> indicator(state)
            == Some("reviews: error"@),
        state.enabled && state.review is None && !state.loading && !state.failed ==> indicator(
            state,
        ) == Some("reviews: no PR"@),
{
    if state.enabled && state.review is Some {
        let review = state.review->0;
        let end = " "@ + decimal(count(review.threads@, open())) + "/"@ + decimal(
            review.threads@.len(),
        ) + " open"@;
        let all = indicator(state)->0;
        let name = split(pull(review.label@), Pattern::One('/')).last();
        assert(all =~= name + end);
        assert(all.skip(all.len() - end.len()) =~= end);
    }
}

} // verus!
