//! The discussions of a file on its lines, and their list.
use std::ops::Range;
use std::sync::Arc;

use vstd::prelude::*;

use crate::github::{good_path, valid_path};
use crate::inline::Block;
use crate::mapping::{placed, LineMapper, LIMIT};
use crate::order::{sort, sorted, Keyed};
use crate::paths::{join_path, joined};
use crate::placement::{anchor, anchored, clamped, line_range, placement_label, Placement};
use crate::review::{conversation, placeable, share, title, Original, Review, Source, Thread};
use crate::rope::{char_to_line, Rope};
use crate::text::{
    chars, decimal, lines, number, part, same, size, slices, split_lines, strip, text, trimmed,
    views,
};

verus! {

// ---------------------------------------------------------------------------
// Placing
// ---------------------------------------------------------------------------

/// The text of `path` at the head, from index `i` on.
pub open spec fn source_at(sources: Seq<Source>, path: Seq<char>, i: int) -> Option<Seq<char>>
    decreases sources.len() - i,
{
    if i < 0 || i >= sources.len() {
        None
    } else if sources[i].path@ == path {
        Some(sources[i].text@)
    } else {
        source_at(sources, path, i + 1)
    }
}

/// The text of `path` at `commit`, from index `i` on.
pub open spec fn original_at(
    originals: Seq<Original>,
    commit: Seq<char>,
    path: Seq<char>,
    i: int,
) -> Option<Seq<char>>
    decreases originals.len() - i,
{
    if i < 0 || i >= originals.len() {
        None
    } else if originals[i].commit@ == commit && originals[i].path@ == path {
        Some(originals[i].text@)
    } else {
        original_at(originals, commit, path, i + 1)
    }
}

/// The snapshot that a discussion's lines belong to: the head, or the commit of
/// an outdated discussion.
pub open spec fn snapshot(review: Review, t: Thread) -> Option<Seq<char>> {
    match t.lines {
        Some(_) => source_at(review.sources@, t.path@, 0),
        None => match t.commit {
            Some(commit) => original_at(review.originals@, commit@, t.path@, 0),
            None => None,
        },
    }
}

/// The lines of a discussion, at the head or else at its commit.
pub open spec fn known_lines(t: Thread) -> Option<(int, int)> {
    match (t.lines, t.original_lines) {
        (Some(r), _) => Some((r.start as int, r.end as int)),
        (None, Some(r)) => Some((r.start as int, r.end as int)),
        (None, None) => None,
    }
}

/// A text that is small enough to be compared.
pub open spec fn searchable(s: Seq<char>) -> bool {
    size(s) <= LIMIT
}

/// Where a discussion is in the document, and how that was found. Without a
/// snapshot, the original line numbers are used.
pub open spec fn position(review: Review, t: Thread, document: Seq<char>) -> Option<
    ((int, int), Placement),
> {
    match known_lines(t) {
        None => None,
        Some((from, to)) => Some(
            match snapshot(review, t) {
                Some(source) => if searchable(source) && searchable(document) {
                    placed(source, document, from, to)
                } else {
                    (clamped(document, from, to), Placement::Approximate)
                },
                None => (clamped(document, from, to), Placement::Approximate),
            },
        ),
    }
}

/// The block of a discussion in the file `relative`, if it has a place there.
pub open spec fn block_of(
    review: Review,
    thread: Arc<Thread>,
    relative: Seq<char>,
    document: Seq<char>,
    expanded: Seq<Seq<char>>,
) -> Option<Block> {
    if !good_path(thread.path@) || relative != thread.path@ {
        None
    } else {
        match position(review, *thread, document) {
            Some((range, placement)) => Some(
                Block {
                    thread,
                    range: Range { start: range.0 as usize, end: range.1 as usize },
                    anchor: anchored(document, range.1) as usize,
                    expanded: expanded.contains(thread.id@),
                    placement,
                },
            ),
            None => None,
        }
    }
}

/// The blocks of the first `n` discussions.
pub open spec fn blocks_of(
    review: Review,
    n: int,
    relative: Seq<char>,
    document: Seq<char>,
    expanded: Seq<Seq<char>>,
) -> Seq<Block>
    decreases n,
{
    if n <= 0 {
        seq![]
    } else {
        let rest = blocks_of(review, n - 1, relative, document, expanded);
        match block_of(review, review.threads@[n - 1], relative, document, expanded) {
            Some(b) => rest.push(b),
            None => rest,
        }
    }
}

impl Keyed for Block {
    open spec fn le(&self, other: &Block) -> bool {
        self.anchor <= other.anchor
    }

    proof fn total(a: &Block, b: &Block) {
    }

    proof fn transitive(a: &Block, b: &Block, c: &Block) {
    }

    fn not_after(&self, other: &Block) -> (r: bool) {
        self.anchor <= other.anchor
    }
}

fn find_source<'a>(review: &'a Review, path: &str) -> (r: Option<&'a String>)
    ensures
        match r {
            Some(s) => source_at(review.sources@, path@, 0) == Some(s@),
            None => source_at(review.sources@, path@, 0) is None,
        },
{
    let mut i: usize = 0;
    while i < review.sources.len()
        invariant
            i <= review.sources@.len(),
            source_at(review.sources@, path@, 0) == source_at(review.sources@, path@, i as int),
        decreases review.sources@.len() - i,
    {
        if same(&review.sources[i].path, path) {
            return Some(&review.sources[i].text);
        }
        i += 1;
    }
    None
}

fn find_original<'a>(review: &'a Review, commit: &str, path: &str) -> (r: Option<&'a String>)
    ensures
        match r {
            Some(s) => original_at(review.originals@, commit@, path@, 0) == Some(s@),
            None => original_at(review.originals@, commit@, path@, 0) is None,
        },
{
    let mut i: usize = 0;
    while i < review.originals.len()
        invariant
            i <= review.originals@.len(),
            original_at(review.originals@, commit@, path@, 0) == original_at(
                review.originals@,
                commit@,
                path@,
                i as int,
            ),
        decreases review.originals@.len() - i,
    {
        if same(&review.originals[i].commit, commit) && same(&review.originals[i].path, path) {
            return Some(&review.originals[i].text);
        }
        i += 1;
    }
    None
}

fn place_thread(review: &Review, t: &Thread, document: &Rope) -> (r: Option<
    (Range<usize>, Placement),
>)
    ensures
        match r {
            Some(x) => position(*review, *t, document@) == Some(
                ((x.0.start as int, x.0.end as int), x.1),
            ) && x.0.start <= x.0.end <= document@.len(),
            None => position(*review, *t, document@) is None,
        },
{
    let (wanted, source) = match (&t.lines, &t.original_lines) {
        (Some(r), _) => (r.start..r.end, find_source(review, &t.path)),
        (None, Some(r)) => (r.start..r.end, match &t.commit {
            Some(commit) => find_original(review, commit, &t.path),
            None => None,
        }),
        (None, None) => return None,
    };
    match source {
        Some(source) => match LineMapper::new(source, document) {
            Some(mapper) => Some(mapper.place(wanted)),
            None => Some((line_range(document, wanted), Placement::Approximate)),
        },
        None => Some((line_range(document, wanted), Placement::Approximate)),
    }
}

/// Place the file's discussions in `document`. Each discussion is mapped from the
/// snapshot its lines belong to: the head, or the original commit of an outdated
/// discussion. Without a snapshot, the original line numbers are used.
pub fn map_blocks(review: &Review, relative: &str, document: &Rope, expanded: &Vec<String>) -> (r:
    Vec<Block>)
    ensures
        r@ == sorted(
            blocks_of(
                *review,
                review.threads@.len() as int,
                relative@,
                document@,
                views(expanded@),
            ),
        ),
{
    let mut blocks: Vec<Block> = Vec::new();
    let mut i: usize = 0;
    while i < review.threads.len()
        invariant
            i <= review.threads@.len(),
            blocks@ == blocks_of(*review, i as int, relative@, document@, views(expanded@)),
        decreases review.threads@.len() - i,
    {
        let thread = share(&review.threads[i]);
        if valid_path(&thread.path) && same(relative, &thread.path) {
            match place_thread(review, &thread, document) {
                Some((range, placement)) => {
                    let block = Block {
                        anchor: anchor(document, &range),
                        expanded: crate::fetch::has_text(expanded, &thread.id),
                        range,
                        placement,
                        thread,
                    };
                    blocks.push(block);
                },
                None => {},
            }
        }
        i += 1;
    }
    sort(blocks)
}

/// `" · label"` for a placement that needs one.
pub open spec fn note(p: Placement) -> Seq<char> {
    match p {
        Placement::Exact => ""@,
        _ => " · "@ + placement_label(p),
    }
}

pub fn placement_note(placement: Placement) -> (r: String)
    ensures
        r@ == note(placement),
{
    match placement {
        Placement::Exact => "".to_owned(),
        _ => {
            let mut r = " · ".to_owned();
            r.append(placement.label());
            r
        },
    }
}

// ---------------------------------------------------------------------------
// The cursor
// ---------------------------------------------------------------------------

/// The first discussion with the given id from index `i` on.
pub open spec fn thread_index(threads: Seq<Arc<Thread>>, id: Seq<char>, i: int) -> Option<int>
    decreases threads.len() - i,
{
    if i < 0 || i >= threads.len() {
        None
    } else if threads[i].id@ == id {
        Some(i)
    } else {
        thread_index(threads, id, i + 1)
    }
}

/// The block covers the cursor, or is drawn below its line.
pub open spec fn near(b: Block, document: Seq<char>, cursor: int) -> bool {
    b.range.start <= cursor < b.range.end || char_to_line(document, b.anchor as int)
        == char_to_line(document, cursor)
}

/// The discussions at the cursor, by index, among the first `n` blocks.
pub open spec fn near_cursor(
    threads: Seq<Arc<Thread>>,
    blocks: Seq<Block>,
    n: int,
    document: Seq<char>,
    cursor: int,
) -> Seq<int>
    decreases n,
{
    if n <= 0 {
        seq![]
    } else {
        let rest = near_cursor(threads, blocks, n - 1, document, cursor);
        let b = blocks[n - 1];
        match thread_index(threads, b.thread.id@, 0) {
            Some(i) => if near(b, document, cursor) {
                rest.push(i)
            } else {
                rest
            },
            None => rest,
        }
    }
}

/// The discussion that a command means: the selected one if the cursor is at
/// it, else the first at the cursor, else the selected one.
pub open spec fn meant(candidates: Seq<int>, selected: Option<usize>) -> Option<int> {
    match selected {
        Some(i) => if candidates.contains(i as int) || candidates.len() == 0 {
            Some(i as int)
        } else {
            Some(candidates[0])
        },
        None => if candidates.len() > 0 {
            Some(candidates[0])
        } else {
            None
        },
    }
}

/// The discussion with the given id.
pub fn find_thread(threads: &Vec<Arc<Thread>>, id: &str) -> (r: Option<usize>)
    ensures
        match r {
            Some(i) => i < threads@.len() && thread_index(threads@, id@, 0) == Some(i as int),
            None => thread_index(threads@, id@, 0) is None,
        },
{
    let mut i: usize = 0;
    while i < threads.len()
        invariant
            i <= threads@.len(),
            thread_index(threads@, id@, 0) == thread_index(threads@, id@, i as int),
        decreases threads@.len() - i,
    {
        if same(&threads[i].id, id) {
            return Some(i);
        }
        i += 1;
    }
    None
}

/// The discussion at the cursor, else the one selected by navigation.
pub fn under_cursor(
    review: &Review,
    blocks: &Vec<Block>,
    document: &Rope,
    cursor: usize,
    selected: Option<usize>,
) -> (r: Option<usize>)
    requires
        cursor <= document@.len(),
        forall|i: int| 0 <= i < blocks@.len() ==> (#[trigger] blocks@[i]).anchor <= document@.len(),
    ensures
        match r {
            Some(i) => meant(
                near_cursor(
                    review.threads@,
                    blocks@,
                    blocks@.len() as int,
                    document@,
                    cursor as int,
                ),
                selected,
            ) == Some(i as int),
            None => meant(
                near_cursor(
                    review.threads@,
                    blocks@,
                    blocks@.len() as int,
                    document@,
                    cursor as int,
                ),
                selected,
            ) is None,
        },
{
    let line: usize = document.char_to_line(cursor);
    let mut first: Option<usize> = None;
    let mut has_selected = false;
    let ghost mut found: Seq<int> = seq![];
    let mut i: usize = 0;
    while i < blocks.len()
        invariant
            i <= blocks@.len(),
            line == char_to_line(document@, cursor as int),
            forall|k: int|
                0 <= k < blocks@.len() ==> (#[trigger] blocks@[k]).anchor <= document@.len(),
            found == near_cursor(
                review.threads@,
                blocks@,
                i as int,
                document@,
                cursor as int,
            ),
            match first {
                Some(f) => found.len() > 0 && found[0] == f,
                None => found.len() == 0,
            },
            has_selected == (match selected {
                Some(s) => found.contains(s as int),
                None => false,
            }),
        decreases blocks@.len() - i,
    {
        let b = &blocks[i];
        assert(*b == blocks@[i as int]);
        let here = (b.range.start <= cursor && cursor < b.range.end) || document.char_to_line(
            b.anchor,
        ) == line;
        if here {
            match find_thread(&review.threads, &b.thread.id) {
                Some(n) => {
                    let ghost before = found;
                    proof {
                        found = found.push(n as int);
                        assert(found.last() == n);
                        assert forall|x: int| found.contains(x) == (before.contains(x) || x == n) by {
                            if before.contains(x) {
                                let k = before.index_of(x);
                                assert(found[k] == x);
                            }
                            if x == n {
                                assert(found[before.len() as int] == x);
                            }
                        }
                    }
                    if first.is_none() {
                        first = Some(n);
                    }
                    match selected {
                        Some(s) => {
                            if s == n {
                                has_selected = true;
                            }
                        },
                        None => {},
                    }
                },
                None => {},
            }
        }
        i += 1;
    }
    match selected {
        Some(s) => {
            if has_selected {
                return Some(s);
            }
        },
        None => {},
    }
    match first {
        Some(n) => Some(n),
        None => selected,
    }
}

/// The discussion that navigation goes to from `current`; it wraps around.
pub open spec fn neighbour(current: Option<usize>, count: int, previous: bool) -> int {
    match current {
        Some(i) => if previous {
            (i + count - 1) % count
        } else {
            (i + 1) % count
        },
        None => if previous {
            count - 1
        } else {
            0
        },
    }
}

pub fn navigate(current: Option<usize>, count: usize, previous: bool) -> (r: usize)
    requires
        count > 0,
        current matches Some(i) ==> i + count <= usize::MAX,
    ensures
        r == neighbour(current, count as int, previous),
        r < count,
{
    match current {
        Some(i) => if previous {
            (i + count - 1) % count
        } else {
            (i + 1) % count
        },
        None => if previous {
            count - 1
        } else {
            0
        },
    }
}

/// Going on and back again returns to the same discussion.
pub proof fn navigation_can_be_undone(i: usize, count: int)
    requires
        i < count <= usize::MAX,
    ensures
        neighbour(Some(neighbour(Some(i), count, false) as usize), count, true) == i,
        neighbour(Some(neighbour(Some(i), count, true) as usize), count, false) == i,
{
    let next = neighbour(Some(i), count, false);
    let last = neighbour(Some(i), count, true);
    if i + 1 < count {
        assert(next == i + 1) by (nonlinear_arith)
            requires
                next == (i + 1) % count,
                0 <= i + 1 < count,
        ;
    } else {
        assert(next == 0) by (nonlinear_arith)
            requires
                next == (i + 1) % count,
                i + 1 == count,
                count > 0,
        ;
    }
    if i > 0 {
        assert(last == i - 1) by (nonlinear_arith)
            requires
                last == (i + count - 1) % count,
                0 < i < count,
        ;
    } else {
        assert(last == count - 1) by (nonlinear_arith)
            requires
                last == (i + count - 1) % count,
                i == 0,
                count > 0,
        ;
    }
    assert((next + count - 1) % count == i) by (nonlinear_arith)
        requires
            (i + 1 < count && next == i + 1) || (i + 1 == count && next == 0),
            0 <= i < count,
    ;
    assert((last + 1) % count == i) by (nonlinear_arith)
        requires
            (i > 0 && last == i - 1) || (i == 0 && last == count - 1),
            0 <= i < count,
    ;
}

// ---------------------------------------------------------------------------
// Opening a discussion
// ---------------------------------------------------------------------------

/// What is said after going to a discussion's place.
pub open spec fn selection_text(
    index: int,
    total: int,
    thread: Thread,
    placement: Placement,
) -> Seq<char> {
    "Review "@ + decimal((index + 1) as nat) + "/"@ + decimal(total as nat) + " · "@ + title(thread)
        + note(placement) + " · :review-expand / :review-open"@
}

pub fn selection_status(index: usize, total: usize, thread: &Thread, placement: Placement) -> (r:
    String)
    requires
        index < usize::MAX,
    ensures
        r@ == selection_text(index as int, total as int, *thread, placement),
{
    let mut r = "Review ".to_owned();
    r.append(&number(index + 1));
    r.append("/");
    r.append(&number(total));
    r.append(" · ");
    r.append(&thread.title());
    r.append(&placement_note(placement));
    r.append(" · :review-expand / :review-open");
    r
}

/// How the placement is described in the discussion view.
pub open spec fn placement_sentence(p: Option<Placement>) -> Seq<char> {
    match p {
        Some(Placement::Exact) => "Location mapped to current document"@,
        Some(Placement::Changed) =>
            "Location mapped to current document; the code changed since the review"@,
        Some(Placement::Approximate) =>
            "Approximate location in current document (original line number)"@,
        None => "Location unavailable in current document; original context only"@,
    }
}

/// The text of the discussion view.
pub open spec fn discussion_view(
    review: Review,
    thread: Thread,
    placement: Option<Placement>,
) -> Seq<char> {
    review.label@ + "\n"@ + thread.location@ + "\n"@ + placement_sentence(placement) + "\n"@ + title(
        thread,
    ) + "\n\n"@ + conversation(thread.comments@) + "\n\nOriginal diff context:\n"@ + thread.diff@
        + "\n\n"@ + thread.url@ + "\n"@
}

pub fn discussion_text(review: &Review, thread: &Thread, placement: Option<Placement>) -> (r:
    String)
    ensures
        r@ == discussion_view(*review, *thread, placement),
{
    let sentence = match placement {
        Some(Placement::Exact) => "Location mapped to current document",
        Some(Placement::Changed) =>
            "Location mapped to current document; the code changed since the review",
        Some(Placement::Approximate) =>
            "Approximate location in current document (original line number)",
        None => "Location unavailable in current document; original context only",
    };
    let mut r = review.label.clone();
    r.append("\n");
    r.append(&thread.location);
    r.append("\n");
    r.append(sentence);
    r.append("\n");
    r.append(&thread.title());
    r.append("\n\n");
    r.append(&thread.conversation());
    r.append("\n\nOriginal diff context:\n");
    r.append(&thread.diff);
    r.append("\n\n");
    r.append(&thread.url);
    r.append("\n");
    r
}

/// The first block of a discussion.
pub open spec fn block_index(blocks: Seq<Block>, id: Seq<char>, i: int) -> Option<int>
    decreases blocks.len() - i,
{
    if i < 0 || i >= blocks.len() {
        None
    } else if blocks[i].thread.id@ == id {
        Some(i)
    } else {
        block_index(blocks, id, i + 1)
    }
}

pub fn find_block(blocks: &Vec<Block>, id: &str) -> (r: Option<usize>)
    ensures
        match r {
            Some(i) => i < blocks@.len() && block_index(blocks@, id@, 0) == Some(i as int)
                && blocks@[i as int].thread.id@ == id@,
            None => block_index(blocks@, id@, 0) is None,
        },
{
    let mut i: usize = 0;
    while i < blocks.len()
        invariant
            i <= blocks@.len(),
            block_index(blocks@, id@, 0) == block_index(blocks@, id@, i as int),
        decreases blocks@.len() - i,
    {
        if same(&blocks[i].thread.id, id) {
            return Some(i);
        }
        i += 1;
    }
    None
}

/// What selecting a discussion does.
#[derive(Clone, Copy, Debug, PartialEq, Eq, Structural)]
pub enum Selecting {
    /// Open its file, and go to its place there.
    File,
    /// Open the discussion itself.
    Discussion,
}

/// Old-side and file-level discussions have no place on the code; neither have
/// those whose path is not a file of the repository itself.
pub fn selecting(thread: &Thread, own_file: bool) -> (r: Selecting)
    ensures
        r == (if placeable(*thread) && good_path(thread.path@) && own_file {
            Selecting::File
        } else {
            Selecting::Discussion
        }),
{
    if thread.placeable() && valid_path(&thread.path) && own_file {
        Selecting::File
    } else {
        Selecting::Discussion
    }
}

// ---------------------------------------------------------------------------
// The list
// ---------------------------------------------------------------------------

/// A discussion's place: how it was found, and its first and last line,
/// zero-based.
#[derive(Clone, Copy, Debug, PartialEq, Eq, Structural)]
pub struct Found {
    pub placement: Placement,
    pub first: usize,
    pub last: usize,
}

#[derive(Debug)]
pub struct ListEntry {
    pub index: usize,
    pub thread: Arc<Thread>,
    /// Local file for previews, only when safely inside the repository.
    pub path: Option<String>,
    /// The place in the local file when listed.
    pub placement: Option<Found>,
}

/// The entry of discussion `index`, `own_file` telling whether its path is a
/// file below the root and not a link to somewhere else.
pub open spec fn is_entry(
    e: ListEntry,
    review: Review,
    index: int,
    root: Option<Seq<char>>,
    own_file: bool,
) -> bool {
    let t = review.threads@[index];
    &&& e.index == index
    &&& e.thread == t
    &&& e.placement is None
    &&& match root {
        Some(root) => if good_path(t.path@) && own_file {
            e.path matches Some(p) && p@ == joined(root, t.path@)
        } else {
            e.path is None
        },
        None => e.path is None,
    }
}

/// The file that a discussion's path names below the root.
pub fn listed_path(root: &str, thread: &Thread) -> (r: Option<String>)
    ensures
        match r {
            Some(p) => good_path(thread.path@) && p@ == joined(root@, thread.path@),
            None => !good_path(thread.path@),
        },
{
    if valid_path(&thread.path) {
        Some(join_path(root, &thread.path))
    } else {
        None
    }
}

/// The entries of all discussions. `own_files` tells for each whether the file
/// that its path names exists and is not reached through a link.
pub fn list_entries(review: &Review, root: Option<&str>, own_files: &Vec<bool>) -> (r: Vec<
    ListEntry,
>)
    requires
        own_files@.len() == review.threads@.len(),
    ensures
        r@.len() == review.threads@.len(),
        forall|i: int|
            0 <= i < r@.len() ==> is_entry(
                #[trigger] r@[i],
                *review,
                i,
                crate::github::opt(root),
                own_files@[i],
            ),
{
    let mut r: Vec<ListEntry> = Vec::new();
    let mut i: usize = 0;
    while i < review.threads.len()
        invariant
            i <= review.threads@.len(),
            own_files@.len() == review.threads@.len(),
            r@.len() == i,
            forall|k: int|
                0 <= k < r@.len() ==> is_entry(
                    #[trigger] r@[k],
                    *review,
                    k,
                    crate::github::opt(root),
                    own_files@[k],
                ),
        decreases review.threads@.len() - i,
    {
        let thread = share(&review.threads[i]);
        let path = match root {
            Some(root) => if own_files[i] {
                listed_path(root, &thread)
            } else {
                None
            },
            None => None,
        };
        let entry = ListEntry { index: i, thread, path, placement: None };
        assert(is_entry(
            entry,
            *review,
            i as int,
            crate::github::opt(root),
            own_files@[i as int],
        ));
        r.push(entry);
        i += 1;
    }
    r
}

/// The first and last line of a block.
pub open spec fn block_lines(b: Block, document: Seq<char>) -> (int, int) {
    let end = if b.range.end > b.range.start {
        b.range.end - 1
    } else {
        b.range.start as int
    };
    (char_to_line(document, b.range.start as int), char_to_line(document, end))
}

pub fn lines_of_block(b: &Block, document: &Rope) -> (r: (usize, usize))
    requires
        b.range.start <= document@.len(),
        b.range.end <= document@.len(),
    ensures
        (r.0 as int, r.1 as int) == block_lines(*b, document@),
{
    let end: usize = if b.range.end > b.range.start { b.range.end - 1 } else { b.range.start };
    (document.char_to_line(b.range.start), document.char_to_line(end))
}

/// The last entry of the discussion with the given id, before index `n`.
pub open spec fn entry_index(ids: Seq<Seq<char>>, id: Seq<char>, n: int) -> Option<int>
    decreases n,
{
    if n <= 0 {
        None
    } else if ids[n - 1] == id {
        Some(n - 1)
    } else {
        entry_index(ids, id, n - 1)
    }
}

pub open spec fn ids(entries: Seq<ListEntry>) -> Seq<Seq<char>> {
    entries.map_values(|e: ListEntry| e.thread.id@)
}

pub open spec fn founds(entries: Seq<ListEntry>) -> Seq<Option<Found>> {
    entries.map_values(|e: ListEntry| e.placement)
}

/// The places of the entries after the first `n` blocks have been entered.
pub open spec fn entered(
    ids: Seq<Seq<char>>,
    places: Seq<Option<Found>>,
    blocks: Seq<Block>,
    n: int,
    document: Seq<char>,
) -> Seq<Option<Found>>
    decreases n,
{
    if n <= 0 {
        places
    } else {
        let rest = entered(ids, places, blocks, n - 1, document);
        let b = blocks[n - 1];
        match entry_index(ids, b.thread.id@, ids.len() as int) {
            Some(i) => rest.update(
                i,
                Some(
                    Found {
                        placement: b.placement,
                        first: block_lines(b, document).0 as usize,
                        last: block_lines(b, document).1 as usize,
                    },
                ),
            ),
            None => rest,
        }
    }
}

fn find_entry(entries: &Vec<ListEntry>, id: &str) -> (r: Option<usize>)
    ensures
        match r {
            Some(i) => i < entries@.len() && entry_index(
                ids(entries@),
                id@,
                entries@.len() as int,
            ) == Some(i as int),
            None => entry_index(ids(entries@), id@, entries@.len() as int) is None,
        },
{
    let ghost all = ids(entries@);
    let mut n: usize = entries.len();
    while n > 0
        invariant
            n <= entries@.len(),
            all == ids(entries@),
            entry_index(all, id@, entries@.len() as int) == entry_index(all, id@, n as int),
        decreases n,
    {
        assert(all[n - 1] == entries@[n - 1].thread.id@);
        if same(&entries[n - 1].thread.id, id) {
            return Some(n - 1);
        }
        n -= 1;
    }
    None
}

/// Nothing but the places of the entries differs.
pub open spec fn same_entries(a: Seq<ListEntry>, b: Seq<ListEntry>) -> bool {
    &&& a.len() == b.len()
    &&& forall|i: int|
        0 <= i < a.len() ==> (#[trigger] a[i]).index == b[i].index && a[i].thread == b[i].thread
            && a[i].path == b[i].path
}

/// The places of the entries after the discussions of a file have been placed.
pub open spec fn entered_file(
    review: Review,
    ids: Seq<Seq<char>>,
    places: Seq<Option<Found>>,
    relative: Seq<char>,
    document: Seq<char>,
) -> Seq<Option<Found>> {
    let blocks = sorted(
        blocks_of(review, review.threads@.len() as int, relative, document, seq![]),
    );
    entered(ids, places, blocks, blocks.len() as int, document)
}

/// Place the listed discussions of the file `relative`, exactly as inline blocks
/// would be placed. Nothing else of the entries changes.
pub fn place_file(
    review: &Review,
    entries: &mut Vec<ListEntry>,
    relative: &str,
    document: &Rope,
)
    ensures
        same_entries(final(entries)@, old(entries)@),
        founds(final(entries)@) == entered_file(
            *review,
            ids(old(entries)@),
            founds(old(entries)@),
            relative@,
            document@,
        ),
{
    let none: Vec<String> = Vec::new();
    assert(views(none@) =~= seq![]);
    let _size: usize = document.len_chars();
    let blocks = map_blocks(review, relative, document, &none);
    proof {
        lemma_blocks_in_bounds(
            *review,
            review.threads@.len() as int,
            relative@,
            document@,
            seq![],
        );
        lemma_sorted_keeps(
            blocks_of(*review, review.threads@.len() as int, relative@, document@, seq![]),
            document@.len() as int,
        );
    }
    let ghost names = ids(entries@);
    let ghost start = founds(entries@);
    let mut i: usize = 0;
    while i < blocks.len()
        invariant
            i <= blocks@.len(),
            in_bounds(blocks@, document@.len() as int),
            entries@.len() == old(entries)@.len(),
            names == ids(old(entries)@),
            names =~= ids(entries@),
            start == founds(old(entries)@),
            forall|k: int|
                0 <= k < old(entries)@.len() ==> (#[trigger] entries@[k]).index
                    == old(entries)@[k].index && entries@[k].thread == old(entries)@[k].thread
                    && entries@[k].path == old(entries)@[k].path,
            founds(entries@) =~= entered(names, start, blocks@, i as int, document@),
        decreases blocks@.len() - i,
    {
        let b = &blocks[i];
        assert(*b == blocks@[i as int]);
        let (first, last) = lines_of_block(b, document);
        match find_entry(entries, &b.thread.id) {
            Some(n) => {
                let ghost before = entries@;
                let e = &entries[n];
                let changed = ListEntry {
                    index: e.index,
                    thread: share(&e.thread),
                    path: e.path.clone(),
                    placement: Some(Found { placement: b.placement, first, last }),
                };
                entries.set(n, changed);
                assert(entries@ =~= before.update(n as int, changed));
                assert(ids(entries@) =~= ids(before));
                assert(founds(entries@) =~= founds(before).update(n as int, changed.placement));
            },
            None => {},
        }
        i += 1;
    }
}

/// The text of a file, open or on disk.
pub struct FileText {
    /// Below the root of the repository.
    pub path: String,
    pub text: Rope,
}

/// The text of the file, as the last of the first `n` texts has it.
pub open spec fn text_of(texts: Seq<FileText>, path: Seq<char>, n: int) -> Option<Seq<char>>
    decreases n,
{
    if n <= 0 {
        None
    } else if texts[n - 1].path@ == path {
        Some(texts[n - 1].text@)
    } else {
        text_of(texts, path, n - 1)
    }
}

fn find_text<'a>(texts: &'a Vec<FileText>, path: &str) -> (r: Option<&'a Rope>)
    ensures
        match r {
            Some(text) => text_of(texts@, path@, texts@.len() as int) == Some(text@),
            None => text_of(texts@, path@, texts@.len() as int) is None,
        },
{
    let mut n: usize = texts.len();
    while n > 0
        invariant
            n <= texts@.len(),
            text_of(texts@, path@, texts@.len() as int) == text_of(texts@, path@, n as int),
        decreases n,
    {
        if same(&texts[n - 1].path, path) {
            return Some(&texts[n - 1].text);
        }
        n -= 1;
    }
    None
}

/// The files in which the first `n` entries can be placed, each once: those of
/// discussions on new code whose path is safely inside the repository.
pub open spec fn listed_files(entries: Seq<ListEntry>, n: int) -> Seq<Seq<char>>
    decreases n,
{
    if n <= 0 {
        seq![]
    } else {
        let before = listed_files(entries, n - 1);
        let e = entries[n - 1];
        let path = e.thread.path@;
        if e.path is Some && placeable(*e.thread) && !before.contains(path) {
            before.push(path)
        } else {
            before
        }
    }
}

/// The files in which entries are placed.
pub fn wanted_files(entries: &Vec<ListEntry>) -> (r: Vec<String>)
    ensures
        views(r@) == listed_files(entries@, entries@.len() as int),
{
    let mut r: Vec<String> = Vec::new();
    let mut i: usize = 0;
    assert(views(r@) =~= seq![]);
    while i < entries.len()
        invariant
            i <= entries@.len(),
            views(r@) == listed_files(entries@, i as int),
        decreases entries@.len() - i,
    {
        let ghost before = views(r@);
        let e = &entries[i];
        if e.path.is_some() && e.thread.placeable() && !crate::fetch::has_text(
            &r,
            &e.thread.path,
        ) {
            r.push(e.thread.path.clone());
            assert(views(r@) =~= before.push(e.thread.path@));
        }
        i += 1;
    }
    r
}

/// The files that are not among the open ones.
pub open spec fn unread(files: Seq<Seq<char>>, open: Seq<FileText>) -> Seq<Seq<char>>
    decreases files.len(),
{
    if files.len() == 0 {
        seq![]
    } else {
        let before = unread(files.drop_last(), open);
        if text_of(open, files.last(), open.len() as int) is Some {
            before
        } else {
            before.push(files.last())
        }
    }
}

/// The files to be read from disk: those in which entries are placed, and that no
/// buffer shows.
pub fn files_to_read(entries: &Vec<ListEntry>, open: &Vec<FileText>) -> (r: Vec<String>)
    ensures
        views(r@) == unread(listed_files(entries@, entries@.len() as int), open@),
{
    let files = wanted_files(entries);
    let ghost all = views(files@);
    let mut r: Vec<String> = Vec::new();
    let mut i: usize = 0;
    assert(views(r@) =~= seq![]);
    assert(all.take(0) =~= seq![]);
    while i < files.len()
        invariant
            i <= files@.len(),
            all == views(files@),
            views(r@) == unread(all.take(i as int), open@),
        decreases files@.len() - i,
    {
        let ghost before = views(r@);
        assert(all.take(i as int + 1).drop_last() =~= all.take(i as int));
        assert(all[i as int] == files@[i as int]@);
        if find_text(open, &files[i]).is_none() {
            r.push(files[i].clone());
            assert(views(r@) =~= before.push(files@[i as int]@));
        }
        i += 1;
    }
    assert(all.take(i as int) =~= all);
    r
}

/// The places of the entries after the given files: each in the text of its buffer,
/// or else in that of the file on disk.
pub open spec fn entered_files(
    review: Review,
    ids: Seq<Seq<char>>,
    places: Seq<Option<Found>>,
    files: Seq<Seq<char>>,
    open: Seq<FileText>,
    disk: Seq<FileText>,
) -> Seq<Option<Found>>
    decreases files.len(),
{
    if files.len() == 0 {
        places
    } else {
        let before = entered_files(review, ids, places, files.drop_last(), open, disk);
        let file = files.last();
        match text_of(open, file, open.len() as int) {
            Some(document) => entered_file(review, ids, before, file, document),
            None => match text_of(disk, file, disk.len() as int) {
                Some(document) => entered_file(review, ids, before, file, document),
                None => before,
            },
        }
    }
}

/// Place listed discussions in open buffers, or else in their files on disk, exactly
/// as inline blocks would be placed. Nothing else of the entries changes.
pub fn place_entries(
    review: &Review,
    entries: &mut Vec<ListEntry>,
    open: &Vec<FileText>,
    disk: &Vec<FileText>,
)
    ensures
        same_entries(final(entries)@, old(entries)@),
        founds(final(entries)@) == entered_files(
            *review,
            ids(old(entries)@),
            founds(old(entries)@),
            listed_files(old(entries)@, old(entries)@.len() as int),
            open@,
            disk@,
        ),
{
    let files = wanted_files(entries);
    let ghost all = views(files@);
    let ghost start = entries@;
    let mut i: usize = 0;
    assert(all.take(0) =~= seq![]);
    while i < files.len()
        invariant
            i <= files@.len(),
            all == views(files@),
            same_entries(entries@, start),
            founds(entries@) == entered_files(
                *review,
                ids(start),
                founds(start),
                all.take(i as int),
                open@,
                disk@,
            ),
        decreases files@.len() - i,
    {
        proof {
            assert(all.take(i as int + 1).drop_last() =~= all.take(i as int));
            assert(all[i as int] == files@[i as int]@);
            assert(ids(entries@) =~= ids(start));
        }
        let found = match find_text(open, &files[i]) {
            Some(text) => Some(text),
            None => find_text(disk, &files[i]),
        };
        match found {
            Some(text) => place_file(review, entries, &files[i], text),
            None => {},
        }
        i += 1;
    }
    assert(all.take(i as int) =~= all);
}

/// All ranges of the blocks lie in a document of the given length.
pub open spec fn in_bounds(blocks: Seq<Block>, len: int) -> bool {
    forall|i: int|
        0 <= i < blocks.len() ==> (#[trigger] blocks[i]).range.start <= blocks[i].range.end <= len
            && blocks[i].anchor <= len
}

proof fn lemma_blocks_in_bounds(
    review: Review,
    n: int,
    relative: Seq<char>,
    document: Seq<char>,
    expanded: Seq<Seq<char>>,
)
    requires
        n <= review.threads@.len(),
        document.len() <= usize::MAX,
    ensures
        in_bounds(blocks_of(review, n, relative, document, expanded), document.len() as int),
    decreases n,
{
    if n > 0 {
        lemma_blocks_in_bounds(review, n - 1, relative, document, expanded);
        lemma_position_in_bounds(review, pointed(review.threads@[n - 1]), document);
    }
}

/// The discussion behind a shared pointer.
pub open spec fn pointed(t: Arc<Thread>) -> Thread {
    *t
}

proof fn lemma_position_in_bounds(review: Review, t: Thread, document: Seq<char>)
    ensures
        position(review, t, document) matches Some(p) ==> 0 <= p.0.0 <= p.0.1 <= document.len(),
{
    let known = known_lines(t);
    if known is Some {
        let from = (known->0).0;
        let to = (known->0).1;
        crate::placement::clamped_ranges_are_in_bounds(document, from, to);
        let source = snapshot(review, t);
        if source is Some {
            crate::mapping::placements_are_in_bounds(source->0, document, from, to);
        }
    }
}

proof fn lemma_sorted_keeps(blocks: Seq<Block>, len: int)
    requires
        in_bounds(blocks, len),
    ensures
        in_bounds(sorted(blocks), len),
        sorted(blocks).len() == blocks.len(),
{
    crate::order::sorted_is_an_ordered_permutation(blocks);
    let all = sorted(blocks);
    assert forall|i: int| 0 <= i < all.len() implies (#[trigger] all[i]).range.start
        <= all[i].range.end <= len && all[i].anchor <= len by {
        broadcast use vstd::seq_lib::group_to_multiset_ensures;

        assert(all.to_multiset().count(all[i]) > 0) by {
            assert(all.contains(all[i]));
        }
        assert(blocks.contains(all[i]));
        let k = blocks.index_of(all[i]);
        assert(blocks[k] == all[i]);
    }
}

/// Wherever the discussions of a file are shown, they are in its document, and
/// those further up come first.
pub proof fn blocks_are_ordered_and_in_bounds(
    review: Review,
    relative: Seq<char>,
    document: Seq<char>,
    expanded: Seq<Seq<char>>,
)
    requires
        document.len() <= usize::MAX,
    ensures
        ({
            let blocks = sorted(
                blocks_of(review, review.threads@.len() as int, relative, document, expanded),
            );
            in_bounds(blocks, document.len() as int) && crate::order::ordered(blocks)
        }),
{
    let blocks = blocks_of(review, review.threads@.len() as int, relative, document, expanded);
    lemma_blocks_in_bounds(review, review.threads@.len() as int, relative, document, expanded);
    lemma_sorted_keeps(blocks, document.len() as int);
    crate::order::sorted_is_an_ordered_permutation(blocks);
}

/// An open document, and the discussions that it shows.
pub struct OpenDocument {
    pub id: u64,
    pub text: Rope,
    pub blocks: Vec<Block>,
}

/// The lines of the block of a discussion in the first document from index `i` on
/// that shows it.
pub open spec fn shown_in(documents: Seq<OpenDocument>, id: Seq<char>, i: int) -> Option<
    (u64, (int, int)),
>
    decreases documents.len() - i,
{
    if i < 0 || i >= documents.len() {
        None
    } else {
        match block_index(documents[i].blocks@, id, 0) {
            Some(k) => Some(
                (documents[i].id, block_lines(documents[i].blocks@[k], documents[i].text@)),
            ),
            None => shown_in(documents, id, i + 1),
        }
    }
}

/// What a preview shows: lines of an open document or of a file.
#[derive(Debug)]
pub enum ListPreview<'a> {
    Document(u64, (usize, usize)),
    File(&'a String, (usize, usize)),
}

/// Preview the mapped range in an open buffer when available, otherwise the listed
/// placement or the line numbers of the head in the file on disk.
pub fn list_preview<'a>(documents: &Vec<OpenDocument>, entry: &'a ListEntry) -> (r: Option<
    ListPreview<'a>,
>)
    requires
        forall|i: int|
            0 <= i < documents@.len() ==> in_bounds(
                (#[trigger] documents@[i]).blocks@,
                documents@[i].text@.len() as int,
            ),
        entry.thread.lines matches Some(l) ==> 1 <= l.start && 2 <= l.end,
    ensures
        match shown_in(documents@, entry.thread.id@, 0) {
            Some((id, lines)) => r matches Some(ListPreview::Document(d, l)) && d == id && (
                l.0 as int,
                l.1 as int,
            ) == lines,
            None => match (r, entry.path, entry.placement, entry.thread.lines) {
                (Some(ListPreview::File(p, x)), Some(path), Some(f), _) => *p == path && x == (
                    f.first,
                    f.last,
                ),
                (Some(ListPreview::File(p, x)), Some(path), None, Some(l)) => *p == path && x == (
                    (l.start - 1) as usize,
                    (l.end - 2) as usize,
                ),
                (Some(_), _, _, _) => false,
                (None, None, _, _) => true,
                (None, Some(_), p, l) => p is None && l is None,
            },
        },
{
    let mut i: usize = 0;
    while i < documents.len()
        invariant
            i <= documents@.len(),
            forall|k: int|
                0 <= k < documents@.len() ==> in_bounds(
                    (#[trigger] documents@[k]).blocks@,
                    documents@[k].text@.len() as int,
                ),
            shown_in(documents@, entry.thread.id@, 0) == shown_in(
                documents@,
                entry.thread.id@,
                i as int,
            ),
        decreases documents@.len() - i,
    {
        let d = &documents[i];
        match find_block(&d.blocks, &entry.thread.id) {
            Some(k) => {
                let lines = lines_of_block(&d.blocks[k], &d.text);
                return Some(ListPreview::Document(d.id, lines));
            },
            None => {},
        }
        i += 1;
    }
    preview_file(entry)
}

/// Preview the listed placement in the file on disk, or the line numbers of the head.
fn preview_file<'a>(entry: &'a ListEntry) -> (r: Option<ListPreview<'a>>)
    requires
        entry.thread.lines matches Some(l) ==> 1 <= l.start && 2 <= l.end,
    ensures
        match (r, entry.path, entry.placement, entry.thread.lines) {
            (Some(ListPreview::File(p, x)), Some(path), Some(f), _) => *p == path && x == (
                f.first,
                f.last,
            ),
            (Some(ListPreview::File(p, x)), Some(path), None, Some(l)) => *p == path && x == (
                (l.start - 1) as usize,
                (l.end - 2) as usize,
            ),
            (Some(_), _, _, _) => false,
            (None, None, _, _) => true,
            (None, Some(_), p, l) => p is None && l is None,
        },
{
    let path = match &entry.path {
        Some(path) => path,
        None => return None,
    };
    match (&entry.placement, &entry.thread.lines) {
        (Some(f), _) => Some(ListPreview::File(path, (f.first, f.last))),
        (None, Some(l)) => Some(ListPreview::File(path, (l.start - 1, l.end - 2))),
        (None, None) => None,
    }
}

/// The first line that is not blank, from line `i` on.
pub open spec fn first_text(lines: Seq<Seq<char>>, i: int) -> Seq<char>
    decreases lines.len() - i,
{
    if i < 0 || i >= lines.len() {
        seq![]
    } else if trimmed(lines[i]).len() > 0 {
        trimmed(lines[i])
    } else {
        first_text(lines, i + 1)
    }
}

/// At most forty characters, the last one telling that there are more.
pub open spec fn brief(s: Seq<char>) -> Seq<char> {
    if s.len() <= 40 {
        s
    } else {
        s.take(39).push('…')
    }
}

/// First non-empty line of the opening comment, bounded so the location column
/// (whose end, `file:line`, matters most) keeps its room in the picker.
pub fn first_line(thread: &Thread) -> (r: String)
    ensures
        r@ == brief(
            if thread.comments@.len() > 0 {
                first_text(lines(thread.comments@[0].body@), 0)
            } else {
                seq![]
            },
        ),
{
    if thread.comments.len() == 0 {
        let r = String::new();
        assert(r@ =~= seq![]);
        return r;
    }
    let body = chars(&thread.comments[0].body);
    let parts = split_lines(&body);
    let ghost rows = lines(body@);
    let mut i: usize = 0;
    while i < parts.len()
        invariant
            i <= parts@.len(),
            thread.comments@.len() > 0,
            body@ == thread.comments@[0].body@,
            rows == lines(body@),
            rows == slices(parts@),
            first_text(rows, 0) == first_text(rows, i as int),
        decreases parts@.len() - i,
    {
        assert(rows[i as int] == parts@[i as int]@);
        let line = strip(parts[i]);
        if line.len() > 0 {
            if line.len() <= 40 {
                return text(line);
            }
            let head = part(line, 0, 39);
            assert(head@ =~= line@.take(39));
            let mut r = text(head);
            r.push('…');
            return r;
        }
        i += 1;
    }
    let r = String::new();
    assert(r@ =~= seq![]);
    r
}

pub open spec fn thread_location(t: Thread) -> Seq<char> {
    match t.lines {
        Some(l) => if l.end - l.start > 1 {
            t.path@ + ":"@ + decimal(l.start as nat) + "-"@ + decimal((l.end - 1) as nat)
        } else {
            t.path@ + ":"@ + decimal(l.start as nat)
        },
        None => if t.outdated {
            t.path@ + " (outdated)"@
        } else {
            t.path@ + " (no line)"@
        },
    }
}

pub fn list_location(thread: &Thread) -> (r: String)
    requires
        thread.lines matches Some(l) ==> l.start <= l.end,
    ensures
        r@ == thread_location(*thread),
{
    let mut r = thread.path.clone();
    match &thread.lines {
        Some(l) => {
            r.append(":");
            r.append(&number(l.start));
            if l.end - l.start > 1 {
                r.append("-");
                r.append(&number(l.end - 1));
            }
        },
        None => {
            r.append(if thread.outdated { " (outdated)" } else { " (no line)" });
        },
    }
    r
}

/// The local position when the discussion could be placed, else its GitHub location.
pub fn entry_location(entry: &ListEntry) -> (r: String)
    requires
        entry.thread.lines matches Some(l) ==> l.start <= l.end,
        entry.placement matches Some(f) ==> f.first < usize::MAX && f.last < usize::MAX,
    ensures
        r@ == (match entry.placement {
            Some(f) => if f.last > f.first {
                entry.thread.path@ + ":"@ + decimal((f.first + 1) as nat) + "-"@ + decimal(
                    (f.last + 1) as nat,
                ) + note(f.placement)
            } else {
                entry.thread.path@ + ":"@ + decimal((f.first + 1) as nat) + note(f.placement)
            },
            None => thread_location(*entry.thread),
        }),
{
    match &entry.placement {
        Some(f) => {
            let mut r = entry.thread.path.clone();
            r.append(":");
            r.append(&number(f.first + 1));
            if f.last > f.first {
                r.append("-");
                r.append(&number(f.last + 1));
            }
            r.append(&placement_note(f.placement));
            r
        },
        None => list_location(&entry.thread),
    }
}

/// A discussion is placed from the text that its lines belong to: the head for a current
/// one, the commit that it was written against for an outdated one. Without that text,
/// or where one is too large, its line numbers are all that is left.
pub proof fn discussions_are_placed_from_their_own_text(
    review: Review,
    t: Thread,
    document: Seq<char>,
    k: int,
)
    ensures
        t.lines matches Some(lines) && 0 <= k < review.sources@.len() && review.sources@[k].path@
            == t.path@ && (forall|j: int|
            0 <= j < k ==> (#[trigger] review.sources@[j]).path@ != t.path@) && size(
            review.sources@[k].text@,
        ) <= LIMIT && size(document) <= LIMIT ==> position(review, t, document) == Some(
            placed(
                review.sources@[k].text@,
                document,
                t.lines->0.start as int,
                t.lines->0.end as int,
            ),
        ),
        t.lines is None && t.original_lines is Some && t.commit is Some && 0 <= k
            < review.originals@.len() && review.originals@[k].path@ == t.path@
            && review.originals@[k].commit@ == t.commit->0@ && (forall|j: int|
            0 <= j < k ==> (#[trigger] review.originals@[j]).path@ != t.path@
                || review.originals@[j].commit@ != t.commit->0@) && size(
            review.originals@[k].text@,
        ) <= LIMIT && size(document) <= LIMIT ==> position(review, t, document) == Some(
            placed(
                review.originals@[k].text@,
                document,
                t.original_lines->0.start as int,
                t.original_lines->0.end as int,
            ),
        ),
        t.lines is Some && (forall|j: int|
            0 <= j < review.sources@.len() ==> (#[trigger] review.sources@[j]).path@ != t.path@)
            ==> position(review, t, document) == Some(
            (
                clamped(document, t.lines->0.start as int, t.lines->0.end as int),
                Placement::Approximate,
            ),
        ),
        t.lines is None && t.original_lines is None ==> position(review, t, document) is None,
{
    if 0 <= k < review.sources@.len() && review.sources@[k].path@ == t.path@ && (forall|j: int|
        0 <= j < k ==> (#[trigger] review.sources@[j]).path@ != t.path@) {
        lemma_source_at(review.sources@, t.path@, 0, k);
    }
    if forall|j: int|
        0 <= j < review.sources@.len() ==> (#[trigger] review.sources@[j]).path@ != t.path@ {
        lemma_no_source_at(review.sources@, t.path@, 0);
    }
    if t.commit is Some && 0 <= k < review.originals@.len() && review.originals@[k].path@ == t.path@
        && review.originals@[k].commit@ == t.commit->0@ && (forall|j: int|
        0 <= j < k ==> (#[trigger] review.originals@[j]).path@ != t.path@
            || review.originals@[j].commit@ != t.commit->0@) {
        lemma_original_at(review.originals@, t.commit->0@, t.path@, 0, k);
    }
}

proof fn lemma_source_at(sources: Seq<Source>, path: Seq<char>, i: int, k: int)
    requires
        0 <= i <= k < sources.len(),
        sources[k].path@ == path,
        forall|j: int| i <= j < k ==> (#[trigger] sources[j]).path@ != path,
    ensures
        source_at(sources, path, i) == Some(sources[k].text@),
    decreases k - i,
{
    if i < k {
        assert(sources[i].path@ != path);
        lemma_source_at(sources, path, i + 1, k);
    }
}

proof fn lemma_no_source_at(sources: Seq<Source>, path: Seq<char>, i: int)
    requires
        0 <= i,
        forall|j: int| i <= j < sources.len() ==> (#[trigger] sources[j]).path@ != path,
    ensures
        source_at(sources, path, i) is None,
    decreases sources.len() - i,
{
    if i < sources.len() {
        assert(sources[i].path@ != path);
        lemma_no_source_at(sources, path, i + 1);
    }
}

proof fn lemma_original_at(
    originals: Seq<Original>,
    commit: Seq<char>,
    path: Seq<char>,
    i: int,
    k: int,
)
    requires
        0 <= i <= k < originals.len(),
        originals[k].path@ == path,
        originals[k].commit@ == commit,
        forall|j: int|
            i <= j < k ==> (#[trigger] originals[j]).path@ != path || originals[j].commit@ != commit,
    ensures
        original_at(originals, commit, path, i) == Some(originals[k].text@),
    decreases k - i,
{
    if i < k {
        assert(originals[i].path@ != path || originals[i].commit@ != commit);
        lemma_original_at(originals, commit, path, i + 1, k);
    }
}

/// Every discussion of a file that has lines, now or when it was written, has a block
/// there, at its position; no other discussion has one.
pub proof fn every_discussion_of_a_file_has_its_block(
    review: Review,
    n: int,
    relative: Seq<char>,
    document: Seq<char>,
    expanded: Seq<Seq<char>>,
    i: int,
)
    requires
        0 <= n <= review.threads@.len(),
        0 <= i < n,
    ensures
        ({
            let t = review.threads@[i];
            let blocks = blocks_of(review, n, relative, document, expanded);
            &&& good_path(t.path@) && t.path@ == relative && (t.lines is Some
                || t.original_lines is Some) ==> exists|k: int|
                0 <= k < blocks.len() && (#[trigger] blocks[k]).thread == t && blocks[k].expanded
                    == expanded.contains(t.id@) && blocks[k].placement == (position(
                    review,
                    *t,
                    document,
                )->0).1 && blocks[k].range.start == (position(review, *t, document)->0).0.0 as usize
                    && blocks[k].range.end == (position(review, *t, document)->0).0.1 as usize
            &&& forall|k: int|
                0 <= k < blocks.len() ==> (#[trigger] blocks[k]).thread.path@ == relative && (
                blocks[k].thread.lines is Some || blocks[k].thread.original_lines is Some)
            &&& blocks.len() <= n
        }),
    decreases n,
{
    let blocks = blocks_of(review, n, relative, document, expanded);
    let rest = blocks_of(review, n - 1, relative, document, expanded);
    let last = block_of(review, review.threads@[n - 1], relative, document, expanded);
    if n > 1 {
        every_discussion_of_a_file_has_its_block(
            review,
            n - 1,
            relative,
            document,
            expanded,
            if i < n - 1 {
                i
            } else {
                0
            },
        );
    }
    let t = review.threads@[i];
    if good_path(t.path@) && t.path@ == relative && placeable(pointed(t)) {
        if i == n - 1 {
            assert(blocks[rest.len() as int] == last->0);
        } else {
            let k = choose|k: int|
                0 <= k < rest.len() && (#[trigger] rest[k]).thread == t && rest[k].expanded
                    == expanded.contains(t.id@) && rest[k].placement == (position(
                    review,
                    *t,
                    document,
                )->0).1 && rest[k].range.start == (position(review, *t, document)->0).0.0 as usize
                    && rest[k].range.end == (position(review, *t, document)->0).0.1 as usize;
            assert(blocks[k] == rest[k]);
        }
    }
    assert forall|k: int| 0 <= k < blocks.len() implies (#[trigger] blocks[k]).thread.path@
        == relative && (blocks[k].thread.lines is Some
        || blocks[k].thread.original_lines is Some) by {
        if k < rest.len() {
            assert(blocks[k] == rest[k]);
        }
    }
}

/// Going on leads to the next discussion, and from the last to the first; going back to
/// the one before, and from the first to the last. Without a selection they lead to the
/// first and to the last.
pub proof fn navigation_goes_in_order(i: usize, count: int)
    requires
        i < count <= usize::MAX,
    ensures
        i + 1 < count ==> neighbour(Some(i), count, false) == i + 1,
        i + 1 == count ==> neighbour(Some(i), count, false) == 0,
        i > 0 ==> neighbour(Some(i), count, true) == i - 1,
        i == 0 ==> neighbour(Some(i), count, true) == count - 1,
        neighbour(None, count, false) == 0,
        neighbour(None, count, true) == count - 1,
{
    assert((i + count - 1) % count == if i > 0 {
        i - 1
    } else {
        count - 1
    }) by {
        if i > 0 {
            vstd::arithmetic::div_mod::lemma_mod_add_multiples_vanish(i - 1, count);
            vstd::arithmetic::div_mod::lemma_small_mod((i - 1) as nat, count as nat);
        } else {
            vstd::arithmetic::div_mod::lemma_small_mod((count - 1) as nat, count as nat);
        }
    }
    if i + 1 < count {
        vstd::arithmetic::div_mod::lemma_small_mod((i + 1) as nat, count as nat);
    } else {
        vstd::arithmetic::div_mod::lemma_mod_self_0(count);
    }
}

/// The discussions at the cursor are those whose block covers it or is drawn below its
/// line.
pub proof fn discussions_at_the_cursor_are_near_it(
    threads: Seq<Arc<Thread>>,
    blocks: Seq<Block>,
    n: int,
    document: Seq<char>,
    cursor: int,
    i: int,
)
    requires
        0 <= n <= blocks.len(),
    ensures
        near_cursor(threads, blocks, n, document, cursor).contains(i) <==> exists|k: int|
            0 <= k < n && thread_index(threads, (#[trigger] blocks[k]).thread.id@, 0) == Some(i) && (
            blocks[k].range.start <= cursor < blocks[k].range.end || char_to_line(
                document,
                blocks[k].anchor as int,
            ) == char_to_line(document, cursor)),
    decreases n,
{
    if n > 0 {
        discussions_at_the_cursor_are_near_it(threads, blocks, n - 1, document, cursor, i);
        let rest = near_cursor(threads, blocks, n - 1, document, cursor);
        let all = near_cursor(threads, blocks, n, document, cursor);
        if rest.contains(i) {
            let k = rest.index_of(i);
            assert(all[k] == i);
        }
        if all.len() > rest.len() {
            assert(all[rest.len() as int] == thread_index(threads, blocks[n - 1].thread.id@, 0)->0);
            if all.contains(i) && !rest.contains(i) {
                let k = all.index_of(i);
                if k < rest.len() {
                    assert(rest[k] == i);
                }
            }
        }
    }
}

/// A discussion is found by its id: the first that has it.
pub proof fn discussions_are_found_by_id(threads: Seq<Arc<Thread>>, id: Seq<char>, from: int)
    requires
        0 <= from,
    ensures
        match thread_index(threads, id, from) {
            Some(i) => from <= i < threads.len() && threads[i].id@ == id && forall|k: int|
                from <= k < i ==> (#[trigger] threads[k]).id@ != id,
            None => forall|k: int| from <= k < threads.len() ==> (#[trigger] threads[k]).id@ != id,
        },
    decreases threads.len() - from,
{
    if from < threads.len() {
        discussions_are_found_by_id(threads, id, from + 1);
    }
}

/// A command means a discussion at the cursor where there is one, the selected one if it
/// is among those; elsewhere it means the selected one.
pub proof fn commands_mean_the_discussion_at_the_cursor(
    candidates: Seq<int>,
    selected: Option<usize>,
)
    ensures
        candidates.len() > 0 ==> (meant(candidates, selected) matches Some(i)
            && candidates.contains(i)),
        selected matches Some(i) && candidates.contains(i as int) ==> meant(candidates, selected)
            == Some(selected->0 as int),
        candidates.len() > 0 && (selected matches Some(i) ==> !candidates.contains(i as int))
            ==> meant(candidates, selected) == Some(candidates[0]),
        candidates.len() == 0 ==> meant(candidates, selected) == (match selected {
            Some(i) => Some(i as int),
            None => None,
        }),
{
    if candidates.len() > 0 {
        assert(candidates.contains(candidates[0]));
    }
}

/// The place of a block is entered for the discussion that it shows.
pub proof fn places_are_entered_for_their_discussion(
    ids: Seq<Seq<char>>,
    places: Seq<Option<Found>>,
    blocks: Seq<Block>,
    n: int,
    document: Seq<char>,
    i: int,
    k: int,
)
    requires
        0 <= k < n <= blocks.len(),
        places.len() == ids.len(),
        0 <= i < ids.len(),
        forall|j: int| 0 <= j < ids.len() && j != i ==> #[trigger] ids[j] != ids[i],
        blocks[k].thread.id@ == ids[i],
        forall|m: int| k < m < n ==> (#[trigger] blocks[m]).thread.id@ != ids[i],
    ensures
        entered(ids, places, blocks, n, document)[i] == Some(
            Found {
                placement: blocks[k].placement,
                first: block_lines(blocks[k], document).0 as usize,
                last: block_lines(blocks[k], document).1 as usize,
            },
        ),
    decreases n,
{
    lemma_entered_len(ids, places, blocks, n - 1, document);
    lemma_entry_index(ids, blocks[n - 1].thread.id@, ids.len() as int);
    if k < n - 1 {
        places_are_entered_for_their_discussion(ids, places, blocks, n - 1, document, i, k);
        assert(blocks[n - 1].thread.id@ != ids[i]);
    }
}

/// The place of a discussion that no block shows stays.
pub proof fn places_of_other_discussions_stay(
    ids: Seq<Seq<char>>,
    places: Seq<Option<Found>>,
    blocks: Seq<Block>,
    n: int,
    document: Seq<char>,
    i: int,
)
    requires
        0 <= n <= blocks.len(),
        places.len() == ids.len(),
        0 <= i < ids.len(),
        forall|m: int| 0 <= m < n ==> (#[trigger] blocks[m]).thread.id@ != ids[i],
    ensures
        entered(ids, places, blocks, n, document)[i] == places[i],
    decreases n,
{
    if n > 0 {
        lemma_entered_len(ids, places, blocks, n - 1, document);
        lemma_entry_index(ids, blocks[n - 1].thread.id@, ids.len() as int);
        places_of_other_discussions_stay(ids, places, blocks, n - 1, document, i);
        assert(blocks[n - 1].thread.id@ != ids[i]);
    }
}

proof fn lemma_entered_len(
    ids: Seq<Seq<char>>,
    places: Seq<Option<Found>>,
    blocks: Seq<Block>,
    n: int,
    document: Seq<char>,
)
    requires
        0 <= n <= blocks.len(),
        places.len() == ids.len(),
    ensures
        entered(ids, places, blocks, n, document).len() == places.len(),
    decreases n,
{
    if n > 0 {
        lemma_entered_len(ids, places, blocks, n - 1, document);
        lemma_entry_index(ids, blocks[n - 1].thread.id@, ids.len() as int);
    }
}

proof fn lemma_entry_index(ids: Seq<Seq<char>>, id: Seq<char>, n: int)
    requires
        0 <= n <= ids.len(),
    ensures
        match entry_index(ids, id, n) {
            Some(i) => 0 <= i < n && ids[i] == id,
            None => forall|i: int| 0 <= i < n ==> #[trigger] ids[i] != id,
        },
    decreases n,
{
    if n > 0 {
        lemma_entry_index(ids, id, n - 1);
    }
}

/// The files in which entries are placed are those of listed discussions with lines and
/// a local file, each once; and those of them that no buffer shows are read.
pub proof fn files_of_listed_discussions_are_read(
    entries: Seq<ListEntry>,
    n: int,
    open: Seq<FileText>,
    path: Seq<char>,
)
    requires
        0 <= n <= entries.len(),
    ensures
        listed_files(entries, n).contains(path) <==> exists|i: int|
            0 <= i < n && (#[trigger] entries[i]).path is Some && (entries[i].thread.lines is Some
                || entries[i].thread.original_lines is Some) && entries[i].thread.path@ == path,
        unread(listed_files(entries, n), open).contains(path) <==> listed_files(
            entries,
            n,
        ).contains(path) && forall|k: int|
            0 <= k < open.len() ==> (#[trigger] open[k]).path@ != path,
    decreases n,
{
    lemma_unread(listed_files(entries, n), open, path);
    if n > 0 {
        files_of_listed_discussions_are_read(entries, n - 1, open, path);
        let before = listed_files(entries, n - 1);
        let all = listed_files(entries, n);
        if before.contains(path) {
            let k = before.index_of(path);
            assert(all[k] == path);
        }
        if all.len() > before.len() {
            assert(all[before.len() as int] == entries[n - 1].thread.path@);
            if all.contains(path) && !before.contains(path) {
                let k = all.index_of(path);
                if k < before.len() {
                    assert(before[k] == path);
                }
            }
        }
    }
}

proof fn lemma_unread(files: Seq<Seq<char>>, open: Seq<FileText>, path: Seq<char>)
    ensures
        unread(files, open).contains(path) <==> files.contains(path) && forall|k: int|
            0 <= k < open.len() ==> (#[trigger] open[k]).path@ != path,
    decreases files.len(),
{
    if files.len() > 0 {
        let rest = files.drop_last();
        let before = unread(rest, open);
        let all = unread(files, open);
        lemma_unread(rest, open, path);
        lemma_text_of(open, files.last(), open.len() as int);
        if files.contains(path) && path != files.last() {
            let k = files.index_of(path);
            assert(rest[k] == path);
        }
        if rest.contains(path) {
            let k = rest.index_of(path);
            assert(files[k] == path);
        }
        assert(files[files.len() - 1] == files.last());
        if before.contains(path) {
            let k = before.index_of(path);
            assert(all[k] == path);
        }
        if all.len() > before.len() {
            assert(all[before.len() as int] == files.last());
            if all.contains(path) && !before.contains(path) {
                let k = all.index_of(path);
                if k < before.len() {
                    assert(before[k] == path);
                }
            }
        }
    }
}

proof fn lemma_text_of(texts: Seq<FileText>, path: Seq<char>, n: int)
    requires
        0 <= n <= texts.len(),
    ensures
        text_of(texts, path, n) is None <==> forall|k: int|
            0 <= k < n ==> (#[trigger] texts[k]).path@ != path,
        text_of(texts, path, n) matches Some(t) ==> exists|k: int|
            0 <= k < n && (#[trigger] texts[k]).path@ == path && texts[k].text@ == t,
    decreases n,
{
    if n > 0 {
        lemma_text_of(texts, path, n - 1);
        if texts[n - 1].path@ == path {
            assert(texts[n - 1].text@ == text_of(texts, path, n)->0);
        } else if let Some(t) = text_of(texts, path, n) {
            let k = choose|k: int|
                0 <= k < n - 1 && (#[trigger] texts[k]).path@ == path && texts[k].text@ == t;
            assert(texts[k].text@ == t);
        }
    }
}

/// A file is placed in the text of its buffer, which may hold unsaved edits; in that on
/// disk only where no buffer shows it.
pub proof fn buffers_come_before_files_on_disk(
    review: Review,
    ids: Seq<Seq<char>>,
    places: Seq<Option<Found>>,
    file: Seq<char>,
    open: Seq<FileText>,
    disk: Seq<FileText>,
    text: Seq<char>,
)
    ensures
        text_of(open, file, open.len() as int) == Some(text) ==> entered_files(
            review,
            ids,
            places,
            seq![file],
            open,
            disk,
        ) == entered_file(review, ids, places, file, text),
        (forall|k: int| 0 <= k < open.len() ==> (#[trigger] open[k]).path@ != file) && text_of(
            disk,
            file,
            disk.len() as int,
        ) == Some(text) ==> entered_files(review, ids, places, seq![file], open, disk)
            == entered_file(review, ids, places, file, text),
{
    reveal_with_fuel(entered_files, 3);
    lemma_text_of(open, file, open.len() as int);
    assert(seq![file].drop_last() =~= seq![]);
    assert(seq![file].last() == file);
}

/// The location of a listed discussion names its lines, one or a span, as people count
/// them.
pub proof fn listed_locations_name_the_lines(t: Thread)
    requires
        t.lines matches Some(l) ==> 0 < l.start < l.end,
    ensures
        t.lines matches Some(l) && l.end == l.start + 1 ==> thread_location(t) == t.path@ + ":"@
            + decimal(t.lines->0.start as nat),
        t.lines matches Some(l) && l.end > l.start + 1 ==> thread_location(t) == t.path@ + ":"@
            + decimal(t.lines->0.start as nat) + "-"@ + decimal((t.lines->0.end - 1) as nat),
        t.lines is None && t.outdated ==> thread_location(t) == t.path@ + " (outdated)"@,
        t.lines is None && !t.outdated ==> thread_location(t) == t.path@ + " (no line)"@,
{
}

proof fn lemma_first_text(rows: Seq<Seq<char>>, i: int, k: int)
    requires
        0 <= i <= k < rows.len(),
        trimmed(rows[k]).len() > 0,
        forall|j: int| i <= j < k ==> trimmed(#[trigger] rows[j]).len() == 0,
    ensures
        first_text(rows, i) == trimmed(rows[k]),
    decreases k - i,
{
    if i < k {
        lemma_first_text(rows, i + 1, k);
    }
}

/// A comment is listed by its first line that is not blank.
pub proof fn comments_are_listed_by_their_first_line(rows: Seq<Seq<char>>, k: int)
    requires
        0 <= k < rows.len(),
        trimmed(rows[k]).len() > 0,
        forall|j: int| 0 <= j < k ==> trimmed(#[trigger] rows[j]).len() == 0,
    ensures
        first_text(rows, 0) == trimmed(rows[k]),
{
    lemma_first_text(rows, 0, k);
}

/// A listed discussion opens its own file, where that is a file of the repository.
pub proof fn listed_discussions_name_their_file(
    e: ListEntry,
    review: Review,
    index: int,
    root: Seq<char>,
    own_file: bool,
)
    requires
        0 <= index < review.threads@.len(),
        is_entry(e, review, index, Some(root), own_file),
    ensures
        e.index == index,
        e.thread == review.threads@[index],
        e.path is Some <==> good_path(review.threads@[index].path@) && own_file,
        e.path matches Some(p) ==> p@ == joined(root, review.threads@[index].path@),
{
}

} // verus!
