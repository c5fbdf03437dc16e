//! Where the lines of a reviewed version are in the current document.
use std::ops::Range;

use vstd::prelude::*;
use vstd::utf8::encode_utf8;

use crate::rope::{
    char_to_line, is_line_start, lemma_line_of, lemma_starts, line, line_count, line_starts,
    line_to_char, Rope,
};
use crate::text::text;

verus! {

/// How a discussion's position in the current document was derived. The
/// discussion's own location (path, lines, commit, diff) is never changed.
#[derive(Clone, Copy, Debug, PartialEq, Eq, Structural)]
pub enum Placement {
    /// The reviewed lines and their context are unchanged and unambiguous.
    Exact,
    /// The file changed since the reviewed version; the lines were carried
    /// through a line diff to the closest remaining code.
    Changed,
    /// No position could be derived; shown at the original line number.
    Approximate,
}

impl Default for Placement {
    fn default() -> (r: Placement)
        ensures
            r == Placement::Exact,
    {
        Placement::Exact
    }
}

pub open spec fn placement_label(p: Placement) -> Seq<char> {
    match p {
        Placement::Exact => ""@,
        Placement::Changed => "code changed"@,
        Placement::Approximate => "approximate location"@,
    }
}

impl Placement {
    /// Marker for blocks, lists and status messages; empty when exact.
    pub fn label(self) -> (r: &'static str)
        ensures
            r@ == placement_label(self),
    {
        match self {
            Placement::Exact => "",
            Placement::Changed => "code changed",
            Placement::Approximate => "approximate location",
        }
    }
}

/// A line diff hunk in `git diff -U0` terms: one-based starts, and for an
/// empty side the start is the line after which the change happens (0 at the top).
#[derive(Clone, Copy, Debug, PartialEq, Eq, Structural)]
pub struct Hunk {
    pub old_start: usize,
    pub old_len: usize,
    pub new_start: usize,
    pub new_len: usize,
}

// ---------------------------------------------------------------------------
// Line differences
// ---------------------------------------------------------------------------

/// The number of lines that hold a character.
pub open spec fn full_lines(s: Seq<char>) -> int {
    if s.len() == 0 || s.last() == '\n' {
        line_count(s) - 1
    } else {
        line_count(s)
    }
}

/// The old and new lines before change `k`: the ends of the change before it.
pub open spec fn ends_before(c: Seq<((u32, u32), (u32, u32))>, k: int) -> (int, int) {
    if k <= 0 {
        (0, 0)
    } else {
        (c[k - 1].0.1 as int, c[k - 1].1.1 as int)
    }
}

/// The changes follow each other, and as many lines stay between two of them on
/// the old as on the new side.
pub open spec fn chained(c: Seq<((u32, u32), (u32, u32))>, old_lines: int, new_lines: int) -> bool {
    &&& forall|k: int|
        #![trigger c[k]]
        0 <= k < c.len() ==> {
            &&& ends_before(c, k).0 <= c[k].0.0 <= c[k].0.1 <= old_lines
            &&& ends_before(c, k).1 <= c[k].1.0 <= c[k].1.1 <= new_lines
            &&& c[k].0.0 - ends_before(c, k).0 == c[k].1.0 - ends_before(c, k).1
        }
    &&& old_lines - ends_before(c, c.len() as int).0 == new_lines - ends_before(
        c,
        c.len() as int,
    ).1
}

/// Old line `i` stays between changes `k - 1` and `k`.
pub open spec fn stays(c: Seq<((u32, u32), (u32, u32))>, old_lines: int, k: int, i: int) -> bool {
    &&& 0 <= k <= c.len()
    &&& ends_before(c, k).0 <= i < if k < c.len() {
        c[k].0.0 as int
    } else {
        old_lines
    }
}

/// The lines outside the changes are the same on both sides.
pub open spec fn aligned(
    c: Seq<((u32, u32), (u32, u32))>,
    before: Seq<char>,
    after: Seq<char>,
) -> bool {
    forall|k: int, i: int|
        #![trigger stays(c, full_lines(before), k, i)]
        stays(c, full_lines(before), k, i) ==> line(before, i) == line(
            after,
            i - ends_before(c, k).0 + ends_before(c, k).1,
        )
}

/// The line changes that a histogram diff finds between two texts.
pub uninterp spec fn line_changes(before: Seq<char>, after: Seq<char>) -> Seq<
    ((u32, u32), (u32, u32)),
>;

/// The size that a line diff takes.
pub open spec fn diffable(s: Seq<char>) -> bool {
    full_lines(s) < 0x7fff_ffff && encode_utf8(s).len() * 20 <= usize::MAX
}

/// `imara_diff`: `Diff::compute` with the histogram algorithm on the lines of
/// the two texts, moved by `postprocess_lines`, and read by `hunks`. The changes
/// are a function of the texts; they are an edit script that turns `before` into
/// `after`, so they follow each other and leave equal lines between them.
/// Equal texts have none.
#[verifier::external_body]
fn diff(before: &str, after: &str) -> (r: Vec<((u32, u32), (u32, u32))>)
    requires
        diffable(before@),
        diffable(after@),
    ensures
        r@ == line_changes(before@, after@),
        chained(r@, full_lines(before@), full_lines(after@)),
        aligned(r@, before@, after@),
        before@ == after@ ==> r@.len() == 0,
{
    let input = imara_diff::InternedInput::new(before, after);
    let mut diff = imara_diff::Diff::compute(imara_diff::Algorithm::Histogram, &input);
    diff.postprocess_lines(&input);
    diff.hunks()
        .map(|h| ((h.before.start, h.before.end), (h.after.start, h.after.end)))
        .collect()
}

/// One side of a change in `git diff -U0` coordinates: start and length.
pub open spec fn side(range: (u32, u32)) -> (int, int) {
    let len = range.1 - range.0;
    (if len == 0 {
        range.0 as int
    } else {
        range.0 + 1
    }, len)
}

pub open spec fn hunk_of(c: ((u32, u32), (u32, u32))) -> Hunk {
    Hunk {
        old_start: side(c.0).0 as usize,
        old_len: side(c.0).1 as usize,
        new_start: side(c.1).0 as usize,
        new_len: side(c.1).1 as usize,
    }
}

pub open spec fn hunks_of(c: Seq<((u32, u32), (u32, u32))>) -> Seq<Hunk> {
    c.map_values(|x: ((u32, u32), (u32, u32))| hunk_of(x))
}

/// Line hunks turning `before` into `after`, as `git diff -U0` would report them.
pub fn line_hunks(before: &str, after: &str) -> (r: Vec<Hunk>)
    requires
        diffable(before@),
        diffable(after@),
    ensures
        r@ == hunks_of(line_changes(before@, after@)),
        chained(line_changes(before@, after@), full_lines(before@), full_lines(after@)),
        aligned(line_changes(before@, after@), before@, after@),
        before@ == after@ ==> r@.len() == 0,
{
    hunks(&diff(before, after))
}

/// The changes in `git diff -U0` coordinates.
pub fn hunks(changes: &Vec<((u32, u32), (u32, u32))>) -> (r: Vec<Hunk>)
    requires
        exists|old_lines: int, new_lines: int|
            #[trigger] chained(changes@, old_lines, new_lines) && old_lines < 0x7fff_ffff
                && new_lines < 0x7fff_ffff,
    ensures
        r@ == hunks_of(changes@),
{
    let ghost (old_lines, new_lines) = choose|old_lines: int, new_lines: int|
        #[trigger] chained(changes@, old_lines, new_lines) && old_lines < 0x7fff_ffff && new_lines
            < 0x7fff_ffff;
    let mut r: Vec<Hunk> = Vec::new();
    let mut i: usize = 0;
    while i < changes.len()
        invariant
            i <= changes@.len(),
            chained(changes@, old_lines, new_lines),
            old_lines < 0x7fff_ffff,
            new_lines < 0x7fff_ffff,
            r@ == hunks_of(changes@.take(i as int)),
        decreases changes@.len() - i,
    {
        let c = changes[i];
        assert(c == changes@[i as int]);
        let old_len: u32 = c.0.1 - c.0.0;
        let new_len: u32 = c.1.1 - c.1.0;
        r.push(
            Hunk {
                old_start: if old_len == 0 {
                    c.0.0 as usize
                } else {
                    (c.0.0 + 1) as usize
                },
                old_len: old_len as usize,
                new_start: if new_len == 0 {
                    c.1.0 as usize
                } else {
                    (c.1.0 + 1) as usize
                },
                new_len: new_len as usize,
            },
        );
        assert(r@ =~= hunks_of(changes@.take(i + 1)));
        i += 1;
    }
    assert(changes@.take(i as int) =~= changes@);
    r
}

// ---------------------------------------------------------------------------
// Carrying line ranges through changes
// ---------------------------------------------------------------------------

pub open spec fn max(a: int, b: int) -> int {
    if a >= b {
        a
    } else {
        b
    }
}

pub open spec fn min(a: int, b: int) -> int {
    if a <= b {
        a
    } else {
        b
    }
}

/// The hunk lies entirely before `line` in old coordinates.
pub open spec fn precedes(h: Hunk, line: int) -> bool {
    if h.old_len == 0 {
        h.old_start < line
    } else {
        h.old_start + h.old_len - 1 < line
    }
}

/// Where a line goes that the hunk replaces or deletes: to the first or the
/// last new line, or to the line that the deletion follows.
pub open spec fn replaced(h: Hunk, last: bool) -> int {
    if last && h.new_len > 0 {
        h.new_start + h.new_len - 1
    } else if h.new_len > 0 {
        h.new_start as int
    } else {
        max(h.new_start as int, 1)
    }
}

/// Where `line`, shifted by `shift` so far, goes through the hunks.
pub open spec fn carried(hunks: Seq<Hunk>, line: int, last: bool, shift: int) -> int
    decreases hunks.len(),
{
    if hunks.len() == 0 {
        max(line + shift, 1)
    } else {
        let h = hunks[0];
        if precedes(h, line) {
            carried(hunks.skip(1), line, last, shift + h.new_len - h.old_len)
        } else if h.old_len > 0 && h.old_start <= line {
            replaced(h, last)
        } else {
            max(line + shift, 1)
        }
    }
}

/// The hunk changes a line from `start` to `end`, or inserts next to them.
pub open spec fn touches(h: Hunk, start: int, end: int) -> bool {
    if h.old_len == 0 {
        h.old_start + 1 >= start && h.old_start <= end
    } else {
        h.old_start <= end && h.old_start + h.old_len > start
    }
}

pub open spec fn touched(hunks: Seq<Hunk>, start: int, end: int) -> bool {
    exists|k: int| 0 <= k < hunks.len() && touches(#[trigger] hunks[k], start, end)
}

/// The least of `low` and the first new lines of the touching hunks.
pub open spec fn lowest(hunks: Seq<Hunk>, start: int, end: int, low: int) -> int
    decreases hunks.len(),
{
    if hunks.len() == 0 {
        low
    } else {
        let rest = lowest(hunks.drop_last(), start, end, low);
        let h = hunks.last();
        if touches(h, start, end) && h.new_len > 0 {
            min(rest, h.new_start as int)
        } else {
            rest
        }
    }
}

/// The greatest of `high` and the last new lines of the touching hunks.
pub open spec fn highest(hunks: Seq<Hunk>, start: int, end: int, high: int) -> int
    decreases hunks.len(),
{
    if hunks.len() == 0 {
        high
    } else {
        let rest = highest(hunks.drop_last(), start, end, high);
        let h = hunks.last();
        if touches(h, start, end) && h.new_len > 0 {
            max(rest, h.new_start + h.new_len - 1)
        } else {
            rest
        }
    }
}

/// The range from `from` to `to`, half-open, after the hunks.
pub open spec fn followed(from: int, to: int, hunks: Seq<Hunk>) -> (int, int) {
    let start = from;
    let end = to - 1;
    let low = lowest(hunks, start, end, carried(hunks, start, false, 0));
    let high = highest(hunks, start, end, carried(hunks, end, true, 0));
    (low, max(high, low) + 1)
}

/// How far the first `k` hunks move the lines after them.
pub open spec fn shift(hunks: Seq<Hunk>, k: int) -> int
    decreases k,
{
    if k <= 0 {
        0
    } else {
        shift(hunks, k - 1) + hunks[k - 1].new_len - hunks[k - 1].old_len
    }
}

/// All line numbers on the way fit into machine integers.
pub open spec fn trackable(from: int, to: int, hunks: Seq<Hunk>) -> bool {
    &&& 0 < to <= isize::MAX
    &&& from <= isize::MAX
    &&& forall|k: int|
        0 <= k < hunks.len() ==> (#[trigger] hunks[k]).old_start + hunks[k].old_len <= isize::MAX
            && hunks[k].new_start + hunks[k].new_len <= isize::MAX
    &&& forall|k: int|
        0 <= k <= hunks.len() ==> -isize::MAX <= #[trigger] shift(hunks, k) && from + shift(
            hunks,
            k,
        ) <= isize::MAX && to + shift(hunks, k) <= isize::MAX && shift(hunks, k) <= isize::MAX
}

fn carry(hunks: &[Hunk], line: usize, last: bool) -> (r: usize)
    requires
        line <= isize::MAX,
        forall|k: int|
            0 <= k < hunks@.len() ==> (#[trigger] hunks@[k]).old_start + hunks@[k].old_len
                <= isize::MAX && hunks@[k].new_start + hunks@[k].new_len <= isize::MAX,
        forall|k: int|
            0 <= k <= hunks@.len() ==> -isize::MAX <= #[trigger] shift(hunks@, k) && line + shift(
                hunks@,
                k,
            ) <= isize::MAX && shift(hunks@, k) <= isize::MAX,
    ensures
        r == carried(hunks@, line as int, last, 0),
        r <= isize::MAX,
{
    let mut moved: isize = 0;
    let mut i: usize = 0;
    assert(hunks@.skip(0) =~= hunks@);
    while i < hunks.len()
        invariant
            i <= hunks@.len(),
            line <= isize::MAX,
            forall|k: int|
                0 <= k < hunks@.len() ==> (#[trigger] hunks@[k]).old_start + hunks@[k].old_len
                    <= isize::MAX && hunks@[k].new_start + hunks@[k].new_len <= isize::MAX,
            forall|k: int|
                0 <= k <= hunks@.len() ==> -isize::MAX <= #[trigger] shift(hunks@, k) && line
                    + shift(hunks@, k) <= isize::MAX && shift(hunks@, k) <= isize::MAX,
            moved == shift(hunks@, i as int),
            carried(hunks@, line as int, last, 0) == carried(
                hunks@.skip(i as int),
                line as int,
                last,
                moved as int,
            ),
        decreases hunks@.len() - i,
    {
        let h = hunks[i];
        assert(h == hunks@[i as int]);
        assert(hunks@.skip(i as int)[0] == h);
        assert(hunks@.skip(i as int).skip(1) =~= hunks@.skip(i + 1));
        let before = if h.old_len == 0 {
            h.old_start < line
        } else {
            h.old_start + h.old_len - 1 < line
        };
        if before {
            assert(shift(hunks@, i + 1) == moved + h.new_len - h.old_len);
            moved = moved + (h.new_len as isize - h.old_len as isize);
        } else if h.old_len > 0 && h.old_start <= line {
            return if last && h.new_len > 0 {
                h.new_start + h.new_len - 1
            } else if h.new_len > 0 {
                h.new_start
            } else if h.new_start > 1 {
                h.new_start
            } else {
                1
            };
        } else {
            let at: isize = line as isize + moved;
            return if at > 1 { at as usize } else { 1 };
        }
        i += 1;
    }
    assert(shift(hunks@, i as int) == moved);
    let at: isize = line as isize + moved;
    if at > 1 { at as usize } else { 1 }
}

/// Carry a one-based line range through one change's zero-context hunks.
/// Returns whether the change touched the range and the range afterwards.
/// A touching hunk widens the range to its new lines so that follow-up edits of
/// the replacement code are recognized too.
pub fn track(range: Range<usize>, hunks: &[Hunk]) -> (r: (bool, Range<usize>))
    requires
        trackable(range.start as int, range.end as int, hunks@),
    ensures
        r.0 == touched(hunks@, range.start as int, range.end - 1),
        (r.1.start as int, r.1.end as int) == followed(
            range.start as int,
            range.end as int,
            hunks@,
        ),
{
    let start: usize = range.start;
    let end: usize = range.end - 1;
    assert forall|k: int| 0 <= k <= hunks@.len() implies end + #[trigger] shift(hunks@, k)
        <= isize::MAX by {}
    let first: usize = carry(hunks, start, false);
    let last: usize = carry(hunks, end, true);
    let mut new_start: usize = first;
    let mut new_end: usize = last;
    let mut hit = false;
    let mut i: usize = 0;
    while i < hunks.len()
        invariant
            i <= hunks@.len(),
            forall|k: int|
                0 <= k < hunks@.len() ==> (#[trigger] hunks@[k]).old_start + hunks@[k].old_len
                    <= isize::MAX && hunks@[k].new_start + hunks@[k].new_len <= isize::MAX,
            hit == touched(hunks@.take(i as int), start as int, end as int),
            new_start == lowest(hunks@.take(i as int), start as int, end as int, first as int),
            new_end == highest(hunks@.take(i as int), start as int, end as int, last as int),
            new_start <= isize::MAX,
            new_end <= isize::MAX,
        decreases hunks@.len() - i,
    {
        let h = hunks[i];
        let ghost part = hunks@.take(i as int);
        let ghost next = hunks@.take(i + 1);
        assert(h == hunks@[i as int]);
        assert(next.drop_last() =~= part);
        assert(next.last() == h);
        let here = if h.old_len == 0 {
            h.old_start + 1 >= start && h.old_start <= end
        } else {
            h.old_start <= end && h.old_start + h.old_len > start
        };
        proof {
            if touched(part, start as int, end as int) {
                let k = choose|k: int| 0 <= k < part.len() && touches(#[trigger] part[k], start as int, end as int);
                assert(next[k] == part[k]);
            }
            if here {
                assert(next[i as int] == h);
            }
            if touched(next, start as int, end as int) && !here {
                let k = choose|k: int| 0 <= k < next.len() && touches(#[trigger] next[k], start as int, end as int);
                assert(part[k] == next[k]);
            }
        }
        if here {
            hit = true;
            if h.new_len > 0 {
                if h.new_start < new_start {
                    new_start = h.new_start;
                }
                if h.new_start + h.new_len - 1 > new_end {
                    new_end = h.new_start + h.new_len - 1;
                }
            }
        }
        i += 1;
    }
    assert(hunks@.take(i as int) =~= hunks@);
    if new_end < new_start {
        new_end = new_start;
    }
    (hit, new_start..new_end + 1)
}

/// Whether a range can be carried through the hunks without leaving the machine
/// integers.
pub fn can_track(range: &Range<usize>, hunks: &[Hunk]) -> (r: bool)
    ensures
        r == trackable(range.start as int, range.end as int, hunks@),
{
    let limit: usize = isize::MAX as usize;
    if range.end == 0 || range.end > limit || range.start > limit {
        return false;
    }
    let most: usize = if range.end > range.start { range.end } else { range.start };
    let mut moved: isize = 0;
    let mut i: usize = 0;
    while i < hunks.len()
        invariant
            i <= hunks@.len(),
            limit == isize::MAX,
            0 < range.end <= limit,
            range.start <= limit,
            most == max(range.start as int, range.end as int),
            moved == shift(hunks@, i as int),
            -isize::MAX <= moved,
            forall|k: int|
                0 <= k < i ==> (#[trigger] hunks@[k]).old_start + hunks@[k].old_len <= isize::MAX
                    && hunks@[k].new_start + hunks@[k].new_len <= isize::MAX,
            forall|k: int|
                0 <= k <= i ==> -isize::MAX <= #[trigger] shift(hunks@, k) && range.start + shift(
                    hunks@,
                    k,
                ) <= isize::MAX && range.end + shift(hunks@, k) <= isize::MAX && shift(hunks@, k)
                    <= isize::MAX,
        decreases hunks@.len() - i,
    {
        let h = hunks[i];
        assert(h == hunks@[i as int]);
        if h.old_start > limit || h.old_len > limit - h.old_start || h.new_start > limit || h.new_len
            > limit - h.new_start {
            return false;
        }
        let change: isize = h.new_len as isize - h.old_len as isize;
        assert(shift(hunks@, i + 1) == moved + change);
        let fits = if change >= 0 {
            moved + most as isize <= isize::MAX - change
        } else {
            moved >= -isize::MAX - change
        };
        if !fits {
            return false;
        }
        moved = moved + change;
        i += 1;
    }
    true
}

// ---------------------------------------------------------------------------
// What carrying keeps
// ---------------------------------------------------------------------------

/// The number of hunks before the first one that does not precede `line`.
pub open spec fn preceding(hunks: Seq<Hunk>, line: int) -> int
    decreases hunks.len(),
{
    if hunks.len() > 0 && precedes(hunks[0], line) {
        1 + preceding(hunks.skip(1), line)
    } else {
        0
    }
}

proof fn lemma_preceding(hunks: Seq<Hunk>, line: int)
    ensures
        0 <= preceding(hunks, line) <= hunks.len(),
        forall|k: int| 0 <= k < preceding(hunks, line) ==> precedes(#[trigger] hunks[k], line),
        preceding(hunks, line) < hunks.len() ==> !precedes(hunks[preceding(hunks, line)], line),
    decreases hunks.len(),
{
    if hunks.len() > 0 && precedes(hunks[0], line) {
        let rest = hunks.skip(1);
        lemma_preceding(rest, line);
        assert forall|k: int| 0 <= k < preceding(hunks, line) implies precedes(
            #[trigger] hunks[k],
            line,
        ) by {
            if k > 0 {
                assert(rest[k - 1] == hunks[k]);
            }
        }
    }
}

proof fn lemma_carried(hunks: Seq<Hunk>, i: int, start: int, end: int, last: bool)
    requires
        0 <= i <= hunks.len(),
        start <= end,
        !touched(hunks, start, end),
    ensures
        ({
            let n = i + preceding(hunks.skip(i), start);
            &&& carried(hunks.skip(i), start, last, shift(hunks, i)) == max(
                start + shift(hunks, n),
                1,
            )
            &&& carried(hunks.skip(i), end, last, shift(hunks, i)) == max(end + shift(hunks, n), 1)
        }),
    decreases hunks.len() - i,
{
    if i < hunks.len() {
        let h = hunks[i];
        assert(hunks.skip(i)[0] == h);
        assert(hunks.skip(i).skip(1) =~= hunks.skip(i + 1));
        assert(!touches(h, start, end));
        assert(precedes(h, start) == precedes(h, end));
        if precedes(h, start) {
            lemma_carried(hunks, i + 1, start, end, last);
            assert(shift(hunks, i + 1) == shift(hunks, i) + h.new_len - h.old_len);
        }
    }
}

proof fn lemma_untouched_bounds(hunks: Seq<Hunk>, start: int, end: int, x: int)
    requires
        !touched(hunks, start, end),
    ensures
        lowest(hunks, start, end, x) == x,
        highest(hunks, start, end, x) == x,
    decreases hunks.len(),
{
    if hunks.len() > 0 {
        let rest = hunks.drop_last();
        assert(!touches(hunks[hunks.len() - 1], start, end));
        assert(!touched(rest, start, end)) by {
            if touched(rest, start, end) {
                let k = choose|k: int|
                    0 <= k < rest.len() && touches(#[trigger] rest[k], start, end);
                assert(hunks[k] == rest[k]);
            }
        }
        lemma_untouched_bounds(rest, start, end, x);
    }
}

/// A range that no hunk touches is only moved, by the hunks before it.
pub proof fn untouched_ranges_are_shifted(from: int, to: int, hunks: Seq<Hunk>)
    requires
        from < to,
        !touched(hunks, from, to - 1),
    ensures
        ({
            let by = shift(hunks, preceding(hunks, from));
            followed(from, to, hunks) == (max(from + by, 1), max(to - 1 + by, 1) + 1)
        }),
{
    assert(hunks.skip(0) =~= hunks);
    lemma_carried(hunks, 0, from, to - 1, false);
    lemma_carried(hunks, 0, from, to - 1, true);
    lemma_untouched_bounds(hunks, from, to - 1, carried(hunks, from, false, 0));
    lemma_untouched_bounds(hunks, from, to - 1, carried(hunks, to - 1, true, 0));
}

/// By how many lines the hunks grow the text.
pub open spec fn grown(hunks: Seq<Hunk>) -> int
    decreases hunks.len(),
{
    if hunks.len() == 0 {
        0
    } else {
        grown(hunks.drop_last()) + hunks.last().new_len - hunks.last().old_len
    }
}

proof fn lemma_grown(hunks: Seq<Hunk>, n: int)
    requires
        0 <= n <= hunks.len(),
    ensures
        grown(hunks.take(n)) == shift(hunks, n),
    decreases n,
{
    if n > 0 {
        lemma_grown(hunks, n - 1);
        assert(hunks.take(n).drop_last() =~= hunks.take(n - 1));
    }
}

proof fn lemma_preceding_is(hunks: Seq<Hunk>, line: int, n: int)
    requires
        0 <= n <= hunks.len(),
        forall|k: int| 0 <= k < n ==> precedes(#[trigger] hunks[k], line),
        n < hunks.len() ==> !precedes(hunks[n], line),
    ensures
        preceding(hunks, line) == n,
    decreases hunks.len(),
{
    if n > 0 {
        assert(precedes(hunks[0], line));
        let rest = hunks.skip(1);
        assert forall|k: int| 0 <= k < n - 1 implies precedes(#[trigger] rest[k], line) by {
            assert(rest[k] == hunks[k + 1]);
        }
        if n - 1 < rest.len() {
            assert(rest[n - 1] == hunks[n]);
        }
        lemma_preceding_is(rest, line, n - 1);
    }
}

/// Lines that lie below the first `n` hunks and above the others move by what the
/// first `n` insert and delete.
pub proof fn lines_between_changes_move_with_those_above(
    from: int,
    to: int,
    hunks: Seq<Hunk>,
    n: int,
)
    requires
        from < to,
        0 <= n <= hunks.len(),
        forall|k: int|
            0 <= k < n ==> {
                let h = #[trigger] hunks[k];
                if h.old_len == 0 {
                    h.old_start + 1 < from
                } else {
                    h.old_start + h.old_len <= from
                }
            },
        forall|k: int| n <= k < hunks.len() ==> (#[trigger] hunks[k]).old_start >= to,
        from + grown(hunks.take(n)) >= 1,
    ensures
        ({
            let by = grown(hunks.take(n));
            followed(from, to, hunks) == (from + by, to + by)
        }),
{
    assert(!touched(hunks, from, to - 1)) by {
        if touched(hunks, from, to - 1) {
            let k = choose|k: int|
                0 <= k < hunks.len() && touches(#[trigger] hunks[k], from, to - 1);
            assert(touches(hunks[k], from, to - 1));
        }
    }
    assert forall|k: int| 0 <= k < n implies precedes(#[trigger] hunks[k], from) by {}
    lemma_preceding_is(hunks, from, n);
    lemma_grown(hunks, n);
    untouched_ranges_are_shifted(from, to, hunks);
}

proof fn lemma_covers(hunks: Seq<Hunk>, start: int, end: int, low: int, high: int, k: int)
    requires
        0 <= k < hunks.len(),
        touches(hunks[k], start, end),
        hunks[k].new_len > 0,
    ensures
        lowest(hunks, start, end, low) <= hunks[k].new_start,
        hunks[k].new_start + hunks[k].new_len - 1 <= highest(hunks, start, end, high),
    decreases hunks.len(),
{
    if k < hunks.len() - 1 {
        let rest = hunks.drop_last();
        assert(rest[k] == hunks[k]);
        lemma_covers(rest, start, end, low, high, k);
    }
}

/// The new code of a hunk that changes the lines, or inserts next to them, is covered
/// by the carried range.
pub proof fn new_code_of_touching_changes_is_covered(
    from: int,
    to: int,
    hunks: Seq<Hunk>,
    k: int,
)
    requires
        0 <= k < hunks.len(),
        hunks[k].new_len > 0,
        ({
            let h = hunks[k];
            if h.old_len == 0 {
                from - 1 <= h.old_start < to
            } else {
                h.old_start < to && from < h.old_start + h.old_len
            }
        }),
    ensures
        ({
            let new = followed(from, to, hunks);
            new.0 <= hunks[k].new_start && hunks[k].new_start + hunks[k].new_len <= new.1
        }),
{
    lemma_covers(
        hunks,
        from,
        to - 1,
        carried(hunks, from, false, 0),
        carried(hunks, to - 1, true, 0),
        k,
    );
}

/// A carried range is never empty.
pub proof fn carried_ranges_hold_a_line(from: int, to: int, hunks: Seq<Hunk>)
    ensures
        followed(from, to, hunks).0 < followed(from, to, hunks).1,
{
}

/// Without changes a range of existing lines stays where it is.
pub proof fn unchanged_ranges_stay(from: int, to: int)
    requires
        0 < from < to,
    ensures
        followed(from, to, Seq::empty()) == (from, to),
        !touched(Seq::empty(), from, to - 1),
{
}

/// The first `k` hunks move the lines after them by what their ends differ.
pub proof fn lemma_shift(c: Seq<((u32, u32), (u32, u32))>, old_lines: int, new_lines: int, k: int)
    requires
        chained(c, old_lines, new_lines),
        0 <= k <= c.len(),
    ensures
        shift(hunks_of(c), k) == ends_before(c, k).1 - ends_before(c, k).0,
    decreases k,
{
    if k > 0 {
        lemma_shift(c, old_lines, new_lines, k - 1);
        assert(chained(c, old_lines, new_lines));
        let x = c[k - 1];
        assert(hunks_of(c)[k - 1] == hunk_of(x));
    }
}

/// Lines that a difference between two texts does not touch are found again:
/// the carried range holds the same lines.
pub proof fn untouched_lines_are_found_again(
    before: Seq<char>,
    after: Seq<char>,
    c: Seq<((u32, u32), (u32, u32))>,
    from: int,
    to: int,
    i: int,
)
    requires
        c == line_changes(before, after),
        chained(c, full_lines(before), full_lines(after)),
        aligned(c, before, after),
        0 < from < to,
        to - 1 <= full_lines(before),
        !touched(hunks_of(c), from, to - 1),
        from <= i < to,
    ensures
        ({
            let new = followed(from, to, hunks_of(c));
            &&& 0 < new.0
            &&& new.1 - new.0 == to - from
            &&& new.1 - 1 <= full_lines(after)
            &&& line(after, new.0 - 1 + (i - from)) == line(before, i - 1)
        }),
{
    let hunks = hunks_of(c);
    let k = preceding(hunks, from);
    lemma_preceding(hunks, from);
    untouched_ranges_are_shifted(from, to, hunks);
    lemma_shift(c, full_lines(before), full_lines(after), k);
    let ends = ends_before(c, k);
    if k > 0 {
        assert(hunks[k - 1] == hunk_of(c[k - 1]));
        assert(!touches(hunks[k - 1], from, to - 1));
        assert(precedes(hunks[k - 1], from));
        assert(ends.0 <= from - 1);
    }
    if k < c.len() {
        assert(hunks[k] == hunk_of(c[k]));
        assert(!touches(hunks[k], from, to - 1));
        assert(to - 1 <= c[k].0.0);
    }
    assert(stays(c, full_lines(before), k, i - 1));
}

/// Later changes lie behind earlier ones, on both sides.
proof fn lemma_ends(
    c: Seq<((u32, u32), (u32, u32))>,
    old_lines: int,
    new_lines: int,
    j: int,
    k: int,
)
    requires
        chained(c, old_lines, new_lines),
        0 <= old_lines,
        0 <= j <= k <= c.len(),
    ensures
        0 <= ends_before(c, j).0 <= ends_before(c, k).0 <= old_lines,
        0 <= ends_before(c, j).1 <= ends_before(c, k).1 <= new_lines,
    decreases k - j,
{
    if k > 0 {
        assert(c[k - 1].0.1 <= old_lines && c[k - 1].1.1 <= new_lines);
    } else if c.len() > 0 {
        assert(c[0].1.1 <= new_lines);
    }
    if j < k {
        lemma_ends(c, old_lines, new_lines, j, k - 1);
        assert(ends_before(c, k - 1).0 <= c[k - 1].0.0);
    }
}

/// Where line `x` (counted from zero) of the old text goes: with its neighbours, if it
/// stays, or to what replaces it. Returns the change that holds it or follows it.
proof fn lemma_line_goes(
    c: Seq<((u32, u32), (u32, u32))>,
    old_lines: int,
    new_lines: int,
    x: int,
    last: bool,
) -> (m: int)
    requires
        chained(c, old_lines, new_lines),
        0 <= x < old_lines,
    ensures
        0 <= m <= c.len(),
        ends_before(c, m).0 <= x,
        m < c.len() ==> x < c[m].0.1,
        carried(hunks_of(c), x + 1, last, 0) == if m < c.len() && c[m].0.0 <= x {
            if c[m].1.0 == c[m].1.1 {
                max(c[m].1.0 as int, 1)
            } else if last {
                c[m].1.1 as int
            } else {
                c[m].1.0 + 1
            }
        } else {
            x + 1 - ends_before(c, m).0 + ends_before(c, m).1
        },
{
    let hunks = hunks_of(c);
    let m = preceding(hunks, x + 1);
    lemma_preceding(hunks, x + 1);
    lemma_shift(c, old_lines, new_lines, m);
    lemma_ends(c, old_lines, new_lines, m, m);
    if m > 0 {
        assert(hunks[m - 1] == hunk_of(c[m - 1]));
        assert(c[m - 1].0.0 <= c[m - 1].0.1);
        assert(precedes(hunks[m - 1], x + 1));
    }
    if m < c.len() {
        assert(hunks[m] == hunk_of(c[m]));
        assert(c[m].0.0 <= c[m].0.1);
        assert(!precedes(hunks[m], x + 1));
    }
    lemma_carried_stops(hunks, x + 1, last, 0);
    assert(hunks.skip(0) =~= hunks);
    m
}

/// Carrying passes the hunks that precede the line.
proof fn lemma_carried_stops(hunks: Seq<Hunk>, line: int, last: bool, i: int)
    requires
        0 <= i <= hunks.len(),
    ensures
        ({
            let m = i + preceding(hunks.skip(i), line);
            &&& i <= m <= hunks.len()
            &&& carried(hunks.skip(i), line, last, shift(hunks, i)) == if m < hunks.len()
                && hunks[m].old_len > 0 && hunks[m].old_start <= line {
                replaced(hunks[m], last)
            } else {
                max(line + shift(hunks, m), 1)
            }
        }),
    decreases hunks.len() - i,
{
    if i < hunks.len() {
        assert(hunks.skip(i)[0] == hunks[i]);
        assert(hunks.skip(i).skip(1) =~= hunks.skip(i + 1));
        if precedes(hunks[i], line) {
            lemma_carried_stops(hunks, line, last, i + 1);
        }
    }
}

proof fn lemma_widened(hunks: Seq<Hunk>, start: int, end: int, low: int, high: int)
    ensures
        lowest(hunks, start, end, low) <= low,
        high <= highest(hunks, start, end, high),
        lowest(hunks, start, end, low) == low || exists|k: int|
            0 <= k < hunks.len() && touches(#[trigger] hunks[k], start, end) && hunks[k].new_len > 0
                && lowest(hunks, start, end, low) == hunks[k].new_start,
        highest(hunks, start, end, high) == high || exists|k: int|
            0 <= k < hunks.len() && touches(#[trigger] hunks[k], start, end) && hunks[k].new_len > 0
                && highest(hunks, start, end, high) == hunks[k].new_start + hunks[k].new_len - 1,
    decreases hunks.len(),
{
    if hunks.len() > 0 {
        let rest = hunks.drop_last();
        let n = hunks.len() - 1;
        lemma_widened(rest, start, end, low, high);
        let a = lowest(rest, start, end, low);
        let b = highest(rest, start, end, high);
        if a != low {
            let k = choose|k: int|
                0 <= k < rest.len() && touches(#[trigger] rest[k], start, end) && rest[k].new_len
                    > 0 && a == rest[k].new_start;
            assert(hunks[k] == rest[k]);
        }
        if b != high {
            let k = choose|k: int|
                0 <= k < rest.len() && touches(#[trigger] rest[k], start, end) && rest[k].new_len
                    > 0 && b == rest[k].new_start + rest[k].new_len - 1;
            assert(hunks[k] == rest[k]);
        }
        assert(hunks[n] == hunks.last());
    }
}

/// A line outside the changes is carried along, whatever happens to the other lines of
/// the range: the carried range holds the line that the difference pairs it with.
pub proof fn lines_outside_the_changes_are_carried_along(
    c: Seq<((u32, u32), (u32, u32))>,
    old_lines: int,
    new_lines: int,
    from: int,
    to: int,
    k: int,
    i: int,
)
    requires
        chained(c, old_lines, new_lines),
        0 < from <= i < to,
        to - 1 <= old_lines,
        0 <= k <= c.len(),
        k > 0 ==> c[k - 1].0.1 < i,
        k < c.len() ==> i <= c[k].0.0,
    ensures
        ({
            let new = followed(from, to, hunks_of(c));
            let paired = if k > 0 {
                i - c[k - 1].0.1 + c[k - 1].1.1
            } else {
                i
            };
            new.0 <= paired < new.1 && 0 < paired <= new_lines
        }),
{
    let hunks = hunks_of(c);
    let first = carried(hunks, from, false, 0);
    let last = carried(hunks, to - 1, true, 0);
    lemma_widened(hunks, from, to - 1, first, last);
    lemma_first_is_above(c, old_lines, new_lines, from - 1, k, i - 1);
    lemma_last_is_below(c, old_lines, new_lines, to - 2, k, i - 1);
}

/// What stands before a line that stays goes before it.
proof fn lemma_first_is_above(
    c: Seq<((u32, u32), (u32, u32))>,
    old_lines: int,
    new_lines: int,
    x: int,
    k: int,
    i: int,
)
    requires
        chained(c, old_lines, new_lines),
        0 <= x <= i < old_lines,
        stays(c, old_lines, k, i),
    ensures
        ({
            let n = i - ends_before(c, k).0 + ends_before(c, k).1;
            1 <= carried(hunks_of(c), x + 1, false, 0) <= n + 1 && 0 <= n
        }),
{
    let m = lemma_line_goes(c, old_lines, new_lines, x, false);
    if m > k {
        lemma_ends(c, old_lines, new_lines, k + 1, m);
        assert(c[k].0.0 <= c[k].0.1);
    }
    lemma_ends(c, old_lines, new_lines, m, k);
    if m < k {
        lemma_ends(c, old_lines, new_lines, m + 1, k);
        assert(c[m].1.0 - ends_before(c, m).1 == c[m].0.0 - ends_before(c, m).0);
        assert(c[m].1.0 <= c[m].1.1);
    }
}

/// What stands behind a line that stays goes behind it.
proof fn lemma_last_is_below(
    c: Seq<((u32, u32), (u32, u32))>,
    old_lines: int,
    new_lines: int,
    x: int,
    k: int,
    i: int,
)
    requires
        chained(c, old_lines, new_lines),
        0 <= i <= x < old_lines,
        stays(c, old_lines, k, i),
    ensures
        ({
            let n = i - ends_before(c, k).0 + ends_before(c, k).1;
            n + 1 <= carried(hunks_of(c), x + 1, true, 0) && n < new_lines
        }),
{
    let m = lemma_line_goes(c, old_lines, new_lines, x, true);
    if m < k {
        lemma_ends(c, old_lines, new_lines, m + 1, k);
    }
    lemma_ends(c, old_lines, new_lines, k, m);
    if k < m {
        lemma_ends(c, old_lines, new_lines, k + 1, m);
    }
    if k < c.len() {
        assert(c[k].0.0 - ends_before(c, k).0 == c[k].1.0 - ends_before(c, k).1);
        assert(c[k].1.0 <= c[k].1.1 <= new_lines);
    }
    if m < c.len() {
        assert(c[m].1.0 - ends_before(c, m).1 == c[m].0.0 - ends_before(c, m).0);
        assert(c[m].1.0 <= c[m].1.1);
    }
}

/// The change that holds line `n` of the new text, or is the first one behind it.
proof fn lemma_new_line(
    c: Seq<((u32, u32), (u32, u32))>,
    old_lines: int,
    new_lines: int,
    n: int,
    k: int,
) -> (m: int)
    requires
        chained(c, old_lines, new_lines),
        0 <= old_lines,
        0 <= n,
        0 <= k <= c.len(),
        k < c.len() ==> n < c[k].1.1,
    ensures
        0 <= m <= c.len(),
        ends_before(c, m).1 <= n,
        m < c.len() ==> n < c[m].1.1,
    decreases k,
{
    if k > 0 && n < c[k - 1].1.1 {
        lemma_new_line(c, old_lines, new_lines, n, k - 1)
    } else {
        k
    }
}

/// Change `k` replaces or deletes a line from `a` to `b` (counted from zero, half-open)
/// or inserts next to them.
pub open spec fn meets(x: ((u32, u32), (u32, u32)), a: int, b: int) -> bool {
    if x.0.0 == x.0.1 {
        a <= x.0.0 <= b
    } else {
        x.0.0 < b && a < x.0.1
    }
}

proof fn lemma_meets(c: Seq<((u32, u32), (u32, u32))>, k: int, from: int, to: int)
    requires
        0 <= k < c.len(),
        c[k].0.0 <= c[k].0.1,
        c[k].1.0 <= c[k].1.1,
    ensures
        touches(hunks_of(c)[k], from, to - 1) == meets(c[k], from - 1, to - 1),
        hunks_of(c)[k].new_len == c[k].1.1 - c[k].1.0,
        c[k].1.0 < c[k].1.1 ==> hunks_of(c)[k].new_start == c[k].1.0 + 1,
{
    assert(hunks_of(c)[k] == hunk_of(c[k]));
}

/// Line `n` (counted from zero) of the new text lies above what the changes make of the
/// lines from `a` on.
spec fn above(
    c: Seq<((u32, u32), (u32, u32))>,
    m: int,
    n: int,
    a: int,
) -> bool {
    if m < c.len() && c[m].1.0 <= n {
        c[m].0.1 <= a && !(c[m].0.0 == c[m].0.1 && c[m].0.0 == a)
    } else {
        n - ends_before(c, m).1 + ends_before(c, m).0 < a
    }
}

/// No change moves the start of the range above its first line.
#[verifier::spinoff_prover]
#[verifier::rlimit(60)]
proof fn lemma_not_lower(
    c: Seq<((u32, u32), (u32, u32))>,
    old_lines: int,
    new_lines: int,
    from: int,
    to: int,
    n: int,
    m: int,
)
    requires
        chained(c, old_lines, new_lines),
        0 < from < to,
        to - 1 <= old_lines,
        0 <= n < new_lines,
        0 <= m <= c.len(),
        ends_before(c, m).1 <= n,
        m < c.len() ==> n < c[m].1.1,
        above(c, m, n, from - 1),
        followed(from, to, hunks_of(c)).0 <= n + 1,
    ensures
        lowest(hunks_of(c), from, to - 1, carried(hunks_of(c), from, false, 0)) == carried(
            hunks_of(c),
            from,
            false,
            0,
        ),
{
    let hunks = hunks_of(c);
    let first = carried(hunks, from, false, 0);
    lemma_widened(hunks, from, to - 1, first, 0);
    let low = lowest(hunks, from, to - 1, first);
    if low != first {
        let k = choose|k: int|
            0 <= k < hunks.len() && touches(#[trigger] hunks[k], from, to - 1) && hunks[k].new_len
                > 0 && low == hunks[k].new_start;
        assert(c[k].0.0 <= c[k].0.1 && c[k].1.0 <= c[k].1.1);
        lemma_meets(c, k, from, to);
        if k < m {
            lemma_ends(c, old_lines, new_lines, k + 1, m);
            if m < c.len() {
                assert(ends_before(c, m).0 <= c[m].0.0 <= c[m].0.1);
            }
        } else if k > m {
            lemma_ends(c, old_lines, new_lines, m + 1, k);
            assert(ends_before(c, k).1 <= c[k].1.0);
        }
        assert(false);
    }
}

#[verifier::spinoff_prover]
#[verifier::rlimit(60)]
proof fn lemma_above(
    c: Seq<((u32, u32), (u32, u32))>,
    old_lines: int,
    new_lines: int,
    from: int,
    to: int,
    n: int,
    m: int,
)
    requires
        chained(c, old_lines, new_lines),
        0 < from < to,
        to - 1 <= old_lines,
        0 <= n < new_lines,
        0 <= m <= c.len(),
        ends_before(c, m).1 <= n,
        m < c.len() ==> n < c[m].1.1,
        above(c, m, n, from - 1),
        followed(from, to, hunks_of(c)).0 <= n + 1,
    ensures
        exists|k: int|
            0 <= k < c.len() && (#[trigger] c[k]).1.0 == c[k].1.1 && c[k].0.0 <= from - 1
                < c[k].0.1 && n == max(c[k].1.0 - 1, 0),
{
    lemma_not_lower(c, old_lines, new_lines, from, to, n, m);
    let g = lemma_line_goes(c, old_lines, new_lines, from - 1, false);
    if g < m {
        lemma_ends(c, old_lines, new_lines, g + 1, m);
        if m < c.len() {
            assert(ends_before(c, m).0 <= c[m].0.0 <= c[m].0.1);
        }
    } else if m < g {
        lemma_ends(c, old_lines, new_lines, m + 1, g);
    }
    if g < c.len() {
        assert(c[g].0.0 - ends_before(c, g).0 == c[g].1.0 - ends_before(c, g).1);
        assert(c[g].1.0 <= c[g].1.1);
        assert(ends_before(c, g).1 <= c[g].1.0);
    }
    assert(g < c.len() && c[g].1.0 == c[g].1.1 && c[g].0.0 <= from - 1 < c[g].0.1 && n == max(
        c[g].1.0 - 1,
        0,
    ));
}

/// Line `n` (counted from zero) of the new text lies below what the changes make of the
/// lines before `b`.
spec fn below(c: Seq<((u32, u32), (u32, u32))>, m: int, n: int, b: int) -> bool {
    if m < c.len() && c[m].1.0 <= n {
        c[m].0.0 >= b && !(c[m].0.0 == c[m].0.1 && c[m].0.0 == b)
    } else {
        n - ends_before(c, m).1 + ends_before(c, m).0 >= b
    }
}

/// The first line goes no further than the last one.
proof fn lemma_in_order(
    c: Seq<((u32, u32), (u32, u32))>,
    old_lines: int,
    new_lines: int,
    x: int,
    y: int,
)
    requires
        chained(c, old_lines, new_lines),
        0 <= x <= y < old_lines,
    ensures
        carried(hunks_of(c), x + 1, false, 0) <= carried(hunks_of(c), y + 1, true, 0),
{
    let a = lemma_line_goes(c, old_lines, new_lines, x, false);
    let b = lemma_line_goes(c, old_lines, new_lines, y, true);
    if b < a {
        lemma_ends(c, old_lines, new_lines, b + 1, a);
    }
    lemma_ends(c, old_lines, new_lines, a, b);
    if a < b {
        lemma_ends(c, old_lines, new_lines, a + 1, b);
    }
    if a < c.len() {
        assert(c[a].0.0 - ends_before(c, a).0 == c[a].1.0 - ends_before(c, a).1);
        assert(c[a].1.0 <= c[a].1.1);
    }
    if b < c.len() {
        assert(c[b].0.0 - ends_before(c, b).0 == c[b].1.0 - ends_before(c, b).1);
        assert(c[b].1.0 <= c[b].1.1);
    }
}

/// New code of touching changes does not reach a line below the range.
proof fn lemma_below_new_code(
    c: Seq<((u32, u32), (u32, u32))>,
    old_lines: int,
    new_lines: int,
    from: int,
    to: int,
    n: int,
    m: int,
    k: int,
)
    requires
        chained(c, old_lines, new_lines),
        0 < from < to,
        to - 1 <= old_lines,
        0 <= n < new_lines,
        0 <= m <= c.len(),
        ends_before(c, m).1 <= n,
        m < c.len() ==> n < c[m].1.1,
        below(c, m, n, to - 1),
        0 <= k < c.len(),
        touches(hunks_of(c)[k], from, to - 1),
        hunks_of(c)[k].new_len > 0,
    ensures
        hunks_of(c)[k].new_start + hunks_of(c)[k].new_len - 1 <= n,
{
    assert(c[k].0.0 <= c[k].0.1 && c[k].1.0 <= c[k].1.1);
    lemma_meets(c, k, from, to);
    if k < m {
        lemma_ends(c, old_lines, new_lines, k + 1, m);
    } else {
        assert(c[m].0.0 - ends_before(c, m).0 == c[m].1.0 - ends_before(c, m).1);
        if k > m {
            lemma_ends(c, old_lines, new_lines, m + 1, k);
            assert(c[m].0.0 <= c[m].0.1);
            assert(ends_before(c, k).0 <= c[k].0.0);
        }
    }
}

/// The last line reaches a line below the range only if all before it was deleted.
proof fn lemma_below_last(
    c: Seq<((u32, u32), (u32, u32))>,
    old_lines: int,
    new_lines: int,
    to: int,
    n: int,
    m: int,
) -> (g: int)
    requires
        chained(c, old_lines, new_lines),
        1 < to,
        to - 1 <= old_lines,
        0 <= n < new_lines,
        0 <= m <= c.len(),
        ends_before(c, m).1 <= n,
        m < c.len() ==> n < c[m].1.1,
        below(c, m, n, to - 1),
        n + 1 <= carried(hunks_of(c), to - 1, true, 0),
    ensures
        0 <= g < c.len(),
        c[g].0.0 <= to - 2 < c[g].0.1,
        c[g].1.1 == 0,
        n == 0,
{
    let g = lemma_line_goes(c, old_lines, new_lines, to - 2, true);
    if m < g {
        lemma_ends(c, old_lines, new_lines, m + 1, g);
        assert(c[m].0.0 <= c[m].0.1);
        assert(c[m].0.0 - ends_before(c, m).0 == c[m].1.0 - ends_before(c, m).1);
        assert(false);
    }
    if g < m {
        lemma_ends(c, old_lines, new_lines, g + 1, m);
        if m < c.len() {
            assert(ends_before(c, m).1 <= c[m].1.0);
        }
    }
    if g < c.len() {
        assert(c[g].0.0 - ends_before(c, g).0 == c[g].1.0 - ends_before(c, g).1);
        assert(c[g].1.0 <= c[g].1.1);
    }
    g
}

/// Nothing stays before a change with no new line up to its end.
proof fn lemma_all_deleted(
    c: Seq<((u32, u32), (u32, u32))>,
    old_lines: int,
    new_lines: int,
    x: int,
    g: int,
) -> (h: int)
    requires
        chained(c, old_lines, new_lines),
        0 <= g < c.len(),
        c[g].1.1 == 0,
        0 <= x < c[g].0.1,
    ensures
        0 <= h <= g,
        c[h].1.0 == 0,
        c[h].1.1 == 0,
        c[h].0.0 <= x < c[h].0.1,
    decreases g,
{
    assert(c[g].0.0 - ends_before(c, g).0 == c[g].1.0 - ends_before(c, g).1);
    assert(c[g].1.0 <= c[g].1.1 && ends_before(c, g).1 <= c[g].1.0);
    if c[g].0.0 <= x {
        g
    } else {
        lemma_all_deleted(c, old_lines, new_lines, x, g - 1)
    }
}

/// A range that reaches a line below its lines reaches it by the last of them.
#[verifier::spinoff_prover]
#[verifier::rlimit(40)]
proof fn lemma_reached_by_last(
    c: Seq<((u32, u32), (u32, u32))>,
    old_lines: int,
    new_lines: int,
    from: int,
    to: int,
    n: int,
    m: int,
)
    requires
        chained(c, old_lines, new_lines),
        0 < from < to,
        to - 1 <= old_lines,
        0 <= n < new_lines,
        0 <= m <= c.len(),
        ends_before(c, m).1 <= n,
        m < c.len() ==> n < c[m].1.1,
        below(c, m, n, to - 1),
        n + 1 < followed(from, to, hunks_of(c)).1,
    ensures
        n + 1 <= carried(hunks_of(c), to - 1, true, 0),
{
    let hunks = hunks_of(c);
    let first = carried(hunks, from, false, 0);
    let last = carried(hunks, to - 1, true, 0);
    lemma_in_order(c, old_lines, new_lines, from - 1, to - 2);
    lemma_widened(hunks, from, to - 1, first, last);
    let high = highest(hunks, from, to - 1, last);
    assert(n + 1 <= high);
    if high != last {
        let k = choose|k: int|
            0 <= k < hunks.len() && touches(#[trigger] hunks[k], from, to - 1) && hunks[k].new_len
                > 0 && high == hunks[k].new_start + hunks[k].new_len - 1;
        lemma_below_new_code(c, old_lines, new_lines, from, to, n, m, k);
    }
}

proof fn lemma_below(
    c: Seq<((u32, u32), (u32, u32))>,
    old_lines: int,
    new_lines: int,
    from: int,
    to: int,
    n: int,
    m: int,
)
    requires
        chained(c, old_lines, new_lines),
        0 < from < to,
        to - 1 <= old_lines,
        0 <= n < new_lines,
        0 <= m <= c.len(),
        ends_before(c, m).1 <= n,
        m < c.len() ==> n < c[m].1.1,
        below(c, m, n, to - 1),
        n + 1 < followed(from, to, hunks_of(c)).1,
    ensures
        exists|k: int|
            0 <= k < c.len() && (#[trigger] c[k]).1.0 == c[k].1.1 && c[k].0.0 <= from - 1
                < c[k].0.1 && n == max(c[k].1.0 - 1, 0),
{
    lemma_reached_by_last(c, old_lines, new_lines, from, to, n, m);
    let g = lemma_below_last(c, old_lines, new_lines, to, n, m);
    let h = lemma_all_deleted(c, old_lines, new_lines, from - 1, g);
    assert(c[h].1.0 == c[h].1.1);
}

/// A carried range holds nothing but what became of its lines: each line of it (`n`,
/// counted from zero) is one that stayed, or is new code of a change that replaces some
/// of them or inserts next to them, or stands just above the place where the first of
/// them was deleted.
pub proof fn carried_ranges_hold_nothing_else(
    c: Seq<((u32, u32), (u32, u32))>,
    old_lines: int,
    new_lines: int,
    from: int,
    to: int,
    n: int,
)
    requires
        chained(c, old_lines, new_lines),
        0 < from < to,
        to - 1 <= old_lines,
        0 <= n < new_lines,
        followed(from, to, hunks_of(c)).0 <= n + 1 < followed(from, to, hunks_of(c)).1,
    ensures
        ({
            ||| exists|k: int, i: int|
                #[trigger] stays(c, old_lines, k, i) && from <= i + 1 < to && n == i - ends_before(
                    c,
                    k,
                ).0 + ends_before(c, k).1
            ||| exists|k: int|
                0 <= k < c.len() && meets(#[trigger] c[k], from - 1, to - 1) && c[k].1.0 <= n
                    < c[k].1.1
            ||| exists|k: int|
                0 <= k < c.len() && (#[trigger] c[k]).1.0 == c[k].1.1 && c[k].0.0 <= from - 1
                    < c[k].0.1 && n == max(c[k].1.0 - 1, 0)
        }),
{
    let m = lemma_new_line(c, old_lines, new_lines, n, c.len() as int);
    if m < c.len() {
        assert(c[m].0.0 - ends_before(c, m).0 == c[m].1.0 - ends_before(c, m).1);
        assert(c[m].0.0 <= c[m].0.1);
    }
    if above(c, m, n, from - 1) {
        lemma_above(c, old_lines, new_lines, from, to, n, m);
    } else if below(c, m, n, to - 1) {
        lemma_below(c, old_lines, new_lines, from, to, n, m);
    } else if m < c.len() && c[m].1.0 <= n {
        assert(meets(c[m], from - 1, to - 1));
    } else {
        let i = n - ends_before(c, m).1 + ends_before(c, m).0;
        assert(stays(c, old_lines, m, i));
    }
}

/// A carried range of existing lines starts and ends in the new text, as far as that has
/// lines.
pub proof fn carried_ranges_stay_in_the_text(
    c: Seq<((u32, u32), (u32, u32))>,
    old_lines: int,
    new_lines: int,
    from: int,
    to: int,
)
    requires
        chained(c, old_lines, new_lines),
        0 < from < to,
        to - 1 <= old_lines,
    ensures
        0 < followed(from, to, hunks_of(c)).0,
        followed(from, to, hunks_of(c)).1 - 1 <= max(new_lines, 1),
{
    let hunks = hunks_of(c);
    let first = carried(hunks, from, false, 0);
    let last = carried(hunks, to - 1, true, 0);
    lemma_widened(hunks, from, to - 1, first, last);
    lemma_goes_into_the_text(c, old_lines, new_lines, from - 1, false);
    lemma_goes_into_the_text(c, old_lines, new_lines, to - 2, true);
    lemma_in_order(c, old_lines, new_lines, from - 1, to - 2);
    assert forall|k: int| 0 <= k < hunks.len() && (#[trigger] hunks[k]).new_len > 0 implies 0
        < hunks[k].new_start && hunks[k].new_start + hunks[k].new_len - 1 <= new_lines by {
        lemma_new_code_in_the_text(c, old_lines, new_lines, k);
    }
}

proof fn lemma_new_code_in_the_text(
    c: Seq<((u32, u32), (u32, u32))>,
    old_lines: int,
    new_lines: int,
    k: int,
)
    requires
        chained(c, old_lines, new_lines),
        0 <= k < c.len(),
        hunks_of(c)[k].new_len > 0,
    ensures
        0 < hunks_of(c)[k].new_start,
        hunks_of(c)[k].new_start + hunks_of(c)[k].new_len - 1 <= new_lines,
{
    assert(hunks_of(c)[k] == hunk_of(c[k]));
    assert(c[k].1.0 <= c[k].1.1 <= new_lines);
}

proof fn lemma_goes_into_the_text(
    c: Seq<((u32, u32), (u32, u32))>,
    old_lines: int,
    new_lines: int,
    x: int,
    last: bool,
)
    requires
        chained(c, old_lines, new_lines),
        0 <= x < old_lines,
    ensures
        1 <= carried(hunks_of(c), x + 1, last, 0) <= max(new_lines, 1),
{
    let m = lemma_line_goes(c, old_lines, new_lines, x, last);
    lemma_ends(c, old_lines, new_lines, m, c.len() as int);
    if m < c.len() {
        assert(c[m].0.0 - ends_before(c, m).0 == c[m].1.0 - ends_before(c, m).1);
        assert(c[m].1.0 <= c[m].1.1 <= new_lines);
    }
}

// ---------------------------------------------------------------------------
// Ranges and anchors
// ---------------------------------------------------------------------------

/// The characters of lines `from` to `to` (one-based, half-open) of a text,
/// clamped to its lines that hold a character.
pub open spec fn clamped(s: Seq<char>, from: int, to: int) -> (int, int) {
    if s.len() == 0 {
        (0, 0)
    } else {
        let last = char_to_line(s, s.len() - 1);
        let first = min(max(from - 1, 0), last);
        let end = min(max(max(to - 2, 0), first), last);
        (line_to_char(s, first), line_to_char(s, end + 1))
    }
}

/// A clamped range lies in the text, and is empty only if that is.
pub proof fn clamped_ranges_are_in_bounds(s: Seq<char>, from: int, to: int)
    ensures
        0 <= clamped(s, from, to).0 <= clamped(s, from, to).1 <= s.len(),
        s.len() > 0 ==> clamped(s, from, to).0 < clamped(s, from, to).1,
        is_line_start(s, clamped(s, from, to).0),
{
    if s.len() > 0 {
        lemma_starts(s);
        lemma_line_of(s, s.len() - 1);
        let last = char_to_line(s, s.len() - 1);
        let first = min(max(from - 1, 0), last);
        let end = min(max(max(to - 2, 0), first), last);
        assert(line_starts(s)[first] <= line_starts(s)[last]);
        if end + 1 < line_count(s) {
            assert(line_starts(s)[first] < line_starts(s)[end + 1]);
        }
    }
}

proof fn lemma_last_line(s: Seq<char>)
    requires
        s.len() > 0,
    ensures
        char_to_line(s, s.len() - 1) == full_lines(s) - 1,
        0 < full_lines(s) <= line_count(s),
        line_to_char(s, full_lines(s)) == s.len(),
{
    let t = s.drop_last();
    assert(s.take(s.len() - 1) =~= t);
    lemma_starts(s);
    lemma_starts(t);
}

/// Lines that exist are given as they are: from the start of the first to the end of the
/// last.
pub proof fn existing_lines_are_kept(s: Seq<char>, from: int, to: int)
    requires
        0 < from < to,
        to - 1 <= full_lines(s),
    ensures
        clamped(s, from, to) == (line_to_char(s, from - 1), line_to_char(s, to - 1)),
{
    lemma_starts(s);
    if s.len() > 0 {
        lemma_last_line(s);
    }
}

/// Lines behind the end of a text give its last line, and a range that goes on behind
/// the end is cut there.
pub proof fn missing_lines_are_clamped(s: Seq<char>, from: int, to: int)
    requires
        s.len() > 0,
        0 < from < to,
        full_lines(s) < to,
    ensures
        clamped(s, from, to).1 == s.len(),
        from <= full_lines(s) ==> clamped(s, from, to).0 == line_to_char(s, from - 1),
        from > full_lines(s) ==> clamped(s, from, to).0 == line_to_char(s, full_lines(s) - 1),
{
    lemma_last_line(s);
}

/// Whatever lines are asked for, those of them that exist are in the range.
pub proof fn asked_lines_are_in_the_range(s: Seq<char>, from: int, to: int, n: int)
    requires
        from <= n + 1 < to,
        0 <= n < full_lines(s),
    ensures
        clamped(s, from, to).0 <= line_to_char(s, n) < line_to_char(s, n + 1) <= clamped(
            s,
            from,
            to,
        ).1,
{
    lemma_starts(s);
    if s.len() > 0 {
        lemma_last_line(s);
        let last = char_to_line(s, s.len() - 1);
        let first = min(max(from - 1, 0), last);
        let end = min(max(max(to - 2, 0), first), last);
        lemma_starts_increase(s, first, n);
        lemma_starts_increase(s, n, n + 1);
        lemma_starts_increase(s, n + 1, end + 1);
        lemma_line_is_full(s, n);
    }
}

proof fn lemma_starts_increase(s: Seq<char>, i: int, j: int)
    requires
        0 <= i <= j <= line_count(s),
    ensures
        line_to_char(s, i) <= line_to_char(s, j) <= s.len(),
{
    lemma_starts(s);
    if i < j && j < line_count(s) {
        assert(line_starts(s)[i] < line_starts(s)[j]);
    }
}

proof fn lemma_line_is_full(s: Seq<char>, n: int)
    requires
        0 <= n < full_lines(s),
    ensures
        line_to_char(s, n) < line_to_char(s, n + 1),
{
    lemma_starts(s);
    if n + 1 < line_count(s) {
        assert(line_starts(s)[n] < line_starts(s)[n + 1]);
    } else if line_starts(s)[n] == s.len() {
        lemma_last_line(s);
        assert(is_line_start(s, line_starts(s)[n]));
    }
}

/// A range holds no existing line that was not asked for, as long as one that was asked
/// for exists.
pub proof fn only_asked_lines_are_in_the_range(s: Seq<char>, from: int, to: int, n: int)
    requires
        0 < from < to,
        from <= full_lines(s),
        0 <= n < full_lines(s),
        clamped(s, from, to).0 <= line_to_char(s, n) < clamped(s, from, to).1,
    ensures
        from <= n + 1 < to,
{
    lemma_starts(s);
    lemma_last_line(s);
    let last = char_to_line(s, s.len() - 1);
    let end = min(max(to - 2, from - 1), last);
    if n < from - 1 {
        lemma_line_is_full(s, n);
        lemma_starts_increase(s, n + 1, from - 1);
    }
    if n > end {
        lemma_starts_increase(s, end + 1, n);
    }
}

/// Characters of the one-based `lines` in `text`, clamped to its content lines
/// so that short and empty documents still get a valid (possibly empty) range.
pub fn line_range(text: &Rope, lines: Range<usize>) -> (r: Range<usize>)
    ensures
        (r.start as int, r.end as int) == clamped(text@, lines.start as int, lines.end as int),
        r.start <= r.end <= text@.len(),
{
    proof {
        clamped_ranges_are_in_bounds(text@, lines.start as int, lines.end as int);
    }
    let len: usize = text.len_chars();
    if len == 0 {
        return 0..0;
    }
    // The line holding the final character; a trailing newline adds no line.
    let last: usize = text.char_to_line(len - 1);
    let wanted: usize = if lines.start > 1 { lines.start - 1 } else { 0 };
    let first: usize = if wanted < last { wanted } else { last };
    let wanted: usize = if lines.end > 2 { lines.end - 2 } else { 0 };
    let end: usize = if wanted < first { first } else { wanted };
    let end: usize = if end < last { end } else { last };
    let total: usize = text.len_lines();
    assert(end < total);
    text.line_to_char(first)..text.line_to_char(end + 1)
}

/// Where a discussion of the range that ends at `end` is attached.
pub open spec fn anchored(s: Seq<char>, end: int) -> int {
    if end == 0 || end > s.len() {
        min(end, s.len() as int)
    } else {
        let at = if end - 1 > 0 && s[end - 1] == '\n' && s[end - 2] == '\r' {
            end - 2
        } else {
            end - 1
        };
        if end == s.len() && s[at] != '\n' && s[at] != '\r' {
            end
        } else {
            at
        }
    }
}

/// Anchor at the terminating newline of `range` (before a `\r\n` pair), or at
/// EOF for an unterminated final line and empty documents.
pub fn anchor(text: &Rope, range: &Range<usize>) -> (r: usize)
    ensures
        r == anchored(text@, range.end as int),
        r <= text@.len(),
{
    let len: usize = text.len_chars();
    if range.end == 0 || range.end > len {
        return if range.end < len { range.end } else { len };
    }
    let mut anchor: usize = range.end - 1;
    if anchor > 0 && text.char(anchor) == '\n' && text.char(anchor - 1) == '\r' {
        anchor -= 1;
    }
    if range.end == len {
        let c = text.char(anchor);
        if c != '\n' && c != '\r' {
            anchor = range.end;
        }
    }
    anchor
}

proof fn lemma_shift_bounded(hunks: Seq<Hunk>, k: int, n: int)
    requires
        0 <= k <= hunks.len(),
        0 <= n,
        forall|j: int|
            0 <= j < hunks.len() ==> (#[trigger] hunks[j]).old_len <= n && hunks[j].new_len <= n,
    ensures
        -(k * n) <= shift(hunks, k) <= k * n,
    decreases k,
{
    if k > 0 {
        lemma_shift_bounded(hunks, k - 1, n);
        assert(hunks[k - 1].old_len <= n && hunks[k - 1].new_len <= n);
        assert(k * n == (k - 1) * n + n) by (nonlinear_arith);
    } else {
        assert(0 * n == 0) by (nonlinear_arith);
    }
}

/// Lines of ordinary files can be followed: where no number of the changes is greater
/// than `n`, as many changes do as stay within what a machine counts.
pub proof fn lines_of_ordinary_files_can_be_followed(
    from: int,
    to: int,
    hunks: Seq<Hunk>,
    n: int,
)
    requires
        0 <= from <= n,
        0 < to <= n,
        forall|j: int|
            0 <= j < hunks.len() ==> (#[trigger] hunks[j]).old_start + hunks[j].old_len <= n
                && hunks[j].new_start + hunks[j].new_len <= n,
        (hunks.len() + 1) * n <= isize::MAX,
    ensures
        trackable(from, to, hunks),
{
    let m = hunks.len() as int;
    assert(n <= (m + 1) * n) by (nonlinear_arith)
        requires
            0 <= m,
            0 <= n,
    ;
    assert forall|k: int| 0 <= k <= hunks.len() implies -isize::MAX <= #[trigger] shift(hunks, k)
        && from + shift(hunks, k) <= isize::MAX && to + shift(hunks, k) <= isize::MAX && shift(
        hunks,
        k,
    ) <= isize::MAX by {
        lemma_shift_bounded(hunks, k, n);
        assert(k * n + n <= (m + 1) * n) by (nonlinear_arith)
            requires
                0 <= k <= m,
                0 <= n,
        ;
    }
}

} // verus!
