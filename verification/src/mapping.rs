//! Exact placement of reviewed lines, by their unchanged surroundings.
use std::collections::HashMap;
use std::ops::Range;

use vstd::prelude::*;
use vstd::utf8::encode_utf8;

use crate::placement::{
    aligned, chained, clamped, diffable, ends_before, followed, full_lines, hunk_of, hunks_of,
    line_changes, line_hunks, line_range, max, meets, min, shift, stays, track, trackable,
    Placement,
};
use crate::rope::{
    char_to_line, is_line_start, lemma_line_of, lemma_line_start, lemma_starts, line, line_count,
    line_starts, line_to_char, Rope,
};
use crate::text::{equal, occurs, text};

verus! {

/// The largest text, in bytes, that is searched.
pub const LIMIT: usize = 2097152;

/// Lines that occur more often than this are not searched for.
pub const REPEATS: usize = 64;

/// The FNV-1a hash of a byte string.
pub open spec fn fnv(bytes: Seq<u8>) -> u64
    decreases bytes.len(),
{
    if bytes.len() == 0 {
        0xcbf29ce484222325u64
    } else {
        (fnv(bytes.drop_last()) ^ (bytes.last() as u64)).wrapping_mul(0x100000001b3u64)
    }
}

/// The fingerprint of a line.
pub open spec fn fingerprint(s: Seq<char>) -> u64 {
    fnv(encode_utf8(s))
}

/// Where lines with fingerprint `hash` start among the first `n` lines of `s`.
/// The list ends with the first one that is more than the limit.
pub open spec fn places(s: Seq<char>, n: int, hash: u64) -> Seq<usize>
    decreases n,
{
    if n <= 0 {
        seq![]
    } else {
        let rest = places(s, n - 1, hash);
        let text = line(s, n - 1);
        if text.len() > 0 && fingerprint(text) == hash && rest.len() <= REPEATS {
            rest.push(line_to_char(s, n - 1) as usize)
        } else {
            rest
        }
    }
}

pub open spec fn candidates(s: Seq<char>, hash: u64) -> Seq<usize> {
    places(s, line_count(s), hash)
}

/// The starts of `needle` in `s` that put its `offset`th character at one of
/// the candidates.
pub open spec fn matches(
    s: Seq<char>,
    found: Seq<usize>,
    needle: Seq<char>,
    offset: int,
) -> Seq<int>
    decreases found.len(),
{
    if found.len() == 0 {
        seq![]
    } else {
        let rest = matches(s, found.drop_last(), needle, offset);
        let start = found.last() - offset;
        if occurs(s, needle, start) {
            rest.push(start)
        } else {
            rest
        }
    }
}

/// The only place of `needle`, by a line of it with fingerprint `hash`.
pub open spec fn unique(s: Seq<char>, needle: Seq<char>, offset: int, hash: u64) -> Option<int> {
    let found = candidates(s, hash);
    let at = matches(s, found, needle, offset);
    if found.len() <= REPEATS && at.len() == 1 {
        Some(at[0])
    } else {
        None
    }
}

/// A line of a window: its offset in the window, its fingerprint and how often
/// that occurs.
#[verifier::ext_equal]
pub struct Rare {
    pub offset: usize,
    pub hash: u64,
    pub count: usize,
}

/// The rarest of the lines from `first` to `last` of `source`: the first one
/// with the least number of occurrences in either text. `None` if one of the
/// lines does not occur in `local`; `Some(None)` if no line holds a character.
pub open spec fn rarest(source: Seq<char>, local: Seq<char>, first: int, last: int) -> Option<
    Option<Rare>,
>
    decreases last - first,
{
    if last <= first {
        Some(None)
    } else {
        match rarest(source, local, first, last - 1) {
            None => None,
            Some(best) => {
                let text = line(source, last - 1);
                let hash = fingerprint(text);
                let here = candidates(source, hash).len();
                let there = candidates(local, hash).len();
                if text.len() == 0 {
                    Some(best)
                } else if here == 0 || there == 0 {
                    None
                } else {
                    let count = max(here as int, there as int);
                    let this = Rare {
                        offset: (line_to_char(source, last - 1) - line_to_char(source, first))
                            as usize,
                        hash,
                        count: count as usize,
                    };
                    match best {
                        Some(other) => if count < other.count {
                            Some(Some(this))
                        } else {
                            Some(best)
                        },
                        None => Some(Some(this)),
                    }
                }
            },
        }
    }
}

/// The lines `from` to `to` (one-based, half-open) lie in the text. Behind a
/// final line feed there is no line.
pub open spec fn exist(source: Seq<char>, from: int, to: int) -> bool {
    0 < from < to && to - 1 <= full_lines(source)
}

/// Where lines `from` to `to` of `source` (one-based, half-open) are in
/// `local`, with up to three lines of context on both sides unchanged, and
/// nowhere else. The character range.
pub open spec fn located(source: Seq<char>, local: Seq<char>, from: int, to: int) -> Option<
    (int, int),
> {
    if !exist(source, from, to) {
        None
    } else {
        let start = line_to_char(source, from - 1);
        let end = line_to_char(source, to - 1);
        let first = max(from - 4, 0);
        let last = min(to + 2, line_count(source));
        let window = (line_to_char(source, first), line_to_char(source, last));
        let needle = source.subrange(window.0, window.1);
        if source == local {
            Some((start, end))
        } else {
            match rarest(source, local, first, last) {
                Some(Some(rare)) => {
                    let offset = rare.offset as int;
                    match (
                        unique(source, needle, offset, rare.hash),
                        unique(local, needle, offset, rare.hash),
                    ) {
                        (Some(_), Some(at)) => if window.1 == source.len() && source.last() != '\n'
                            && at + needle.len() != local.len() {
                            None
                        } else if !is_line_start(local, at) {
                            None
                        } else {
                            Some((at + start - window.0, at + end - window.0))
                        },
                        _ => None,
                    }
                },
                _ => None,
            }
        }
    }
}

/// Where the lines are shown, and how that was found.
pub open spec fn placed(source: Seq<char>, local: Seq<char>, from: int, to: int) -> (
    (int, int),
    Placement,
) {
    match located(source, local, from, to) {
        Some(range) => (range, Placement::Exact),
        None => if source == local || !exist(source, from, to) {
            (clamped(local, from, to), Placement::Approximate)
        } else {
            let lines = followed(from, to, hunks_of(line_changes(source, local)));
            (clamped(local, lines.0, lines.1), Placement::Changed)
        },
    }
}

fn hash_line(line: &[char]) -> (r: u64)
    ensures
        r == fingerprint(line@),
{
    let s = text(line);
    let bytes = s.as_str().as_bytes();
    let mut r: u64 = 0xcbf29ce484222325;
    let mut i: usize = 0;
    while i < bytes.len()
        invariant
            i <= bytes@.len(),
            r == fnv(bytes@.take(i as int)),
        decreases bytes@.len() - i,
    {
        assert(bytes@.take(i + 1).drop_last() =~= bytes@.take(i as int));
        r = (r ^ (bytes[i] as u64)).wrapping_mul(0x100000001b3);
        i += 1;
    }
    assert(bytes@.take(i as int) =~= bytes@);
    r
}

/// Line fingerprints of one text. Fingerprints only select candidates; whole
/// comparisons prove each match, so collisions cannot mis-place code.
struct LineIndex {
    found: HashMap<u64, Vec<usize>>,
}

impl LineIndex {
    spec fn holds(self, s: Seq<char>, n: int) -> bool {
        &&& forall|hash: u64| #[trigger]
            self.found@.contains_key(hash) <==> places(s, n, hash).len() > 0
        &&& forall|hash: u64| #[trigger]
            self.found@.contains_key(hash) ==> self.found@[hash]@ == places(s, n, hash)
    }

    fn empty() -> (r: LineIndex)
        ensures
            r.holds(Seq::empty(), 0),
    {
        broadcast use vstd::std_specs::hash::group_hash_axioms;

        LineIndex { found: HashMap::new() }
    }

    fn new(rope: &Rope) -> (r: LineIndex)
        ensures
            r.holds(rope@, line_count(rope@)),
    {
        broadcast use vstd::std_specs::hash::group_hash_axioms;

        let mut index = LineIndex::empty();
        let ghost s = rope@;
        assert(index.holds(s, 0));
        let total: usize = rope.len_lines();
        let mut n: usize = 0;
        while n < total
            invariant
                n <= total,
                total == line_count(s),
                s == rope@,
                index.holds(s, n as int),
            decreases total - n,
        {
            proof {
                lemma_starts(s);
                if n + 1 < total {
                    assert(line_starts(s)[n as int] < line_starts(s)[n + 1]);
                }
            }
            let start: usize = rope.line_to_char(n);
            let end: usize = rope.line_to_char(n + 1);
            let text = rope.slice(start, end);
            assert(text@ == line(s, n as int));
            let ghost before = index;
            if text.len() > 0 {
                let hash: u64 = hash_line(text);
                let mut list = match index.found.remove(&hash) {
                    Some(list) => list,
                    None => Vec::new(),
                };
                assert(list@ =~= places(s, n as int, hash));
                if list.len() <= REPEATS {
                    list.push(start);
                }
                assert(list@ == places(s, n + 1, hash));
                index.found.insert(hash, list);
                assert forall|other: u64| places(s, n + 1, other) == #[trigger] places(
                    s,
                    n as int,
                    other,
                ) || other == hash by {}
                assert forall|other: u64| #[trigger]
                    index.found@.contains_key(other) <==> places(s, n + 1, other).len() > 0 by {
                    assert(before.found@.contains_key(other) <==> places(s, n as int, other).len() > 0);
                    assert(places(s, n + 1, other) == places(s, n as int, other) || other == hash);
                }
                assert forall|other: u64| #[trigger] index.found@.contains_key(other) implies
                    index.found@[other]@ == places(s, n + 1, other) by {
                    assert(before.found@.contains_key(other) <==> places(s, n as int, other).len() > 0);
                    assert(places(s, n + 1, other) == places(s, n as int, other) || other == hash);
                }
            } else {
                assert forall|other: u64| places(s, n + 1, other) == #[trigger] places(
                    s,
                    n as int,
                    other,
                ) by {}
                assert(index.holds(s, n + 1));
            }
            n += 1;
        }
        index
    }

    /// How often lines with the fingerprint occur, up to one more than the limit.
    fn count(&self, Ghost(s): Ghost<Seq<char>>, hash: u64) -> (r: usize)
        requires
            self.holds(s, line_count(s)),
        ensures
            r == candidates(s, hash).len(),
    {
        broadcast use vstd::std_specs::hash::group_hash_axioms;

        match self.found.get(&hash) {
            Some(list) => list.len(),
            None => {
                assert(!self.found@.contains_key(hash));
                0
            },
        }
    }

    fn unique(&self, rope: &Rope, needle: &[char], offset: usize, hash: u64) -> (r: Option<usize>)
        requires
            self.holds(rope@, line_count(rope@)),
        ensures
            match r {
                Some(at) => unique(rope@, needle@, offset as int, hash) == Some(at as int),
                None => unique(rope@, needle@, offset as int, hash) is None,
            },
    {
        broadcast use vstd::std_specs::hash::group_hash_axioms;

        let ghost s = rope@;
        let list = match self.found.get(&hash) {
            Some(list) => list,
            None => {
                assert(!self.found@.contains_key(hash));
                assert(candidates(s, hash) =~= seq![]);
                return None;
            },
        };
        if list.len() > REPEATS {
            return None;
        }
        let len: usize = rope.len_chars();
        let mut found: Option<usize> = None;
        let mut i: usize = 0;
        while i < list.len()
            invariant
                i <= list@.len(),
                len == rope@.len(),
                s == rope@,
                match found {
                    Some(at) => matches(s, list@.take(i as int), needle@, offset as int) =~= seq![
                        at as int,
                    ],
                    None => matches(s, list@.take(i as int), needle@, offset as int).len() == 0,
                },
                list@ == candidates(s, hash),
                list@.len() <= REPEATS,
            decreases list@.len() - i,
        {
            let at: usize = list[i];
            assert(list@.take(i + 1).drop_last() =~= list@.take(i as int));
            if at >= offset {
                let start: usize = at - offset;
                if start <= len && needle.len() <= len - start {
                    let here = rope.slice(start, start + needle.len());
                    if equal(here, needle) {
                        if found.is_some() {
                            proof {
                                lemma_matches_grow(s, list@, needle@, offset as int, i + 1);
                            }
                            return None;
                        }
                        found = Some(start);
                    }
                }
            }
            i += 1;
        }
        assert(list@.take(i as int) =~= list@);
        found
    }
}

proof fn lemma_matches_grow(
    s: Seq<char>,
    found: Seq<usize>,
    needle: Seq<char>,
    offset: int,
    n: int,
)
    requires
        0 <= n <= found.len(),
    ensures
        matches(s, found.take(n), needle, offset).len() <= matches(s, found, needle, offset).len(),
    decreases found.len(),
{
    if n < found.len() {
        lemma_matches_grow(s, found.drop_last(), needle, offset, n);
        assert(found.drop_last().take(n) =~= found.take(n));
    } else {
        assert(found.take(n) =~= found);
    }
}

proof fn lemma_matches(s: Seq<char>, found: Seq<usize>, needle: Seq<char>, offset: int, i: int)
    requires
        0 <= i < matches(s, found, needle, offset).len(),
    ensures
        occurs(s, needle, matches(s, found, needle, offset)[i]),
    decreases found.len(),
{
    if found.len() > 0 {
        let rest = matches(s, found.drop_last(), needle, offset);
        if i < rest.len() {
            lemma_matches(s, found.drop_last(), needle, offset, i);
        }
    }
}

/// An exact placement is on the reviewed code itself: the range holds the same
/// characters, in whole lines.
pub proof fn exact_placement_keeps_the_code(
    source: Seq<char>,
    local: Seq<char>,
    from: int,
    to: int,
)
    requires
        located(source, local, from, to) is Some,
    ensures
        ({
            let range = located(source, local, from, to)->0;
            &&& 0 <= range.0 < range.1 <= local.len()
            &&& is_line_start(local, range.0)
            &&& local.subrange(range.0, range.1) == source.subrange(
                line_to_char(source, from - 1),
                line_to_char(source, to - 1),
            )
        }),
{
    lemma_starts(source);
    let starts = line_starts(source);
    let start = line_to_char(source, from - 1);
    let end = line_to_char(source, to - 1);
    let first = max(from - 4, 0);
    let last = min(to + 2, line_count(source));
    let a = line_to_char(source, first);
    let b = line_to_char(source, last);
    lemma_order(source, first, from - 1);
    lemma_order(source, from - 1, to - 1);
    lemma_order(source, to - 1, last);
    if source != local {
        let rare = (rarest(source, local, first, last)->0)->0;
        let needle = source.subrange(a, b);
        let offset = rare.offset as int;
        let at = unique(local, needle, offset, rare.hash)->0;
        lemma_matches(local, candidates(local, rare.hash), needle, offset, 0);
        assert(occurs(local, needle, at));
        let range = (at + start - a, at + end - a);
        assert forall|i: int| start <= i < end implies local[at - a + i] == #[trigger] source[i] by {
            assert(needle[i - a] == source[i]);
            assert(local.subrange(at, at + needle.len())[i - a] == local[at - a + i]);
        }
        assert(local.subrange(range.0, range.1) =~= source.subrange(start, end));
        if start > a {
            assert(source[start - 1] == needle[start - 1 - a]);
            assert(local.subrange(at, at + needle.len())[start - 1 - a] == local[range.0 - 1]);
            assert(is_line_start(source, start));
        }
    } else {
        assert(is_line_start(source, start));
    }
}

proof fn lemma_order(s: Seq<char>, i: int, j: int)
    requires
        0 <= i <= j <= line_count(s),
    ensures
        0 <= line_to_char(s, i) <= line_to_char(s, j) <= s.len(),
{
    lemma_starts(s);
    if i < j && j < line_count(s) {
        assert(line_starts(s)[i] < line_starts(s)[j]);
    }
}

proof fn lemma_between(s: Seq<char>, n: int, i: int)
    requires
        0 <= n < line_count(s),
        line_to_char(s, n) < i < line_to_char(s, n + 1),
    ensures
        !is_line_start(s, i),
{
    lemma_starts(s);
    lemma_line_of(s, i);
    lemma_line_start(s, i);
    let m = char_to_line(s, i);
    if m < n {
        assert(line_starts(s)[m] < line_starts(s)[n]);
    }
    if n + 1 < m {
        assert(line_starts(s)[n + 1] < line_starts(s)[m]);
    }
}

/// A line has at most one line feed, at its end; only the last line may lack it.
proof fn lemma_line_shape(s: Seq<char>, n: int)
    requires
        0 <= n < line_count(s),
    ensures
        ({
            let start = line_to_char(s, n);
            let end = line_to_char(s, n + 1);
            &&& 0 <= start <= end <= s.len()
            &&& is_line_start(s, start)
            &&& forall|i: int| start <= i < end - 1 ==> #[trigger] s[i] != '\n'
            &&& start < end ==> s[end - 1] == '\n' || end == s.len()
        }),
{
    lemma_starts(s);
    lemma_order(s, n, n + 1);
    let start = line_to_char(s, n);
    let end = line_to_char(s, n + 1);
    assert(line_starts(s)[n] == start);
    assert forall|i: int| start <= i < end - 1 implies #[trigger] s[i] != '\n' by {
        lemma_between(s, n, i + 1);
    }
    if n + 1 < line_count(s) {
        assert(is_line_start(s, line_starts(s)[n + 1]));
    }
}

/// Characters that look like one line are one.
proof fn lemma_line_at(s: Seq<char>, start: int, end: int)
    requires
        0 <= start < end <= s.len(),
        is_line_start(s, start),
        forall|i: int| start <= i < end - 1 ==> #[trigger] s[i] != '\n',
        s[end - 1] == '\n' || end == s.len(),
    ensures
        ({
            let n = char_to_line(s, start);
            &&& 0 <= n < line_count(s)
            &&& line_to_char(s, n) == start
            &&& line(s, n) == s.subrange(start, end)
        }),
{
    lemma_starts(s);
    lemma_line_of(s, start);
    lemma_line_start(s, start);
    let n = char_to_line(s, start);
    lemma_line_shape(s, n);
    let next = line_to_char(s, n + 1);
    if next < end {
        assert(n + 1 < line_count(s));
        assert(is_line_start(s, line_starts(s)[n + 1]));
        assert(line_starts(s)[n] < line_starts(s)[n + 1]);
        assert(s[next - 1] == '\n');
    }
    if end < next {
        assert(is_line_start(s, end));
        lemma_between(s, n, end);
    }
}

proof fn lemma_rarest(source: Seq<char>, local: Seq<char>, first: int, last: int)
    requires
        0 <= first,
        last <= line_count(source),
        source.len() <= usize::MAX,
    ensures
        rarest(source, local, first, last) matches Some(Some(rare)) ==> exists|k: int|
            first <= k < last && (#[trigger] line(source, k)).len() > 0 && rare.offset
                == line_to_char(source, k) - line_to_char(source, first) && rare.hash
                == fingerprint(line(source, k)),
    decreases last - first,
{
    if first < last {
        lemma_rarest(source, local, first, last - 1);
        lemma_order(source, first, last - 1);
        if let Some(Some(rare)) = rarest(source, local, first, last) {
            if rarest(source, local, first, last - 1) != Some(Some(rare)) {
                assert(line(source, last - 1).len() > 0);
            } else {
                let k = choose|k: int|
                    first <= k < last - 1 && (#[trigger] line(source, k)).len() > 0 && rare.offset
                        == line_to_char(source, k) - line_to_char(source, first) && rare.hash
                        == fingerprint(line(source, k));
                assert(line(source, k).len() > 0);
            }
        }
    }
}

proof fn lemma_places(s: Seq<char>, n: int, hash: u64, i: int)
    requires
        0 <= i < n <= line_count(s),
        line(s, i).len() > 0,
        fingerprint(line(s, i)) == hash,
        places(s, n, hash).len() <= REPEATS,
    ensures
        places(s, n, hash).contains(line_to_char(s, i) as usize),
    decreases n,
{
    let rest = places(s, n - 1, hash);
    let all = places(s, n, hash);
    if i < n - 1 {
        lemma_places(s, n - 1, hash, i);
        let k = rest.index_of(line_to_char(s, i) as usize);
        assert(all[k] == rest[k]);
    } else {
        assert(all.last() == line_to_char(s, i) as usize);
    }
}

proof fn lemma_matches_hold(
    s: Seq<char>,
    found: Seq<usize>,
    needle: Seq<char>,
    offset: int,
    x: usize,
)
    requires
        found.contains(x),
        occurs(s, needle, x - offset),
    ensures
        matches(s, found, needle, offset).contains(x - offset),
    decreases found.len(),
{
    let rest = matches(s, found.drop_last(), needle, offset);
    let all = matches(s, found, needle, offset);
    if found.last() == x {
        assert(all.last() == x - offset);
    } else {
        let k = found.index_of(x);
        assert(found.drop_last()[k] == x);
        lemma_matches_hold(s, found.drop_last(), needle, offset, x);
        let j = rest.index_of(x - offset);
        assert(all[j] == rest[j]);
    }
}

/// The reviewed lines with their context: up to three lines on both sides.
pub open spec fn window(source: Seq<char>, from: int, to: int) -> Seq<char> {
    source.subrange(
        line_to_char(source, max(from - 4, 0)),
        line_to_char(source, min(to + 2, line_count(source))),
    )
}

/// Where the context of the lines starts if the lines are placed at `start`.
pub open spec fn window_start(source: Seq<char>, from: int, start: int) -> int {
    start - line_to_char(source, from - 1) + line_to_char(source, max(from - 4, 0))
}

/// The lines with their context are whole lines of a text at `at`.
pub open spec fn stands_at(text: Seq<char>, needle: Seq<char>, at: int) -> bool {
    &&& occurs(text, needle, at)
    &&& is_line_start(text, at)
    &&& is_line_start(text, at + needle.len()) || at + needle.len() == text.len()
}

/// Where the rarest line of a context is unique, the context is.
proof fn lemma_unique(
    source: Seq<char>,
    local: Seq<char>,
    text: Seq<char>,
    from: int,
    to: int,
    other: int,
)
    requires
        source.len() <= usize::MAX,
        text.len() <= usize::MAX,
        source != local,
        located(source, local, from, to) is Some,
        ({
            let rare = (rarest(
                source,
                local,
                max(from - 4, 0),
                min(to + 2, line_count(source)),
            )->0)->0;
            unique(text, window(source, from, to), rare.offset as int, rare.hash) is Some
        }),
        stands_at(text, window(source, from, to), other),
    ensures
        ({
            let rare = (rarest(
                source,
                local,
                max(from - 4, 0),
                min(to + 2, line_count(source)),
            )->0)->0;
            unique(text, window(source, from, to), rare.offset as int, rare.hash) == Some(other)
        }),
{
    let first = max(from - 4, 0);
    let last = min(to + 2, line_count(source));
    let needle = window(source, from, to);
    let a = line_to_char(source, first);
    let rare = (rarest(source, local, first, last)->0)->0;
    let offset = rare.offset as int;
    lemma_starts(source);
    lemma_order(source, first, last);
    lemma_rarest(source, local, first, last);
    let k = choose|k: int|
        first <= k < last && (#[trigger] line(source, k)).len() > 0 && rare.offset == line_to_char(
            source,
            k,
        ) - line_to_char(source, first) && rare.hash == fingerprint(line(source, k));
    let row = line(source, k);
    lemma_line_shape(source, k);
    lemma_order(source, first, k);
    lemma_order(source, k + 1, last);
    let begin = other + offset;
    let end = begin + row.len();
    assert forall|i: int| 0 <= i < needle.len() implies #[trigger] text[other + i] == source[a
        + i] by {
        assert(text.subrange(other, other + needle.len())[i] == needle[i]);
    }
    if offset > 0 {
        assert(text[other + (offset - 1)] == source[a + (offset - 1)]);
    }
    assert(is_line_start(text, begin));
    assert forall|i: int| begin <= i < end - 1 implies #[trigger] text[i] != '\n' by {
        assert(text[other + (i - other)] == source[a + (i - other)]);
    }
    assert(text[other + (end - 1 - other)] == source[a + (end - 1 - other)]);
    lemma_line_at(text, begin, end);
    assert(text.subrange(begin, end) =~= row) by {
        assert forall|i: int| 0 <= i < row.len() implies text.subrange(begin, end)[i]
            == row[i] by {
            assert(text[other + (offset + i)] == source[a + (offset + i)]);
        }
    }
    let n = char_to_line(text, begin);
    lemma_places(text, line_count(text), rare.hash, n);
    lemma_matches_hold(text, candidates(text, rare.hash), needle, offset, begin as usize);
    let all = matches(text, candidates(text, rare.hash), needle, offset);
    assert(all.contains(other));
    lemma_matches(text, candidates(text, rare.hash), needle, offset, 0);
}

/// An exact placement in a changed document keeps the context of the lines too,
/// and is unambiguous: the lines with their context are whole lines of the
/// document nowhere else.
pub proof fn exact_placement_is_unambiguous(
    source: Seq<char>,
    local: Seq<char>,
    from: int,
    to: int,
    other: int,
)
    requires
        source.len() <= usize::MAX,
        local.len() <= usize::MAX,
        source != local,
        located(source, local, from, to) is Some,
        stands_at(local, window(source, from, to), other),
    ensures
        ({
            let at = window_start(source, from, (located(source, local, from, to)->0).0);
            occurs(local, window(source, from, to), at) && other == at
        }),
{
    lemma_unique(source, local, local, from, to, other);
}

/// Lines with an exact placement in a changed document are unambiguous in the
/// reviewed text too: with their context they are whole lines of it nowhere else.
pub proof fn exactly_placed_lines_are_unambiguous(
    source: Seq<char>,
    local: Seq<char>,
    from: int,
    to: int,
    other: int,
)
    requires
        source.len() <= usize::MAX,
        source != local,
        located(source, local, from, to) is Some,
        stands_at(source, window(source, from, to), other),
    ensures
        other == line_to_char(source, max(from - 4, 0)),
{
    let first = max(from - 4, 0);
    let last = min(to + 2, line_count(source));
    let start = line_to_char(source, first);
    let needle = window(source, from, to);
    lemma_starts(source);
    lemma_order(source, first, last);
    assert(stands_at(source, needle, start)) by {
        assert(line_starts(source)[first] == start);
        if last < line_count(source) {
            assert(is_line_start(source, line_starts(source)[last]));
        }
    }
    lemma_unique(source, local, source, from, to, start);
    lemma_unique(source, local, source, from, to, other);
}

/// How many of the first `n` lines of `s` hold a character and have the fingerprint.
pub open spec fn alike(s: Seq<char>, n: int, hash: u64) -> nat
    decreases n,
{
    if n <= 0 {
        0
    } else {
        alike(s, n - 1, hash) + if line(s, n - 1).len() > 0 && fingerprint(line(s, n - 1)) == hash {
            1nat
        } else {
            0
        }
    }
}

proof fn lemma_places_count(s: Seq<char>, n: int, hash: u64)
    requires
        n <= line_count(s),
        s.len() <= usize::MAX,
    ensures
        places(s, n, hash).len() == min(alike(s, n, hash) as int, REPEATS + 1),
        forall|i: int|
            0 <= i < places(s, n, hash).len() ==> #[trigger] places(s, n, hash)[i] < line_to_char(
                s,
                n,
            ) || n == line_count(s),
        forall|i: int, j: int|
            0 <= i < j < places(s, n, hash).len() ==> #[trigger] places(s, n, hash)[i]
                < #[trigger] places(s, n, hash)[j],
    decreases n,
{
    if n > 0 {
        lemma_places_count(s, n - 1, hash);
        lemma_starts(s);
        if n < line_count(s) {
            assert(line_starts(s)[n - 1] < line_starts(s)[n]);
        }
    }
}

/// Every match stands once in the list.
proof fn lemma_matches_increase(s: Seq<char>, found: Seq<usize>, needle: Seq<char>, offset: int)
    requires
        forall|i: int, j: int|
            0 <= i < j < found.len() ==> #[trigger] found[i] < #[trigger] found[j],
    ensures
        forall|i: int, j: int|
            0 <= i < j < matches(s, found, needle, offset).len() ==> #[trigger] matches(
                s,
                found,
                needle,
                offset,
            )[i] < #[trigger] matches(s, found, needle, offset)[j],
        forall|i: int|
            0 <= i < matches(s, found, needle, offset).len() ==> found.len() > 0
                && #[trigger] matches(s, found, needle, offset)[i] <= found.last() - offset,
    decreases found.len(),
{
    if found.len() > 0 {
        let rest = found.drop_last();
        let some = matches(s, rest, needle, offset);
        let all = matches(s, found, needle, offset);
        assert forall|i: int, j: int| 0 <= i < j < rest.len() implies #[trigger] rest[i]
            < #[trigger] rest[j] by {
            assert(found[i] < found[j]);
        }
        lemma_matches_increase(s, rest, needle, offset);
        if rest.len() > 0 {
            assert(found[rest.len() - 1] < found[rest.len() as int]);
        }
        assert forall|i: int| 0 <= i < some.len() implies all[i] == #[trigger] some[i] && some[i]
            < found.last() - offset by {}
        assert forall|i: int| 0 <= i < all.len() implies #[trigger] all[i] <= found.last()
            - offset by {
            if i < some.len() {
                assert(all[i] == some[i]);
            }
        }
        assert forall|i: int, j: int| 0 <= i < j < all.len() implies #[trigger] all[i]
            < #[trigger] all[j] by {
            assert(all[i] == some[i]);
            if j < some.len() {
                assert(all[j] == some[j]);
            }
        }
    }
}

/// A line of the window is a line of a text in which the window stands.
proof fn lemma_window_line(
    source: Seq<char>,
    text: Seq<char>,
    from: int,
    to: int,
    at: int,
    k: int,
) -> (n: int)
    requires
        source.len() <= usize::MAX,
        text.len() <= usize::MAX,
        exist(source, from, to),
        stands_at(text, window(source, from, to), at),
        max(from - 4, 0) <= k < min(to + 2, line_count(source)),
        line(source, k).len() > 0,
    ensures
        0 <= n < line_count(text),
        line(text, n) == line(source, k),
        line_to_char(text, n) == at + line_to_char(source, k) - line_to_char(
            source,
            max(from - 4, 0),
        ),
{
    let first = max(from - 4, 0);
    let last = min(to + 2, line_count(source));
    let needle = window(source, from, to);
    let a = line_to_char(source, first);
    let row = line(source, k);
    lemma_starts(source);
    lemma_order(source, first, last);
    lemma_line_shape(source, k);
    lemma_order(source, first, k);
    lemma_order(source, k + 1, last);
    let offset = line_to_char(source, k) - a;
    let begin = at + offset;
    let end = begin + row.len();
    assert forall|i: int| 0 <= i < needle.len() implies #[trigger] text[at + i] == source[a
        + i] by {
        assert(text.subrange(at, at + needle.len())[i] == needle[i]);
    }
    if offset > 0 {
        assert(text[at + (offset - 1)] == source[a + (offset - 1)]);
    }
    assert(is_line_start(text, begin));
    assert forall|i: int| begin <= i < end - 1 implies #[trigger] text[i] != '\n' by {
        assert(text[at + (i - at)] == source[a + (i - at)]);
    }
    assert(text[at + (end - 1 - at)] == source[a + (end - 1 - at)]);
    lemma_line_at(text, begin, end);
    assert(text.subrange(begin, end) =~= row) by {
        assert forall|i: int| 0 <= i < row.len() implies text.subrange(begin, end)[i] == row[i] by {
            assert(text[at + (offset + i)] == source[a + (offset + i)]);
        }
    }
    char_to_line(text, begin)
}

/// A context that stands in both texts has a rarest line, no more frequent than any
/// other of its lines.
proof fn lemma_rarest_is_found(
    source: Seq<char>,
    local: Seq<char>,
    from: int,
    to: int,
    at: int,
    last: int,
    w: int,
)
    requires
        source.len() <= usize::MAX,
        local.len() <= usize::MAX,
        exist(source, from, to),
        stands_at(local, window(source, from, to), at),
        max(from - 4, 0) <= last <= min(to + 2, line_count(source)),
        w >= max(from - 4, 0),
        line(source, w).len() > 0,
    ensures
        rarest(source, local, max(from - 4, 0), last) matches Some(best) && (w < last ==> (
        best matches Some(rare) && rare.count <= max(
            candidates(source, fingerprint(line(source, w))).len() as int,
            candidates(local, fingerprint(line(source, w))).len() as int,
        ))),
        rarest(source, local, max(from - 4, 0), last) matches Some(Some(rare)) ==> rare.count
            == max(
            candidates(source, rare.hash).len() as int,
            candidates(local, rare.hash).len() as int,
        ),
    decreases last,
{
    let first = max(from - 4, 0);
    if first < last {
        lemma_rarest_is_found(source, local, from, to, at, last - 1, w);
        let row = line(source, last - 1);
        let hash = fingerprint(row);
        if row.len() > 0 {
            let n = lemma_window_line(source, local, from, to, at, last - 1);
            lemma_places_count(local, line_count(local), hash);
            lemma_places_count(source, line_count(source), hash);
            lemma_alike(local, line_count(local), n);
            lemma_alike(source, line_count(source), last - 1);
        }
    }
}

proof fn lemma_alike(s: Seq<char>, n: int, i: int)
    requires
        0 <= i < n,
        line(s, i).len() > 0,
    ensures
        alike(s, n, fingerprint(line(s, i))) > 0,
    decreases n,
{
    if i < n - 1 {
        lemma_alike(s, n - 1, i);
    }
}

/// Where a needle occurs at one place only, that place is found by any of its lines.
proof fn lemma_unique_is_found(
    source: Seq<char>,
    text: Seq<char>,
    from: int,
    to: int,
    at: int,
    k: int,
)
    requires
        source.len() <= usize::MAX,
        text.len() <= usize::MAX,
        exist(source, from, to),
        stands_at(text, window(source, from, to), at),
        forall|other: int| #[trigger]
            occurs(text, window(source, from, to), other) ==> other == at,
        max(from - 4, 0) <= k < min(to + 2, line_count(source)),
        line(source, k).len() > 0,
        candidates(text, fingerprint(line(source, k))).len() <= REPEATS,
    ensures
        unique(
            text,
            window(source, from, to),
            line_to_char(source, k) - line_to_char(source, max(from - 4, 0)),
            fingerprint(line(source, k)),
        ) == Some(at),
{
    let needle = window(source, from, to);
    let hash = fingerprint(line(source, k));
    let offset = line_to_char(source, k) - line_to_char(source, max(from - 4, 0));
    let found = candidates(text, hash);
    let n = lemma_window_line(source, text, from, to, at, k);
    lemma_places(text, line_count(text), hash, n);
    lemma_starts(text);
    let x = line_to_char(text, n) as usize;
    lemma_matches_hold(text, found, needle, offset, x);
    lemma_places_count(text, line_count(text), hash);
    lemma_matches_increase(text, found, needle, offset);
    let all = matches(text, found, needle, offset);
    assert(all.contains(at));
    lemma_matches(text, found, needle, offset, 0);
    if all.len() > 1 {
        lemma_matches(text, found, needle, offset, 1);
        assert(all[0] < all[1]);
    }
}

/// Lines whose context is unchanged are placed exactly: if the lines with their context
/// stand in the document as whole lines, and occur there and in the reviewed text at one
/// place only, they are placed there. One line of the context has to be rare enough to be
/// searched for.
pub proof fn unchanged_contexts_are_placed_exactly(
    source: Seq<char>,
    local: Seq<char>,
    from: int,
    to: int,
    at: int,
    w: int,
)
    requires
        source.len() <= usize::MAX,
        local.len() <= usize::MAX,
        source != local,
        0 < from < to,
        to - 1 <= full_lines(source),
        stands_at(local, window(source, from, to), at),
        forall|other: int| #[trigger]
            occurs(local, window(source, from, to), other) ==> other == at,
        forall|other: int| #[trigger]
            occurs(source, window(source, from, to), other) ==> other == line_to_char(
                source,
                max(from - 4, 0),
            ),
        to + 2 >= line_count(source) && source.last() != '\n' ==> at + window(
            source,
            from,
            to,
        ).len() == local.len(),
        max(from - 4, 0) <= w < min(to + 2, line_count(source)),
        line(source, w).len() > 0,
        alike(source, line_count(source), fingerprint(line(source, w))) <= REPEATS,
        alike(local, line_count(local), fingerprint(line(source, w))) <= REPEATS,
    ensures
        ({
            let start = at + line_to_char(source, from - 1) - line_to_char(
                source,
                max(from - 4, 0),
            );
            let size = line_to_char(source, to - 1) - line_to_char(source, from - 1);
            placed(source, local, from, to) == ((start, start + size), Placement::Exact)
        }),
{
    let first = max(from - 4, 0);
    let last = min(to + 2, line_count(source));
    let a = line_to_char(source, first);
    let needle = window(source, from, to);
    lemma_starts(source);
    lemma_order(source, first, last);
    lemma_rarest_is_found(source, local, from, to, at, last, w);
    lemma_rarest(source, local, first, last);
    lemma_places_count(source, line_count(source), fingerprint(line(source, w)));
    lemma_places_count(local, line_count(local), fingerprint(line(source, w)));
    let rare = (rarest(source, local, first, last)->0)->0;
    let k = choose|k: int|
        first <= k < last && (#[trigger] line(source, k)).len() > 0 && rare.offset == line_to_char(
            source,
            k,
        ) - line_to_char(source, first) && rare.hash == fingerprint(line(source, k));
    assert(line(source, k).len() > 0);
    assert(stands_at(source, needle, a)) by {
        assert(line_starts(source)[first] == a);
        if last < line_count(source) {
            assert(is_line_start(source, line_starts(source)[last]));
        }
    }
    lemma_unique_is_found(source, source, from, to, a, k);
    lemma_unique_is_found(source, local, from, to, at, k);
    if last < line_count(source) {
        assert(line_starts(source)[last] <= source.len());
        assert(is_line_start(source, line_starts(source)[last]));
    }
}

/// Undoing all changes restores the exact place: in the reviewed text itself the
/// lines are where they were.
pub proof fn undone_changes_restore_the_place(source: Seq<char>, from: int, to: int)
    requires
        exist(source, from, to),
    ensures
        placed(source, source, from, to) == (
            (line_to_char(source, from - 1), line_to_char(source, to - 1)),
            Placement::Exact,
        ),
{
}

/// Wherever lines are shown, the range lies in the document.
pub proof fn placements_are_in_bounds(source: Seq<char>, local: Seq<char>, from: int, to: int)
    ensures
        ({
            let range = placed(source, local, from, to).0;
            0 <= range.0 <= range.1 <= local.len()
        }),
{
    if located(source, local, from, to) is Some {
        exact_placement_keeps_the_code(source, local, from, to);
    } else {
        let lines = followed(from, to, hunks_of(line_changes(source, local)));
        crate::placement::clamped_ranges_are_in_bounds(local, from, to);
        crate::placement::clamped_ranges_are_in_bounds(local, lines.0, lines.1);
    }
}

/// Wherever the surroundings of a discussion changed, it stays with its code: each of its
/// lines (`i`) that no change replaces, between change `k` and the one before it, lies in
/// the range, as the line of the document that the difference pairs it with. So edits
/// above move a range of any length along.
pub proof fn changed_placements_follow_the_code(
    source: Seq<char>,
    local: Seq<char>,
    from: int,
    to: int,
    k: int,
    i: int,
)
    requires
        chained(line_changes(source, local), full_lines(source), full_lines(local)),
        aligned(line_changes(source, local), source, local),
        source != local,
        0 < from <= i < to,
        to - 1 <= full_lines(source),
        located(source, local, from, to) is None,
        0 <= k <= line_changes(source, local).len(),
        k > 0 ==> line_changes(source, local)[k - 1].0.1 < i,
        k < line_changes(source, local).len() ==> i <= line_changes(source, local)[k].0.0,
    ensures
        ({
            let c = line_changes(source, local);
            let (range, how) = placed(source, local, from, to);
            let n = if k > 0 {
                i - 1 - c[k - 1].0.1 + c[k - 1].1.1
            } else {
                i - 1
            };
            &&& how == Placement::Changed
            &&& 0 <= n < full_lines(local)
            &&& line(local, n) == line(source, i - 1)
            &&& range.0 <= line_to_char(local, n) < line_to_char(local, n + 1) <= range.1
        }),
{
    let c = line_changes(source, local);
    crate::placement::lines_outside_the_changes_are_carried_along(
        c,
        full_lines(source),
        full_lines(local),
        from,
        to,
        k,
        i,
    );
    let lines = followed(from, to, hunks_of(c));
    let n = i - 1 - ends_before(c, k).0 + ends_before(c, k).1;
    assert(stays(c, full_lines(source), k, i - 1));
    crate::placement::asked_lines_are_in_the_range(local, lines.0, lines.1, n);
}

/// And it stays with nothing else: each line of the document in the range (`n`, counted
/// from zero) is one of its lines that stayed, or new code of a change that replaces some
/// of them or inserts next to them, or the one just above the place where the first of
/// them was deleted.
pub proof fn changed_placements_hold_nothing_else(
    source: Seq<char>,
    local: Seq<char>,
    from: int,
    to: int,
    n: int,
)
    requires
        chained(line_changes(source, local), full_lines(source), full_lines(local)),
        source != local,
        0 < from < to,
        to - 1 <= full_lines(source),
        located(source, local, from, to) is None,
        0 <= n < full_lines(local),
        placed(source, local, from, to).0.0 <= line_to_char(local, n) < placed(
            source,
            local,
            from,
            to,
        ).0.1,
    ensures
        ({
            let c = line_changes(source, local);
            ||| exists|k: int, i: int|
                #[trigger] stays(c, full_lines(source), k, i) && from <= i + 1 < to && n == i
                    - ends_before(c, k).0 + ends_before(c, k).1
            ||| exists|k: int|
                0 <= k < c.len() && meets(#[trigger] c[k], from - 1, to - 1) && c[k].1.0 <= n
                    < c[k].1.1
            ||| exists|k: int|
                0 <= k < c.len() && (#[trigger] c[k]).1.0 == c[k].1.1 && c[k].0.0 <= from - 1
                    < c[k].0.1 && n == max(c[k].1.0 - 1, 0)
        }),
{
    let c = line_changes(source, local);
    let lines = followed(from, to, hunks_of(c));
    crate::placement::carried_ranges_stay_in_the_text(
        c,
        full_lines(source),
        full_lines(local),
        from,
        to,
    );
    crate::placement::carried_ranges_hold_a_line(from, to, hunks_of(c));
    crate::placement::only_asked_lines_are_in_the_range(local, lines.0, lines.1, n);
    crate::placement::carried_ranges_hold_nothing_else(
        c,
        full_lines(source),
        full_lines(local),
        from,
        to,
        n,
    );
}

/// Lines outside the reviewed text keep their numbers, as far as the document has them.
pub proof fn lines_outside_the_text_keep_their_numbers(
    source: Seq<char>,
    local: Seq<char>,
    from: int,
    to: int,
)
    requires
        0 < from < to,
        full_lines(source) < to - 1,
    ensures
        placed(source, local, from, to).1 == Placement::Approximate,
        to - 1 <= full_lines(local) ==> placed(source, local, from, to).0 == (
            line_to_char(local, from - 1),
            line_to_char(local, to - 1),
        ),
        to - 1 > full_lines(local) ==> placed(source, local, from, to).0.1 == local.len(),
{
    if to - 1 <= full_lines(local) {
        crate::placement::existing_lines_are_kept(local, from, to);
    } else if local.len() > 0 {
        crate::placement::missing_lines_are_clamped(local, from, to);
    }
}

proof fn lemma_bytes(s: Seq<char>)
    ensures
        s.len() <= encode_utf8(s).len(),
    decreases s.len(),
{
    if s.len() > 0 {
        lemma_bytes(s.drop_first());
    }
}

/// Maps lines of a reviewed text to a document.
pub struct LineMapper<'a> {
    source: &'a str,
    before: Rope,
    local: &'a Rope,
    equal: bool,
    before_index: LineIndex,
    after_index: LineIndex,
}

impl<'a> LineMapper<'a> {
    pub closed spec fn source(self) -> Seq<char> {
        self.source@
    }

    pub closed spec fn local(self) -> Seq<char> {
        self.local@
    }

    #[verifier::type_invariant]
    spec fn wf(self) -> bool {
        &&& self.before@ == self.source@
        &&& self.equal == (self.source@ == self.local@)
        &&& !self.equal ==> self.before_index.holds(self.before@, line_count(self.before@))
        &&& !self.equal ==> self.after_index.holds(self.local@, line_count(self.local@))
        &&& encode_utf8(self.source@).len() <= LIMIT
        &&& encode_utf8(self.local@).len() <= LIMIT
    }

    /// `None` if one of the texts is too large to be searched.
    pub fn new(source: &'a str, local: &'a Rope) -> (r: Option<LineMapper<'a>>)
        ensures
            match r {
                Some(m) => m.source() == source@ && m.local() == local@ && encode_utf8(
                    source@,
                ).len() <= LIMIT && encode_utf8(local@).len() <= LIMIT,
                None => encode_utf8(source@).len() > LIMIT || encode_utf8(local@).len() > LIMIT,
            },
    {
        let after = local.to_text();
        if source.as_bytes().len() > LIMIT || after.as_str().as_bytes().len() > LIMIT {
            return None;
        }
        let before = Rope::from(source);
        let equal = crate::text::same(source, &after);
        if equal {
            Some(
                LineMapper {
                    source,
                    before,
                    local,
                    equal,
                    before_index: LineIndex::empty(),
                    after_index: LineIndex::empty(),
                },
            )
        } else {
            let before_index = LineIndex::new(&before);
            Some(
                LineMapper {
                    source,
                    before,
                    local,
                    equal,
                    before_index,
                    after_index: LineIndex::new(local),
                },
            )
        }
    }

    /// The number of lines that hold a character.
    fn reviewed_lines(&self) -> (r: usize)
        ensures
            r == full_lines(self.before@),
    {
        proof {
            lemma_starts(self.before@);
        }
        let total: usize = self.before.len_lines();
        let size: usize = self.before.len_chars();
        if size == 0 || self.before.char(size - 1) == '\n' {
            total - 1
        } else {
            total
        }
    }

    fn find_rarest(&self, first: usize, last: usize) -> (r: Option<Option<Rare>>)
        requires
            !self.equal,
            first <= last <= line_count(self.before@),
        ensures
            r == rarest(self.before@, self.local@, first as int, last as int),
            r matches Some(Some(rare)) ==> rare.offset <= self.before@.len(),
    {
        proof {
            use_type_invariant(self);
        }
        let ghost source = self.before@;
        let ghost local = self.local@;
        let base: usize = self.before.line_to_char(first);
        let mut best: Option<Rare> = None;
        let mut n: usize = first;
        while n < last
            invariant
                first <= n <= last <= line_count(source),
                source == self.before@,
                local == self.local@,
                self.before_index.holds(source, line_count(source)),
                self.after_index.holds(local, line_count(local)),
                base == line_to_char(source, first as int),
                rarest(source, local, first as int, n as int) == Some(best),
                best matches Some(rare) ==> rare.offset <= source.len(),
            decreases last - n,
        {
            proof {
                lemma_order(source, first as int, n as int);
                lemma_order(source, n as int, n + 1);
            }
            let start: usize = self.before.line_to_char(n);
            let end: usize = self.before.line_to_char(n + 1);
            let text = self.before.slice(start, end);
            assert(text@ == line(source, n as int));
            if text.len() > 0 {
                let hash: u64 = hash_line(text);
                let here: usize = self.before_index.count(Ghost(source), hash);
                let there: usize = self.after_index.count(Ghost(local), hash);
                if here == 0 || there == 0 {
                    proof {
                        lemma_rarest_stops(source, local, first as int, n + 1, last as int);
                    }
                    return None;
                }
                let count: usize = if here >= there { here } else { there };
                let better = match &best {
                    Some(other) => count < other.count,
                    None => true,
                };
                if better {
                    best = Some(Rare { offset: start - base, hash, count });
                }
            }
            n += 1;
        }
        Some(best)
    }

    /// Place one-based `lines` of the snapshot: exact when the unchanged context
    /// can be verified, else carried through a line diff of the snapshot and the
    /// document, else at the clamped original line numbers.
    pub fn place(&self, lines: Range<usize>) -> (r: (Range<usize>, Placement))
        ensures
            ((r.0.start as int, r.0.end as int), r.1) == placed(
                self.source(),
                self.local(),
                lines.start as int,
                lines.end as int,
            ),
            r.0.start <= r.0.end <= self.local().len(),
            r.1 == Placement::Changed ==> chained(
                line_changes(self.source(), self.local()),
                full_lines(self.source()),
                full_lines(self.local()),
            ) && aligned(
                line_changes(self.source(), self.local()),
                self.source(),
                self.local(),
            ),
            r.1 == Placement::Changed ==> forall|k: int, i: int|
                lines.start <= i < lines.end && #[trigger] stays(
                    line_changes(self.source(), self.local()),
                    full_lines(self.source()),
                    k,
                    i - 1,
                ) ==> {
                    let ends = ends_before(line_changes(self.source(), self.local()), k);
                    let n = i - 1 - ends.0 + ends.1;
                    line(self.local(), n) == line(self.source(), i - 1) && r.0.start
                        <= line_to_char(self.local(), n) < line_to_char(self.local(), n + 1)
                        <= r.0.end
                },
    {
        proof {
            use_type_invariant(self);
            placements_are_in_bounds(
                self.source(),
                self.local(),
                lines.start as int,
                lines.end as int,
            );
        }
        match self.map(lines.start..lines.end) {
            Some(range) => return (range, Placement::Exact),
            None => {},
        }
        if self.equal || lines.start == 0 || lines.start >= lines.end || lines.end - 1
            > self.reviewed_lines() {
            return (line_range(self.local, lines), Placement::Approximate);
        }
        proof {
            lemma_diffable(self.source@);
            lemma_diffable(self.local@);
        }
        let hunks = line_hunks(self.source, &self.local.to_text());
        proof {
            lemma_trackable(self.source@, self.local@, lines.start as int, lines.end as int);
        }
        let ghost (from, to) = (lines.start as int, lines.end as int);
        let (_, moved) = track(lines, &hunks);
        proof {
            let c = line_changes(self.source@, self.local@);
            assert forall|k: int, i: int|
                from <= i < to && #[trigger] stays(c, full_lines(self.source@), k, i - 1) implies {
                let ends = ends_before(c, k);
                let n = i - 1 - ends.0 + ends.1;
                let range = placed(self.source@, self.local@, from, to).0;
                line(self.local@, n) == line(self.source@, i - 1) && range.0 <= line_to_char(
                    self.local@,
                    n,
                ) < line_to_char(self.local@, n + 1) <= range.1
            } by {
                changed_placements_follow_the_code(self.source@, self.local@, from, to, k, i);
            }
        }
        (line_range(self.local, moved), Placement::Changed)
    }

    pub fn map(&self, lines: Range<usize>) -> (r: Option<Range<usize>>)
        ensures
            match r {
                Some(range) => located(
                    self.source(),
                    self.local(),
                    lines.start as int,
                    lines.end as int,
                ) == Some((range.start as int, range.end as int)),
                None => located(
                    self.source(),
                    self.local(),
                    lines.start as int,
                    lines.end as int,
                ) is None,
            },
    {
        proof {
            use_type_invariant(self);
        }
        let ghost source = self.source@;
        let ghost local = self.local@;
        let total: usize = self.before.len_lines();
        if lines.start == 0 || lines.start >= lines.end || lines.end - 1
            > self.reviewed_lines() {
            return None;
        }
        let from: usize = lines.start - 1;
        let to: usize = lines.end - 1;
        let start: usize = self.before.line_to_char(from);
        let end: usize = self.before.line_to_char(to);
        if self.equal {
            return Some(start..end);
        }
        let first: usize = if from > 3 { from - 3 } else { 0 };
        let last: usize = if total - to > 3 { to + 3 } else { total };
        proof {
            lemma_order(source, first as int, from as int);
            lemma_order(source, from as int, to as int);
            lemma_order(source, to as int, last as int);
        }
        let window_start: usize = self.before.line_to_char(first);
        let window_end: usize = self.before.line_to_char(last);
        let needle = self.before.slice(window_start, window_end);
        // Choose the rarest line in the whole window, then verify the complete
        // context at every candidate. Overlapping occurrences count.
        let rare = match self.find_rarest(first, last) {
            Some(Some(rare)) => rare,
            Some(None) => return None,
            None => return None,
        };
        if self.before_index.unique(&self.before, needle, rare.offset, rare.hash).is_none() {
            return None;
        }
        let at: usize = match self.after_index.unique(self.local, needle, rare.offset, rare.hash) {
            Some(at) => at,
            None => return None,
        };
        proof {
            lemma_matches(
                local,
                candidates(local, rare.hash),
                needle@,
                rare.offset as int,
                0,
            );
            assert(occurs(local, needle@, at as int));
            lemma_line_start(local, at as int);
        }
        // An unterminated final source line must not match a prefix of a changed
        // local line ("four" -> "fourChanged"). Preserve the boundary.
        let size: usize = self.before.len_chars();
        let length: usize = self.local.len_chars();
        if window_end == size && self.before.char(size - 1) != '\n' && at + needle.len()
            != length {
            return None;
        }
        // Never map a code line to a substring inside another line.
        if self.local.line_to_char(self.local.char_to_line(at)) != at {
            return None;
        }
        Some(at + (start - window_start)..at + (end - window_start))
    }
}

proof fn lemma_rarest_stops(
    source: Seq<char>,
    local: Seq<char>,
    first: int,
    n: int,
    last: int,
)
    requires
        first <= n <= last,
        rarest(source, local, first, n) is None,
    ensures
        rarest(source, local, first, last) is None,
    decreases last - n,
{
    if n < last {
        lemma_rarest_stops(source, local, first, n + 1, last);
    }
}

proof fn lemma_diffable(s: Seq<char>)
    requires
        encode_utf8(s).len() <= LIMIT,
    ensures
        diffable(s),
        full_lines(s) <= LIMIT + 1,
{
    lemma_bytes(s);
    lemma_starts(s);
}

proof fn lemma_trackable(source: Seq<char>, local: Seq<char>, from: int, to: int)
    requires
        exist(source, from, to),
        encode_utf8(source).len() <= LIMIT,
        encode_utf8(local).len() <= LIMIT,
        chained(line_changes(source, local), full_lines(source), full_lines(local)),
    ensures
        trackable(from, to, hunks_of(line_changes(source, local))),
{
    lemma_diffable(source);
    lemma_diffable(local);
    lemma_bytes(source);
    lemma_starts(source);
    let c = line_changes(source, local);
    let hunks = hunks_of(c);
    assert forall|k: int| 0 <= k < hunks.len() implies (#[trigger] hunks[k]).old_start
        + hunks[k].old_len <= isize::MAX && hunks[k].new_start + hunks[k].new_len
        <= isize::MAX by {
        assert(hunks[k] == hunk_of(c[k]));
    }
    assert forall|k: int| 0 <= k <= hunks.len() implies -isize::MAX <= #[trigger] shift(hunks, k)
        && from + shift(hunks, k) <= isize::MAX && to + shift(hunks, k) <= isize::MAX && shift(
        hunks,
        k,
    ) <= isize::MAX by {
        crate::placement::lemma_shift(c, full_lines(source), full_lines(local), k);
        if k > 0 {
            let x = c[k - 1];
        }
    }
}

} // verus!
