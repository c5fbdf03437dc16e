//! The text of a document, with its lines indexed.
//!
//! A line ends after a line feed; the text after the last one, possibly empty,
//! is the last line. Positions are counted in characters.
use vstd::prelude::*;

use crate::text::{chars, part, text};

verus! {

/// The positions at which the lines of `s` start.
pub open spec fn line_starts(s: Seq<char>) -> Seq<int>
    decreases s.len(),
{
    if s.len() == 0 {
        seq![0]
    } else if s.last() == '\n' {
        line_starts(s.drop_last()).push(s.len() as int)
    } else {
        line_starts(s.drop_last())
    }
}

pub open spec fn line_count(s: Seq<char>) -> int {
    line_starts(s).len() as int
}

/// Where line `n` starts; one line after the last one starts at the end.
pub open spec fn line_to_char(s: Seq<char>, n: int) -> int {
    if 0 <= n < line_count(s) {
        line_starts(s)[n]
    } else {
        s.len() as int
    }
}

/// The line that holds position `i`: the number of line feeds before it.
pub open spec fn char_to_line(s: Seq<char>, i: int) -> int {
    line_count(s.take(i)) - 1
}

/// The text of line `n`, with its line feed.
pub open spec fn line(s: Seq<char>, n: int) -> Seq<char> {
    s.subrange(line_to_char(s, n), line_to_char(s, n + 1))
}

pub open spec fn is_line_start(s: Seq<char>, i: int) -> bool {
    i == 0 || (0 < i <= s.len() && s[i - 1] == '\n')
}

pub proof fn lemma_starts(s: Seq<char>)
    ensures
        line_starts(s).len() > 0,
        line_starts(s).len() <= s.len() + 1,
        line_starts(s)[0] == 0,
        forall|i: int|
            0 <= i < line_starts(s).len() ==> 0 <= #[trigger] line_starts(s)[i] <= s.len()
                && is_line_start(s, line_starts(s)[i]),
        forall|i: int, j: int|
            0 <= i < j < line_starts(s).len() ==> #[trigger] line_starts(s)[i]
                < #[trigger] line_starts(s)[j],
    decreases s.len(),
{
    if s.len() > 0 {
        let t = s.drop_last();
        lemma_starts(t);
        assert forall|i: int| 0 <= i < line_starts(s).len() implies 0
            <= #[trigger] line_starts(s)[i] <= s.len() && is_line_start(s, line_starts(s)[i]) by {
            if i < line_starts(t).len() {
                assert(line_starts(s)[i] == line_starts(t)[i]);
            }
        }
    }
}

/// The lines of a prefix start where those of the whole text do.
pub proof fn lemma_prefix_starts(s: Seq<char>, n: int)
    requires
        0 <= n <= s.len(),
    ensures
        line_starts(s.take(n)).len() <= line_starts(s).len(),
        forall|i: int|
            0 <= i < line_starts(s.take(n)).len() ==> #[trigger] line_starts(s.take(n))[i]
                == line_starts(s)[i],
        forall|i: int|
            line_starts(s.take(n)).len() <= i < line_starts(s).len() ==> n
                < #[trigger] line_starts(s)[i],
    decreases s.len(),
{
    if n < s.len() {
        let t = s.drop_last();
        lemma_prefix_starts(t, n);
        assert(t.take(n) =~= s.take(n));
        assert forall|i: int| line_starts(s.take(n)).len() <= i < line_starts(s).len() implies n
            < #[trigger] line_starts(s)[i] by {
            if i < line_starts(t).len() {
                assert(line_starts(s)[i] == line_starts(t)[i]);
            }
        }
    } else {
        assert(s.take(n) =~= s);
    }
}

/// The line that a position is on is the last one that does not start after it.
pub proof fn lemma_line_of(s: Seq<char>, i: int)
    requires
        0 <= i <= s.len(),
    ensures
        0 <= char_to_line(s, i) < line_count(s),
        line_to_char(s, char_to_line(s, i)) <= i,
        char_to_line(s, i) + 1 < line_count(s) ==> i < line_to_char(s, char_to_line(s, i) + 1),
{
    lemma_starts(s.take(i));
    lemma_starts(s);
    lemma_prefix_starts(s, i);
    let n = char_to_line(s, i);
    assert(line_starts(s.take(i))[n] == line_starts(s)[n]);
}

/// A position starts a line exactly where no character of its line is before it.
pub proof fn lemma_line_start(s: Seq<char>, i: int)
    requires
        0 <= i <= s.len(),
    ensures
        is_line_start(s, i) <==> line_to_char(s, char_to_line(s, i)) == i,
{
    lemma_line_of(s, i);
    lemma_starts(s);
    let t = s.take(i);
    lemma_starts(t);
    lemma_prefix_starts(s, i);
    let n = char_to_line(s, i);
    assert(line_starts(t)[n] == line_starts(s)[n]);
    if is_line_start(s, i) && i > 0 {
        assert(t.last() == '\n');
        assert(line_starts(t).last() == i);
    }
}

/// A document's text.
pub struct Rope {
    chars: Vec<char>,
    starts: Vec<usize>,
}

impl View for Rope {
    type V = Seq<char>;

    closed spec fn view(&self) -> Seq<char> {
        self.chars@
    }
}

impl Rope {
    #[verifier::type_invariant]
    spec fn wf(self) -> bool {
        &&& self.starts@.len() == line_starts(self.chars@).len()
        &&& forall|i: int|
            0 <= i < self.starts@.len() ==> #[trigger] self.starts@[i] == line_starts(
                self.chars@,
            )[i]
    }

    pub fn from(source: &str) -> (r: Rope)
        ensures
            r@ == source@,
    {
        let all = chars(source);
        let mut starts: Vec<usize> = Vec::new();
        starts.push(0);
        let mut i: usize = 0;
        while i < all.len()
            invariant
                i <= all@.len(),
                starts@.len() == line_starts(all@.take(i as int)).len(),
                forall|k: int|
                    0 <= k < starts@.len() ==> #[trigger] starts@[k] == line_starts(
                        all@.take(i as int),
                    )[k],
            decreases all@.len() - i,
        {
            let ghost next = all@.take(i + 1);
            assert(next.drop_last() =~= all@.take(i as int));
            if all[i] == '\n' {
                starts.push(i + 1);
            }
            i += 1;
        }
        assert(all@.take(i as int) =~= all@);
        Rope { chars: all, starts }
    }

    pub fn len_chars(&self) -> (r: usize)
        ensures
            r == self@.len(),
    {
        self.chars.len()
    }

    pub fn len_lines(&self) -> (r: usize)
        ensures
            r == line_count(self@),
            r > 0,
    {
        proof {
            use_type_invariant(self);
            lemma_starts(self@);
        }
        self.starts.len()
    }

    pub fn char(&self, i: usize) -> (r: char)
        requires
            i < self@.len(),
        ensures
            r == self@[i as int],
    {
        self.chars[i]
    }

    /// The start of line `n`, or the end of the text for the line after the last.
    pub fn line_to_char(&self, n: usize) -> (r: usize)
        requires
            n <= line_count(self@),
        ensures
            r == line_to_char(self@, n as int),
            r <= self@.len(),
    {
        proof {
            use_type_invariant(self);
            lemma_starts(self@);
        }
        if n < self.starts.len() {
            self.starts[n]
        } else {
            self.chars.len()
        }
    }

    pub fn char_to_line(&self, i: usize) -> (r: usize)
        requires
            i <= self@.len(),
        ensures
            r == char_to_line(self@, i as int),
            r < line_count(self@),
    {
        proof {
            use_type_invariant(self);
            lemma_starts(self@);
            lemma_line_of(self@, i as int);
            lemma_prefix_starts(self@, i as int);
        }
        let ghost n = char_to_line(self@, i as int);
        let mut low: usize = 0;
        let mut high: usize = self.starts.len();
        while high - low > 1
            invariant
                low < high <= self.starts@.len(),
                low <= n < high,
                self.wf(),
                0 <= n < line_count(self@),
                line_to_char(self@, n) <= i,
                n + 1 < line_count(self@) ==> i < line_to_char(self@, n + 1),
                forall|j: int, k: int|
                    0 <= j < k < line_starts(self@).len() ==> #[trigger] line_starts(self@)[j]
                        < #[trigger] line_starts(self@)[k],
            decreases high - low,
        {
            let mid: usize = low + (high - low) / 2;
            if self.starts[mid] <= i {
                assert(mid <= n) by {
                    if n < mid {
                        assert(line_starts(self@)[mid as int] == self.starts@[mid as int]);
                        if n + 1 < mid {
                            assert(line_starts(self@)[n + 1] < line_starts(self@)[mid as int]);
                        }
                    }
                }
                low = mid;
            } else {
                assert(n < mid) by {
                    if mid <= n {
                        assert(line_starts(self@)[mid as int] == self.starts@[mid as int]);
                        if mid < n {
                            assert(line_starts(self@)[mid as int] < line_starts(self@)[n]);
                        }
                    }
                }
                high = mid;
            }
        }
        low
    }

    /// The characters from `from` to `to`.
    pub fn slice(&self, from: usize, to: usize) -> (r: &[char])
        requires
            from <= to <= self@.len(),
        ensures
            r@ == self@.subrange(from as int, to as int),
    {
        part(self.chars.as_slice(), from, to)
    }

    pub fn to_text(&self) -> (r: String)
        ensures
            r@ == self@,
    {
        text(self.chars.as_slice())
    }
}

} // verus!
