//! Text as sequences of characters.
//!
//! Public functions of the library take and return `&str` and `String`; their
//! contracts speak of the characters, `text@`. The helpers here work on slices
//! of characters.
use vstd::prelude::*;
use vstd::utf8::{encode_scalar, encode_utf8};

verus! {

/// Appends `c` to the string (`String::push` of std): afterwards the string
/// holds its former characters followed by `c`.
pub assume_specification[ String::push ](s: &mut String, c: char)
    ensures
        final(s)@ == old(s)@.push(c),
;

// ---------------------------------------------------------------------------
// Characters
// ---------------------------------------------------------------------------

/// A set of characters to search for, split at or trim.
#[derive(Clone, Copy)]
pub enum Pattern {
    /// One character.
    One(char),
    /// Either of two characters.
    Either(char, char),
    /// White space, as Unicode defines it.
    Space,
    /// Control characters: the C0 and C1 ranges and DEL.
    Control,
    /// Everything but ASCII letters and digits.
    NotWord,
    /// Everything but ASCII letters, digits and underscores.
    NotIdentifier,
}

pub open spec fn is_space(c: char) -> bool {
    let n = c as u32;
    ||| 0x9 <= n <= 0xd
    ||| n == 0x20
    ||| n == 0x85
    ||| n == 0xa0
    ||| n == 0x1680
    ||| 0x2000 <= n <= 0x200a
    ||| n == 0x2028
    ||| n == 0x2029
    ||| n == 0x202f
    ||| n == 0x205f
    ||| n == 0x3000
}

pub open spec fn is_control(c: char) -> bool {
    let n = c as u32;
    n <= 0x1f || 0x7f <= n <= 0x9f
}

pub open spec fn is_digit(c: char) -> bool {
    '0' <= c <= '9'
}

pub open spec fn is_hex(c: char) -> bool {
    is_digit(c) || 'a' <= c <= 'f' || 'A' <= c <= 'F'
}

pub open spec fn is_alphanumeric(c: char) -> bool {
    is_digit(c) || 'a' <= c <= 'z' || 'A' <= c <= 'Z'
}

/// ASCII capitals become small letters; all other characters stay.
pub open spec fn lower(c: char) -> char {
    if 'A' <= c <= 'Z' {
        (c as u32 + 32) as char
    } else {
        c
    }
}

impl Pattern {
    pub open spec fn hits(self, c: char) -> bool {
        match self {
            Pattern::One(x) => c == x,
            Pattern::Either(x, y) => c == x || c == y,
            Pattern::Space => is_space(c),
            Pattern::Control => is_control(c),
            Pattern::NotWord => !is_alphanumeric(c),
            Pattern::NotIdentifier => !is_alphanumeric(c) && c != '_',
        }
    }

    pub fn test(self, c: char) -> (r: bool)
        ensures
            r == self.hits(c),
    {
        match self {
            Pattern::One(x) => c == x,
            Pattern::Either(x, y) => c == x || c == y,
            Pattern::Space => whitespace(c),
            Pattern::Control => control(c),
            Pattern::NotWord => !alphanumeric(c),
            Pattern::NotIdentifier => !alphanumeric(c) && c != '_',
        }
    }
}

pub fn whitespace(c: char) -> (r: bool)
    ensures
        r == is_space(c),
{
    let n: u32 = c as u32;
    (0x9 <= n && n <= 0xd) || n == 0x20 || n == 0x85 || n == 0xa0 || n == 0x1680 || (0x2000 <= n
        && n <= 0x200a) || n == 0x2028 || n == 0x2029 || n == 0x202f || n == 0x205f || n == 0x3000
}

pub fn control(c: char) -> (r: bool)
    ensures
        r == is_control(c),
{
    let n: u32 = c as u32;
    n <= 0x1f || (0x7f <= n && n <= 0x9f)
}

pub fn digit(c: char) -> (r: bool)
    ensures
        r == is_digit(c),
{
    '0' <= c && c <= '9'
}

pub fn hex(c: char) -> (r: bool)
    ensures
        r == is_hex(c),
{
    digit(c) || ('a' <= c && c <= 'f') || ('A' <= c && c <= 'F')
}

pub fn alphanumeric(c: char) -> (r: bool)
    ensures
        r == is_alphanumeric(c),
{
    digit(c) || ('a' <= c && c <= 'z') || ('A' <= c && c <= 'Z')
}

pub fn lowercase(c: char) -> (r: char)
    ensures
        r == lower(c),
{
    if 'A' <= c && c <= 'Z' {
        ((c as u8) + 32) as char
    } else {
        c
    }
}

// ---------------------------------------------------------------------------
// Strings and slices
// ---------------------------------------------------------------------------

/// The texts of a sequence of strings.
pub open spec fn views(v: Seq<String>) -> Seq<Seq<char>> {
    v.map_values(|s: String| s@)
}

/// The texts of a sequence of slices.
pub open spec fn slices(v: Seq<&[char]>) -> Seq<Seq<char>> {
    v.map_values(|s: &[char]| s@)
}

pub fn chars(s: &str) -> (r: Vec<char>)
    ensures
        r@ == s@,
{
    let mut r: Vec<char> = Vec::new();
    for c in iter: s.chars()
        invariant
            iter.seq() == s@,
            r@ == s@.take(iter.index() as int),
    {
        r.push(c);
        assert(s@.take(iter.index() as int + 1) =~= s@.take(iter.index() as int).push(c));
    }
    assert(s@.take(s@.len() as int) =~= s@);
    r
}

pub fn text(c: &[char]) -> (r: String)
    ensures
        r@ == c@,
{
    let mut r = String::new();
    let mut i: usize = 0;
    while i < c.len()
        invariant
            i <= c@.len(),
            r@ == c@.take(i as int),
        decreases c@.len() - i,
    {
        r.push(c[i]);
        assert(c@.take(i as int + 1) =~= c@.take(i as int).push(c@[i as int]));
        i += 1;
    }
    assert(c@.take(i as int) =~= c@);
    r
}

/// Whether two strings hold the same characters.
pub fn same(a: &str, b: &str) -> (r: bool)
    ensures
        r == (a@ == b@),
{
    a.to_owned() == b.to_owned()
}

pub fn same_bytes(a: &[u8], b: &[u8]) -> (r: bool)
    ensures
        r == (a@ == b@),
{
    if a.len() != b.len() {
        return false;
    }
    let mut i: usize = 0;
    while i < a.len()
        invariant
            i <= a@.len(),
            a@.len() == b@.len(),
            forall|j: int| 0 <= j < i ==> a@[j] == b@[j],
        decreases a@.len() - i,
    {
        if a[i] != b[i] {
            return false;
        }
        i += 1;
    }
    assert(a@ =~= b@);
    true
}

/// The characters `c[from..to]`.
pub fn part<'a>(c: &'a [char], from: usize, to: usize) -> (r: &'a [char])
    requires
        from <= to <= c@.len(),
    ensures
        r@ == c@.subrange(from as int, to as int),
{
    vstd::slice::slice_subrange(c, from, to)
}

pub fn equal(a: &[char], b: &[char]) -> (r: bool)
    ensures
        r == (a@ == b@),
{
    if a.len() != b.len() {
        return false;
    }
    let mut i: usize = 0;
    while i < a.len()
        invariant
            i <= a@.len(),
            a@.len() == b@.len(),
            forall|j: int| 0 <= j < i ==> a@[j] == b@[j],
        decreases a@.len() - i,
    {
        if a[i] != b[i] {
            return false;
        }
        i += 1;
    }
    assert(a@ =~= b@);
    true
}

/// Whether the slice spells the string `b`.
pub fn spells(a: &[char], b: &str) -> (r: bool)
    ensures
        r == (a@ == b@),
{
    equal(a, &chars(b))
}

// ---------------------------------------------------------------------------
// Prefixes, suffixes and searching
// ---------------------------------------------------------------------------

pub open spec fn starts_with(s: Seq<char>, p: Seq<char>) -> bool {
    p.len() <= s.len() && s.take(p.len() as int) == p
}

pub open spec fn ends_with(s: Seq<char>, p: Seq<char>) -> bool {
    p.len() <= s.len() && s.skip(s.len() - p.len()) == p
}

pub open spec fn strip_prefix(s: Seq<char>, p: Seq<char>) -> Option<Seq<char>> {
    if starts_with(s, p) {
        Some(s.skip(p.len() as int))
    } else {
        None
    }
}

pub open spec fn strip_suffix(s: Seq<char>, p: Seq<char>) -> Option<Seq<char>> {
    if ends_with(s, p) {
        Some(s.take(s.len() - p.len()))
    } else {
        None
    }
}

/// `p` occurs in `s` at index `i`.
pub open spec fn occurs(s: Seq<char>, p: Seq<char>, i: int) -> bool {
    0 <= i && i + p.len() <= s.len() && s.subrange(i, i + p.len()) == p
}

/// The first index at or after `i` at which `p` occurs.
pub open spec fn find_from(s: Seq<char>, p: Seq<char>, i: int) -> Option<int>
    decreases s.len() + 1 - i,
{
    if i < 0 || i + p.len() > s.len() {
        None
    } else if occurs(s, p, i) {
        Some(i)
    } else {
        find_from(s, p, i + 1)
    }
}

pub open spec fn find(s: Seq<char>, p: Seq<char>) -> Option<int> {
    find_from(s, p, 0)
}

pub open spec fn contains(s: Seq<char>, p: Seq<char>) -> bool {
    find(s, p) is Some
}

/// The parts before and after the first occurrence of `p`.
pub open spec fn split_once(s: Seq<char>, p: Seq<char>) -> Option<(Seq<char>, Seq<char>)> {
    match find(s, p) {
        Some(i) => Some((s.take(i), s.skip(i + p.len()))),
        None => None,
    }
}

/// The number of characters before the first one that `p` hits.
pub open spec fn position(s: Seq<char>, p: Pattern) -> int
    decreases s.len(),
{
    if s.len() == 0 || p.hits(s[0]) {
        0
    } else {
        1 + position(s.skip(1), p)
    }
}

/// Some character of `s` is hit by `p`.
pub open spec fn any(s: Seq<char>, p: Pattern) -> bool {
    exists|i: int| 0 <= i < s.len() && p.hits(#[trigger] s[i])
}

pub proof fn lemma_position(s: Seq<char>, p: Pattern)
    ensures
        0 <= position(s, p) <= s.len(),
        position(s, p) < s.len() ==> p.hits(s[position(s, p)]),
        forall|j: int| 0 <= j < position(s, p) ==> !p.hits(#[trigger] s[j]),
    decreases s.len(),
{
    if s.len() > 0 && !p.hits(s[0]) {
        let t = s.skip(1);
        lemma_position(t, p);
        assert forall|j: int| 0 <= j < position(s, p) implies !p.hits(#[trigger] s[j]) by {
            if j > 0 {
                assert(s[j] == t[j - 1]);
            }
        }
    }
}

pub proof fn lemma_position_is(s: Seq<char>, p: Pattern, i: int)
    requires
        0 <= i <= s.len(),
        i < s.len() ==> p.hits(s[i]),
        forall|j: int| 0 <= j < i ==> !p.hits(#[trigger] s[j]),
    ensures
        position(s, p) == i,
{
    lemma_position(s, p);
    let q = position(s, p);
    if q < i {
        assert(!p.hits(s[q]));
    }
    if i < q {
        assert(!p.hits(s[i]));
    }
}

pub proof fn lemma_find_from(s: Seq<char>, p: Seq<char>, i: int)
    requires
        0 <= i,
    ensures
        match find_from(s, p, i) {
            Some(k) => i <= k && occurs(s, p, k) && forall|j: int|
                i <= j < k ==> !#[trigger] occurs(s, p, j),
            None => forall|j: int| i <= j ==> !#[trigger] occurs(s, p, j),
        },
    decreases s.len() + 1 - i,
{
    if i + p.len() <= s.len() && !occurs(s, p, i) {
        lemma_find_from(s, p, i + 1);
    }
}

pub proof fn lemma_find(s: Seq<char>, p: Seq<char>)
    ensures
        match find(s, p) {
            Some(k) => occurs(s, p, k) && forall|j: int|
                0 <= j < k ==> !#[trigger] occurs(s, p, j),
            None => forall|j: int| !#[trigger] occurs(s, p, j),
        },
{
    lemma_find_from(s, p, 0);
}

pub fn has_prefix(a: &[char], b: &str) -> (r: bool)
    ensures
        r == starts_with(a@, b@),
{
    let b = chars(b);
    begins(a, &b)
}

pub fn begins(a: &[char], b: &[char]) -> (r: bool)
    ensures
        r == starts_with(a@, b@),
{
    if b.len() > a.len() {
        return false;
    }
    let head = part(a, 0, b.len());
    assert(head@ =~= a@.take(b@.len() as int));
    equal(head, b)
}

pub fn after_prefix<'a>(a: &'a [char], b: &str) -> (r: Option<&'a [char]>)
    ensures
        match r {
            Some(x) => strip_prefix(a@, b@) == Some(x@),
            None => strip_prefix(a@, b@) is None,
        },
{
    let b = chars(b);
    if begins(a, &b) {
        let rest = part(a, b.len(), a.len());
        assert(rest@ =~= a@.skip(b@.len() as int));
        Some(rest)
    } else {
        None
    }
}

pub fn has_suffix(a: &[char], b: &str) -> (r: bool)
    ensures
        r == ends_with(a@, b@),
{
    let b = chars(b);
    if b.len() > a.len() {
        return false;
    }
    let tail = part(a, a.len() - b.len(), a.len());
    assert(tail@ =~= a@.skip(a@.len() - b@.len()));
    equal(tail, &b)
}

pub fn before_suffix<'a>(a: &'a [char], b: &str) -> (r: Option<&'a [char]>)
    ensures
        match r {
            Some(x) => strip_suffix(a@, b@) == Some(x@),
            None => strip_suffix(a@, b@) is None,
        },
{
    if has_suffix(a, b) {
        let n: usize = chars(b).len();
        let rest = part(a, 0, a.len() - n);
        assert(rest@ =~= a@.take(a@.len() - b@.len()));
        Some(rest)
    } else {
        None
    }
}

pub fn search(a: &[char], b: &str) -> (r: Option<usize>)
    ensures
        match r {
            Some(i) => find(a@, b@) == Some(i as int) && i + b@.len() <= a@.len(),
            None => find(a@, b@) is None,
        },
{
    let needle = chars(b);
    let n: usize = needle.len();
    if n > a.len() {
        return None;
    }
    let last: usize = a.len() - n;
    let mut i: usize = 0;
    loop
        invariant
            i <= last,
            last + n == a@.len(),
            a@.len() <= usize::MAX,
            needle@ == b@,
            n == b@.len(),
            find(a@, b@) == find_from(a@, b@, i as int),
        decreases last - i,
    {
        let here = part(a, i, i + n);
        if equal(here, &needle) {
            return Some(i);
        }
        if i == last {
            return None;
        }
        i += 1;
    }
}

pub fn has(a: &[char], b: &str) -> (r: bool)
    ensures
        r == contains(a@, b@),
{
    search(a, b).is_some()
}

pub fn cut<'a>(a: &'a [char], b: &str) -> (r: Option<(&'a [char], &'a [char])>)
    ensures
        match r {
            Some(x) => split_once(a@, b@) == Some((x.0@, x.1@)),
            None => split_once(a@, b@) is None,
        },
{
    let n: usize = chars(b).len();
    let len: usize = a.len();
    match search(a, b) {
        Some(i) => {
            let head = part(a, 0, i);
            let tail = part(a, i + n, len);
            assert(head@ =~= a@.take(i as int));
            assert(tail@ =~= a@.skip(i + b@.len()));
            Some((head, tail))
        },
        None => None,
    }
}

/// The index of the first character that `p` hits, or the length.
pub fn first_hit(a: &[char], p: Pattern) -> (r: usize)
    ensures
        r == position(a@, p),
        r <= a@.len(),
        r < a@.len() ==> p.hits(a@[r as int]),
{
    let mut i: usize = 0;
    while i < a.len() && !p.test(a[i])
        invariant
            i <= a@.len(),
            forall|j: int| 0 <= j < i ==> !p.hits(#[trigger] a@[j]),
        decreases a@.len() - i,
    {
        i += 1;
    }
    proof {
        lemma_position_is(a@, p, i as int);
    }
    i
}

pub fn has_any(a: &[char], p: Pattern) -> (r: bool)
    ensures
        r == any(a@, p),
{
    let i: usize = first_hit(a, p);
    proof {
        lemma_position(a@, p);
        if i < a@.len() {
            assert(p.hits(a@[i as int]));
        }
    }
    i < a.len()
}

// ---------------------------------------------------------------------------
// Splitting and joining
// ---------------------------------------------------------------------------

/// The parts of `s` between the characters that `p` hits; one more than those.
pub open spec fn split(s: Seq<char>, p: Pattern) -> Seq<Seq<char>>
    decreases s.len(),
    via split_decreases
{
    let i = position(s, p);
    if i >= s.len() {
        seq![s]
    } else {
        seq![s.take(i)] + split(s.skip(i + 1), p)
    }
}

#[via_fn]
proof fn split_decreases(s: Seq<char>, p: Pattern) {
    lemma_position(s, p);
}

/// `s` without a final carriage return.
pub open spec fn chomp(s: Seq<char>) -> Seq<char> {
    if s.len() > 0 && s.last() == '\r' {
        s.drop_last()
    } else {
        s
    }
}

/// The lines of `s`, without their line feeds and the carriage returns before
/// those. A final line feed adds no line; an unterminated line is kept whole.
pub open spec fn lines(s: Seq<char>) -> Seq<Seq<char>>
    decreases s.len(),
    via lines_decreases
{
    let i = position(s, Pattern::One('\n'));
    if s.len() == 0 {
        seq![]
    } else if i >= s.len() {
        seq![s]
    } else {
        seq![chomp(s.take(i))] + lines(s.skip(i + 1))
    }
}

#[via_fn]
proof fn lines_decreases(s: Seq<char>) {
    lemma_position(s, Pattern::One('\n'));
}

/// The first `n - 1` parts of `s` between the characters that `p` hits, and what
/// follows them as one part.
pub open spec fn split_n(s: Seq<char>, p: Pattern, n: nat) -> Seq<Seq<char>>
    decreases n,
{
    let i = position(s, p);
    if n <= 1 || i >= s.len() {
        seq![s]
    } else {
        seq![s.take(i)] + split_n(s.skip(i + 1), p, (n - 1) as nat)
    }
}

/// The lines of `s` with their line feeds.
pub open spec fn full_lines(s: Seq<char>) -> Seq<Seq<char>>
    decreases s.len(),
    via full_lines_decreases
{
    let i = position(s, Pattern::One('\n'));
    if s.len() == 0 {
        seq![]
    } else if i >= s.len() {
        seq![s]
    } else {
        seq![s.take(i + 1)] + full_lines(s.skip(i + 1))
    }
}

#[via_fn]
proof fn full_lines_decreases(s: Seq<char>) {
    lemma_position(s, Pattern::One('\n'));
}

/// The parts joined by `sep`.
pub open spec fn join(parts: Seq<Seq<char>>, sep: Seq<char>) -> Seq<char>
    decreases parts.len(),
{
    if parts.len() == 0 {
        seq![]
    } else if parts.len() == 1 {
        parts[0]
    } else {
        join(parts.drop_last(), sep) + sep + parts.last()
    }
}

/// The parts one after another.
pub open spec fn concat(parts: Seq<Seq<char>>) -> Seq<char>
    decreases parts.len(),
{
    if parts.len() == 0 {
        seq![]
    } else {
        concat(parts.drop_last()) + parts.last()
    }
}

/// The texts, each on its own.
pub fn texts(parts: &[&str]) -> (r: Vec<String>)
    ensures
        views(r@) == parts@.map_values(|s: &str| s@),
{
    let ghost all = parts@.map_values(|s: &str| s@);
    let mut r: Vec<String> = Vec::new();
    let mut i: usize = 0;
    assert(views(r@) =~= all.take(0));
    while i < parts.len()
        invariant
            i <= parts@.len(),
            all == parts@.map_values(|s: &str| s@),
            views(r@) == all.take(i as int),
        decreases parts@.len() - i,
    {
        let ghost before = views(r@);
        r.push(parts[i].to_owned());
        assert(views(r@) =~= before.push(all[i as int]));
        assert(all.take(i as int + 1) =~= all.take(i as int).push(all[i as int]));
        i += 1;
    }
    assert(all.take(i as int) =~= all);
    r
}

pub fn split_at<'a>(a: &'a [char], p: Pattern) -> (r: Vec<&'a [char]>)
    ensures
        slices(r@) == split(a@, p),
        r@.len() > 0,
{
    let mut r: Vec<&'a [char]> = Vec::new();
    let mut rest = a;
    loop
        invariant_except_break
            slices(r@) + split(rest@, p) == split(a@, p),
        ensures
            slices(r@) == split(a@, p),
            r@.len() > 0,
        decreases rest@.len(),
    {
        let i: usize = first_hit(rest, p);
        let ghost before = slices(r@);
        let ghost s = rest@;
        if i == rest.len() {
            r.push(rest);
            assert(slices(r@) =~= before + seq![s]);
            break;
        }
        let head = part(rest, 0, i);
        rest = part(rest, i + 1, rest.len());
        assert(head@ =~= s.take(i as int));
        assert(rest@ =~= s.skip(i + 1));
        r.push(head);
        assert(slices(r@) =~= before.push(head@));
        assert(before + (seq![s.take(i as int)] + split(rest@, p)) =~= slices(r@) + split(rest@, p));
    }
    r
}

pub fn split_lines<'a>(a: &'a [char]) -> (r: Vec<&'a [char]>)
    ensures
        slices(r@) == lines(a@),
{
    let mut r: Vec<&'a [char]> = Vec::new();
    let mut rest = a;
    while rest.len() > 0
        invariant
            slices(r@) + lines(rest@) == lines(a@),
        decreases rest@.len(),
    {
        let i: usize = first_hit(rest, Pattern::One('\n'));
        let ghost before = slices(r@);
        let ghost s = rest@;
        if i == rest.len() {
            r.push(rest);
            assert(slices(r@) =~= before + seq![s]);
            return r;
        }
        let mut end: usize = i;
        if end > 0 && rest[end - 1] == '\r' {
            end -= 1;
        }
        let head = part(rest, 0, end);
        rest = part(rest, i + 1, rest.len());
        assert(head@ =~= chomp(s.take(i as int)));
        assert(rest@ =~= s.skip(i + 1));
        r.push(head);
        assert(slices(r@) =~= before.push(head@));
        assert(before + (seq![head@] + lines(rest@)) =~= slices(r@) + lines(rest@));
    }
    assert(slices(r@) + lines(rest@) =~= slices(r@));
    r
}

pub fn split_at_most<'a>(a: &'a [char], p: Pattern, n: usize) -> (r: Vec<&'a [char]>)
    ensures
        slices(r@) == split_n(a@, p, n as nat),
        r@.len() > 0,
{
    let mut r: Vec<&'a [char]> = Vec::new();
    let mut rest = a;
    let mut left: usize = n;
    loop
        invariant_except_break
            slices(r@) + split_n(rest@, p, left as nat) == split_n(a@, p, n as nat),
        ensures
            slices(r@) == split_n(a@, p, n as nat),
            r@.len() > 0,
        decreases left,
    {
        let i: usize = first_hit(rest, p);
        let ghost before = slices(r@);
        let ghost s = rest@;
        if left <= 1 || i == rest.len() {
            r.push(rest);
            assert(slices(r@) =~= before + seq![s]);
            break;
        }
        let head = part(rest, 0, i);
        rest = part(rest, i + 1, rest.len());
        left -= 1;
        assert(head@ =~= s.take(i as int));
        assert(rest@ =~= s.skip(i + 1));
        r.push(head);
        assert(slices(r@) =~= before.push(head@));
        assert(before + (seq![head@] + split_n(rest@, p, left as nat)) =~= slices(r@) + split_n(
            rest@,
            p,
            left as nat,
        ));
    }
    r
}

pub fn split_full_lines<'a>(a: &'a [char]) -> (r: Vec<&'a [char]>)
    ensures
        slices(r@) == full_lines(a@),
{
    let mut r: Vec<&'a [char]> = Vec::new();
    let mut rest = a;
    while rest.len() > 0
        invariant
            slices(r@) + full_lines(rest@) == full_lines(a@),
        decreases rest@.len(),
    {
        let i: usize = first_hit(rest, Pattern::One('\n'));
        let ghost before = slices(r@);
        let ghost s = rest@;
        if i == rest.len() {
            r.push(rest);
            assert(slices(r@) =~= before + seq![s]);
            return r;
        }
        let head = part(rest, 0, i + 1);
        rest = part(rest, i + 1, rest.len());
        assert(head@ =~= s.take(i + 1));
        assert(rest@ =~= s.skip(i + 1));
        r.push(head);
        assert(slices(r@) =~= before.push(head@));
        assert(before + (seq![head@] + full_lines(rest@)) =~= slices(r@) + full_lines(rest@));
    }
    assert(slices(r@) + full_lines(rest@) =~= slices(r@));
    r
}

pub fn join_texts(parts: &Vec<String>, sep: &str) -> (r: String)
    ensures
        r@ == join(views(parts@), sep@),
{
    let mut r = String::new();
    let mut i: usize = 0;
    while i < parts.len()
        invariant
            i <= parts@.len(),
            r@ == join(views(parts@).take(i as int), sep@),
        decreases parts@.len() - i,
    {
        let ghost v = views(parts@);
        if i > 0 {
            r.append(sep);
        }
        r.append(&parts[i]);
        proof {
            let next = v.take(i as int + 1);
            assert(next.drop_last() =~= v.take(i as int));
            assert(next.last() == v[i as int]);
            assert(v[i as int] == parts@[i as int]@);
            if i == 0 {
                assert(r@ =~= next[0]);
            }
        }
        i += 1;
    }
    assert(views(parts@).take(i as int) =~= views(parts@));
    r
}

/// Whether the list holds the text `s`.
pub fn listed(list: &Vec<String>, s: &str) -> (r: bool)
    ensures
        r == views(list@).contains(s@),
{
    let ghost all = views(list@);
    let mut i: usize = 0;
    while i < list.len()
        invariant
            i <= list@.len(),
            all == views(list@),
            forall|j: int| 0 <= j < i ==> #[trigger] all[j] != s@,
        decreases list@.len() - i,
    {
        assert(all[i as int] == list@[i as int]@);
        if same(&list[i], s) {
            return true;
        }
        i += 1;
    }
    false
}

// ---------------------------------------------------------------------------
// Trimming
// ---------------------------------------------------------------------------

pub open spec fn trim_start(s: Seq<char>, p: Pattern) -> Seq<char>
    decreases s.len(),
{
    if s.len() > 0 && p.hits(s[0]) {
        trim_start(s.skip(1), p)
    } else {
        s
    }
}

pub open spec fn trim_end(s: Seq<char>, p: Pattern) -> Seq<char>
    decreases s.len(),
{
    if s.len() > 0 && p.hits(s.last()) {
        trim_end(s.drop_last(), p)
    } else {
        s
    }
}

pub open spec fn trim(s: Seq<char>, p: Pattern) -> Seq<char> {
    trim_end(trim_start(s, p), p)
}

/// Without white space at both ends.
pub open spec fn trimmed(s: Seq<char>) -> Seq<char> {
    trim(s, Pattern::Space)
}

pub fn trim_left<'a>(a: &'a [char], p: Pattern) -> (r: &'a [char])
    ensures
        r@ == trim_start(a@, p),
{
    let mut rest = a;
    while rest.len() > 0 && p.test(rest[0])
        invariant
            trim_start(rest@, p) == trim_start(a@, p),
        decreases rest@.len(),
    {
        let ghost s = rest@;
        rest = part(rest, 1, rest.len());
        assert(rest@ =~= s.skip(1));
    }
    rest
}

pub fn trim_right<'a>(a: &'a [char], p: Pattern) -> (r: &'a [char])
    ensures
        r@ == trim_end(a@, p),
{
    let mut rest = a;
    while rest.len() > 0 && p.test(rest[rest.len() - 1])
        invariant
            trim_end(rest@, p) == trim_end(a@, p),
        decreases rest@.len(),
    {
        let ghost s = rest@;
        rest = part(rest, 0, rest.len() - 1);
        assert(rest@ =~= s.drop_last());
    }
    rest
}

pub fn trim_both<'a>(a: &'a [char], p: Pattern) -> (r: &'a [char])
    ensures
        r@ == trim(a@, p),
{
    trim_right(trim_left(a, p), p)
}

pub fn strip<'a>(a: &'a [char]) -> (r: &'a [char])
    ensures
        r@ == trimmed(a@),
{
    trim_both(a, Pattern::Space)
}

/// The characters that remain are a run of the given ones.
pub proof fn lemma_trim(s: Seq<char>, p: Pattern)
    ensures
        trim_start(s, p).len() <= s.len(),
        trim_start(s, p) == s.skip(s.len() - trim_start(s, p).len()),
        trim_start(s, p).len() > 0 ==> !p.hits(trim_start(s, p)[0]),
        trim_end(s, p).len() <= s.len(),
        trim_end(s, p) == s.take(trim_end(s, p).len() as int),
        trim_end(s, p).len() > 0 ==> !p.hits(trim_end(s, p).last()),
    decreases s.len(),
{
    if s.len() > 0 {
        lemma_trim(s.skip(1), p);
        lemma_trim(s.drop_last(), p);
        let a = trim_start(s.skip(1), p);
        let b = trim_end(s.drop_last(), p);
        assert(s.skip(1).skip(s.skip(1).len() - a.len()) =~= s.skip(s.len() - a.len()));
        assert(s.drop_last().take(b.len() as int) =~= s.take(b.len() as int));
    }
    assert(s.skip(0) =~= s);
    assert(s.take(s.len() as int) =~= s);
}

/// The words of `s`: what stands between white space.
pub open spec fn words(s: Seq<char>) -> Seq<Seq<char>> {
    filled_parts(split(s, Pattern::Space))
}

/// The parts that are not empty.
pub open spec fn filled_parts(parts: Seq<Seq<char>>) -> Seq<Seq<char>>
    decreases parts.len(),
{
    if parts.len() == 0 {
        seq![]
    } else if parts.last().len() == 0 {
        filled_parts(parts.drop_last())
    } else {
        filled_parts(parts.drop_last()).push(parts.last())
    }
}

pub fn split_words<'a>(a: &'a [char]) -> (r: Vec<&'a [char]>)
    ensures
        slices(r@) == words(a@),
{
    let parts = split_at(a, Pattern::Space);
    let ghost all = slices(parts@);
    let mut r: Vec<&'a [char]> = Vec::new();
    let mut i: usize = 0;
    assert(slices(r@) =~= filled_parts(all.take(0)));
    while i < parts.len()
        invariant
            i <= parts@.len(),
            all == slices(parts@),
            slices(r@) == filled_parts(all.take(i as int)),
        decreases parts@.len() - i,
    {
        let ghost before = slices(r@);
        proof {
            assert(all.take(i as int + 1).drop_last() =~= all.take(i as int));
            assert(all[i as int] == parts@[i as int]@);
        }
        if parts[i].len() > 0 {
            r.push(parts[i]);
            assert(slices(r@) =~= before.push(parts@[i as int]@));
        }
        i += 1;
    }
    assert(all.take(i as int) =~= all);
    r
}

/// The first `n` of the lines that are not blank, without white space at their
/// ends.
pub open spec fn filled_lines(lines: Seq<Seq<char>>, n: nat) -> Seq<Seq<char>>
    decreases lines.len(),
{
    if lines.len() == 0 || n == 0 {
        seq![]
    } else if trimmed(lines[0]).len() == 0 {
        filled_lines(lines.skip(1), n)
    } else {
        seq![trimmed(lines[0])] + filled_lines(lines.skip(1), (n - 1) as nat)
    }
}

pub fn filled(a: &[char], n: usize) -> (r: Vec<String>)
    ensures
        views(r@) == filled_lines(lines(a@), n as nat),
{
    let rows = split_lines(a);
    let ghost given = slices(rows@);
    let ghost whole = filled_lines(given, n as nat);
    let mut r: Vec<String> = Vec::new();
    let mut i: usize = 0;
    assert(given.skip(0) =~= given);
    assert(views(r@) + whole =~= whole);
    while i < rows.len() && r.len() < n
        invariant
            i <= rows@.len(),
            r@.len() <= n,
            given == slices(rows@),
            views(r@) + filled_lines(given.skip(i as int), (n - r@.len()) as nat) == whole,
        decreases rows@.len() - i,
    {
        let ghost left = given.skip(i as int);
        let ghost before = views(r@);
        proof {
            assert(left[0] == given[i as int]);
            assert(given[i as int] == rows@[i as int]@);
            assert(left.skip(1) =~= given.skip(i as int + 1));
        }
        let name = strip(rows[i]);
        i += 1;
        if name.len() > 0 {
            r.push(text(name));
            let ghost rest = filled_lines(left.skip(1), (n - r@.len()) as nat);
            assert(views(r@) =~= before.push(name@));
            assert(before + (seq![name@] + rest) =~= views(r@) + rest);
        }
    }
    assert(filled_lines(given.skip(i as int), (n - r@.len()) as nat) =~= seq![]);
    assert(views(r@) + seq![] =~= views(r@));
    r
}

// ---------------------------------------------------------------------------
// Case
// ---------------------------------------------------------------------------

pub open spec fn lowered(s: Seq<char>) -> Seq<char> {
    s.map_values(|c: char| lower(c))
}

pub fn to_lower(a: &[char]) -> (r: Vec<char>)
    ensures
        r@ == lowered(a@),
{
    let mut r: Vec<char> = Vec::new();
    let mut i: usize = 0;
    while i < a.len()
        invariant
            i <= a@.len(),
            r@ == lowered(a@).take(i as int),
        decreases a@.len() - i,
    {
        r.push(lowercase(a[i]));
        i += 1;
        assert(lowered(a@).take(i as int) =~= lowered(a@).take(i - 1).push(lower(a@[i - 1])));
    }
    assert(lowered(a@).take(i as int) =~= lowered(a@));
    r
}

/// Equal but for the case of ASCII letters.
pub fn same_ignoring_case(a: &[char], b: &[char]) -> (r: bool)
    ensures
        r == (lowered(a@) == lowered(b@)),
{
    equal(&to_lower(a), &to_lower(b))
}

// ---------------------------------------------------------------------------
// Numbers
// ---------------------------------------------------------------------------

pub open spec fn digit_char(d: nat) -> char {
    ('0' as u32 + d) as char
}

pub open spec fn digit_value(c: char) -> nat {
    (c as u32 - '0' as u32) as nat
}

/// The decimal digits of `n`.
pub open spec fn decimal(n: nat) -> Seq<char>
    decreases n,
{
    if n < 10 {
        seq![digit_char(n)]
    } else {
        decimal(n / 10).push(digit_char(n % 10))
    }
}

/// The number that a string of digits denotes.
pub open spec fn value(s: Seq<char>) -> nat
    decreases s.len(),
{
    if s.len() == 0 {
        0
    } else {
        value(s.drop_last()) * 10 + digit_value(s.last())
    }
}

pub open spec fn all_digits(s: Seq<char>) -> bool {
    forall|i: int| 0 <= i < s.len() ==> is_digit(#[trigger] s[i])
}

/// `s` without a leading plus sign.
pub open spec fn unsigned(s: Seq<char>) -> Seq<char> {
    if s.len() > 0 && s[0] == '+' {
        s.skip(1)
    } else {
        s
    }
}

/// An unsigned decimal number: digits, with at most a plus sign before them.
pub open spec fn parse(s: Seq<char>) -> Option<nat> {
    let digits = unsigned(s);
    if digits.len() > 0 && all_digits(digits) {
        Some(value(digits))
    } else {
        None
    }
}

/// The number that `s` denotes, where it is at most `max`.
pub open spec fn parse_max(s: Seq<char>, max: nat) -> Option<nat> {
    match parse(s) {
        Some(n) => if n <= max {
            Some(n)
        } else {
            None
        },
        None => None,
    }
}

pub fn push_decimal(out: &mut String, n: u64)
    ensures
        final(out)@ == old(out)@ + decimal(n as nat),
    decreases n,
{
    if n >= 10 {
        push_decimal(out, n / 10);
    }
    let d: u8 = (n % 10) as u8;
    out.push((48 + d) as char);
    assert(out@ =~= old(out)@ + decimal(n as nat));
}

pub fn number(n: usize) -> (r: String)
    ensures
        r@ == decimal(n as nat),
{
    let mut r = String::new();
    push_decimal(&mut r, n as u64);
    assert(r@ =~= decimal(n as nat));
    r
}

proof fn lemma_value_grows(s: Seq<char>, n: int)
    requires
        0 <= n <= s.len(),
    ensures
        value(s.take(n)) <= value(s),
    decreases s.len() - n,
{
    if n < s.len() {
        lemma_value_grows(s, n + 1);
        assert(s.take(n + 1).drop_last() =~= s.take(n));
    } else {
        assert(s.take(n) =~= s);
    }
}

pub fn read_number(a: &[char], max: u64) -> (r: Option<u64>)
    ensures
        match r {
            Some(n) => parse_max(a@, max as nat) == Some(n as nat),
            None => parse_max(a@, max as nat) is None,
        },
{
    let mut start: usize = 0;
    if a.len() > 0 && a[0] == '+' {
        start = 1;
    }
    let s = part(a, start, a.len());
    assert(a@.skip(start as int) =~= s@);
    assert(a@.skip(0) =~= a@);
    if s.len() == 0 {
        return None;
    }
    let mut n: u64 = 0;
    let mut i: usize = 0;
    while i < s.len()
        invariant
            i <= s@.len(),
            n <= max,
            n == value(s@.take(i as int)),
            forall|j: int| 0 <= j < i ==> is_digit(#[trigger] s@[j]),
            s@.len() > 0,
            s@ == unsigned(a@),
        decreases s@.len() - i,
    {
        let c = s[i];
        if !digit(c) {
            assert(!is_digit(s@[i as int]));
            return None;
        }
        let d: u64 = (c as u32 - '0' as u32) as u64;
        let ghost next = s@.take(i + 1);
        assert(next.drop_last() =~= s@.take(i as int));
        assert(value(next) == n * 10 + d);
        if n > max / 10 || d > max - n * 10 {
            proof {
                lemma_value_grows(s@, i + 1);
                assert(value(next) > max);
            }
            return None;
        }
        n = n * 10 + d;
        i += 1;
    }
    assert(s@.take(i as int) =~= s@);
    Some(n)
}

/// Why a text is not a number of at most `max`, as std says it: the first
/// character that is no digit, or that makes the number too large, decides.
pub open spec fn number_problem(s: Seq<char>, max: nat) -> Seq<char> {
    let digits = unsigned(s);
    if s.len() == 0 {
        "cannot parse integer from empty string"@
    } else if digits.len() > 0 && value(digits.take(leading_digits(digits))) > max {
        "number too large to fit in target type"@
    } else {
        "invalid digit found in string"@
    }
}

/// The number of digits at the start.
pub open spec fn leading_digits(s: Seq<char>) -> int
    decreases s.len(),
{
    if s.len() > 0 && is_digit(s[0]) {
        1 + leading_digits(s.skip(1))
    } else {
        0
    }
}

proof fn lemma_leading_digits(s: Seq<char>, n: int)
    requires
        0 <= n <= s.len(),
        forall|j: int| 0 <= j < n ==> is_digit(#[trigger] s[j]),
        n < s.len() ==> !is_digit(s[n]),
    ensures
        leading_digits(s) == n,
    decreases n,
{
    if n > 0 {
        let t = s.skip(1);
        assert forall|j: int| 0 <= j < n - 1 implies is_digit(#[trigger] t[j]) by {
            assert(t[j] == s[j + 1]);
        }
        lemma_leading_digits(t, n - 1);
    }
}

/// The message for a text that is not a number of at most `max`.
pub fn explain_number(a: &[char], max: u64) -> (r: &'static str)
    requires
        parse_max(a@, max as nat) is None,
    ensures
        r@ == number_problem(a@, max as nat),
{
    if a.len() == 0 {
        return "cannot parse integer from empty string";
    }
    let start: usize = if a[0] == '+' { 1 } else { 0 };
    let s = part(a, start, a.len());
    assert(a@.skip(start as int) =~= s@);
    assert(a@.skip(0) =~= a@);
    assert(s@ == unsigned(a@));
    let mut n: usize = 0;
    while n < s.len() && digit(s[n])
        invariant
            n <= s@.len(),
            forall|j: int| 0 <= j < n ==> is_digit(#[trigger] s@[j]),
        decreases s@.len() - n,
    {
        n += 1;
    }
    proof {
        lemma_leading_digits(s@, n as int);
    }
    if n == 0 {
        assert(s@.take(0) =~= seq![]);
        return "invalid digit found in string";
    }
    let head = part(s, 0, n);
    assert(head@ =~= s@.take(n as int));
    assert(all_digits(head@));
    assert(unsigned(head@) == head@) by {
        assert(is_digit(head@[0]));
    }
    match read_number(head, max) {
        Some(_) => "invalid digit found in string",
        None => "number too large to fit in target type",
    }
}

pub fn read_usize(a: &[char]) -> (r: Option<usize>)
    ensures
        match r {
            Some(n) => parse_max(a@, usize::MAX as nat) == Some(n as nat),
            None => parse_max(a@, usize::MAX as nat) is None,
        },
{
    match read_number(a, usize::MAX as u64) {
        Some(n) => Some(n as usize),
        None => None,
    }
}

// ---------------------------------------------------------------------------
// Sizes in bytes
// ---------------------------------------------------------------------------

/// The number of bytes of a text.
pub open spec fn size(s: Seq<char>) -> nat {
    encode_utf8(s).len()
}

/// The first `k` characters take `n` bytes.
pub open spec fn cuts(s: Seq<char>, n: int, k: int) -> bool {
    0 <= k <= s.len() && size(s.take(k)) == n
}

/// No character is cut apart at `n` bytes.
pub open spec fn clippable(s: Seq<char>, n: int) -> bool {
    size(s) <= n || exists|k: int| cuts(s, n, k)
}

/// The first `n` bytes, or all if there are less.
pub open spec fn clipped(s: Seq<char>, n: int) -> Seq<char> {
    if size(s) <= n {
        s
    } else {
        s.take(choose|k: int| cuts(s, n, k))
    }
}

proof fn lemma_char_size(c: char)
    ensures
        encode_scalar(c as u32).len() == char_size(c),
{
    broadcast use vstd::utf8::char_is_scalar;
}

/// The number of bytes of a character.
pub open spec fn char_size(c: char) -> nat {
    let n = c as u32;
    if n <= 0x7f {
        1
    } else if n <= 0x7ff {
        2
    } else if n <= 0xffff {
        3
    } else {
        4
    }
}

pub proof fn lemma_size_sum(a: Seq<char>, b: Seq<char>)
    ensures
        size(a + b) == size(a) + size(b),
    decreases a.len(),
{
    if a.len() == 0 {
        assert(a + b =~= b);
    } else {
        lemma_size_sum(a.drop_first(), b);
        assert((a + b).drop_first() =~= a.drop_first() + b);
        assert((a + b)[0] == a[0]);
    }
}

pub proof fn lemma_size_push(s: Seq<char>, c: char)
    ensures
        size(s.push(c)) == size(s) + char_size(c),
{
    let one = seq![c];
    lemma_size_sum(s, one);
    assert(s.push(c) =~= s + one);
    assert(one.drop_first() =~= seq![]);
    lemma_char_size(c);
    reveal_with_fuel(encode_utf8, 2);
}

/// A text has at least as many bytes as characters.
pub proof fn lemma_size(s: Seq<char>)
    ensures
        s.len() <= size(s),
    decreases s.len(),
{
    if s.len() > 0 {
        lemma_size(s.drop_last());
        lemma_size_push(s.drop_last(), s.last());
        assert(s.drop_last().push(s.last()) =~= s);
    }
}

proof fn lemma_one_cut(s: Seq<char>, n: int, j: int, k: int)
    requires
        cuts(s, n, j),
        cuts(s, n, k),
    ensures
        j == k,
{
    let low = if j < k { j } else { k };
    let high = if j < k { k } else { j };
    lemma_size_sum(s.take(low), s.subrange(low, high));
    assert(s.take(low) + s.subrange(low, high) =~= s.take(high));
    lemma_size(s.subrange(low, high));
}

pub fn byte_len(s: &str) -> (r: usize)
    ensures
        r == size(s@),
{
    s.as_bytes().len()
}

/// The first `n` bytes of `s`, if no character is cut apart there.
pub fn try_clip(s: &str, n: usize) -> (r: Option<String>)
    ensures
        match r {
            Some(x) => clippable(s@, n as int) && x@ == clipped(s@, n as int),
            None => !clippable(s@, n as int),
        },
{
    if byte_len(s) <= n {
        return Some(s.to_owned());
    }
    let all = chars(s);
    let ghost whole = all@;
    let len: usize = all.len();
    let mut used: usize = 0;
    let mut i: usize = 0;
    assert(whole.take(0) =~= seq![]);
    loop
        invariant
            whole == all@,
            len == whole.len(),
            whole == s@,
            i <= whole.len(),
            used == size(whole.take(i as int)),
            used <= n < size(whole),
            forall|k: int| 0 <= k < i ==> !cuts(whole, n as int, k),
        decreases whole.len() - i,
    {
        if used == n {
            proof {
                assert(cuts(whole, n as int, i as int));
                let k = choose|k: int| cuts(whole, n as int, k);
                lemma_one_cut(whole, n as int, i as int, k);
            }
            let head = part(all.as_slice(), 0, i);
            assert(head@ =~= whole.take(i as int));
            return Some(text(head));
        }
        proof {
            if i == whole.len() {
                assert(whole.take(i as int) =~= whole);
            }
        }
        let c: u32 = all[i] as u32;
        let step: usize = if c <= 0x7f {
            1
        } else if c <= 0x7ff {
            2
        } else if c <= 0xffff {
            3
        } else {
            4
        };
        proof {
            lemma_size_push(whole.take(i as int), whole[i as int]);
            assert(whole.take(i as int).push(whole[i as int]) =~= whole.take(i + 1));
        }
        if step > n - used {
            proof {
                assert forall|k: int| !cuts(whole, n as int, k) by {
                    if i < k <= whole.len() {
                        let low = whole.take(i + 1);
                        let rest = whole.subrange(i + 1, k);
                        lemma_size_sum(low, rest);
                        assert(low + rest =~= whole.take(k));
                    }
                }
            }
            return None;
        }
        used = used + step;
        i += 1;
    }
}

pub fn clip(s: &str, n: usize) -> (r: String)
    requires
        clippable(s@, n as int),
    ensures
        r@ == clipped(s@, n as int),
{
    match try_clip(s, n) {
        Some(r) => r,
        None => String::new(),
    }
}

/// The length of the longest start of `s` that takes at most `n` bytes.
pub open spec fn fitting(s: Seq<char>, n: nat) -> nat
    decreases s.len(),
{
    if size(s) <= n || s.len() == 0 {
        s.len()
    } else {
        fitting(s.drop_last(), n)
    }
}

/// What fits into `n` bytes is a start of the text, and one more character would
/// not fit.
pub proof fn fitting_starts_are_longest(s: Seq<char>, n: nat)
    ensures
        fitting(s, n) <= s.len(),
        size(s.take(fitting(s, n) as int)) <= n,
        fitting(s, n) < s.len() ==> size(s.take(fitting(s, n) as int + 1)) > n,
    decreases s.len(),
{
    lemma_size(s);
    if size(s) <= n || s.len() == 0 {
        assert(s.take(s.len() as int) =~= s);
    } else {
        let t = s.drop_last();
        fitting_starts_are_longest(t, n);
        let k = fitting(t, n) as int;
        assert(s.take(k) =~= t.take(k));
        if k < t.len() {
            assert(s.take(k + 1) =~= t.take(k + 1));
        } else {
            assert(s.take(k + 1) =~= s);
        }
    }
}

proof fn lemma_fitting_is(s: Seq<char>, n: nat, k: int)
    requires
        0 <= k <= s.len(),
        size(s.take(k)) <= n,
        k < s.len() ==> size(s.take(k + 1)) > n,
    ensures
        fitting(s, n) == k,
    decreases s.len(),
{
    if k == s.len() {
        assert(s.take(k) =~= s);
    } else {
        assert(s.take(k + 1) + s.skip(k + 1) =~= s);
        lemma_size_sum(s.take(k + 1), s.skip(k + 1));
        let t = s.drop_last();
        assert(t.take(k) =~= s.take(k));
        if k < t.len() {
            assert(t.take(k + 1) =~= s.take(k + 1));
        }
        lemma_fitting_is(t, n, k);
    }
}

pub fn fit(a: &[char], n: usize) -> (r: usize)
    ensures
        r == fitting(a@, n as nat),
        r <= a@.len(),
{
    let mut i: usize = 0;
    let mut left: usize = n;
    proof {
        assert(a@.take(0) =~= seq![]);
        lemma_size(a@.take(0));
    }
    while i < a.len()
        invariant
            i <= a@.len(),
            size(a@.take(i as int)) + left == n,
        decreases a@.len() - i,
    {
        let c: u32 = a[i] as u32;
        let width: usize = if c <= 0x7f {
            1
        } else if c <= 0x7ff {
            2
        } else if c <= 0xffff {
            3
        } else {
            4
        };
        proof {
            lemma_size_push(a@.take(i as int), a@[i as int]);
            assert(a@.take(i as int).push(a@[i as int]) =~= a@.take(i as int + 1));
        }
        if width > left {
            proof {
                lemma_fitting_is(a@, n as nat, i as int);
            }
            return i;
        }
        left -= width;
        i += 1;
    }
    proof {
        lemma_fitting_is(a@, n as nat, i as int);
    }
    i
}

/// `s` and spaces after it, up to `n` characters.
pub open spec fn padded(s: Seq<char>, n: nat) -> Seq<char> {
    s + Seq::new(if s.len() < n { (n - s.len()) as nat } else { 0 }, |i: int| ' ')
}

pub fn pad(s: &str, n: usize) -> (r: String)
    ensures
        r@ == padded(s@, n as nat),
{
    let width: usize = chars(s).len();
    let mut r = s.to_owned();
    let mut i: usize = width;
    assert(r@ =~= s@ + Seq::new(0, |i: int| ' '));
    while i < n
        invariant
            width == s@.len(),
            width <= i,
            i <= n || i == width,
            r@ == s@ + Seq::new((i - width) as nat, |i: int| ' '),
        decreases n - i,
    {
        r.push(' ');
        i += 1;
        assert(r@ =~= s@ + Seq::new((i - width) as nat, |i: int| ' '));
    }
    r
}

pub open spec fn all_hex(s: Seq<char>) -> bool {
    forall|i: int| 0 <= i < s.len() ==> is_hex(#[trigger] s[i])
}

/// Hexadecimal digits take one byte each.
pub proof fn lemma_hex_size(s: Seq<char>)
    requires
        all_hex(s),
    ensures
        size(s) == s.len(),
    decreases s.len(),
{
    if s.len() > 0 {
        let t = s.drop_last();
        assert forall|i: int| 0 <= i < t.len() implies is_hex(#[trigger] t[i]) by {
            assert(t[i] == s[i]);
        }
        lemma_hex_size(t);
        lemma_size_push(t, s.last());
        assert(t.push(s.last()) =~= s);
        assert(is_hex(s[s.len() - 1]));
    }
}

/// Hexadecimal digits can be clipped anywhere.
pub proof fn lemma_hex_clip(s: Seq<char>, n: int)
    requires
        all_hex(s),
        0 <= n,
    ensures
        clippable(s, n),
        clipped(s, n) == (if s.len() <= n {
            s
        } else {
            s.take(n)
        }),
{
    lemma_hex_size(s);
    if s.len() > n {
        let t = s.take(n);
        assert forall|i: int| 0 <= i < t.len() implies is_hex(#[trigger] t[i]) by {
            assert(t[i] == s[i]);
        }
        lemma_hex_size(t);
        assert(cuts(s, n, n));
        let k = choose|k: int| cuts(s, n, k);
        lemma_one_cut(s, n, n, k);
    }
}

pub fn is_all_hex(a: &[char]) -> (r: bool)
    ensures
        r == all_hex(a@),
{
    let mut i: usize = 0;
    while i < a.len()
        invariant
            i <= a@.len(),
            forall|j: int| 0 <= j < i ==> is_hex(#[trigger] a@[j]),
        decreases a@.len() - i,
    {
        if !hex(a[i]) {
            assert(!is_hex(a@[i as int]));
            return false;
        }
        i += 1;
    }
    true
}

/// A text is cut at the first separator: what stands before it holds none.
pub proof fn texts_are_cut_at_the_first(a: Seq<char>, sep: char, b: Seq<char>)
    requires
        forall|i: int| 0 <= i < a.len() ==> #[trigger] a[i] != sep,
    ensures
        split_once(a + seq![sep] + b, seq![sep]) == Some((a, b)),
        position(a + seq![sep] + b, Pattern::One(sep)) == a.len(),
{
    let s = a + seq![sep] + b;
    let p = seq![sep];
    let n = a.len() as int;
    lemma_find(s, p);
    assert(s.subrange(n, n + 1) =~= p);
    assert(occurs(s, p, n));
    let k = find(s, p)->0;
    if k < n {
        assert(s.subrange(k, k + 1)[0] == a[k]);
    }
    assert(s.take(n) =~= a);
    assert(s.skip(n + 1) =~= b);
    assert forall|j: int| 0 <= j < n implies !Pattern::One(sep).hits(#[trigger] s[j]) by {
        assert(s[j] == a[j]);
    }
    assert(s[n] == sep);
    lemma_position_is(s, Pattern::One(sep), n);
}

/// A text without the separator is not cut.
pub proof fn texts_without_a_separator_stay_whole(a: Seq<char>, sep: char)
    requires
        forall|i: int| 0 <= i < a.len() ==> #[trigger] a[i] != sep,
    ensures
        split_once(a, seq![sep]) is None,
        position(a, Pattern::One(sep)) == a.len(),
{
    lemma_find(a, seq![sep]);
    if let Some(k) = find(a, seq![sep]) {
        assert(a.subrange(k, k + 1)[0] == a[k]);
    }
    lemma_position_is(a, Pattern::One(sep), a.len() as int);
}

/// A number that is written is read back.
pub proof fn numbers_are_read_back(n: nat, max: nat)
    requires
        n <= max,
    ensures
        parse_max(decimal(n), max) == Some(n),
{
    lemma_decimal(n);
    let s = decimal(n);
    assert(is_digit(s[0]));
    assert(unsigned(s) == s);
}

pub proof fn lemma_decimal(n: nat)
    ensures
        decimal(n).len() > 0,
        all_digits(decimal(n)),
        value(decimal(n)) == n,
    decreases n,
{
    if n < 10 {
        let s = decimal(n);
        assert(s.drop_last() =~= seq![]);
        assert(value(s.drop_last()) == 0);
    } else {
        let rest = decimal(n / 10);
        lemma_decimal(n / 10);
        assert(decimal(n).drop_last() =~= rest);
        assert forall|i: int| 0 <= i < decimal(n).len() implies is_digit(
            #[trigger] decimal(n)[i],
        ) by {
            if i < rest.len() {
                assert(decimal(n)[i] == rest[i]);
            }
        }
    }
}

} // verus!
