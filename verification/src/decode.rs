//! Byte collections that a debugger lists element by element, shown as the text
//! or JSON that they hold.
use crate::adapter::Variable;
use crate::bytes::{utf8, utf8_text};
use crate::json::{
    compact, compact_json, parse_string, parse_value, parsed_json, parsed_string, pretty,
    pretty_json,
};
use crate::order::{
    different_keys, lemma_rearranged, sort, sorted, sorting_forgets_the_order, Keyed,
};
use crate::text::{
    after_prefix, all_hex, before_suffix, chars, control, cut, hex, is_control, is_digit, is_hex,
    parse_max, part, read_number, read_usize, slices, spells, split_once, split_words, starts_with,
    strip, strip_prefix, strip_suffix, text, trimmed, unsigned, words, Pattern,
};
use vstd::prelude::*;

verus! {

#[derive(Debug, Clone, Copy, PartialEq, Eq, Structural)]
pub enum DecodedBytesKind {
    Text,
    Json,
}

#[derive(Debug, PartialEq, Eq)]
pub struct DecodedBytes {
    pub inline: String,
    pub pretty: String,
    pub kind: DecodedBytesKind,
}

pub struct DecodedView {
    pub inline: Seq<char>,
    pub pretty: Seq<char>,
    pub kind: DecodedBytesKind,
}

impl View for DecodedBytes {
    type V = DecodedView;

    open spec fn view(&self) -> DecodedView {
        DecodedView { inline: self.inline@, pretty: self.pretty@, kind: self.kind }
    }
}

pub open spec fn decoded_view(d: Option<DecodedBytes>) -> Option<DecodedView> {
    match d {
        Some(d) => Some(d@),
        None => None,
    }
}

impl DecodedBytes {
    pub fn label(&self) -> (r: &'static str)
        ensures
            r@ == (match self.kind {
                DecodedBytesKind::Text => "text"@,
                DecodedBytesKind::Json => "json"@,
            }),
    {
        match self.kind {
            DecodedBytesKind::Text => "text",
            DecodedBytesKind::Json => "json",
        }
    }
}

// ---------------------------------------------------------------------------
// Elements
// ---------------------------------------------------------------------------

/// The index that an element's name says: `[3]` or `3`.
pub open spec fn index_named(name: Seq<char>) -> Option<nat> {
    let whole = trimmed(name);
    let inner = match strip_prefix(whole, "["@) {
        Some(rest) => match strip_suffix(rest, "]"@) {
            Some(inner) => inner,
            None => whole,
        },
        None => whole,
    };
    parse_max(inner, usize::MAX as nat)
}

pub fn parse_index_name(name: &str) -> (r: Option<usize>)
    ensures
        match r {
            Some(i) => index_named(name@) == Some(i as nat),
            None => index_named(name@) is None,
        },
{
    let all = chars(name);
    let whole = strip(&all);
    let inner = match after_prefix(whole, "[") {
        Some(rest) => match before_suffix(rest, "]") {
            Some(inner) => inner,
            None => whole,
        },
        None => whole,
    };
    read_usize(inner)
}

pub open spec fn hex_digit(c: char) -> nat {
    if is_digit(c) {
        (c as u32 - '0' as u32) as nat
    } else if 'a' <= c <= 'f' {
        (c as u32 - 'a' as u32 + 10) as nat
    } else {
        (c as u32 - 'A' as u32 + 10) as nat
    }
}

pub open spec fn hex_value(s: Seq<char>) -> nat
    decreases s.len(),
{
    if s.len() == 0 {
        0
    } else {
        hex_value(s.drop_last()) * 16 + hex_digit(s.last())
    }
}

/// The byte that hexadecimal digits denote.
pub open spec fn hex_byte(s: Seq<char>) -> Option<nat> {
    let digits = unsigned(s);
    if digits.len() > 0 && all_hex(digits) && hex_value(digits) <= 255 {
        Some(hex_value(digits))
    } else {
        None
    }
}

proof fn lemma_hex_grows(s: Seq<char>, n: int)
    requires
        0 <= n <= s.len(),
    ensures
        hex_value(s.take(n)) <= hex_value(s),
    decreases s.len() - n,
{
    if n < s.len() {
        lemma_hex_grows(s, n + 1);
        assert(s.take(n + 1).drop_last() =~= s.take(n));
    } else {
        assert(s.take(n) =~= s);
    }
}

fn read_hex(a: &[char]) -> (r: Option<u8>)
    ensures
        match r {
            Some(b) => hex_byte(a@) == Some(b as nat),
            None => hex_byte(a@) is None,
        },
{
    let mut start: usize = 0;
    if a.len() > 0 && a[0] == '+' {
        start = 1;
    }
    let s = part(a, start, a.len());
    assert(s@ =~= unsigned(a@));
    if s.len() == 0 {
        return None;
    }
    let mut n: u32 = 0;
    let mut i: usize = 0;
    while i < s.len()
        invariant
            i <= s@.len(),
            n <= 255,
            n == hex_value(s@.take(i as int)),
            forall|j: int| 0 <= j < i ==> is_hex(#[trigger] s@[j]),
            s@.len() > 0,
            s@ == unsigned(a@),
        decreases s@.len() - i,
    {
        let c = s[i];
        if !hex(c) {
            assert(!is_hex(s@[i as int]));
            return None;
        }
        let d: u32 = if '0' <= c && c <= '9' {
            c as u32 - '0' as u32
        } else if 'a' <= c && c <= 'f' {
            c as u32 - 'a' as u32 + 10
        } else {
            c as u32 - 'A' as u32 + 10
        };
        assert(s@.take(i as int + 1).drop_last() =~= s@.take(i as int));
        n = n * 16 + d;
        i += 1;
        if n > 255 {
            proof {
                lemma_hex_grows(s@, i as int);
            }
            return None;
        }
    }
    assert(s@.take(i as int) =~= s@);
    Some(n as u8)
}

/// The part of an element's value that says the byte: `123` in `123 = 0x7b`.
pub open spec fn byte_token(value: Seq<char>) -> Seq<char> {
    let whole = trimmed(value);
    let head = match split_once(whole, "="@) {
        Some((head, _)) => trimmed(head),
        None => whole,
    };
    let parts = words(head);
    if parts.len() > 0 {
        parts[0]
    } else {
        whole
    }
}

/// The byte that an element's value says, in decimal or after `0x`.
pub open spec fn byte_in(value: Seq<char>) -> Option<nat> {
    let token = byte_token(value);
    match strip_prefix(token, "0x"@) {
        Some(digits) => hex_byte(digits),
        None => parse_max(token, 255),
    }
}

pub fn parse_byte_value(value: &str) -> (r: Option<u8>)
    ensures
        match r {
            Some(b) => byte_in(value@) == Some(b as nat),
            None => byte_in(value@) is None,
        },
{
    let all = chars(value);
    let whole = strip(&all);
    let head = match cut(whole, "=") {
        Some((head, _rest)) => strip(head),
        None => whole,
    };
    let parts = split_words(head);
    let ghost p = slices(parts@);
    assert(p.len() == parts@.len());
    let token = if parts.len() > 0 {
        assert(p[0] == parts@[0]@);
        parts[0]
    } else {
        whole
    };
    match after_prefix(token, "0x") {
        Some(digits) => read_hex(digits),
        None => match read_number(token, 255) {
            Some(n) => Some(n as u8),
            None => None,
        },
    }
}

/// A type whose values are bytes.
pub open spec fn byte_like(ty: Seq<char>) -> bool {
    trimmed(ty) == "uint8"@ || trimmed(ty) == "byte"@
}

/// What a child of a collection says.
pub enum Child {
    Byte(Indexed),
    /// The collection as a string.
    Whole(Seq<char>),
    /// Something that does not matter.
    Ignored,
    /// The collection holds something else than bytes.
    Other,
}

/// An element of a collection.
#[derive(Clone, Copy, Debug)]
pub struct Indexed {
    pub index: usize,
    pub byte: u8,
}

impl Keyed for Indexed {
    open spec fn le(&self, other: &Indexed) -> bool {
        self.index <= other.index
    }

    proof fn total(a: &Indexed, b: &Indexed) {
    }

    proof fn transitive(a: &Indexed, b: &Indexed, c: &Indexed) {
    }

    fn not_after(&self, other: &Indexed) -> (r: bool) {
        self.index <= other.index
    }
}

/// The string that a child named `string()` says.
pub open spec fn whole_string(v: Variable) -> Option<Seq<char>> {
    match v.ty {
        Some(ty) => if trimmed(v.name@) == "string()"@ && trimmed(ty@) == "string"@ {
            parsed_string(trimmed(v.value@))
        } else {
            None
        },
        None => None,
    }
}

pub open spec fn child(v: Variable) -> Child {
    match index_named(v.name@) {
        Some(index) => match (v.ty, byte_in(v.value@)) {
            (Some(ty), Some(byte)) => if byte_like(ty@) {
                Child::Byte(Indexed { index: index as usize, byte: byte as u8 })
            } else {
                Child::Other
            },
            _ => Child::Other,
        },
        None => match whole_string(v) {
            Some(s) => Child::Whole(s),
            None => if trimmed(v.name@) == "len"@ || trimmed(v.name@) == "cap"@ {
                Child::Ignored
            } else {
                Child::Other
            },
        },
    }
}

/// The elements of a collection and the string that it is said to be; nothing if
/// it holds something else than bytes.
pub open spec fn gathered(variables: Seq<Variable>) -> Option<(Seq<Indexed>, Option<Seq<char>>)>
    decreases variables.len(),
{
    if variables.len() == 0 {
        Some((seq![], None))
    } else {
        match gathered(variables.drop_last()) {
            None => None,
            Some((elements, whole)) => match child(variables.last()) {
                Child::Byte(e) => Some((elements.push(e), whole)),
                Child::Whole(s) => Some((elements, Some(s))),
                Child::Ignored => Some((elements, whole)),
                Child::Other => None,
            },
        }
    }
}

proof fn lemma_gathered(variables: Seq<Variable>, n: int)
    requires
        0 <= n <= variables.len(),
        gathered(variables.take(n)) is None,
    ensures
        gathered(variables) is None,
    decreases variables.len() - n,
{
    if n < variables.len() {
        assert(variables.take(n + 1).drop_last() =~= variables.take(n));
        lemma_gathered(variables, n + 1);
    } else {
        assert(variables.take(n) =~= variables);
    }
}

fn read_whole(v: &Variable) -> (r: Option<String>)
    ensures
        match r {
            Some(s) => whole_string(*v) == Some(s@),
            None => whole_string(*v) is None,
        },
{
    let ty = match &v.ty {
        Some(ty) => ty,
        None => return None,
    };
    if !spells(strip(&chars(&v.name)), "string()") || !spells(strip(&chars(ty)), "string") {
        return None;
    }
    let all = chars(&v.value);
    parse_string(&text(strip(&all)))
}

fn gather(variables: &Vec<Variable>) -> (r: Option<(Vec<Indexed>, Option<String>)>)
    ensures
        match (r, gathered(variables@)) {
            (Some((a, b)), Some((elements, whole))) => a@ == elements
                && crate::status::text_view(b) == whole,
            (None, None) => true,
            _ => false,
        },
{
    let mut elements: Vec<Indexed> = Vec::new();
    let mut whole: Option<String> = None;
    let mut i: usize = 0;
    assert(elements@ =~= seq![]);
    while i < variables.len()
        invariant
            i <= variables@.len(),
            gathered(variables@.take(i as int)) == Some(
                (elements@, crate::status::text_view(whole)),
            ),
        decreases variables@.len() - i,
    {
        let v = &variables[i];
        let ghost next = variables@.take(i as int + 1);
        proof {
            assert(next.drop_last() =~= variables@.take(i as int));
            assert(next.last() == *v);
            if gathered(next) is None {
                lemma_gathered(variables@, i as int + 1);
            }
        }
        i += 1;
        match parse_index_name(&v.name) {
            Some(index) => {
                let bytes = match &v.ty {
                    Some(ty) => {
                        let all = chars(ty);
                        let name = strip(&all);
                        spells(name, "uint8") || spells(name, "byte")
                    },
                    None => false,
                };
                if !bytes {
                    return None;
                }
                match parse_byte_value(&v.value) {
                    Some(byte) => {
                        elements.push(Indexed { index, byte });
                    },
                    None => return None,
                }
                continue;
            },
            None => {},
        }
        match read_whole(v) {
            Some(s) => {
                whole = Some(s);
                continue;
            },
            None => {},
        }
        let all = chars(&v.name);
        let name = strip(&all);
        if !spells(name, "len") && !spells(name, "cap") {
            return None;
        }
    }
    assert(variables@.take(i as int) =~= variables@);
    Some((elements, whole))
}

// ---------------------------------------------------------------------------
// Texts
// ---------------------------------------------------------------------------

/// Something that can be shown as text: not empty, and without controls but line
/// breaks and tabs.
pub open spec fn probably_text(s: Seq<char>) -> bool {
    s.len() > 0 && forall|i: int|
        0 <= i < s.len() ==> !is_control(#[trigger] s[i]) || s[i] == '\n' || s[i] == '\r' || s[i]
            == '\t'
}

pub fn is_probably_text(s: &str) -> (r: bool)
    ensures
        r == probably_text(s@),
{
    let all = chars(s);
    let mut i: usize = 0;
    while i < all.len()
        invariant
            i <= all@.len(),
            all@ == s@,
            forall|j: int|
                0 <= j < i ==> !is_control(#[trigger] all@[j]) || all@[j] == '\n' || all@[j] == '\r'
                    || all@[j] == '\t',
        decreases all@.len() - i,
    {
        let c = all[i];
        if control(c) && c != '\n' && c != '\r' && c != '\t' {
            assert(!(!is_control(s@[i as int]) || s@[i as int] == '\n' || s@[i as int] == '\r'
                || s@[i as int] == '\t'));
            return false;
        }
        i += 1;
    }
    all.len() > 0
}

/// How a text is shown; `json` is what its JSON value looks like on one line and
/// over several, if it has one.
pub open spec fn shown(
    s: Seq<char>,
    json: Option<(Option<Seq<char>>, Option<Seq<char>>)>,
) -> Option<DecodedView> {
    if !probably_text(s) {
        None
    } else {
        match json {
            Some((Some(inline), Some(pretty))) => Some(
                DecodedView { inline, pretty, kind: DecodedBytesKind::Json },
            ),
            Some(_) => None,
            None => Some(DecodedView { inline: s, pretty: s, kind: DecodedBytesKind::Text }),
        }
    }
}

/// The JSON texts of what `s` says, if it is JSON.
pub open spec fn json_texts(s: Seq<char>) -> Option<(Option<Seq<char>>, Option<Seq<char>>)> {
    match parsed_json(trimmed(s)) {
        Ok(v) => Some((compact_json(v), pretty_json(v))),
        Err(_) => None,
    }
}

pub fn show_text(s: &str, json: Option<(Option<String>, Option<String>)>) -> (r: Option<
    DecodedBytes,
>)
    ensures
        decoded_view(r) == shown(
            s@,
            match json {
                Some((a, b)) => Some(
                    (crate::status::text_view(a), crate::status::text_view(b)),
                ),
                None => None,
            },
        ),
{
    if !is_probably_text(s) {
        return None;
    }
    match json {
        Some((Some(inline), Some(pretty))) => Some(
            DecodedBytes { inline, pretty, kind: DecodedBytesKind::Json },
        ),
        Some(_) => None,
        None => Some(
            DecodedBytes {
                inline: s.to_owned(),
                pretty: s.to_owned(),
                kind: DecodedBytesKind::Text,
            },
        ),
    }
}

/// A text as it is shown: JSON on one line and over several, other text as it is.
pub fn decode_text(s: &str) -> (r: Option<DecodedBytes>)
    ensures
        decoded_view(r) == shown(s@, json_texts(s@)),
{
    let all = chars(s);
    let json = match parse_value(&text(strip(&all))) {
        Ok(v) => Some((compact(&v), pretty(&v))),
        Err(_e) => None,
    };
    show_text(s, json)
}

pub open spec fn bytes_of(elements: Seq<Indexed>) -> Seq<u8> {
    elements.map_values(|e: Indexed| e.byte)
}

/// How elements in the order of their indices are shown.
pub open spec fn bytes_shown(elements: Seq<Indexed>) -> Option<DecodedView> {
    match utf8_text(bytes_of(elements)) {
        Some(s) => shown(s, json_texts(s)),
        None => None,
    }
}

/// How a collection is shown: by the string that it is said to be, where that can
/// be shown, else by its elements in the order of their indices.
pub open spec fn collection_shown(variables: Seq<Variable>) -> Option<DecodedView> {
    match gathered(variables) {
        None => None,
        Some((elements, whole)) => {
            let first = match whole {
                Some(s) => shown(s, json_texts(s)),
                None => None,
            };
            if first is Some {
                first
            } else if elements.len() == 0 {
                None
            } else {
                bytes_shown(sorted(elements))
            }
        },
    }
}

/// The text or JSON that a collection of bytes holds; `None` if it holds
/// something else, or nothing that can be shown.
pub fn decode_byte_collection(variables: &Vec<Variable>) -> (r: Option<DecodedBytes>)
    ensures
        decoded_view(r) == collection_shown(variables@),
{
    let (elements, whole) = match gather(variables) {
        Some(x) => x,
        None => return None,
    };
    match whole {
        Some(s) => {
            let first = decode_text(&s);
            if first.is_some() {
                return first;
            }
        },
        None => {},
    }
    if elements.len() == 0 {
        return None;
    }
    let ordered = sort(elements);
    let mut bytes: Vec<u8> = Vec::new();
    let mut i: usize = 0;
    assert(bytes@ =~= bytes_of(ordered@.take(0)));
    while i < ordered.len()
        invariant
            i <= ordered@.len(),
            bytes@ == bytes_of(ordered@.take(i as int)),
        decreases ordered@.len() - i,
    {
        bytes.push(ordered[i].byte);
        i += 1;
        assert(bytes@ =~= bytes_of(ordered@.take(i as int)));
    }
    assert(ordered@.take(i as int) =~= ordered@);
    match utf8(&bytes) {
        Some(s) => decode_text(s),
        None => None,
    }
}

// ---------------------------------------------------------------------------
// Pages
// ---------------------------------------------------------------------------

/// Elements are fetched in pages of this size.
pub const PAGE: usize = 64;

/// A collection that is being fetched, page by page.
#[derive(Debug)]
pub struct Pages {
    pub total: usize,
    /// How many elements were fetched.
    pub start: usize,
    pub variables: Vec<Variable>,
    /// A page held no elements.
    pub ended: bool,
}

/// How many of the children are elements.
pub open spec fn element_count(variables: Seq<Variable>) -> nat
    decreases variables.len(),
{
    if variables.len() == 0 {
        0
    } else {
        element_count(variables.drop_last()) + (if index_named(variables.last().name@) is Some {
            1nat
        } else {
            0
        })
    }
}

proof fn lemma_element_count(a: Seq<Variable>, b: Seq<Variable>)
    ensures
        element_count(a + b) == element_count(a) + element_count(b),
    decreases b.len(),
{
    if b.len() == 0 {
        assert(a + b =~= a);
    } else {
        assert((a + b).drop_last() =~= a + b.drop_last());
        lemma_element_count(a, b.drop_last());
    }
}

fn count_elements(variables: &Vec<Variable>) -> (r: usize)
    ensures
        r == element_count(variables@),
        r <= variables@.len(),
{
    let mut n: usize = 0;
    let mut i: usize = 0;
    while i < variables.len()
        invariant
            i <= variables@.len(),
            n <= i,
            n == element_count(variables@.take(i as int)),
        decreases variables@.len() - i,
    {
        assert(variables@.take(i as int + 1).drop_last() =~= variables@.take(i as int));
        if parse_index_name(&variables[i].name).is_some() {
            n += 1;
        }
        i += 1;
    }
    assert(variables@.take(i as int) =~= variables@);
    n
}

impl Pages {
    /// What was fetched is counted.
    pub open spec fn well_formed(&self) -> bool {
        self.start == element_count(self.variables@)
    }

    pub fn new(total: usize) -> (r: Pages)
        ensures
            r.well_formed(),
            r.total == total,
            r.start == 0,
            r.variables@.len() == 0,
            !r.ended,
    {
        Pages { total, start: 0, variables: Vec::new(), ended: false }
    }

    /// The page to be fetched next: where it starts, and its size.
    pub fn next(&self) -> (r: Option<(usize, usize)>)
        ensures
            match r {
                Some((start, count)) => !self.ended && self.start < self.total && start
                    == self.start && count == (if self.total - self.start < PAGE {
                    self.total - self.start
                } else {
                    PAGE as int
                }),
                None => self.ended || self.start >= self.total,
            },
    {
        if self.ended || self.start >= self.total {
            return None;
        }
        let left: usize = self.total - self.start;
        Some((self.start, if left < PAGE { left } else { PAGE }))
    }

    /// Takes in a page. One without elements ends the fetching.
    pub fn take_page(&mut self, page: Vec<Variable>)
        requires
            old(self).well_formed(),
            old(self).start + page@.len() <= usize::MAX,
        ensures
            final(self).well_formed(),
            final(self).total == old(self).total,
            if element_count(page@) == 0 {
                final(self).ended && final(self).variables == old(self).variables
                    && final(self).start == old(self).start
            } else {
                final(self).ended == old(self).ended && final(self).variables@
                    == old(self).variables@ + page@ && final(self).start == old(self).start
                    + element_count(page@)
            },
    {
        let n: usize = count_elements(&page);
        if n == 0 {
            self.ended = true;
            return;
        }
        proof {
            lemma_element_count(self.variables@, page@);
        }
        let mut page = page;
        self.variables.append(&mut page);
        self.start += n;
    }

    /// The collection, once as many elements as it has were fetched.
    pub fn finish(&self) -> (r: Option<DecodedBytes>)
        requires
            self.well_formed(),
        ensures
            decoded_view(r) == (if element_count(self.variables@) < self.total {
                None
            } else {
                collection_shown(self.variables@)
            }),
    {
        if self.start < self.total {
            return None;
        }
        decode_byte_collection(&self.variables)
    }
}

/// A collection with a child that is no byte, no length or capacity and no string
/// of the whole is not decoded.
pub proof fn mixed_collections_are_not_decoded(variables: Seq<Variable>, i: int)
    requires
        0 <= i < variables.len(),
        child(variables[i]) is Other,
    ensures
        collection_shown(variables) is None,
{
    assert(variables.take(i + 1).drop_last() =~= variables.take(i));
    assert(variables.take(i + 1).last() == variables[i]);
    lemma_gathered(variables, i + 1);
}

/// Some child says `what`.
pub open spec fn says(variables: Seq<Variable>, what: Child) -> bool {
    exists|i: int| 0 <= i < variables.len() && child(#[trigger] variables[i]) == what
}

/// No two children have the same index.
pub open spec fn different_indices(variables: Seq<Variable>) -> bool {
    forall|i: int, j: int|
        #![trigger variables[i], variables[j]]
        0 <= i < j < variables.len() && index_named(variables[i].name@) is Some ==> index_named(
            variables[i].name@,
        ) != index_named(variables[j].name@)
}

/// At most one child is the collection as a string.
pub open spec fn one_whole(variables: Seq<Variable>) -> bool {
    forall|i: int, j: int|
        #![trigger variables[i], variables[j]]
        0 <= i < j < variables.len() && child(variables[i]) is Whole ==> !(child(
            variables[j],
        ) is Whole)
}

proof fn lemma_says(variables: Seq<Variable>)
    requires
        variables.len() > 0,
    ensures
        forall|what: Child| #[trigger]
            says(variables, what) <==> says(variables.drop_last(), what) || child(
                variables.last(),
            ) == what,
{
    let rest = variables.drop_last();
    assert forall|what: Child| #[trigger]
        says(variables, what) <==> says(rest, what) || child(variables.last()) == what by {
        if says(variables, what) {
            let i = choose|i: int|
                0 <= i < variables.len() && child(#[trigger] variables[i]) == what;
            if i < rest.len() {
                assert(rest[i] == variables[i]);
            }
        }
        if says(rest, what) {
            let i = choose|i: int| 0 <= i < rest.len() && child(#[trigger] rest[i]) == what;
            assert(variables[i] == rest[i]);
        }
        assert(variables[variables.len() - 1] == variables.last());
    }
}

/// What is gathered is what the children say.
proof fn lemma_gathers(variables: Seq<Variable>)
    ensures
        gathered(variables) is None <==> says(variables, Child::Other),
        gathered(variables) matches Some((elements, whole)) ==> {
            &&& forall|e: Indexed| #[trigger]
                elements.contains(e) <==> says(variables, Child::Byte(e))
            &&& match whole {
                Some(s) => says(variables, Child::Whole(s)),
                None => forall|s: Seq<char>| !#[trigger] says(variables, Child::Whole(s)),
            }
        },
    decreases variables.len(),
{
    if variables.len() > 0 {
        let rest = variables.drop_last();
        lemma_gathers(rest);
        lemma_says(variables);
        if let Some((before, _)) = gathered(rest) {
            if let Child::Byte(e) = child(variables.last()) {
                let elements = before.push(e);
                assert forall|x: Indexed| #[trigger]
                    elements.contains(x) <==> before.contains(x) || x == e by {
                    if before.contains(x) {
                        let i = before.index_of(x);
                        assert(elements[i] == x);
                    }
                    assert(elements[before.len() as int] == e);
                    if elements.contains(x) {
                        let i = elements.index_of(x);
                        if i < before.len() {
                            assert(before[i] == x);
                        }
                    }
                }
            }
        }
    }
}

/// Children with different indices are elements with different indices.
proof fn lemma_elements_differ(variables: Seq<Variable>)
    requires
        different_indices(variables),
        gathered(variables) is Some,
    ensures
        different_keys((gathered(variables)->0).0),
    decreases variables.len(),
{
    if variables.len() > 0 {
        let rest = variables.drop_last();
        assert forall|i: int, j: int|
            #![trigger rest[i], rest[j]]
            0 <= i < j < rest.len() && index_named(rest[i].name@) is Some implies index_named(
            rest[i].name@,
        ) != index_named(rest[j].name@) by {
            assert(rest[i] == variables[i] && rest[j] == variables[j]);
        }
        lemma_elements_differ(rest);
        lemma_gathers(rest);
        let before = (gathered(rest)->0).0;
        let elements = (gathered(variables)->0).0;
        if let Child::Byte(e) = child(variables.last()) {
            assert forall|i: int, j: int|
                #![trigger elements[i], elements[j]]
                0 <= i < j < elements.len() implies !(elements[i].le(&elements[j])
                && elements[j].le(&elements[i])) by {
                if j < before.len() {
                    assert(before[i] == elements[i] && before[j] == elements[j]);
                } else {
                    assert(before[i] == elements[i]);
                    assert(before.contains(before[i]));
                    let k = choose|k: int|
                        0 <= k < rest.len() && child(#[trigger] rest[k]) == Child::Byte(before[i]);
                    assert(rest[k] == variables[k]);
                    assert(variables[variables.len() - 1] == variables.last());
                }
            }
        }
    }
}

/// The order in which a debugger lists the children of a collection does not
/// matter: the elements are taken by their indices.
pub proof fn order_of_children_does_not_matter(a: Seq<Variable>, b: Seq<Variable>)
    requires
        a.to_multiset() == b.to_multiset(),
        different_indices(a),
        one_whole(a),
    ensures
        collection_shown(a) == collection_shown(b),
{
    broadcast use vstd::multiset::group_multiset_axioms;
    broadcast use vstd::seq_lib::group_to_multiset_ensures;

    assert forall|what: Child| #[trigger] says(a, what) <==> says(b, what) by {
        if says(a, what) {
            let i = choose|i: int| 0 <= i < a.len() && child(#[trigger] a[i]) == what;
            assert(a.contains(a[i]));
            assert(a.to_multiset().count(a[i]) > 0);
            let j = b.index_of(a[i]);
            assert(child(b[j]) == what);
        }
        if says(b, what) {
            let i = choose|i: int| 0 <= i < b.len() && child(#[trigger] b[i]) == what;
            assert(b.contains(b[i]));
            assert(b.to_multiset().count(b[i]) > 0);
            let j = a.index_of(b[i]);
            assert(child(a[j]) == what);
        }
    }
    assert forall|i: int, j: int|
        #![trigger b[i], b[j]]
        0 <= i < j < b.len() && index_named(b[i].name@) is Some implies index_named(b[i].name@)
        != index_named(b[j].name@) by {
        let (p, q) = lemma_rearranged(a, b, i, j);
        assert(a[p] == b[i] && a[q] == b[j]);
    }
    lemma_gathers(a);
    lemma_gathers(b);
    if let (Some((x, v)), Some((y, w))) = (gathered(a), gathered(b)) {
        lemma_elements_differ(a);
        lemma_elements_differ(b);
        assert(v == w) by {
            if let (Some(s), Some(t)) = (v, w) {
                assert(says(a, Child::Whole(t)));
                let i = choose|i: int| 0 <= i < a.len() && child(#[trigger] a[i]) == Child::Whole(s);
                let j = choose|j: int| 0 <= j < a.len() && child(#[trigger] a[j]) == Child::Whole(t);
                assert(a[i] == a[i] && a[j] == a[j]);
            } else if let Some(s) = v {
                assert(says(b, Child::Whole(s)));
            } else if let Some(t) = w {
                assert(says(a, Child::Whole(t)));
            }
        }
        assert forall|e: Indexed| #[trigger] x.contains(e) <==> y.contains(e) by {
            assert(says(a, Child::Byte(e)) <==> says(b, Child::Byte(e)));
        }
        assert(x.to_multiset() =~= y.to_multiset()) by {
            x.lemma_multiset_has_no_duplicates();
            y.lemma_multiset_has_no_duplicates();
            assert forall|e: Indexed| #[trigger] x.to_multiset().count(e) == y.to_multiset().count(
                e,
            ) by {
                assert(x.contains(e) <==> y.contains(e));
                assert(x.contains(e) <==> x.to_multiset().count(e) > 0);
                assert(y.contains(e) <==> y.to_multiset().count(e) > 0);
            }
        }
        sorting_forgets_the_order(x, y);
        assert(x.len() == x.to_multiset().len() && y.len() == y.to_multiset().len());
    }
}

proof fn lemma_untrimmed(s: Seq<char>)
    requires
        s.len() > 0,
        !Pattern::Space.hits(s[0]),
        !Pattern::Space.hits(s.last()),
    ensures
        trimmed(s) == s,
{
}

/// An element's index is read from its name, in brackets or without.
pub proof fn indices_are_read_from_names(i: usize)
    ensures
        index_named("["@ + crate::text::decimal(i as nat) + "]"@) == Some(i as nat),
        index_named(crate::text::decimal(i as nat)) == Some(i as nat),
{
    reveal_strlit("[");
    reveal_strlit("]");
    let d = crate::text::decimal(i as nat);
    crate::text::lemma_decimal(i as nat);
    crate::text::numbers_are_read_back(i as nat, usize::MAX as nat);
    assert(is_digit(d[0]));
    assert(is_digit(d[d.len() - 1]));
    let s = "["@ + d + "]"@;
    assert(s[0] == '[' && s.last() == ']');
    lemma_untrimmed(s);
    assert(s.take(1) =~= "["@);
    let rest = s.skip(1);
    assert(rest.skip(rest.len() - 1) =~= "]"@);
    assert(rest.take(rest.len() - 1) =~= d);
    assert(d.last() == d[d.len() - 1]);
    lemma_untrimmed(d);
    if starts_with(d, "["@) {
        assert(d.take(1)[0] == '[');
    }
}

/// A byte is read from the decimal number that is an element's value.
pub proof fn bytes_are_read_from_values(b: u8)
    ensures
        byte_in(crate::text::decimal(b as nat)) == Some(b as nat),
{
    reveal_strlit("=");
    reveal_strlit("0x");
    let d = crate::text::decimal(b as nat);
    crate::text::lemma_decimal(b as nat);
    crate::text::numbers_are_read_back(b as nat, 255);
    assert forall|i: int| 0 <= i < d.len() implies #[trigger] d[i] != '=' && d[i] != 'x'
        && !Pattern::Space.hits(d[i]) by {
        assert(is_digit(d[i]));
    }
    assert(d.last() == d[d.len() - 1]);
    lemma_untrimmed(d);
    assert("="@ =~= seq!['=']);
    crate::text::texts_without_a_separator_stay_whole(d, '=');
    crate::text::lemma_position_is(d, Pattern::Space, d.len() as int);
    let parts = crate::text::split(d, Pattern::Space);
    assert(parts == seq![d]);
    assert(parts.drop_last() =~= Seq::<Seq<char>>::empty());
    assert(crate::text::filled_parts(parts.drop_last()) =~= Seq::<Seq<char>>::empty());
    assert(words(d) =~= seq![d]);
    assert(byte_token(d) == d);
    if starts_with(d, "0x"@) {
        assert(d.take(2)[1] == 'x');
        assert(d[1] == d.take(2)[1]);
    }
}

proof fn lemma_gathered_bytes(variables: Seq<Variable>, elements: Seq<Indexed>)
    requires
        variables.len() == elements.len(),
        forall|k: int|
            0 <= k < variables.len() ==> child(#[trigger] variables[k]) == Child::Byte(elements[k]),
    ensures
        gathered(variables) == Some((elements, None::<Seq<char>>)),
    decreases variables.len(),
{
    if variables.len() > 0 {
        let t = variables.drop_last();
        let u = elements.drop_last();
        assert forall|k: int| 0 <= k < t.len() implies child(#[trigger] t[k]) == Child::Byte(
            u[k],
        ) by {
            assert(t[k] == variables[k]);
        }
        lemma_gathered_bytes(t, u);
        assert(variables[variables.len() - 1] == variables.last());
        assert(u.push(elements[elements.len() - 1]) =~= elements);
    } else {
        assert(elements =~= seq![]);
    }
}

/// A collection whose children are its bytes in order is shown as the text that they
/// spell, where they spell one.
pub proof fn bytes_are_shown_as_the_text_they_spell(variables: Seq<Variable>, bytes: Seq<u8>)
    requires
        0 < variables.len() <= usize::MAX,
        variables.len() == bytes.len(),
        forall|k: int|
            0 <= k < variables.len() ==> child(#[trigger] variables[k]) == Child::Byte(
                Indexed { index: k as usize, byte: bytes[k] },
            ),
    ensures
        utf8_text(bytes) matches Some(s) ==> collection_shown(variables) == shown(
            s,
            json_texts(s),
        ),
        utf8_text(bytes) is None ==> collection_shown(variables) is None,
{
    let elements = Seq::new(
        bytes.len(),
        |k: int| Indexed { index: k as usize, byte: bytes[k] },
    );
    lemma_gathered_bytes(variables, elements);
    crate::order::sorting_keeps_an_ordered_sequence(elements);
    assert(bytes_of(elements) =~= bytes);
}

/// Text is shown as it is unless it is JSON, and nothing is shown of what is no text.
pub proof fn texts_are_shown_as_they_are(
    s: Seq<char>,
    json: Option<(Option<Seq<char>>, Option<Seq<char>>)>,
)
    ensures
        s.len() == 0 ==> shown(s, json) is None,
        (exists|i: int|
            0 <= i < s.len() && is_control(#[trigger] s[i]) && s[i] != '\n' && s[i] != '\r' && s[i]
                != '\t') ==> shown(s, json) is None,
        shown(s, None) matches Some(d) ==> d.inline == s && d.pretty == s && d.kind
            == DecodedBytesKind::Text,
        (s.len() > 0 && forall|i: int| 0 <= i < s.len() ==> !is_control(#[trigger] s[i]))
            ==> shown(s, None) is Some,
        shown(s, json) is Some && json is Some ==> (shown(s, json)->0).kind
            == DecodedBytesKind::Json && json == Some(
            (Some((shown(s, json)->0).inline), Some((shown(s, json)->0).pretty)),
        ),
{
}

} // verus!
