//! Bytes that other programs wrote.
use vstd::prelude::*;
use vstd::utf8::{decode_utf8, valid_utf8};

verus! {

/// The text that `bytes` encode, if they are UTF-8.
pub open spec fn utf8_text(bytes: Seq<u8>) -> Option<Seq<char>> {
    if valid_utf8(bytes) {
        Some(decode_utf8(bytes))
    } else {
        None
    }
}

/// What `String::from_utf8_lossy` reads: the text, with replacement characters
/// for what is not UTF-8.
pub uninterp spec fn lossy_text(bytes: Seq<u8>) -> Seq<char>;

/// `std::str::from_utf8`: the text that the bytes encode, and nothing if they
/// are not valid UTF-8.
#[verifier::external_body]
pub(crate) fn utf8(bytes: &[u8]) -> (r: Option<&str>)
    ensures
        match r {
            Some(s) => utf8_text(bytes@) == Some(s@),
            None => utf8_text(bytes@) is None,
        },
{
    std::str::from_utf8(bytes).ok()
}

/// `String::from_utf8_lossy`: valid UTF-8 is read as it is. What it makes of
/// other bytes, `lossy_text`, depends on them alone and is not stated further.
#[verifier::external_body]
pub(crate) fn lossy(bytes: &[u8]) -> (r: String)
    ensures
        r@ == lossy_text(bytes@),
        utf8_text(bytes@) matches Some(text) ==> r@ == text,
{
    String::from_utf8_lossy(bytes).into_owned()
}

/// The index of the first zero byte; the length if there is none.
pub open spec fn zero_at(s: Seq<u8>) -> int
    decreases s.len(),
{
    if s.len() == 0 || s[0] == 0 {
        0
    } else {
        1 + zero_at(s.skip(1))
    }
}

proof fn lemma_zero_at(s: Seq<u8>)
    ensures
        0 <= zero_at(s) <= s.len(),
    decreases s.len(),
{
    if s.len() > 0 && s[0] != 0 {
        lemma_zero_at(s.skip(1));
    }
}

proof fn lemma_zero_at_is(s: Seq<u8>, i: int)
    requires
        0 <= i <= s.len(),
        forall|j: int| #![trigger s[j]] 0 <= j < i ==> s[j] != 0,
        i < s.len() ==> s[i] == 0,
    ensures
        zero_at(s) == i,
    decreases s.len(),
{
    if i > 0 {
        assert(s[0] != 0);
        let t = s.skip(1);
        assert forall|j: int| #![trigger t[j]] 0 <= j < i - 1 implies t[j] != 0 by {
            assert(t[j] == s[j + 1]);
        }
        lemma_zero_at_is(t, i - 1);
    }
}

/// The non-empty parts of `s` between zero bytes.
pub open spec fn records(s: Seq<u8>) -> Seq<Seq<u8>>
    decreases s.len(),
    via records_decreases
{
    let i = zero_at(s);
    if s.len() == 0 {
        seq![]
    } else if i >= s.len() {
        seq![s]
    } else if i == 0 {
        records(s.skip(1))
    } else {
        seq![s.take(i)] + records(s.skip(i + 1))
    }
}

#[via_fn]
proof fn records_decreases(s: Seq<u8>) {
    lemma_zero_at(s);
}

pub open spec fn byte_views(v: Seq<&[u8]>) -> Seq<Seq<u8>> {
    v.map_values(|b: &[u8]| b@)
}

pub fn split_records<'a>(a: &'a [u8]) -> (r: Vec<&'a [u8]>)
    ensures
        byte_views(r@) == records(a@),
{
    let mut r: Vec<&'a [u8]> = Vec::new();
    let mut rest = a;
    while rest.len() > 0
        invariant
            byte_views(r@) + records(rest@) == records(a@),
        decreases rest@.len(),
    {
        let ghost s = rest@;
        let ghost before = byte_views(r@);
        let mut i: usize = 0;
        while i < rest.len() && rest[i] != 0
            invariant
                i <= rest@.len(),
                forall|j: int| #![trigger rest@[j]] 0 <= j < i ==> rest@[j] != 0,
            decreases rest@.len() - i,
        {
            i += 1;
        }
        proof {
            lemma_zero_at_is(s, i as int);
        }
        if i == rest.len() {
            r.push(rest);
            assert(byte_views(r@) =~= before + seq![s]);
            return r;
        }
        let head = vstd::slice::slice_subrange(rest, 0, i);
        rest = vstd::slice::slice_subrange(rest, i + 1, rest.len());
        assert(head@ =~= s.take(i as int));
        assert(rest@ =~= s.skip(i + 1));
        if i > 0 {
            r.push(head);
            assert(byte_views(r@) =~= before.push(head@));
            assert(before + (seq![head@] + records(rest@)) =~= byte_views(r@) + records(rest@));
        }
    }
    assert(byte_views(r@) + records(rest@) =~= byte_views(r@));
    r
}

} // verus!
