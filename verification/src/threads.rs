//! Discussions as GitHub reports them.
use std::ops::Range;

use vstd::prelude::*;

use crate::api::{missing_field, oid_or_none, opt_view, string, text_or, valid_oid_in};
use crate::github::{good_path, valid_path};
use crate::json::{as_bool, as_number, as_text, at, lemma_list_view, list_view, Json, JsonView};
use crate::review::{safe, safe_text, Comment, Thread};
use crate::text::{clip, clippable, clipped, decimal, push_decimal, same};

verus! {

/// A line number that fits into a machine word.
pub open spec fn line_number(n: Option<u64>) -> Option<int> {
    match n {
        Some(x) => if x <= usize::MAX {
            Some(x as int)
        } else {
            None
        },
        None => None,
    }
}

/// The half-open range of the lines from `start` (or else `end`) to `end`.
pub open spec fn range_of(start: Option<u64>, end: Option<u64>) -> Option<(int, int)> {
    let last = line_number(end);
    let first = match line_number(start) {
        Some(n) => Some(n),
        None => last,
    };
    match (first, last) {
        (Some(s), Some(e)) => if 0 < s <= e && e + 1 <= usize::MAX {
            Some((s, e + 1))
        } else {
            None
        },
        _ => None,
    }
}

pub open spec fn range_view(r: Option<Range<usize>>) -> Option<(int, int)> {
    match r {
        Some(x) => Some((x.start as int, x.end as int)),
        None => None,
    }
}

fn read_line(n: Option<u64>) -> (r: Option<usize>)
    ensures
        match r {
            Some(x) => line_number(n) == Some(x as int),
            None => line_number(n) is None,
        },
{
    match n {
        Some(x) => if x <= usize::MAX as u64 {
            Some(x as usize)
        } else {
            None
        },
        None => None,
    }
}

fn read_range(start: Option<u64>, end: Option<u64>) -> (r: Option<Range<usize>>)
    ensures
        range_view(r) == range_of(start, end),
{
    let last = read_line(end);
    let first = match read_line(start) {
        Some(n) => Some(n),
        None => last,
    };
    match (first, last) {
        (Some(s), Some(e)) => if s > 0 && s <= e && e < usize::MAX {
            Some(s..e + 1)
        } else {
            None
        },
        _ => None,
    }
}

/// Lines as they are shown: one, a span, or a question mark.
pub open spec fn span(start: Option<u64>, end: Option<u64>) -> Seq<char> {
    match (start, end) {
        (Some(s), Some(e)) => if s != e {
            decimal(s as nat) + "–"@ + decimal(e as nat)
        } else {
            decimal(e as nat)
        },
        (None, Some(e)) => decimal(e as nat),
        (_, None) => "?"@,
    }
}

fn show_span(start: Option<u64>, end: Option<u64>) -> (r: String)
    ensures
        r@ == span(start, end),
{
    let mut r = String::new();
    match end {
        Some(e) => {
            match start {
                Some(s) => {
                    if s != e {
                        push_decimal(&mut r, s);
                        assert(r@ =~= decimal(s as nat));
                        r.append("–");
                        push_decimal(&mut r, e);
                        return r;
                    }
                },
                None => {},
            }
            push_decimal(&mut r, e);
            assert(r@ =~= decimal(e as nat));
        },
        None => {
            r = "?".to_owned();
        },
    }
    r
}

/// The machine word, as a number again.
pub open spec fn shown_number(n: Option<int>) -> Option<u64> {
    match n {
        Some(x) => Some(x as u64),
        None => None,
    }
}

/// The discussion is on the new side of the diff.
pub open spec fn on_new_side(v: JsonView) -> bool {
    let start = at(v, "startDiffSide"@);
    as_text(at(v, "diffSide"@)) == Some("RIGHT"@) && (start == JsonView::Null || as_text(start)
        == Some("RIGHT"@))
}

pub open spec fn is_outdated(v: JsonView) -> bool {
    match as_bool(at(v, "isOutdated"@)) {
        Some(b) => b,
        None => true,
    }
}

/// The lines at the head. Only a current discussion of new code, in a file that
/// can be named, has some.
pub open spec fn current_lines(v: JsonView) -> Option<(int, int)> {
    match as_text(at(v, "path"@)) {
        Some(path) => if good_path(path) && on_new_side(v) && !is_outdated(v) {
            range_of(as_number(at(v, "startLine"@)), as_number(at(v, "line"@)))
        } else {
            None
        },
        None => None,
    }
}

/// The lines at the commit that the discussion was written against.
pub open spec fn written_lines(v: JsonView) -> Option<(int, int)> {
    match as_text(at(v, "path"@)) {
        Some(path) => if good_path(path) && on_new_side(v) {
            range_of(as_number(at(v, "originalStartLine"@)), as_number(at(v, "originalLine"@)))
        } else {
            None
        },
        None => None,
    }
}

pub open spec fn status(v: JsonView) -> Seq<char> {
    if is_outdated(v) {
        "outdated"@
    } else if !on_new_side(v) {
        "old/deleted side"@
    } else if current_lines(v) is None {
        "location unavailable"@
    } else {
        "PR head"@
    }
}

/// The commit that the opening comment names.
pub open spec fn named_commit(first: JsonView) -> Seq<char> {
    text_or(at(at(first, "originalCommit"@), "oid"@), "unknown"@)
}

/// The described location of a discussion.
pub open spec fn location(v: JsonView, first: JsonView) -> Seq<char> {
    let line = line_number(as_number(at(v, "line"@)));
    let start = match line_number(as_number(at(v, "startLine"@))) {
        Some(n) => Some(n),
        None => line,
    };
    safe(text_or(at(v, "path"@), seq![])) + ":"@ + span(shown_number(start), shown_number(line))
        + " ("@ + status(v) + ", "@ + safe(text_or(at(v, "diffSide"@), "?"@)) + ", original "@
        + span(as_number(at(v, "originalStartLine"@)), as_number(at(v, "originalLine"@)))
        + ", commit "@ + safe(clipped(named_commit(first), 12)) + ")"@
}

pub open spec fn is_comment(c: Comment, v: JsonView) -> bool {
    c.author@ == safe(text_or(at(at(v, "author"@), "login"@), "[deleted]"@)) && c.body@ == safe(
        text_or(at(v, "body"@), ""@),
    )
}

pub open spec fn are_comments(comments: Seq<Comment>, all: Seq<JsonView>) -> bool {
    comments.len() == all.len() && forall|i: int|
        0 <= i < all.len() ==> is_comment(#[trigger] comments[i], all[i])
}

pub open spec fn bool_or(v: JsonView, default: bool) -> bool {
    match as_bool(v) {
        Some(b) => b,
        None => default,
    }
}

/// `t` is the discussion that `v` and its comments describe.
pub open spec fn is_thread(t: Thread, v: JsonView, comments: Seq<JsonView>) -> bool {
    let first = comments[0];
    &&& as_text(at(v, "id"@)) == Some(t.id@)
    &&& as_text(at(v, "path"@)) == Some(t.path@)
    &&& range_view(t.lines) == current_lines(v)
    &&& t.location@ == location(v, first)
    &&& t.resolved == bool_or(at(v, "isResolved"@), false)
    &&& t.outdated == is_outdated(v)
    &&& t.diff@ == safe(text_or(at(first, "diffHunk"@), "Original diff unavailable"@))
    &&& t.url@ == safe(text_or(at(first, "url"@), ""@))
    &&& are_comments(t.comments@, comments)
    &&& opt_view(t.commit) == oid_or_none(at(at(first, "originalCommit"@), "oid"@))
    &&& range_view(t.original_lines) == written_lines(v)
    &&& t.can_reply == bool_or(at(v, "viewerCanReply"@), false)
    &&& t.can_resolve == bool_or(at(v, "viewerCanResolve"@), false)
    &&& t.can_unresolve == bool_or(at(v, "viewerCanUnresolve"@), false)
}

fn text_of<'a>(v: &'a Json, key: &str, default: &'a str) -> (r: &'a str)
    ensures
        r@ == text_or(at(v@, key@), default@),
{
    match v.text(key) {
        Some(s) => s,
        None => default,
    }
}

fn flag(v: &Json, key: &str, default: bool) -> (r: bool)
    ensures
        r == bool_or(at(v@, key@), default),
{
    match v.bool(key) {
        Some(b) => b,
        None => default,
    }
}

fn new_side(v: &Json) -> (r: bool)
    ensures
        r == on_new_side(v@),
{
    let right = match v.text("diffSide") {
        Some(side) => same(side, "RIGHT"),
        None => false,
    };
    if !right {
        return false;
    }
    match v.get("startDiffSide") {
        None => true,
        Some(Json::Null) => true,
        Some(Json::Text(side)) => same(side, "RIGHT"),
        Some(_) => false,
    }
}

fn read_comments(comments: &Vec<Json>) -> (r: Vec<Comment>)
    ensures
        are_comments(r@, list_view(comments@)),
{
    let ghost all = list_view(comments@);
    proof {
        lemma_list_view(comments@);
    }
    let mut r: Vec<Comment> = Vec::new();
    let mut i: usize = 0;
    while i < comments.len()
        invariant
            i <= comments@.len(),
            r@.len() == i,
            all.len() == comments@.len(),
            forall|k: int| 0 <= k < comments@.len() ==> #[trigger] all[k] == comments@[k]@,
            forall|k: int| 0 <= k < i ==> is_comment(#[trigger] r@[k], all[k]),
        decreases comments@.len() - i,
    {
        let c = &comments[i];
        let author = match c.text_in("author", "login") {
            Some(s) => s,
            None => "[deleted]",
        };
        let comment = Comment {
            author: safe_text(author),
            body: safe_text(text_of(c, "body", "")),
        };
        assert(is_comment(comment, all[i as int]));
        r.push(comment);
        i += 1;
    }
    r
}

fn show_location(v: &Json, path: &str, state: &str, first: &Json) -> (r: String)
    requires
        as_text(at(v@, "path"@)) == Some(path@),
        state@ == status(v@),
        clippable(named_commit(first@), 12),
    ensures
        r@ == location(v@, first@),
{
    let line = read_line(v.number("line"));
    let start = match read_line(v.number("startLine")) {
        Some(n) => Some(n),
        None => line,
    };
    let shown_line: Option<u64> = match line {
        Some(n) => Some(n as u64),
        None => None,
    };
    let shown_start: Option<u64> = match start {
        Some(n) => Some(n as u64),
        None => None,
    };
    let commit = match first.text_in("originalCommit", "oid") {
        Some(s) => s,
        None => "unknown",
    };
    let mut r = safe_text(path);
    r.append(":");
    r.append(&show_span(shown_start, shown_line));
    r.append(" (");
    r.append(state);
    r.append(", ");
    r.append(&safe_text(text_of(v, "diffSide", "?")));
    r.append(", original ");
    r.append(&show_span(v.number("originalStartLine"), v.number("originalLine")));
    r.append(", commit ");
    r.append(&safe_text(&clip(commit, 12)));
    r.append(")");
    r
}

/// Whether the opening comment's commit can be shortened for display: no
/// character is cut apart.
pub fn can_show_commit(comments: &Vec<Json>) -> (r: bool)
    ensures
        r == (comments@.len() > 0 ==> clippable(named_commit(list_view(comments@)[0]), 12)),
{
    if comments.len() == 0 {
        return true;
    }
    proof {
        lemma_list_view(comments@);
        assert(list_view(comments@)[0] == comments@[0]@);
    }
    let commit = match comments[0].text_in("originalCommit", "oid") {
        Some(s) => s,
        None => "unknown",
    };
    crate::text::try_clip(commit, 12).is_some()
}

/// A discussion and its comments, as GitHub reports them.
pub fn parse_thread(value: &Json, comments: &Vec<Json>) -> (r: Result<Thread, String>)
    requires
        comments@.len() > 0 ==> clippable(named_commit(list_view(comments@)[0]), 12),
    ensures
        ({
            let all = list_view(comments@);
            match r {
                Ok(t) => all.len() > 0 && is_thread(t, value@, all),
                Err(e) => if as_text(at(value@, "path"@)) is None {
                    e@ == missing_field("path"@)
                } else if all.len() == 0 {
                    e@ == "Empty review thread"@
                } else {
                    as_text(at(value@, "id"@)) is None && e@ == missing_field("id"@)
                },
            }
        }),
        r is Ok ==> as_text(at(value@, "path"@)) is Some && as_text(at(value@, "id"@)) is Some,
        match (r, at(value@, "line"@), at(value@, "startLine"@)) {
            (Ok(t), JsonView::Number(_, Some(n)), JsonView::Null) => good_path(t.path@)
                && says_new_side(value@) && at(value@, "isOutdated"@) == JsonView::Bool(false) && 0
                < n < usize::MAX ==> (t.lines matches Some(lines) && lines.start == n && lines.end
                == n + 1),
            (Ok(t), JsonView::Number(_, Some(n)), JsonView::Number(_, Some(s))) => good_path(
                t.path@,
            ) && says_new_side(value@) && at(value@, "isOutdated"@) == JsonView::Bool(false) && 0
                < s <= n < usize::MAX ==> (t.lines matches Some(lines) && lines.start == s
                && lines.end == n + 1),
            _ => true,
        },
{
    let ghost all = list_view(comments@);
    proof {
        lemma_list_view(comments@);
    }
    let path = match string(value, "path") {
        Ok(path) => path,
        Err(e) => return Err(e),
    };
    let right = new_side(value);
    let outdated = flag(value, "isOutdated", true);
    let named = valid_path(path);
    let lines = if named && right && !outdated {
        read_range(value.number("startLine"), value.number("line"))
    } else {
        None
    };
    assert(range_view(lines) == current_lines(value@));
    if comments.len() == 0 {
        return Err("Empty review thread".to_owned());
    }
    let first = &comments[0];
    assert(first@ == all[0]);
    let state = if outdated {
        "outdated"
    } else if !right {
        "old/deleted side"
    } else if lines.is_none() {
        "location unavailable"
    } else {
        "PR head"
    };
    let location = show_location(value, path, state, first);
    let original_lines = if named && right {
        read_range(value.number("originalStartLine"), value.number("originalLine"))
    } else {
        None
    };
    let id = match string(value, "id") {
        Ok(id) => id,
        Err(e) => return Err(e),
    };
    Ok(
        Thread {
            id: id.to_owned(),
            path: path.to_owned(),
            lines,
            location,
            resolved: flag(value, "isResolved", false),
            outdated,
            diff: safe_text(text_of(first, "diffHunk", "Original diff unavailable")),
            url: safe_text(text_of(first, "url", "")),
            comments: read_comments(comments),
            commit: valid_oid_in(first.text_in("originalCommit", "oid")),
            original_lines,
            can_reply: flag(value, "viewerCanReply", false),
            can_resolve: flag(value, "viewerCanResolve", false),
            can_unresolve: flag(value, "viewerCanUnresolve", false),
        },
    )
}

/// Only a current discussion of new code at a safe path can be put on lines of
/// the head; their range is never empty and starts at line one or later.
pub proof fn only_current_new_code_is_anchorable(v: JsonView)
    ensures
        current_lines(v) is Some ==> on_new_side(v) && !is_outdated(v) && good_path(
            as_text(at(v, "path"@))->0,
        ) && 0 < (current_lines(v)->0).0 < (current_lines(v)->0).1,
        written_lines(v) is Some ==> on_new_side(v) && good_path(as_text(at(v, "path"@))->0) && 0
            < (written_lines(v)->0).0 < (written_lines(v)->0).1,
{
}

/// The value says that the discussion is on the new side of the diff, all of it.
pub open spec fn says_new_side(v: JsonView) -> bool {
    at(v, "diffSide"@) == JsonView::Text("RIGHT"@) && (at(v, "startDiffSide"@) == JsonView::Null
        || at(v, "startDiffSide"@) == JsonView::Text("RIGHT"@))
}

/// A current discussion of new code is on the lines that GitHub reports: on one line
/// where it reports no start, else on all from the start on. Numbers that are no lines,
/// or not in order, give none.
pub proof fn current_discussions_are_on_the_reported_lines(v: JsonView, path: Seq<char>)
    requires
        at(v, "path"@) == JsonView::Text(path),
        good_path(path),
        says_new_side(v),
        at(v, "isOutdated"@) == JsonView::Bool(false),
    ensures
        at(v, "line"@) matches JsonView::Number(_, Some(n)) ==> {
            &&& at(v, "startLine"@) == JsonView::Null && 0 < n < usize::MAX ==> current_lines(v)
                == Some((n as int, n + 1))
            &&& at(v, "startLine"@) matches JsonView::Number(_, Some(s)) ==> {
                &&& 0 < s <= n < usize::MAX ==> current_lines(v) == Some((s as int, n + 1))
                &&& s == 0 || n < s <= usize::MAX ==> current_lines(v) is None
            }
            &&& n == 0 || n >= usize::MAX ==> current_lines(v) is None
        },
        !(at(v, "line"@) matches JsonView::Number(_, Some(_))) ==> current_lines(v) is None,
{
}

/// A discussion of new code was on the lines that GitHub reports for the commit that it
/// was written against, outdated or not.
pub proof fn discussions_were_on_the_reported_lines(v: JsonView, path: Seq<char>)
    requires
        at(v, "path"@) == JsonView::Text(path),
        good_path(path),
        says_new_side(v),
    ensures
        at(v, "originalLine"@) matches JsonView::Number(_, Some(n)) ==> {
            &&& at(v, "originalStartLine"@) == JsonView::Null && 0 < n < usize::MAX
                ==> written_lines(v) == Some((n as int, n + 1))
            &&& at(v, "originalStartLine"@) matches JsonView::Number(_, Some(s)) ==> {
                &&& 0 < s <= n < usize::MAX ==> written_lines(v) == Some((s as int, n + 1))
                &&& s == 0 || n < s <= usize::MAX ==> written_lines(v) is None
            }
            &&& n == 0 || n >= usize::MAX ==> written_lines(v) is None
        },
        !(at(v, "originalLine"@) matches JsonView::Number(_, Some(_))) ==> written_lines(
            v,
        ) is None,
{
}

/// Discussions of old code, and those in files that cannot be named, are on no lines.
pub proof fn discussions_of_old_code_have_no_lines(v: JsonView)
    requires
        at(v, "diffSide"@) != JsonView::Text("RIGHT"@) || (at(v, "startDiffSide"@)
            != JsonView::Null && at(v, "startDiffSide"@) != JsonView::Text("RIGHT"@)) || (at(
            v,
            "path"@,
        ) matches JsonView::Text(path) ==> !good_path(path)),
    ensures
        current_lines(v) is None,
        written_lines(v) is None,
{
}

/// The described location tells what became of the discussion: whether its code is
/// still at the head, and if not, why it has no place there.
pub proof fn locations_tell_what_became_of_the_code(v: JsonView)
    ensures
        status(v) == "PR head"@ <==> current_lines(v) is Some,
        at(v, "isOutdated"@) != JsonView::Bool(false) ==> status(v) == "outdated"@,
        at(v, "isOutdated"@) == JsonView::Bool(false) && at(v, "diffSide"@) != JsonView::Text(
            "RIGHT"@,
        ) ==> status(v) == "old/deleted side"@,
{
    reveal_strlit("PR head");
    reveal_strlit("outdated");
    reveal_strlit("old/deleted side");
    reveal_strlit("location unavailable");
    assert("PR head"@.len() != "outdated"@.len());
    assert("PR head"@.len() != "old/deleted side"@.len());
    assert("PR head"@.len() != "location unavailable"@.len());
}

/// No discussion brings anything to the terminal but harmless characters.
pub proof fn discussions_are_harmless(t: Thread, v: JsonView, comments: Seq<JsonView>)
    requires
        comments.len() > 0,
        is_thread(t, v, comments),
    ensures
        safe(t.diff@) == t.diff@,
        safe(t.url@) == t.url@,
        forall|i: int|
            0 <= i < t.comments@.len() ==> safe((#[trigger] t.comments@[i]).author@)
                == t.comments@[i].author@ && safe(t.comments@[i].body@) == t.comments@[i].body@,
{
    let first = comments[0];
    crate::review::safe_text_is_stable(
        text_or(at(first, "diffHunk"@), "Original diff unavailable"@),
    );
    crate::review::safe_text_is_stable(text_or(at(first, "url"@), ""@));
    assert forall|i: int| 0 <= i < t.comments@.len() implies safe((#[trigger] t.comments@[i]).author@)
        == t.comments@[i].author@ && safe(t.comments@[i].body@) == t.comments@[i].body@ by {
        assert(is_comment(t.comments@[i], comments[i]));
        crate::review::safe_text_is_stable(
            text_or(at(at(comments[i], "author"@), "login"@), "[deleted]"@),
        );
        crate::review::safe_text_is_stable(text_or(at(comments[i], "body"@), ""@));
    }
}

} // verus!
