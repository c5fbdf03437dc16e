//! Replies and commit messages that are written above their context.
use vstd::prelude::*;

use crate::text::{
    chars, join, join_texts, lines, slices, spells, split_lines, strip, text, trim, trim_both,
    trim_end, trim_right, trimmed, views, Pattern,
};

verus! {

/// First line of the non-sent context section of a reply buffer.
pub const REPLY_SEPARATOR: &'static str =
    "<!-- review: everything from this line down is context and is not sent -->";

/// Separates a commit draft's message from its context. Git's scissors line,
/// so commit highlighting treats the rest as context and diff.
pub const COMMIT_SEPARATOR: &'static str =
    "# ------------------------ >8 ------------------------";

/// Whether the buffer of a draft is closed after it was sent: only if its text is
/// still the one that was sent. `sent` is its version at the time, `now` its version
/// now, if the buffer is still open.
pub fn closes(sent: i32, now: Option<i32>) -> (r: bool)
    ensures
        r == (now == Some(sent)),
{
    match now {
        Some(now) => now == sent,
        None => false,
    }
}

/// Whether a line is the separator: `indented` allows white space before it.
pub open spec fn separates(line: Seq<char>, separator: Seq<char>, indented: bool) -> bool {
    if indented {
        trimmed(line) == separator
    } else {
        trim_end(line, Pattern::Space) == separator
    }
}

/// The lines above the separator, without white space at their ends; `None` if
/// there is no separator.
pub open spec fn above(
    lines: Seq<Seq<char>>,
    separator: Seq<char>,
    indented: bool,
) -> Option<Seq<Seq<char>>>
    decreases lines.len(),
{
    if lines.len() == 0 {
        None
    } else if separates(lines[0], separator, indented) {
        Some(seq![])
    } else {
        match above(lines.skip(1), separator, indented) {
            Some(rest) => Some(seq![trim_end(lines[0], Pattern::Space)] + rest),
            None => None,
        }
    }
}

/// The text of lines, without blank lines around it.
pub open spec fn content(lines: Seq<Seq<char>>) -> Seq<char> {
    trim(join(lines, "\n"@), Pattern::One('\n'))
}

/// What a draft with these lines says: the text above its separator, or `None`
/// with whether there is a separator.
pub open spec fn written(
    lines: Seq<Seq<char>>,
    separator: Seq<char>,
    indented: bool,
) -> Result<Seq<char>, bool> {
    match above(lines, separator, indented) {
        None => Err(false),
        Some(kept) => if trimmed(content(kept)).len() == 0 {
            Err(true)
        } else {
            Ok(content(kept))
        },
    }
}

fn read(draft: &str, separator: &str, indented: bool) -> (r: Result<String, bool>)
    ensures
        match r {
            Ok(x) => written(lines(draft@), separator@, indented) == Ok::<Seq<char>, bool>(x@),
            Err(e) => written(lines(draft@), separator@, indented) == Err::<Seq<char>, bool>(e),
        },
{
    let all = chars(draft);
    let parts = split_lines(&all);
    let ghost whole = lines(draft@);
    let mut kept: Vec<String> = Vec::new();
    let mut separated = false;
    let mut i: usize = 0;
    assert(whole.skip(0) =~= whole);
    assert(views(kept@) =~= seq![]);
    proof {
        match above(whole, separator@, indented) {
            Some(rest) => {
                assert(views(kept@) + rest =~= rest);
            },
            None => {},
        }
    }
    while i < parts.len()
        invariant_except_break
            !separated,
            i <= parts@.len(),
            slices(parts@) == whole,
            match above(whole.skip(i as int), separator@, indented) {
                Some(rest) => above(whole, separator@, indented) == Some(views(kept@) + rest),
                None => above(whole, separator@, indented) is None,
            },
        ensures
            slices(parts@) == whole,
            separated ==> above(whole, separator@, indented) == Some(views(kept@)),
            !separated ==> above(whole, separator@, indented) is None,
        decreases parts@.len() - i,
    {
        let line = parts[i];
        assert(whole.skip(i as int)[0] == line@);
        assert(whole.skip(i as int).skip(1) =~= whole.skip(i + 1));
        let end = trim_right(line, Pattern::Space);
        let found = if indented {
            spells(strip(line), separator)
        } else {
            spells(end, separator)
        };
        if found {
            separated = true;
            assert(views(kept@) + seq![] =~= views(kept@));
            break;
        }
        let ghost before = views(kept@);
        kept.push(text(end));
        proof {
            assert(views(kept@) =~= before.push(end@));
            match above(whole.skip(i + 1), separator@, indented) {
                Some(rest) => {
                    assert(before + (seq![end@] + rest) =~= views(kept@) + rest);
                },
                None => {},
            }
        }
        i += 1;
    }
    if !separated {
        return Err(false);
    }
    let joined = chars(&join_texts(&kept, "\n"));
    let body = trim_both(&joined, Pattern::One('\n'));
    if strip(body).len() == 0 {
        return Err(true);
    }
    Ok(text(body))
}

/// The text above the separator, without surrounding blank lines. `Err` explains
/// why nothing may be sent.
pub fn reply_body(text: &str) -> (r: Result<String, &'static str>)
    ensures
        match (r, written(lines(text@), REPLY_SEPARATOR@, true)) {
            (Ok(x), Ok(body)) => x@ == body,
            (Err(e), Err(separated)) => e@ == if separated {
                "Reply is empty; write it above the separator line"@
            } else {
                "Reply separator line was removed; restore it so quoted context is not sent"@
            },
            _ => false,
        },
{
    match read(text, REPLY_SEPARATOR, true) {
        Ok(body) => Ok(body),
        Err(true) => Err("Reply is empty; write it above the separator line"),
        Err(false) => Err(
            "Reply separator line was removed; restore it so quoted context is not sent",
        ),
    }
}

/// The text above the separator line, without trailing whitespace and
/// surrounding blank lines. `Err` explains why nothing may be committed.
pub fn commit_message(text: &str) -> (r: Result<String, &'static str>)
    ensures
        match (r, written(lines(text@), COMMIT_SEPARATOR@, false)) {
            (Ok(x), Ok(message)) => x@ == message,
            (Err(e), Err(separated)) => e@ == if separated {
                "Commit message is empty; write it above the scissors line"@
            } else {
                "The scissors line was removed; restore it so the context is not committed"@
            },
            _ => false,
        },
{
    match read(text, COMMIT_SEPARATOR, false) {
        Ok(message) => Ok(message),
        Err(true) => Err("Commit message is empty; write it above the scissors line"),
        Err(false) => Err(
            "The scissors line was removed; restore it so the context is not committed",
        ),
    }
}

proof fn lemma_above(
    head: Seq<Seq<char>>,
    line: Seq<char>,
    tail: Seq<Seq<char>>,
    separator: Seq<char>,
    indented: bool,
)
    requires
        separates(line, separator, indented),
    ensures
        above(head + seq![line] + tail, separator, indented) == above(
            head + seq![line],
            separator,
            indented,
        ),
        above(head + seq![line], separator, indented) is Some,
    decreases head.len(),
{
    let all = head + seq![line] + tail;
    let short = head + seq![line];
    if head.len() > 0 {
        assert(all.skip(1) =~= head.skip(1) + seq![line] + tail);
        assert(short.skip(1) =~= head.skip(1) + seq![line]);
        assert(all[0] == head[0] && short[0] == head[0]);
        lemma_above(head.skip(1), line, tail, separator, indented);
    } else {
        assert(all[0] == line);
        assert(short[0] == line);
    }
}

/// Nothing below the separator is ever sent or committed: what a draft says
/// depends on the lines above it alone.
pub proof fn context_is_never_sent(
    head: Seq<Seq<char>>,
    line: Seq<char>,
    tail: Seq<Seq<char>>,
    other: Seq<Seq<char>>,
    separator: Seq<char>,
    indented: bool,
)
    requires
        separates(line, separator, indented),
    ensures
        written(head + seq![line] + tail, separator, indented) == written(
            head + seq![line] + other,
            separator,
            indented,
        ),
{
    lemma_above(head, line, tail, separator, indented);
    lemma_above(head, line, other, separator, indented);
}

/// A draft without a separator is never sent.
pub proof fn drafts_without_a_separator_are_refused(
    draft: Seq<Seq<char>>,
    separator: Seq<char>,
    indented: bool,
)
    requires
        forall|i: int| 0 <= i < draft.len() ==> !separates(#[trigger] draft[i], separator, indented),
    ensures
        written(draft, separator, indented) == Err::<Seq<char>, bool>(false),
    decreases draft.len(),
{
    if draft.len() > 0 {
        let rest = draft.skip(1);
        assert(!separates(draft[0], separator, indented));
        assert forall|i: int| 0 <= i < rest.len() implies !separates(
            #[trigger] rest[i],
            separator,
            indented,
        ) by {
            assert(rest[i] == draft[i + 1]);
        }
        drafts_without_a_separator_are_refused(rest, separator, indented);
    }
}

/// The lines of a text that goes on after a line feed.
pub proof fn lemma_lines_join(a: Seq<char>, b: Seq<char>)
    ensures
        lines(a + "\n"@ + b) == lines(a + "\n"@) + lines(b),
    decreases a.len(),
{
    reveal_strlit("\n");
    let feed = Pattern::One('\n');
    let whole = a + "\n"@ + b;
    let short = a + "\n"@;
    crate::text::lemma_position(a, feed);
    let i = crate::text::position(a, feed);
    assert forall|j: int| 0 <= j < i implies !feed.hits(#[trigger] whole[j]) by {
        assert(whole[j] == a[j]);
    }
    assert forall|j: int| 0 <= j < i implies !feed.hits(#[trigger] short[j]) by {
        assert(short[j] == a[j]);
    }
    if i < a.len() {
        assert(whole[i] == a[i] && short[i] == a[i]);
    } else {
        assert(whole[i] == '\n' && short[i] == '\n');
    }
    crate::text::lemma_position_is(whole, feed, i);
    crate::text::lemma_position_is(short, feed, i);
    assert(whole.take(i) =~= short.take(i));
    let first = seq![crate::text::chomp(short.take(i))];
    if i < a.len() {
        let rest = a.skip(i + 1);
        assert(whole.skip(i + 1) =~= rest + "\n"@ + b);
        assert(short.skip(i + 1) =~= rest + "\n"@);
        lemma_lines_join(rest, b);
        assert(first + (lines(rest + "\n"@) + lines(b)) =~= first + lines(rest + "\n"@) + lines(b));
    } else {
        assert(whole.skip(i + 1) =~= b);
        assert(short.skip(i + 1) =~= seq![]);
        assert(first + lines(b) =~= first + lines(short.skip(i + 1)) + lines(b));
    }
}

/// A text without line feeds, followed by one, is one line.
pub proof fn lemma_one_line(s: Seq<char>)
    requires
        s.len() > 0,
        s.last() != '\r',
        forall|i: int| 0 <= i < s.len() ==> #[trigger] s[i] != '\n',
    ensures
        lines(s + "\n"@) == seq![s],
{
    reveal_strlit("\n");
    let feed = Pattern::One('\n');
    let whole = s + "\n"@;
    assert forall|j: int| 0 <= j < s.len() implies !feed.hits(#[trigger] whole[j]) by {
        assert(whole[j] == s[j]);
    }
    crate::text::lemma_position_is(whole, feed, s.len() as int);
    assert(whole.take(s.len() as int) =~= s);
    assert(whole.skip(s.len() as int + 1) =~= seq![]);
    reveal_with_fuel(lines, 2);
    assert(lines(whole) =~= seq![s]);
}

/// A line that can separate: it is a line, and nothing of it is trimmed.
pub open spec fn separator_line(s: Seq<char>) -> bool {
    &&& s.len() > 0
    &&& !crate::text::is_space(s[0])
    &&& !crate::text::is_space(s.last())
    &&& forall|i: int| 0 <= i < s.len() ==> #[trigger] s[i] != '\n'
}

/// The reply separator and the scissors line can separate.
pub proof fn separators_are_lines()
    ensures
        separator_line(REPLY_SEPARATOR@),
        separator_line(COMMIT_SEPARATOR@),
{
    reveal_strlit("<!-- review: everything from this line down is context and is not sent -->");
    reveal_strlit("# ------------------------ >8 ------------------------");
    assert forall|i: int| 0 <= i < REPLY_SEPARATOR@.len() implies #[trigger] REPLY_SEPARATOR@[i]
        != '\n' by {}
    assert forall|i: int| 0 <= i < COMMIT_SEPARATOR@.len() implies #[trigger] COMMIT_SEPARATOR@[i]
        != '\n' by {}
}

/// Whatever stands below the separator of a draft is not sent: the draft says
/// what it says without it.
pub proof fn text_below_the_separator_is_not_sent(
    head: Seq<char>,
    separator: Seq<char>,
    tail: Seq<char>,
    indented: bool,
)
    requires
        separator_line(separator),
    ensures
        written(lines(head + "\n"@ + separator + "\n"@ + tail), separator, indented) == written(
            lines(head + "\n"@ + separator + "\n"@),
            separator,
            indented,
        ),
        written(lines(head + "\n"@ + separator + "\n"@), separator, indented) == written(
            lines(head + "\n"@) + seq![separator],
            separator,
            indented,
        ),
{
    let top = head + "\n"@;
    lemma_lines_join(top + separator, tail);
    lemma_lines_join(head, separator + "\n"@);
    assert(top + (separator + "\n"@) =~= top + separator + "\n"@);
    lemma_one_line(separator);
    let above_lines = lines(top);
    assert(lines(top + separator + "\n"@) == above_lines + seq![separator]);
    assert(trim_end(separator, Pattern::Space) == separator);
    assert(crate::text::trim_start(separator, Pattern::Space) == separator);
    lemma_above(above_lines, separator, lines(tail), separator, indented);
}

proof fn lemma_kept(s: Seq<char>)
    requires
        s.len() > 0,
        !crate::text::is_space(s.last()),
    ensures
        trimmed(s).len() > 0,
    decreases s.len(),
{
    if Pattern::Space.hits(s[0]) {
        let rest = s.skip(1);
        if rest.len() == 0 {
            assert(s[0] == s.last());
        } else {
            assert(rest.last() == s.last());
            lemma_kept(rest);
        }
    }
}

proof fn lemma_join_ends(parts: Seq<Seq<char>>)
    requires
        parts.len() > 0,
        parts[0].len() > 0,
        parts.last().len() > 0,
    ensures
        join(parts, "\n"@).len() > 0,
        join(parts, "\n"@)[0] == parts[0][0],
        join(parts, "\n"@).last() == parts.last().last(),
    decreases parts.len(),
{
    if parts.len() > 1 {
        lemma_join_starts(parts.drop_last());
        assert(parts.drop_last()[0] == parts[0]);
    }
}

proof fn lemma_join_starts(parts: Seq<Seq<char>>)
    requires
        parts.len() > 0,
        parts[0].len() > 0,
    ensures
        join(parts, "\n"@).len() > 0,
        join(parts, "\n"@)[0] == parts[0][0],
    decreases parts.len(),
{
    if parts.len() > 1 {
        lemma_join_starts(parts.drop_last());
        assert(parts.drop_last()[0] == parts[0]);
    }
}

proof fn lemma_lines_above(
    head: Seq<Seq<char>>,
    line: Seq<char>,
    tail: Seq<Seq<char>>,
    separator: Seq<char>,
    indented: bool,
)
    requires
        separates(line, separator, indented),
        forall|i: int| 0 <= i < head.len() ==> !separates(#[trigger] head[i], separator, indented),
        forall|i: int| 0 <= i < head.len() ==> trim_end(#[trigger] head[i], Pattern::Space) == head[i],
    ensures
        above(head + seq![line] + tail, separator, indented) == Some(head),
    decreases head.len(),
{
    let all = head + seq![line] + tail;
    if head.len() == 0 {
        assert(all[0] == line);
        assert(head =~= seq![]);
    } else {
        let rest = head.skip(1);
        assert(all[0] == head[0]);
        assert(all.skip(1) =~= rest + seq![line] + tail);
        assert forall|i: int| 0 <= i < rest.len() implies !separates(
            #[trigger] rest[i],
            separator,
            indented,
        ) && trim_end(rest[i], Pattern::Space) == rest[i] by {
            assert(rest[i] == head[i + 1]);
        }
        lemma_lines_above(rest, line, tail, separator, indented);
        assert(seq![head[0]] + rest =~= head);
    }
}

/// What is written above the separator is sent as it is written: all of its lines, in
/// their order.
pub proof fn what_is_written_is_sent(
    head: Seq<Seq<char>>,
    line: Seq<char>,
    tail: Seq<Seq<char>>,
    separator: Seq<char>,
    indented: bool,
)
    requires
        separates(line, separator, indented),
        head.len() > 0,
        forall|i: int| 0 <= i < head.len() ==> !separates(#[trigger] head[i], separator, indented),
        forall|i: int| 0 <= i < head.len() ==> trim_end(#[trigger] head[i], Pattern::Space) == head[i],
        head[0].len() > 0,
        head[0][0] != '\n',
        head.last().len() > 0,
    ensures
        written(head + seq![line] + tail, separator, indented) == Ok::<Seq<char>, bool>(
            join(head, "\n"@),
        ),
{
    lemma_lines_above(head, line, tail, separator, indented);
    lemma_join_ends(head);
    let s = join(head, "\n"@);
    let last = head[head.len() - 1];
    crate::text::lemma_trim(last, Pattern::Space);
    assert(trim_end(last, Pattern::Space) == last);
    assert(!crate::text::is_space(last.last()));
    assert(last.last() != '\n');
    lemma_kept(s);
    assert(content(head) == s);
}

} // verus!
